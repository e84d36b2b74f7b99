use xmip_contract_toml::contract::Stream;
use xmip_contract_toml::document::TomlFailure;
use xmip_contract_toml::layout::Layout;
use xmip_contract_toml::text::decimal_string;
use xmip_contract_toml::{is_toml_media_type, looks_like_toml, malformed, Toml, TomlFactory};

fn stream(text: &str, media: Option<&str>) -> Stream {
    Stream::new(text.as_bytes().to_vec(), media.map(String::from))
}

fn service_layout() -> Layout {
    Layout::parse("service.name = \"string\"\nservice.port = \"integer\"").expect("a layout")
}

#[test]
fn the_bare_contract_holds_well_formed_toml_and_names_where_it_breaks() {
    let bare = Toml::new();
    assert!(!bare.is_bound());
    assert_eq!(bare.descriptor().id.0, "toml");
    let held = bare
        .validate(&stream("[any]\nshape = true", None))
        .expect("validates");
    assert!(held.valid, "{:?}", held.issues);
    let broken = bare
        .validate(&stream("[service]\nname = \"a\"\nport = \n", None))
        .expect("validates");
    assert!(!broken.valid);
    assert_eq!(broken.issues[0].code, "malformed");
    assert!(
        broken.issues[0]
            .path
            .as_deref()
            .is_some_and(|path| path.starts_with("line 3 column ")),
        "{:?}",
        broken.issues[0].path
    );
    let bytes = Stream::new(vec![0xff, 0xfe], None);
    assert!(
        bare.validate(&bytes).is_err(),
        "not text is an error, not an issue"
    );
}

#[test]
fn the_bound_contract_holds_the_layout_and_names_every_departure() {
    let bound = Toml::with_layout("service", service_layout());
    assert!(bound.is_bound());
    assert_eq!(bound.descriptor().id.0, "toml:service");
    let held = bound
        .validate(&stream(
            "[service]\nname = \"edge\"\nport = 80\nextra = 1",
            None,
        ))
        .expect("validates");
    assert!(held.valid, "{:?}", held.issues);
    let departed = bound
        .validate(&stream("[service]\nname = 1", None))
        .expect("validates");
    assert!(!departed.valid);
    let codes: Vec<(&str, Option<&str>)> = departed
        .issues
        .iter()
        .map(|issue| (issue.code.as_str(), issue.path.as_deref()))
        .collect();
    assert_eq!(
        codes,
        vec![
            ("type", Some("service.name")),
            ("required", Some("service.port"))
        ]
    );
}

#[test]
fn identifies_by_media_type_or_by_the_first_line() {
    let bare = Toml::new();
    let is = |text: &str, media: Option<&str>| bare.identify(&stream(text, media)).expect("ok");
    assert!(is("x", Some("application/toml")));
    assert!(is("x", Some("application/toml; charset=utf-8")));
    assert!(!is("[a]", Some("text/csv")));
    assert!(is("# comment\n\n[service]\nname = \"a\"", None));
    assert!(is("name = \"a\"", None));
    assert!(is("service.name = \"a\"", None));
    assert!(!is("name: a", None));
    assert!(!is("{\"name\": \"a\"}", None));
    assert!(!is("", None));
}

#[test]
fn the_factory_loads_bare_and_bound_and_refuses_a_bad_layout() {
    let factory = TomlFactory;
    assert_eq!(factory.technology(), "toml");
    assert!(factory.layout_path("").is_none());
    assert!(factory.layout_path("toml").is_none());
    assert!(factory.layout_path("  toml \n").is_none());
    let path = factory
        .layout_path(" /tmp/layouts/service.layout.toml ")
        .expect("a layout file");
    assert_eq!(path, "/tmp/layouts/service.layout.toml");
    let bound = factory
        .bind(&path, Ok("service.name = \"string\"".to_string()))
        .expect("bound");
    assert_eq!(bound.descriptor().id.0, "toml:service.layout");
    let refused = factory
        .bind(
            "/tmp/layouts/bad.layout.toml",
            Ok("service.name = \"text\"".to_string()),
        )
        .err()
        .expect("refused");
    assert!(refused.message.contains("service.name asks for \"text\""));
    assert!(refused.message.starts_with("layout /tmp/layouts/bad.layout.toml: "));
    let missing = factory
        .bind("missing.toml", Err("No such file or directory".to_string()))
        .err()
        .expect("refused");
    assert_eq!(
        missing.message,
        "cannot read layout missing.toml: No such file or directory"
    );
}

#[test]
fn the_descriptor_names_version_and_representation() {
    let bare = Toml::default();
    assert!(!bare.is_bound());
    let d = bare.descriptor();
    assert_eq!(d.id.0, "toml");
    assert_eq!(d.version, "1");
    assert_eq!(d.representation, "application/toml");
}

#[test]
fn media_types_are_read_without_case_or_parameters() {
    assert!(is_toml_media_type("APPLICATION/TOML"));
    assert!(is_toml_media_type("  Application/Toml ;q=1"));
    assert!(is_toml_media_type("application/vnd.xmip+toml"));
    assert!(is_toml_media_type("application/vnd.xmip+toml; charset=utf-8"));
    assert!(!is_toml_media_type("application/vnd.xmip+TOML"));
    assert!(!is_toml_media_type("application/tomlx"));
    assert!(!is_toml_media_type("text/plain; note=application/toml"));
    assert!(!is_toml_media_type(""));
}

#[test]
fn the_first_content_line_decides_whether_text_looks_like_toml() {
    assert!(looks_like_toml("\r\n   \n# only a comment\n  [table]  "));
    assert!(!looks_like_toml("[unclosed"));
    assert!(!looks_like_toml("["));
    assert!(looks_like_toml("'quoted key' = 1"));
    assert!(looks_like_toml("a-b_c.d = 1"));
    assert!(!looks_like_toml(" = 1"));
    assert!(!looks_like_toml("a/b = 1"));
    assert!(!looks_like_toml("# comment\n\n"));
    assert!(!looks_like_toml("no equals sign here"));
    assert!(looks_like_toml("key = value\n{not toml}"));
}

#[test]
fn a_stream_with_a_media_type_is_identified_by_it_alone() {
    let bare = Toml::new();
    let by_type = bare
        .identify(&stream("name: a", Some("application/toml")))
        .expect("ok");
    assert!(by_type);
    let not_by_type = bare
        .identify(&stream("name = \"a\"", Some("text/plain")))
        .expect("ok");
    assert!(!not_by_type);
    let not_text = bare.identify(&Stream::new(vec![0xff, 0x3d], None)).expect("ok");
    assert!(!not_text);
}

#[test]
fn a_malformed_text_is_placed_by_line_and_column() {
    let text = "a = 1\nbé = 2\nc";
    let failure = TomlFailure { message: "oops".to_string(), start: Some(10) };
    let result = malformed(text, &failure);
    assert!(!result.valid);
    assert_eq!(result.issues.len(), 1);
    assert_eq!(result.issues[0].code, "malformed");
    assert_eq!(result.issues[0].message, "not valid TOML: oops");
    assert_eq!(result.issues[0].path.as_deref(), Some("line 2 column 4"));
    let at_start = malformed(text, &TomlFailure { message: "x".to_string(), start: Some(0) });
    assert_eq!(at_start.issues[0].path.as_deref(), Some("line 1 column 1"));
    let past_end = malformed(text, &TomlFailure { message: "x".to_string(), start: Some(99) });
    assert_eq!(past_end.issues[0].path.as_deref(), Some("line 3 column 2"));
    let nowhere = malformed(text, &TomlFailure { message: "x".to_string(), start: None });
    assert_eq!(nowhere.issues[0].path, None);
}

#[test]
fn a_bare_contract_holds_any_toml_and_refuses_what_is_not() {
    let bare = Toml::new();
    let odd = bare
        .validate(&stream("x = [1, \"two\"]\n[y.z]\nw = 1979-05-27", Some("application/toml")))
        .expect("validates");
    assert!(odd.valid);
    assert!(odd.issues.is_empty());
    let wrong = bare.validate(&stream("= 1", None)).expect("validates");
    assert!(!wrong.valid);
    assert_eq!(wrong.issues.len(), 1);
    assert!(wrong.issues[0].message.starts_with("not valid TOML: "));
    let error = bare.validate(&Stream::new(vec![b'a', 0xc3], None)).err().expect("not text");
    assert!(error.message.starts_with("not UTF-8 text: "));
}

#[test]
fn numerals_are_written_in_decimal() {
    assert_eq!(decimal_string(0), "0");
    assert_eq!(decimal_string(7), "7");
    assert_eq!(decimal_string(10), "10");
    assert_eq!(decimal_string(4096), "4096");
}

#[test]
fn a_bound_contract_is_named_after_the_layout_files_stem() {
    let factory = TomlFactory;
    let layout = || Ok("a = \"string\"".to_string());
    let plain = factory.bind("layouts/edge.toml", layout()).expect("bound");
    assert_eq!(plain.descriptor().id.0, "toml:edge");
    let no_extension = factory.bind("edge", layout()).expect("bound");
    assert_eq!(no_extension.descriptor().id.0, "toml:edge");
    let hidden = factory.bind(".hidden", layout()).expect("bound");
    assert_eq!(hidden.descriptor().id.0, "toml:.hidden");
    let two_dots = factory.bind("a.b.toml", layout()).expect("bound");
    assert_eq!(two_dots.descriptor().id.0, "toml:a.b");
    let no_stem = factory.bind("layouts/..", layout()).expect("bound");
    assert_eq!(no_stem.descriptor().id.0, "toml:layouts/..");
    let named = factory.bind_named("layouts/edge.toml", "custom", layout()).expect("bound");
    assert_eq!(named.descriptor().id.0, "toml:custom");
    assert_eq!(TomlFactory::layout_name("x/y.toml", None), "x/y.toml");
    assert_eq!(TomlFactory::layout_name("x/y.toml", Some("y".to_string())), "y");
}
