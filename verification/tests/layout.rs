use xmip_contract_toml::document::{Item, Table};
use xmip_contract_toml::layout::{collect, holds, lookup, name_of, Kind, Layout, Required};

fn paths(layout: &Layout) -> Vec<&str> {
    let mut paths: Vec<&str> = layout.required().iter().map(|r| r.path.as_str()).collect();
    paths.sort_unstable();
    paths
}

fn document(text: &str) -> Table {
    Table::parse(text).expect("toml")
}

fn at<'a>(table: &'a Table, key: &str) -> &'a Item {
    table.get(&key.to_string()).expect("key")
}

#[test]
fn a_layout_lists_its_keys_by_dotted_path_however_they_are_written() {
    let dotted = Layout::parse(
        "service.name = \"string\"
modules = \"array\"",
    )
    .expect("a layout");
    let sectioned = Layout::parse(
        "modules = \"array\"
[service]
name = \"string\"",
    )
    .expect("a layout");
    assert_eq!(paths(&dotted), vec!["modules", "service.name"]);
    assert_eq!(paths(&dotted), paths(&sectioned));
    let name = dotted
        .required()
        .iter()
        .find(|required| required.path == "service.name")
        .expect("service.name");
    assert_eq!(name.kind, Kind::String);
}

#[test]
fn an_unknown_type_or_a_leaf_that_is_not_a_name_is_refused_at_bind_time() {
    let unknown = Layout::parse("port = \"number\"").expect_err("refused");
    assert!(unknown.message.contains("port asks for \"number\""));
    let not_a_name = Layout::parse("port = 80").expect_err("refused");
    assert!(not_a_name.message.contains("port is integer"));
    assert!(Layout::parse("= broken").is_err());
}

#[test]
fn a_missing_key_and_a_key_of_the_wrong_type_are_named_by_their_path() {
    let layout = Layout::parse(
        "service.name = \"string\"\nservice.port = \"integer\"\nstarted = \"datetime\"",
    )
    .expect("a layout");
    let doc = document("[service]\nname = 1\nport = 80");
    let issues = layout.check(&doc);
    assert_eq!(issues.len(), 2, "{issues:?}");
    assert_eq!(issues[0].code, "type");
    assert_eq!(issues[0].path.as_deref(), Some("service.name"));
    assert!(issues[0].message.contains("is integer"));
    assert_eq!(issues[1].code, "required");
    assert_eq!(issues[1].path.as_deref(), Some("started"));
    let held = document("started = 2026-09-10T08:00:00Z\n[service]\nname = \"a\"\nport = 1");
    assert!(layout.check(&held).is_empty());
}

#[test]
fn every_toml_value_has_a_layout_name_and_holds_its_own_kind() {
    let doc = document(
        "s = \"a\"\ni = 1\nf = 1.5\nb = true\nt = {}\na = []\n\
                        d = 2026-09-10T08:00:00Z",
    );
    for (key, name) in [
        ("s", "string"),
        ("i", "integer"),
        ("f", "float"),
        ("b", "boolean"),
        ("t", "table"),
        ("a", "array"),
        ("d", "datetime"),
    ] {
        let value = at(&doc, key);
        assert_eq!(name_of(value), name);
        assert!(holds(Kind::named(name).expect("kind"), value), "{name}");
    }
    assert!(!holds(Kind::String, at(&doc, "i")));
}

#[test]
fn kind_names_name_their_kind_again() {
    for kind in [
        Kind::String,
        Kind::Integer,
        Kind::Float,
        Kind::Boolean,
        Kind::Table,
        Kind::Array,
        Kind::Datetime,
    ] {
        assert_eq!(Kind::named(kind.name()), Some(kind));
    }
    assert_eq!(Kind::named("String"), None);
    assert_eq!(Kind::named(""), None);
    assert_eq!(Kind::named("number"), None);
}

#[test]
fn a_layout_is_refused_for_a_leaf_at_any_depth() {
    let deep = Layout::parse("[a.b]\nc = \"string\"\nd = \"text\"").expect_err("refused");
    assert_eq!(
        deep.message,
        "a.b.d asks for \"text\", which is none of string, integer, float, boolean, table, array, datetime"
    );
    let array = Layout::parse("[a]\nlist = []").expect_err("refused");
    assert_eq!(array.message, "a.list is array, where a layout names a type");
    let not_toml = Layout::parse("a = ").expect_err("refused");
    assert!(not_toml.message.starts_with("the layout is not TOML: "));
    let fine = Layout::parse("[a.b]\nc = \"string\"\nd = \"table\"").expect("a layout");
    assert_eq!(paths(&fine), vec!["a.b.c", "a.b.d"]);
}

#[test]
fn an_empty_layout_requires_nothing() {
    let layout = Layout::parse("").expect("a layout");
    assert!(layout.required().is_empty());
    assert!(layout.check(&document("x = 1")).is_empty());
}

#[test]
fn a_conforming_document_has_no_issue_and_each_issue_names_its_path() {
    let layout = Layout::parse("a = \"integer\"\nb.c = \"boolean\"\nd = \"table\"").expect("a layout");
    assert!(layout.check(&document("a = 1\nd = {}\n[b]\nc = false")).is_empty());
    let issues = layout.check(&document("a = \"x\"\nb = 3\nd = 4"));
    let found: Vec<(&str, Option<&str>, &str)> = issues
        .iter()
        .map(|i| (i.code.as_str(), i.path.as_deref(), i.message.as_str()))
        .collect();
    assert_eq!(
        found,
        vec![
            ("type", Some("a"), "a is string, not integer"),
            ("required", Some("b.c"), "b.c is required"),
            ("type", Some("d"), "d is integer, not table"),
        ]
    );
}

#[test]
fn extra_keys_are_not_the_layouts_business() {
    let layout = Layout::parse("service.name = \"string\"").expect("a layout");
    let plain = layout.check(&document("[service]\nname = 2"));
    let more = layout.check(&document("extra = [1, 2]\nother = \"x\"\n[service]\nname = 2\nport = 1"));
    assert_eq!(plain.len(), 1);
    assert_eq!(more.len(), 1);
    assert_eq!(plain[0].message, more[0].message);
}

#[test]
fn a_document_is_read_with_its_nested_tables() {
    let doc = document("[a]\nb = \"text\"\n[a.c]\nd = 1");
    assert_eq!(doc.entries.len(), 1);
    assert_eq!(doc.entries[0].key, "a");
    match at(&doc, "a") {
        Item::Table(a) => {
            match at(a, "b") {
                Item::String(s) => assert_eq!(s, "text"),
                other => panic!("{other:?}"),
            }
            match at(a, "c") {
                Item::Table(c) => assert!(matches!(at(c, "d"), Item::Integer)),
                other => panic!("{other:?}"),
            }
        }
        other => panic!("{other:?}"),
    }
    assert!(doc.get(&"b".to_string()).is_none());
}

#[test]
fn a_text_that_is_not_toml_gives_the_parsers_message_and_place() {
    let failure = Table::parse("a = 1\nb = ").expect_err("not toml");
    assert!(!failure.message.is_empty());
    assert!(failure.start.is_some());
}

#[test]
fn a_layout_of_string_keys_holds_itself_at_its_dotted_paths() {
    let text = "top = \"string\"\na.b = \"string\"\n[c.d]\ne = \"string\"";
    let layout = Layout::parse(text).expect("a layout");
    assert_eq!(paths(&layout), vec!["a.b", "c.d.e", "top"]);
    assert!(layout.check(&document(text)).is_empty());
    let typed = Layout::parse("a.b = \"integer\"").expect("a layout");
    let issues = typed.check(&document("a.b = \"integer\""));
    assert_eq!(issues.len(), 1);
    assert_eq!(issues[0].message, "a.b is string, not integer");
}

#[test]
fn a_layout_lists_its_keys_in_the_order_the_text_names_them() {
    let layout = Layout::parse(
        "zeta = \"string\"\nalpha = \"integer\"\n[mid]\nb = \"boolean\"\na = \"float\"",
    )
    .expect("a layout");
    let listed: Vec<(&str, Kind)> = layout
        .required()
        .iter()
        .map(|r| (r.path.as_str(), r.kind))
        .collect();
    assert_eq!(
        listed,
        vec![
            ("zeta", Kind::String),
            ("alpha", Kind::Integer),
            ("mid.b", Kind::Boolean),
            ("mid.a", Kind::Float),
        ]
    );
    let issues = layout.check(&document("x = 1"));
    let order: Vec<&str> = issues.iter().filter_map(|i| i.path.as_deref()).collect();
    assert_eq!(order, vec!["zeta", "alpha", "mid.b", "mid.a"]);
    assert_eq!(layout.clone(), layout);
}

#[test]
fn collect_appends_the_leaves_under_the_prefix_and_keeps_what_was_there() {
    let table = document("a = \"string\"\n[b]\nc = \"integer\"");
    let mut into = vec![Required { path: "kept".to_string(), kind: Kind::Array }];
    collect(&table, &"root".to_string(), &mut into).expect("collected");
    let got: Vec<(&str, Kind)> = into.iter().map(|r| (r.path.as_str(), r.kind)).collect();
    assert_eq!(
        got,
        vec![("kept", Kind::Array), ("root.a", Kind::String), ("root.b.c", Kind::Integer)]
    );
    let bad = document("a = \"string\"\nb = 3\nc = \"nothing\"");
    let mut some = Vec::new();
    let error = collect(&bad, &String::new(), &mut some).expect_err("refused");
    assert_eq!(error.message, "b is integer, where a layout names a type");
}

#[test]
fn lookup_follows_the_dotted_path_through_tables() {
    let doc = document("a = 1\n[b]\nc = \"x\"\n[b.d]\ne = true");
    assert!(matches!(lookup(&doc, &"a".to_string()), Some(Item::Integer)));
    assert!(matches!(lookup(&doc, &"b.c".to_string()), Some(Item::String(_))));
    assert!(matches!(lookup(&doc, &"b.d.e".to_string()), Some(Item::Boolean)));
    assert!(matches!(lookup(&doc, &"b.d".to_string()), Some(Item::Table(_))));
    assert!(lookup(&doc, &"a.x".to_string()).is_none());
    assert!(lookup(&doc, &"b.c.x".to_string()).is_none());
    assert!(lookup(&doc, &"b.z".to_string()).is_none());
    assert!(lookup(&doc, &"".to_string()).is_none());
}

#[test]
fn the_same_table_in_another_order_requires_the_same_keys() {
    let one = Layout::parse("b = \"string\"\na = \"integer\"\n[t]\ny = \"float\"\nx = \"table\"")
        .expect("a layout");
    let other = Layout::parse("[t]\nx = \"table\"\ny = \"float\"\n[top]\n")
        .expect("a layout");
    let again = Layout::parse("t.x = \"table\"\na = \"integer\"\nt.y = \"float\"\nb = \"string\"")
        .expect("a layout");
    let mut p1: Vec<(String, Kind)> = one.required().iter().map(|r| (r.path.clone(), r.kind)).collect();
    let mut p3: Vec<(String, Kind)> = again.required().iter().map(|r| (r.path.clone(), r.kind)).collect();
    p1.sort_by(|x, y| x.0.cmp(&y.0));
    p3.sort_by(|x, y| x.0.cmp(&y.0));
    assert_eq!(p1, p3);
    assert_eq!(other.required().len(), 2);
    assert!(Layout::parse("x = 1\ny = \"string\"").is_err());
    assert!(Layout::parse("y = \"string\"\nx = 1").is_err());
}
