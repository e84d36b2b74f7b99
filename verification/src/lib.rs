//! The TOML content contract.
//!
//! Two claims: **well-formedness is a given** — every Stream is parsed as
//! TOML and a failure names its line and column — and **conformance is a
//! given once the contract is named** — a Receive or Send Location that
//! refers to this contract with a layout bound has every Stream held to the
//! keys and types the layout names. A bare contract is the first claim alone.
//!
//! The layout language is the small TOML document [`layout`] documents: a
//! required key per leaf, its type as the value, nested by dotted path.

pub mod contract;
pub mod document;
pub mod layout;
pub mod text;

use vstd::prelude::*;

use crate::contract::{
    opt_text,
    ContractDescriptor, ContractError, ContractId, Issue, Stream, ValidationIssue,
    ValidationResult, issues_view,
};
use crate::document::{Table, TomlFailure, toml_document, toml_error_message, toml_error_start};
use crate::layout::{Kind, Layout, layout_issues, layout_reading};
use crate::text::{
    after_last, ascii_alnum_char, utf8_width, chars_of, chars_within, count, count_and_after,
    count_chars_within, decimal, decimal_string, ends_with, ends_with_range, eq_ignore_ascii_case,
    eq_ignore_case_range, find, find_char, is_ascii_alnum, trim, trim_range,
};
use vstd::utf8::{decode_utf8, valid_utf8};

verus! {

/// The message the standard library gives for bytes that are not UTF-8.
pub uninterp spec fn utf8_error_text(bytes: Seq<u8>) -> Seq<char>;

/// Reads `bytes` as UTF-8 text, with `std::str::from_utf8`.
///
/// Claimed of it: it succeeds exactly on valid UTF-8, whose characters it
/// gives; a failure is the error's `to_string()`.
#[verifier::external_body]
fn utf8_text(bytes: &[u8]) -> (r: Result<&str, String>)
    ensures
        r is Ok <==> valid_utf8(bytes@),
        r matches Ok(s) ==> s@ == decode_utf8(bytes@),
        r matches Err(m) ==> m@ == utf8_error_text(bytes@),
{
    std::str::from_utf8(bytes).map_err(|e| e.to_string())
}

/// Whether `d` describes the TOML contract known as `id`.
pub open spec fn describes(d: ContractDescriptor, id: Seq<char>) -> bool {
    &&& d.id.0@ == id
    &&& d.version@ == "1"@
    &&& d.representation@ == "application/toml"@
}

/// The part of a media type before its parameters, without white space.
pub open spec fn media_essence(m: Seq<char>) -> Seq<char> {
    trim(
        match find(m, ';') {
            Some(i) => m.take(i),
            None => m,
        },
    )
}

/// Whether a media type declares TOML: `application/toml` in any case, or
/// any type with the `+toml` suffix, parameters aside.
pub open spec fn is_toml_media(m: Seq<char>) -> bool {
    let e = media_essence(m);
    eq_ignore_ascii_case(e, "application/toml"@) || ends_with(e, "+toml"@)
}

/// Where the first line of `s` ends: at its first newline, or at its end.
pub open spec fn line_end(s: Seq<char>) -> int {
    match find(s, '\n') {
        Some(i) => i,
        None => s.len() as int,
    }
}

/// The first line of `s`, trimmed, that is neither blank nor a comment.
pub open spec fn content_line(s: Seq<char>) -> Option<Seq<char>>
    decreases s.len(),
{
    let n = line_end(s);
    let t = trim(s.take(n));
    if t.len() > 0 && t[0] != '#' {
        Some(t)
    } else if 0 <= n < s.len() {
        content_line(s.skip(n + 1))
    } else {
        None
    }
}

/// Whether `c` may stand in a TOML-shaped key.
pub open spec fn key_char(c: char) -> bool {
    is_ascii_alnum(c) || c == '_' || c == '-' || c == '.' || c == '"' || c == '\'' || c == ' '
}

/// Whether a line is a table header or a `key = value` with a TOML-shaped
/// key.
pub open spec fn toml_shaped(line: Seq<char>) -> bool {
    if line.len() > 0 && line[0] == '[' {
        line.last() == ']'
    } else {
        match find(line, '=') {
            None => false,
            Some(i) => {
                let key = trim(line.take(i));
                key.len() > 0 && forall|j: int| 0 <= j < key.len() ==> key_char(#[trigger] key[j])
            },
        }
    }
}

/// Whether text looks like TOML: its first line that is neither blank nor a
/// comment is TOML-shaped.
pub open spec fn looks_like_toml_text(s: Seq<char>) -> bool {
    match content_line(s) {
        Some(line) => toml_shaped(line),
        None => false,
    }
}

/// Where the byte offset `byte` falls in `text`: the line and column of the
/// first character that does not lie wholly before it, both counted from 1.
pub open spec fn location(text: Seq<char>, byte: int) -> Seq<char> {
    let before = text.take(chars_within(text, byte) as int);
    "line "@ + decimal(count(before, '\n') + 1) + " column "@ + decimal(after_last(before, '\n') + 1)
}

/// The issue of a text that is not TOML, given the parser's message and
/// the byte offset where it found the fault.
pub open spec fn malformed_issue(text: Seq<char>, message: Seq<char>, start: Option<usize>) -> Issue {
    Issue {
        code: "malformed"@,
        message: "not valid TOML: "@ + message,
        path: match start {
            Some(s) => Some(location(text, s as int)),
            None => None,
        },
    }
}

/// The issues a document gives a contract bound to `layout`; none when it
/// is bare.
pub open spec fn conformance(
    layout: Option<Seq<(Seq<char>, Kind)>>,
    document: Seq<(Seq<char>, crate::document::Tree)>,
) -> Seq<Issue> {
    match layout {
        Some(required) => layout_issues(required, document),
        None => Seq::empty(),
    }
}

/// The issues validation finds in `text`: one if it is not TOML, else those
/// the layout names.
pub open spec fn text_issues(layout: Option<Seq<(Seq<char>, Kind)>>, text: Seq<char>) -> Seq<Issue> {
    match toml_document(text) {
        None => seq![malformed_issue(text, toml_error_message(text), toml_error_start(text))],
        Some(d) => conformance(layout, d),
    }
}

/// The descriptor of the TOML contract known as `id`.
fn descriptor(id: String) -> (d: ContractDescriptor)
    ensures
        describes(d, id@),
{
    ContractDescriptor {
        id: ContractId(id),
        version: "1".to_owned(),
        representation: "application/toml".to_owned(),
    }
}

/// The TOML contract, bare or bound to a layout.
pub struct Toml {
    descriptor: ContractDescriptor,
    layout: Option<Layout>,
}

impl Toml {
    /// The keys the bound layout requires; `None` for the bare contract.
    pub closed spec fn bound_layout(&self) -> Option<Seq<(Seq<char>, Kind)>> {
        match self.layout {
            Some(l) => Some(l@),
            None => None,
        }
    }

    /// What the contract says of itself.
    pub closed spec fn spec_descriptor(&self) -> ContractDescriptor {
        self.descriptor
    }

    /// Well-formedness only.
    pub fn new() -> (t: Self)
        ensures
            t.bound_layout() is None,
            describes(t.spec_descriptor(), "toml"@),
    {
        Toml { descriptor: descriptor("toml".to_owned()), layout: None }
    }

    /// Well-formedness and conformance to `layout`, named `name` in the
    /// descriptor.
    pub fn with_layout(name: &str, layout: Layout) -> (t: Self)
        ensures
            t.bound_layout() == Some(layout@),
            describes(t.spec_descriptor(), "toml:"@ + name@),
    {
        let mut id = "toml:".to_owned();
        id.append(name);
        Toml { descriptor: descriptor(id), layout: Some(layout) }
    }

    /// Whether a layout is bound.
    pub fn is_bound(&self) -> (b: bool)
        ensures
            b == self.bound_layout() is Some,
    {
        self.layout.is_some()
    }

    /// What the contract is.
    pub fn descriptor(&self) -> (d: &ContractDescriptor)
        ensures
            *d == self.spec_descriptor(),
    {
        &self.descriptor
    }

    /// Whether `stream` is TOML: by its media type where it declares one,
    /// else by whether its bytes are text that looks like TOML.
    pub fn identify(&self, stream: &Stream) -> (r: Result<bool, ContractError>)
        ensures
            r matches Ok(b) && b == match stream.spec_media_type() {
                Some(m) => is_toml_media(m),
                None => valid_utf8(stream.spec_bytes()) && looks_like_toml_text(
                    decode_utf8(stream.spec_bytes()),
                ),
            },
    {
        if let Some(media_type) = stream.media_type() {
            return Ok(is_toml_media_type(media_type));
        }
        match utf8_text(stream.bytes()) {
            Ok(text) => Ok(looks_like_toml(text)),
            Err(_) => Ok(false),
        }
    }

    /// Holds `stream` to the contract: its bytes must be UTF-8 text, or it
    /// cannot be read at all; then every way the text is not TOML, or departs
    /// from the bound layout, is an issue.
    pub fn validate(&self, stream: &Stream) -> (r: Result<ValidationResult, ContractError>)
        ensures
            !valid_utf8(stream.spec_bytes()) ==> (r matches Err(e) && e.message@
                == "not UTF-8 text: "@ + utf8_error_text(stream.spec_bytes())),
            valid_utf8(stream.spec_bytes()) ==> (r matches Ok(v) && {
                let issues = text_issues(self.bound_layout(), decode_utf8(stream.spec_bytes()));
                &&& issues_view(v.issues@) == issues
                &&& v.valid == (issues.len() == 0)
            }),
    {
        let text = match utf8_text(stream.bytes()) {
            Ok(text) => text,
            Err(error) => {
                let mut m = "not UTF-8 text: ".to_owned();
                m.append(error.as_str());
                return Err(ContractError::new(m));
            },
        };
        match Table::parse(text) {
            Ok(document) => Ok(self.validate_document(&document)),
            Err(failure) => Ok(malformed(text, &failure)),
        }
    }

    /// Holds a TOML document to the contract: the issues the bound layout
    /// names, none for the bare contract.
    pub fn validate_document(&self, document: &Table) -> (r: ValidationResult)
        ensures
            issues_view(r.issues@) == conformance(self.bound_layout(), document@),
            r.valid == (conformance(self.bound_layout(), document@).len() == 0),
    {
        let issues = match &self.layout {
            Some(layout) => layout.check(document),
            None => Vec::new(),
        };
        assert(issues_view(issues@) =~= conformance(self.bound_layout(), document@));
        ValidationResult::of(issues)
    }
}

impl Default for Toml {
    fn default() -> (t: Self)
        ensures
            t.bound_layout() is None,
            describes(t.spec_descriptor(), "toml"@),
    {
        Self::new()
    }
}

/// Whether a media type declares TOML.
pub fn is_toml_media_type(media_type: &str) -> (b: bool)
    ensures
        b == is_toml_media(media_type@),
{
    let cs = chars_of(media_type);
    let stop = match find_char(&cs, 0, cs.len(), ';') {
        Some(i) => i,
        None => cs.len(),
    };
    assert(cs@.subrange(0, cs.len() as int) =~= cs@);
    assert(cs@.subrange(0, stop as int) =~= match find(media_type@, ';') {
        Some(i) => media_type@.take(i),
        None => media_type@,
    });
    let (a, b) = trim_range(&cs, 0, stop);
    eq_ignore_case_range(&cs, a, b, "application/toml") || ends_with_range(&cs, a, b, "+toml")
}

/// Whether the line `s[lo..hi]` is TOML-shaped.
fn toml_shaped_range(s: &Vec<char>, lo: usize, hi: usize) -> (b: bool)
    requires
        lo < hi <= s.len(),
    ensures
        b == toml_shaped(s@.subrange(lo as int, hi as int)),
{
    let ghost line = s@.subrange(lo as int, hi as int);
    if s[lo] == '[' {
        return s[hi - 1] == ']';
    }
    let eq = match find_char(s, lo, hi, '=') {
        Some(e) => e,
        None => {
            return false;
        },
    };
    let (a, b) = trim_range(s, lo, eq);
    assert(line.take(eq - lo) =~= s@.subrange(lo as int, eq as int));
    if a == b {
        return false;
    }
    let mut i = a;
    while i < b
        invariant
            lo <= a <= i <= b <= eq < hi <= s.len(),
            line == s@.subrange(lo as int, hi as int),
            s@[lo as int] != '[',
            find(line, '=') == Some(eq - lo),
            s@.subrange(a as int, b as int) == trim(line.take(eq - lo)),
            forall|j: int| a <= j < i ==> key_char(#[trigger] s@[j]),
        decreases b - i,
    {
        let c = s[i];
        if !(ascii_alnum_char(c) || c == '_' || c == '-' || c == '.' || c == '"' || c == '\''
            || c == ' ') {
            assert(s@.subrange(a as int, b as int)[i - a] == c);
            return false;
        }
        i = i + 1;
    }
    assert forall|j: int| 0 <= j < b - a implies key_char(#[trigger] s@.subrange(a as int, b as int)[j]) by {
        assert(s@.subrange(a as int, b as int)[j] == s@[a + j]);
    }
    true
}

/// The first line that is neither blank nor a comment is a table header or a
/// `key = value` with a TOML-shaped key.
pub fn looks_like_toml(text: &str) -> (b: bool)
    ensures
        b == looks_like_toml_text(text@),
{
    let cs = chars_of(text);
    let mut start: usize = 0;
    assert(cs@.skip(0) =~= cs@);
    loop
        invariant
            start <= cs.len(),
            content_line(text@) == content_line(cs@.skip(start as int)),
        decreases cs.len() - start,
    {
        let ghost rest = cs@.skip(start as int);
        assert(cs@.subrange(start as int, cs.len() as int) =~= rest);
        let end = find_char(&cs, start, cs.len(), '\n');
        let stop = match end {
            Some(e) => e,
            None => cs.len(),
        };
        assert(rest.take(line_end(rest)) =~= cs@.subrange(start as int, stop as int));
        let (a, b) = trim_range(&cs, start, stop);
        if a < b && cs[a] != '#' {
            return toml_shaped_range(&cs, a, b);
        }
        match end {
            Some(e) => {
                assert(rest.skip(e - start + 1) =~= cs@.skip(e + 1));
                start = e + 1;
            },
            None => {
                return false;
            },
        }
    }
}

/// The result of a text that is not TOML: one issue, coded `malformed`,
/// that carries the parser's message and names the line and column where
/// the parser found the fault, when it gave that place.
pub fn malformed(text: &str, failure: &TomlFailure) -> (r: ValidationResult)
    ensures
        !r.valid,
        issues_view(r.issues@) == seq![malformed_issue(text@, failure.message@, failure.start)],
{
    let path = match failure.start {
        Some(start) => {
            let cs = chars_of(text);
            let n = count_chars_within(&cs, start);
            let (lines, after) = count_and_after(&cs, n, '\n');
            let mut p = "line ".to_owned();
            p.append(decimal_string(lines as u128 + 1).as_str());
            p.append(" column ");
            p.append(decimal_string(after as u128 + 1).as_str());
            Some(p)
        },
        None => None,
    };
    let mut message = "not valid TOML: ".to_owned();
    message.append(failure.message.as_str());
    let mut issues = Vec::new();
    issues.push(ValidationIssue::new("malformed", message.as_str(), path));
    assert(issues_view(issues@) =~= seq![malformed_issue(text@, failure.message@, failure.start)]);
    ValidationResult::of(issues)
}

/// Loads the contract a Location names: `toml` or an empty reference is the
/// bare contract, anything else is the path of a layout file.
pub struct TomlFactory;

impl TomlFactory {
    /// The technology this factory loads contracts for.
    pub fn technology(&self) -> (s: &'static str)
        ensures
            s@ == "toml"@,
    {
        "toml"
    }

    /// The layout file a reference names; `None` where it names the bare
    /// contract.
    pub fn layout_path(&self, reference: &str) -> (r: Option<String>)
        ensures
            ({
                let t = trim(reference@);
                if t.len() == 0 || t == "toml"@ {
                    r is None
                } else {
                    r matches Some(p) && p@ == t
                }
            }),
    {
        let cs = chars_of(reference);
        let (a, b) = trim_range(&cs, 0, cs.len());
        assert(cs@.subrange(0, cs.len() as int) =~= cs@);
        let trimmed = crate::text::string_from(&cs, a, b);
        if a == b || crate::text::chars_eq(&crate::text::chars_of(trimmed.as_str()), "toml") {
            None
        } else {
            Some(trimmed)
        }
    }

    /// The name a layout file gives its contract: the stem of the file's
    /// name where the path has one, else the path itself.
    pub fn layout_name(path: &str, stem: Option<String>) -> (r: String)
        ensures
            r@ == stem_or_path(path@, opt_text(stem)),
    {
        match stem {
            Some(s) => s,
            None => path.to_owned(),
        }
    }

    /// The contract bound to the layout file at `path`, given what reading
    /// the file gave and the `name` it goes by.
    pub fn bind_named(&self, path: &str, name: &str, read: Result<String, String>) -> (r: Result<
        Toml,
        ContractError,
    >)
        ensures
            binds(path@, name@, read, r),
    {
        let text = match read {
            Ok(text) => text,
            Err(io) => {
                let mut m = "cannot read layout ".to_owned();
                m.append(path);
                m.append(": ");
                m.append(io.as_str());
                return Err(ContractError::new(m));
            },
        };
        match Layout::parse(text.as_str()) {
            Ok(layout) => Ok(Toml::with_layout(name, layout)),
            Err(error) => {
                let mut m = "layout ".to_owned();
                m.append(path);
                m.append(": ");
                m.append(error.message.as_str());
                Err(ContractError::new(m))
            },
        }
    }

    /// The contract bound to the layout file at `path`, given what reading
    /// the file gave: named after the stem of the file's name, or after the
    /// path where it has none.
    pub fn bind(&self, path: &str, read: Result<String, String>) -> (r: Result<Toml, ContractError>)
        ensures
            exists|stem: Option<Seq<char>>|
                stem_facts(path@, stem) && binds(path@, #[trigger] stem_or_path(path@, stem), read, r),
    {
        let stem = file_stem(path);
        let ghost seen = opt_text(stem);
        let name = TomlFactory::layout_name(path, stem);
        let r = self.bind_named(path, name.as_str(), read);
        assert(stem_facts(path@, seen) && binds(path@, stem_or_path(path@, seen), read, r));
        r
    }
}

/// The name `stem` gives, or `path` where there is no stem.
pub open spec fn stem_or_path(path: Seq<char>, stem: Option<Seq<char>>) -> Seq<char> {
    match stem {
        Some(s) => s,
        None => path,
    }
}

/// Whether `r` is what binding the layout file at `path` under `name` gives,
/// reading the file having given `read`: an error that names the path when
/// the file could not be read or its layout is refused, else the contract
/// bound to the layout and known as `toml:` and the name.
pub open spec fn binds(
    path: Seq<char>,
    name: Seq<char>,
    read: Result<String, String>,
    r: Result<Toml, ContractError>,
) -> bool {
    match read {
        Err(io) => r matches Err(e) && e.message@ == "cannot read layout "@ + path + ": "@ + io@,
        Ok(text) => match layout_reading(text@) {
            Ok(required) => r matches Ok(c) && c.bound_layout() == Some(required) && describes(
                c.spec_descriptor(),
                "toml:"@ + name,
            ),
            Err(m) => r matches Err(e) && e.message@ == "layout "@ + path + ": "@ + m,
        },
    }
}

/// The index of the last `c` in `s`, if there is one.
pub open spec fn rfind(s: Seq<char>, c: char) -> Option<int>
    decreases s.len(),
{
    if s.len() == 0 {
        None
    } else if s.last() == c {
        Some(s.len() - 1)
    } else {
        rfind(s.drop_last(), c)
    }
}

/// Whether `path` is a single plain file name on every platform: not empty,
/// not `.` or `..`, and free of `/`, `\` and `:`.
pub open spec fn plain_file_name(path: Seq<char>) -> bool {
    &&& path.len() > 0
    &&& path != "."@
    &&& path != ".."@
    &&& forall|i: int| 0 <= i < path.len() ==> #[trigger] path[i] != '/' && path[i] != '\\' && path[i]
        != ':'
}

/// The stem of a file name: the whole name when it holds no `.` or only a
/// leading one, else the part before its last `.`.
pub open spec fn name_stem(name: Seq<char>) -> Seq<char> {
    match rfind(name, '.') {
        Some(i) => if i > 0 {
            name.take(i)
        } else {
            name
        },
        None => name,
    }
}

/// What holds of the stem std finds in `path` on every platform: a stem is
/// a non-empty run of the path's characters, and a path that is one plain
/// file name has the stem of that name.
pub open spec fn stem_facts(path: Seq<char>, stem: Option<Seq<char>>) -> bool {
    &&& stem matches Some(s) ==> s.len() > 0 && exists|i: int|
        0 <= i <= path.len() - s.len() && #[trigger] path.subrange(i, i + s.len()) == s
    &&& plain_file_name(path) ==> stem == Some(name_stem(path))
}

/// The stem of the file name of `path`, with `std::path::Path::file_stem`.
///
/// Claimed of it: what std documents on every platform. The stem is the
/// final component, or the part of it before its last `.` unless that dot
/// leads the name, so it is a non-empty run of the path's characters; a path
/// that is one plain name, with no separator or prefix character, is its own
/// final component. Which part of another path is its final component
/// follows the platform's path syntax, and is left unsaid.
#[verifier::external_body]
fn file_stem(path: &str) -> (r: Option<String>)
    ensures
        stem_facts(path@, opt_text(r)),
{
    std::path::Path::new(path).file_stem().and_then(|s| s.to_str()).map(|s| s.to_owned())
}

/// A bare contract finds no issue in a text exactly when the text is TOML.
pub proof fn bare_contract_holds_every_well_formed_text(text: Seq<char>)
    ensures
        text_issues(None, text).len() == 0 <==> toml_document(text) is Some,
{
}

/// A contract bound to a layout finds no issue in a text exactly when the
/// text is TOML and holds every key the layout requires, each of its type.
pub proof fn bound_contract_holds_exactly_conforming_texts(
    required: Seq<(Seq<char>, Kind)>,
    text: Seq<char>,
)
    ensures
        text_issues(Some(required), text).len() == 0 <==> (toml_document(text) matches Some(d)
            && crate::layout::conforms(required, d)),
{
    if let Some(d) = toml_document(text) {
        crate::layout::conforms_iff_no_issues(required, d);
    }
}

/// Whether a media type declares TOML does not depend on its parameters.
pub proof fn media_type_parameters_do_not_matter(m: Seq<char>, parameters: Seq<char>)
    requires
        find(m, ';') is None,
    ensures
        is_toml_media(m + ";"@ + parameters) == is_toml_media(m),
{
    reveal_strlit(";");
    let rest = ";"@ + parameters;
    assert(m + ";"@ + parameters =~= m + rest);
    assert(find(rest, ';') == Some(0int));
    crate::text::lemma_find_concat(m, rest, ';');
    assert((m + rest).take(m.len() as int) =~= m);
}


/// A line that opens with `[` is TOML-shaped exactly when it closes with
/// `]`, whatever lies between: a table header, an array-of-tables header
/// `[[...]]`, or anything else in brackets.
pub proof fn a_bracketed_line_is_shaped_iff_it_closes(line: Seq<char>)
    requires
        line.len() > 0,
        line[0] == '[',
    ensures
        toml_shaped(line) == (line.last() == ']'),
{
}

/// Text whose first content line opens with `[` looks like TOML exactly when
/// that line closes with `]`.
pub proof fn bracketed_first_line_decides(s: Seq<char>)
    ensures
        match content_line(s) {
            Some(l) => l.len() > 0 && l[0] == '[' ==> (looks_like_toml_text(s) <==> l.last()
                == ']'),
            None => !looks_like_toml_text(s),
        },
{
}

proof fn lemma_chars_within_same_widths(t1: Seq<char>, t2: Seq<char>, byte: int)
    requires
        t1.len() == t2.len(),
        forall|i: int| 0 <= i < t1.len() ==> utf8_width(#[trigger] t1[i]) == utf8_width(t2[i]),
    ensures
        chars_within(t1, byte) == chars_within(t2, byte),
    decreases t1.len(),
{
    if t1.len() > 0 {
        assert(utf8_width(t1[0]) == utf8_width(t2[0]));
        let d1 = t1.drop_first();
        let d2 = t2.drop_first();
        assert forall|i: int| 0 <= i < d1.len() implies utf8_width(#[trigger] d1[i]) == utf8_width(
            d2[i],
        ) by {
            assert(d1[i] == t1[i + 1]);
            assert(d2[i] == t2[i + 1]);
        }
        lemma_chars_within_same_widths(d1, d2, byte - utf8_width(t1[0]));
    }
}

proof fn lemma_counts_same_feeds(s1: Seq<char>, s2: Seq<char>)
    requires
        s1.len() == s2.len(),
        forall|i: int| 0 <= i < s1.len() ==> (#[trigger] s1[i] == '\n') == (s2[i] == '\n'),
    ensures
        count(s1, '\n') == count(s2, '\n'),
        after_last(s1, '\n') == after_last(s2, '\n'),
    decreases s1.len(),
{
    if s1.len() > 0 {
        let d1 = s1.drop_last();
        let d2 = s2.drop_last();
        assert forall|i: int| 0 <= i < d1.len() implies (#[trigger] d1[i] == '\n') == (d2[i]
            == '\n') by {
            assert(d1[i] == s1[i]);
            assert(d2[i] == s2[i]);
        }
        assert((s1.last() == '\n') == (s2.last() == '\n')) by {
            assert(s1[s1.len() - 1] == s1.last());
        }
        lemma_counts_same_feeds(d1, d2);
    }
}

/// Only line feeds start lines: two texts with line feeds at the same
/// places, and characters of the same UTF-8 widths elsewhere, place a fault
/// at the same byte offset on the same line and column, whatever other
/// characters (carriage returns among them) they hold.
pub proof fn location_counts_only_line_feeds(t1: Seq<char>, t2: Seq<char>, byte: int)
    requires
        t1.len() == t2.len(),
        forall|i: int| 0 <= i < t1.len() ==> (#[trigger] t1[i] == '\n') == (t2[i] == '\n'),
        forall|i: int| 0 <= i < t1.len() ==> utf8_width(#[trigger] t1[i]) == utf8_width(t2[i]),
    ensures
        location(t1, byte) == location(t2, byte),
{
    lemma_chars_within_same_widths(t1, t2, byte);
    let n = chars_within(t1, byte) as int;
    crate::text::lemma_chars_within_bound(t1, byte);
    let b1 = t1.take(n);
    let b2 = t2.take(n);
    assert forall|i: int| 0 <= i < b1.len() implies (#[trigger] b1[i] == '\n') == (b2[i] == '\n') by {
        assert(b1[i] == t1[i]);
        assert(b2[i] == t2[i]);
    }
    lemma_counts_same_feeds(b1, b2);
}

proof fn lemma_no_feed(s: Seq<char>)
    requires
        forall|i: int| 0 <= i < s.len() ==> #[trigger] s[i] != '\n',
    ensures
        count(s, '\n') == 0,
        after_last(s, '\n') == s.len(),
    decreases s.len(),
{
    if s.len() > 0 {
        let d = s.drop_last();
        assert forall|i: int| 0 <= i < d.len() implies #[trigger] d[i] != '\n' by {
            assert(d[i] == s[i]);
        }
        assert(s[s.len() - 1] == s.last());
        lemma_no_feed(d);
    }
}

/// A fault with no line feed before it is on line 1, at the column one past
/// the characters before it; a line feed before a fault ends a line, and the
/// column counts only the characters after the last one.
pub proof fn faults_are_placed_by_line_feeds(text: Seq<char>, byte: int)
    ensures
        ({
            let n = chars_within(text, byte) as int;
            (forall|i: int| 0 <= i < n ==> #[trigger] text[i] != '\n') ==> location(text, byte)
                == "line "@ + decimal(1) + " column "@ + decimal((n + 1) as nat)
        }),
        ({
            let n = chars_within(text, byte) as int;
            forall|k: int|
                0 <= k < n && #[trigger] text[k] == '\n' && (forall|i: int|
                    k < i < n ==> text[i] != '\n') ==> location(text, byte) == "line "@ + decimal(
                    count(text.take(k), '\n') + 2,
                ) + " column "@ + decimal((n - k) as nat)
        }),
{
    let n = chars_within(text, byte) as int;
    crate::text::lemma_chars_within_bound(text, byte);
    let before = text.take(n);
    if forall|i: int| 0 <= i < n ==> #[trigger] text[i] != '\n' {
        assert forall|i: int| 0 <= i < before.len() implies #[trigger] before[i] != '\n' by {
            assert(before[i] == text[i]);
        }
        lemma_no_feed(before);
    }
    assert forall|k: int|
        0 <= k < n && #[trigger] text[k] == '\n' && (forall|i: int|
            k < i < n ==> text[i] != '\n') implies location(text, byte) == "line "@ + decimal(
        count(text.take(k), '\n') + 2,
    ) + " column "@ + decimal((n - k) as nat) by {
        let tail = text.subrange(k + 1, n);
        assert forall|i: int| 0 <= i < tail.len() implies #[trigger] tail[i] != '\n' by {
            assert(tail[i] == text[k + 1 + i]);
        }
        lemma_no_feed(tail);
        lemma_split_counts(text.take(k + 1), tail);
        assert(text.take(k + 1) + tail =~= before);
        assert(text.take(k + 1).drop_last() =~= text.take(k));
        assert(text.take(k + 1).last() == text[k]);
    }
}

proof fn lemma_split_counts(a: Seq<char>, b: Seq<char>)
    requires
        a.len() > 0,
        a.last() == '\n',
        forall|i: int| 0 <= i < b.len() ==> #[trigger] b[i] != '\n',
    ensures
        count(a + b, '\n') == count(a, '\n'),
        after_last(a + b, '\n') == b.len(),
    decreases b.len(),
{
    if b.len() == 0 {
        assert(a + b =~= a);
    } else {
        let d = b.drop_last();
        assert forall|i: int| 0 <= i < d.len() implies #[trigger] d[i] != '\n' by {
            assert(d[i] == b[i]);
        }
        lemma_split_counts(a, d);
        assert((a + b).drop_last() =~= a + d);
        assert((a + b).last() == b[b.len() - 1]);
    }
}

} // verus!
