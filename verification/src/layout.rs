//! The layout a Location binds to the TOML contract: which keys a document
//! must hold, and of what type each.
//!
//! A layout is itself a small TOML document. Every leaf is a key the document
//! must have, and its value names the type: `string`, `integer`, `float`,
//! `boolean`, `table`, `array` or `datetime`. Keys nest by dotted path, so
//! `service.name = "string"` and a `[service]` table with `name = "string"`
//! say the same thing. Anything a layout does not name is not the layout's
//! business: a document may carry more than it asks for.
//!
//! A type the layout does not know is refused when it is bound, not when a
//! Stream arrives, and an issue names the dotted path where the document
//! departed.

use vstd::prelude::*;

use crate::contract::{ContractError, Issue, ValidationIssue, issues_view};
use crate::document::{Item, Table, Tree, entry_get, toml_document, toml_error_message};
use crate::text::{chars_eq, chars_of, find, find_char, string_from};

verus! {

/// The seven types a layout can name.
#[derive(Clone, Copy, Debug, PartialEq, Eq, Structural)]
pub enum Kind {
    String,
    Integer,
    Float,
    Boolean,
    Table,
    Array,
    Datetime,
}

/// The name a layout uses for `k`.
pub open spec fn kind_name(k: Kind) -> Seq<char> {
    match k {
        Kind::String => "string"@,
        Kind::Integer => "integer"@,
        Kind::Float => "float"@,
        Kind::Boolean => "boolean"@,
        Kind::Table => "table"@,
        Kind::Array => "array"@,
        Kind::Datetime => "datetime"@,
    }
}

/// The type that `name` names, if it names one.
pub open spec fn kind_named(name: Seq<char>) -> Option<Kind> {
    if name == "string"@ {
        Some(Kind::String)
    } else if name == "integer"@ {
        Some(Kind::Integer)
    } else if name == "float"@ {
        Some(Kind::Float)
    } else if name == "boolean"@ {
        Some(Kind::Boolean)
    } else if name == "table"@ {
        Some(Kind::Table)
    } else if name == "array"@ {
        Some(Kind::Array)
    } else if name == "datetime"@ {
        Some(Kind::Datetime)
    } else {
        None
    }
}

/// The kind of a TOML value.
pub open spec fn tree_kind(t: Tree) -> Kind {
    match t {
        Tree::String(_) => Kind::String,
        Tree::Integer => Kind::Integer,
        Tree::Float => Kind::Float,
        Tree::Boolean => Kind::Boolean,
        Tree::Datetime => Kind::Datetime,
        Tree::Array => Kind::Array,
        Tree::Table(_) => Kind::Table,
    }
}

/// What binding says of a leaf that names no type: `path` asks for `name`.
pub open spec fn unknown_message(path: Seq<char>, name: Seq<char>) -> Seq<char> {
    path + " asks for \""@ + name
        + "\", which is none of string, integer, float, boolean, table, array, datetime"@
}

/// What binding says of a leaf that is not a type name but a value of kind
/// `found`.
pub open spec fn not_a_name_message(path: Seq<char>, found: Seq<char>) -> Seq<char> {
    path + " is "@ + found + ", where a layout names a type"@
}

/// The issue of a required key that the document lacks.
pub open spec fn missing_issue(req: (Seq<char>, Kind)) -> Issue {
    Issue { code: "required"@, message: req.0 + " is required"@, path: Some(req.0) }
}

/// The issue of a required key that holds a value of kind named `found`.
pub open spec fn mismatched_issue(req: (Seq<char>, Kind), found: Seq<char>) -> Issue {
    Issue {
        code: "type"@,
        message: req.0 + " is "@ + found + ", not "@ + kind_name(req.1),
        path: Some(req.0),
    }
}

/// The dotted path of `key` under `prefix`.
pub open spec fn join_path(prefix: Seq<char>, key: Seq<char>) -> Seq<char> {
    if prefix.len() == 0 {
        key
    } else {
        prefix + "."@ + key
    }
}

/// The keys that the entries of a layout table require, each by its dotted
/// path under `prefix` and with the type it names, in the table's order; or
/// the message for the first leaf that names no type.
pub open spec fn read_layout(entries: Seq<(Seq<char>, Tree)>, prefix: Seq<char>) -> Result<
    Seq<(Seq<char>, Kind)>,
    Seq<char>,
>
    decreases entries,
{
    if entries.len() == 0 {
        Ok(Seq::empty())
    } else {
        match read_layout(entries.drop_last(), prefix) {
            Err(m) => Err(m),
            Ok(before) => {
                let path = join_path(prefix, entries.last().0);
                match entries.last().1 {
                    Tree::Table(nested) => match read_layout(nested, path) {
                        Ok(inner) => Ok(before + inner),
                        Err(m) => Err(m),
                    },
                    Tree::String(name) => match kind_named(name) {
                        Some(k) => Ok(before.push((path, k))),
                        None => Err(unknown_message(path, name)),
                    },
                    other => Err(not_a_name_message(path, kind_name(tree_kind(other)))),
                }
            },
        }
    }
}

/// What a layout document reads as: the keys it requires, or why it is
/// refused.
pub open spec fn layout_reading(text: Seq<char>) -> Result<Seq<(Seq<char>, Kind)>, Seq<char>> {
    match toml_document(text) {
        None => Err("the layout is not TOML: "@ + toml_error_message(text)),
        Some(d) => read_layout(d, Seq::empty()),
    }
}

/// Whether every leaf of a layout table names a type.
pub open spec fn leaves_named(entries: Seq<(Seq<char>, Tree)>) -> bool
    decreases entries,
{
    if entries.len() == 0 {
        true
    } else {
        leaves_named(entries.drop_last()) && match entries.last().1 {
            Tree::Table(nested) => leaves_named(nested),
            Tree::String(name) => kind_named(name) is Some,
            _ => false,
        }
    }
}

/// `s` cut at every `c`, as `str::split` cuts it.
pub open spec fn split_on(s: Seq<char>, c: char) -> Seq<Seq<char>>
    decreases s.len(),
{
    match find(s, c) {
        None => seq![s],
        Some(i) => {
            if 0 <= i < s.len() {
                seq![s.take(i)] + split_on(s.skip(i + 1), c)
            } else {
                seq![s]
            }
        },
    }
}

/// The entries of a table value; none for any other value.
pub open spec fn table_entries(t: Tree) -> Seq<(Seq<char>, Tree)> {
    match t {
        Tree::Table(e) => e,
        _ => Seq::empty(),
    }
}

/// The value reached from `entries` by following the keys `segments`.
pub open spec fn lookup_segments(entries: Seq<(Seq<char>, Tree)>, segments: Seq<Seq<char>>) -> Option<
    Tree,
>
    decreases segments.len(),
{
    if segments.len() == 0 {
        None
    } else {
        match entry_get(entries, segments[0]) {
            None => None,
            Some(v) => if segments.len() == 1 {
                Some(v)
            } else {
                lookup_segments(table_entries(v), segments.drop_first())
            },
        }
    }
}

/// The value a document holds at a dotted path.
pub open spec fn lookup_path(document: Seq<(Seq<char>, Tree)>, path: Seq<char>) -> Option<Tree> {
    lookup_segments(document, split_on(path, '.'))
}

/// The issue, if any, that a document gives the required key `req`.
pub open spec fn issue_for(req: (Seq<char>, Kind), document: Seq<(Seq<char>, Tree)>) -> Seq<Issue> {
    match lookup_path(document, req.0) {
        None => seq![missing_issue(req)],
        Some(v) => if tree_kind(v) == req.1 {
            Seq::empty()
        } else {
            seq![mismatched_issue(req, kind_name(tree_kind(v)))]
        },
    }
}

/// Every issue a document gives the required keys, in their order.
pub open spec fn layout_issues(
    required: Seq<(Seq<char>, Kind)>,
    document: Seq<(Seq<char>, Tree)>,
) -> Seq<Issue>
    decreases required.len(),
{
    if required.len() == 0 {
        Seq::empty()
    } else {
        layout_issues(required.drop_last(), document) + issue_for(required.last(), document)
    }
}

/// Whether `document` holds every required key, each of the type required.
pub open spec fn conforms(required: Seq<(Seq<char>, Kind)>, document: Seq<(Seq<char>, Tree)>) -> bool {
    forall|i: int|
        0 <= i < required.len() ==> (#[trigger] lookup_path(document, required[i].0) matches Some(v)
            && tree_kind(v) == required[i].1)
}

impl Kind {
    /// The name a layout uses for this type.
    pub fn name(self) -> (s: &'static str)
        ensures
            s@ == kind_name(self),
    {
        match self {
            Kind::String => "string",
            Kind::Integer => "integer",
            Kind::Float => "float",
            Kind::Boolean => "boolean",
            Kind::Table => "table",
            Kind::Array => "array",
            Kind::Datetime => "datetime",
        }
    }

    /// The type that `name` names, if it is one of the seven.
    pub fn named(name: &str) -> (k: Option<Kind>)
        ensures
            k == kind_named(name@),
    {
        let c = chars_of(name);
        if chars_eq(&c, "string") {
            Some(Kind::String)
        } else if chars_eq(&c, "integer") {
            Some(Kind::Integer)
        } else if chars_eq(&c, "float") {
            Some(Kind::Float)
        } else if chars_eq(&c, "boolean") {
            Some(Kind::Boolean)
        } else if chars_eq(&c, "table") {
            Some(Kind::Table)
        } else if chars_eq(&c, "array") {
            Some(Kind::Array)
        } else if chars_eq(&c, "datetime") {
            Some(Kind::Datetime)
        } else {
            None
        }
    }

    /// The error of a leaf at `path` that asks for `name`, which is no type.
    pub fn unknown(path: &str, name: &str) -> (e: ContractError)
        ensures
            e.message@ == unknown_message(path@, name@),
    {
        let mut m = path.to_owned();
        m.append(" asks for \"");
        m.append(name);
        m.append("\", which is none of string, integer, float, boolean, table, array, datetime");
        ContractError::new(m)
    }

    /// The error of a leaf at `path` that holds a value of kind `found`
    /// where a type name belongs.
    pub fn not_a_name(path: &str, found: &str) -> (e: ContractError)
        ensures
            e.message@ == not_a_name_message(path@, found@),
    {
        let mut m = path.to_owned();
        m.append(" is ");
        m.append(found);
        m.append(", where a layout names a type");
        ContractError::new(m)
    }
}

/// One key a layout requires: its dotted path and its type.
#[derive(Clone, Debug, PartialEq, Eq)]
pub struct Required {
    pub path: String,
    pub kind: Kind,
}

impl View for Required {
    type V = (Seq<char>, Kind);

    open spec fn view(&self) -> (Seq<char>, Kind) {
        (self.path@, self.kind)
    }
}

/// The required keys of `v`, each as its path and type.
pub open spec fn required_view(v: Seq<Required>) -> Seq<(Seq<char>, Kind)> {
    v.map_values(|r: Required| r@)
}

impl Required {
    /// The issue of a document that lacks this key.
    pub fn missing(&self) -> (i: ValidationIssue)
        ensures
            i@ == missing_issue(self@),
    {
        let mut m = self.path.clone();
        m.append(" is required");
        ValidationIssue::new("required", m.as_str(), Some(self.path.clone()))
    }

    /// The issue of a document whose value at this key is of the kind named
    /// `found`.
    pub fn mismatched(&self, found: &str) -> (i: ValidationIssue)
        ensures
            i@ == mismatched_issue(self@, found@),
    {
        let mut m = self.path.clone();
        m.append(" is ");
        m.append(found);
        m.append(", not ");
        m.append(self.kind.name());
        ValidationIssue::new("type", m.as_str(), Some(self.path.clone()))
    }
}

/// Whether `value` is of `kind`.
pub fn holds(kind: Kind, value: &Item) -> (b: bool)
    ensures
        b == (tree_kind(value@) == kind),
        value is String ==> (b <==> kind == Kind::String),
        value is Integer ==> (b <==> kind == Kind::Integer),
        value is Float ==> (b <==> kind == Kind::Float),
        value is Boolean ==> (b <==> kind == Kind::Boolean),
        value is Table ==> (b <==> kind == Kind::Table),
        value is Array ==> (b <==> kind == Kind::Array),
        value is Datetime ==> (b <==> kind == Kind::Datetime),
{
    let own = match value {
        Item::String(_) => Kind::String,
        Item::Integer => Kind::Integer,
        Item::Float => Kind::Float,
        Item::Boolean => Kind::Boolean,
        Item::Table(_) => Kind::Table,
        Item::Array => Kind::Array,
        Item::Datetime => Kind::Datetime,
    };
    own == kind
}

/// The name a layout would use for `value`.
pub fn name_of(value: &Item) -> (s: &'static str)
    ensures
        s@ == kind_name(tree_kind(value@)),
        value is String ==> s@ == "string"@,
        value is Integer ==> s@ == "integer"@,
        value is Float ==> s@ == "float"@,
        value is Boolean ==> s@ == "boolean"@,
        value is Table ==> s@ == "table"@,
        value is Array ==> s@ == "array"@,
        value is Datetime ==> s@ == "datetime"@,
{
    match value {
        Item::String(_) => "string",
        Item::Integer => "integer",
        Item::Float => "float",
        Item::Boolean => "boolean",
        Item::Table(_) => "table",
        Item::Array => "array",
        Item::Datetime => "datetime",
    }
}

/// The keys a bound layout requires, in the order the layout names them.
#[derive(Clone, Debug, PartialEq, Eq)]
pub struct Layout {
    required: Vec<Required>,
}

impl View for Layout {
    type V = Seq<(Seq<char>, Kind)>;

    closed spec fn view(&self) -> Seq<(Seq<char>, Kind)> {
        required_view(self.required@)
    }
}


impl Layout {
    /// Read a layout document.
    ///
    /// It is refused when the text is not TOML, when a leaf is not a type
    /// name, or when a name is not one of the seven types; otherwise it
    /// requires every leaf by its dotted path.
    pub fn parse(text: &str) -> (r: Result<Self, ContractError>)
        ensures
            match layout_reading(text@) {
                Ok(req) => r matches Ok(l) && l@ == req,
                Err(m) => r matches Err(e) && e.message@ == m,
            },
    {
        match Table::parse(text) {
            Ok(table) => Layout::from_table(&table),
            Err(failure) => {
                let mut m = "the layout is not TOML: ".to_owned();
                m.append(failure.message.as_str());
                Err(ContractError::new(m))
            },
        }
    }

    /// The layout that a table read as a layout document says.
    pub fn from_table(table: &Table) -> (r: Result<Self, ContractError>)
        ensures
            match read_layout(table@, Seq::empty()) {
                Ok(req) => r matches Ok(l) && l@ == req,
                Err(m) => r matches Err(e) && e.message@ == m,
            },
    {
        let mut required: Vec<Required> = Vec::new();
        let prefix = String::new();
        match collect(table, &prefix, &mut required) {
            Ok(()) => {
                assert(required_view(required@) =~= required_view(Seq::<Required>::empty())
                    + read_layout(table@, Seq::empty())->Ok_0);
                Ok(Layout { required })
            },
            Err(e) => Err(e),
        }
    }

    /// The keys required, in layout order.
    pub fn required(&self) -> (r: &[Required])
        ensures
            required_view(r@) == self@,
    {
        self.required.as_slice()
    }

    /// Every way `document` departs from the layout: a required key that is
    /// missing, or one of another type than the layout names.
    pub fn check(&self, document: &Table) -> (issues: Vec<ValidationIssue>)
        ensures
            issues_view(issues@) == layout_issues(self@, document@),
    {
        let mut issues: Vec<ValidationIssue> = Vec::new();
        let mut i: usize = 0;
        while i < self.required.len()
            invariant
                i <= self.required.len(),
                issues_view(issues@) == layout_issues(required_view(self.required@).take(i as int), document@),
            decreases self.required.len() - i,
        {
            let required = &self.required[i];
            let ghost req = required_view(self.required@).take(i + 1);
            assert(req.drop_last() =~= required_view(self.required@).take(i as int));
            assert(req.last() == required@);
            let ghost before = issues@;
            match lookup(document, &required.path) {
                None => {
                    issues.push(required.missing());
                },
                Some(value) => {
                    if !holds(required.kind, value) {
                        issues.push(required.mismatched(name_of(value)));
                    }
                },
            }
            assert(issues_view(issues@) =~= issues_view(before) + issue_for(required@, document@));
            i = i + 1;
        }
        assert(required_view(self.required@).take(i as int) =~= self@);
        issues
    }
}

/// Adds to `into` the keys that `table` requires under `prefix`.
pub fn collect(table: &Table, prefix: &String, into: &mut Vec<Required>) -> (r: Result<(), ContractError>)
    ensures
        match read_layout(table@, prefix@) {
            Ok(req) => r is Ok && required_view(final(into)@) == required_view(old(into)@) + req,
            Err(m) => r matches Err(e) && e.message@ == m,
        },
    decreases table@,
{
    let ghost start = required_view(into@);
    let mut i: usize = 0;
    proof {
        crate::document::lemma_entries_tree_len(table.entries@);
    }
    while i < table.entries.len()
        invariant
            i <= table.entries.len(),
            table@.len() == table.entries@.len(),
            read_layout(table@.take(i as int), prefix@) matches Ok(req) && required_view(into@)
                == start + req,
        decreases table.entries.len() - i,
    {
        let entry = &table.entries[i];
        let ghost part = table@.take(i + 1);
        proof {
            crate::document::lemma_entries_tree_index(table.entries@, i as int);
            assert(part.drop_last() =~= table@.take(i as int));
        }
        let ghost before = required_view(into@);
        let ghost done = read_layout(table@.take(i as int), prefix@)->Ok_0;
        let path = if prefix.as_str().is_empty() {
            entry.key.clone()
        } else {
            let mut p = prefix.clone();
            p.append(".");
            p.append(entry.key.as_str());
            p
        };
        assert(path@ == join_path(prefix@, part.last().0));
        match &entry.value {
            Item::Table(nested) => {
                assert(decreases_to!(table@ => nested@)) by {
                    let e = table@[i as int];
                    assert(decreases_to!(table@ => e));
                    assert(decreases_to!(e => e.1));
                    assert(decreases_to!(e.1 => e.1->Table_0));
                }
                match collect(nested, &path, into) {
                    Ok(()) => {
                        assert(required_view(into@) =~= start + (done + read_layout(nested@, path@)->Ok_0));
                    },
                    Err(e) => {
                        proof {
                            lemma_read_layout_err_prefix(table@, i + 1, prefix@);
                        }
                        return Err(e);
                    },
                }
            },
            Item::String(name) => match Kind::named(name.as_str()) {
                Some(kind) => {
                    into.push(Required { path, kind });
                    assert(required_view(into@) =~= before.push(into@.last()@));
                },
                None => {
                    proof {
                        lemma_read_layout_err_prefix(table@, i + 1, prefix@);
                    }
                    return Err(Kind::unknown(path.as_str(), name.as_str()));
                },
            },
            other => {
                proof {
                    lemma_read_layout_err_prefix(table@, i + 1, prefix@);
                }
                return Err(Kind::not_a_name(path.as_str(), name_of(other)));
            },
        }
        i = i + 1;
    }
    assert(table@.take(i as int) =~= table@);
    Ok(())
}

/// The value `document` holds at the dotted `path`, if it holds one.
pub fn lookup<'a>(document: &'a Table, path: &String) -> (r: Option<&'a Item>)
    ensures
        match r {
            Some(v) => lookup_path(document@, path@) == Some(v@),
            None => lookup_path(document@, path@) is None,
        },
{
    let cs = chars_of(path.as_str());
    let mut table = document;
    let mut start: usize = 0;
    assert(cs@.skip(0) =~= cs@);
    loop
        invariant
            start <= cs.len(),
            lookup_path(document@, path@) == lookup_segments(table@, split_on(cs@.skip(start as int), '.')),
        decreases cs.len() - start,
    {
        let ghost rest = cs@.skip(start as int);
        assert(cs@.subrange(start as int, cs.len() as int) =~= rest);
        let end = find_char(&cs, start, cs.len(), '.');
        let stop = match end {
            Some(e) => e,
            None => cs.len(),
        };
        let key = string_from(&cs, start, stop);
        proof {
            match end {
                Some(e) => {
                    assert(rest.take(e - start) =~= key@);
                    assert(rest.skip(e - start + 1) =~= cs@.skip(e + 1));
                    lemma_split_len(cs@.skip(e + 1), '.');
                    assert(split_on(rest, '.') == seq![key@] + split_on(cs@.skip(e + 1), '.'));
                    assert((seq![key@] + split_on(cs@.skip(e + 1), '.')).drop_first() =~= split_on(cs@.skip(e + 1), '.'));
                },
                None => {
                    assert(rest =~= key@);
                    assert(split_on(rest, '.') == seq![key@]);
                },
            }
        }
        let value = match table.get(&key) {
            Some(v) => v,
            None => {
                return None;
            },
        };
        match end {
            None => {
                return Some(value);
            },
            Some(e) => match value {
                Item::Table(nested) => {
                    table = nested;
                    start = e + 1;
                },
                _ => {
                    assert(table_entries(value@) =~= Seq::empty());
                    let ghost tail = split_on(cs@.skip(e + 1), '.');
                    assert(entry_get(table_entries(value@), tail[0]) is None);
                    assert(lookup_segments(table_entries(value@), tail) is None);
                    let ghost segs = split_on(rest, '.');
                    assert(segs.len() > 1);
                    assert(segs.drop_first() == tail);
                    assert(lookup_segments(table@, segs) == lookup_segments(table_entries(value@), tail));
                    return None;
                },
            },
        }
    }
}

proof fn lemma_split_len(s: Seq<char>, c: char)
    ensures
        split_on(s, c).len() >= 1,
    decreases s.len(),
{
    match find(s, c) {
        None => {},
        Some(i) => {
            if 0 <= i < s.len() {
                lemma_split_len(s.skip(i + 1), c);
            }
        },
    }
}

/// A layout read fails as soon as a part of it does.
proof fn lemma_read_layout_err_prefix(s: Seq<(Seq<char>, Tree)>, k: int, prefix: Seq<char>)
    requires
        0 <= k <= s.len(),
        read_layout(s.take(k), prefix) is Err,
    ensures
        read_layout(s, prefix) == read_layout(s.take(k), prefix),
    decreases s.len() - k,
{
    if k < s.len() {
        assert(s.take(k + 1).drop_last() =~= s.take(k));
        lemma_read_layout_err_prefix(s, k + 1, prefix);
    } else {
        assert(s.take(k) =~= s);
    }
}


/// The name a layout uses for a type names that type again, and no other.
pub proof fn kind_names_round_trip(k: Kind)
    ensures
        kind_named(kind_name(k)) == Some(k),
{
    reveal_strlit("string");
    reveal_strlit("integer");
    reveal_strlit("float");
    reveal_strlit("boolean");
    reveal_strlit("table");
    reveal_strlit("array");
    reveal_strlit("datetime");
    assert("string"@[0] == 's');
    assert("integer"@[0] == 'i');
    assert("float"@[0] == 'f');
    assert("boolean"@[0] == 'b');
    assert("table"@[0] == 't');
    assert("array"@[0] == 'a');
    assert("datetime"@[0] == 'd');
}

/// Every TOML value has a layout name, and the type that name names is the
/// value's own kind, which the value holds.
pub proof fn every_value_has_a_layout_name(t: Tree)
    ensures
        kind_named(kind_name(tree_kind(t))) == Some(tree_kind(t)),
{
    kind_names_round_trip(tree_kind(t));
}

/// A layout is refused exactly when one of its leaves, at any depth, is not
/// the name of one of the seven types.
pub proof fn layout_refused_iff_a_leaf_names_no_type(
    entries: Seq<(Seq<char>, Tree)>,
    prefix: Seq<char>,
)
    ensures
        read_layout(entries, prefix) is Ok <==> leaves_named(entries),
    decreases entries,
{
    if entries.len() > 0 {
        layout_refused_iff_a_leaf_names_no_type(entries.drop_last(), prefix);
        match entries.last().1 {
            Tree::Table(nested) => {
                assert(decreases_to!(entries => nested)) by {
                    let e = entries[entries.len() - 1];
                    assert(decreases_to!(entries => e));
                    assert(decreases_to!(e => e.1));
                    assert(decreases_to!(e.1 => e.1->Table_0));
                }
                layout_refused_iff_a_leaf_names_no_type(
                    nested,
                    join_path(prefix, entries.last().0),
                );
            },
            _ => {},
        }
    }
}

/// A document conforms to a layout, holding every required key with a
/// value of the type required, exactly when checking it names no issue.
pub proof fn conforms_iff_no_issues(
    required: Seq<(Seq<char>, Kind)>,
    document: Seq<(Seq<char>, Tree)>,
)
    ensures
        layout_issues(required, document).len() == 0 <==> conforms(required, document),
    decreases required.len(),
{
    if required.len() > 0 {
        let front = required.drop_last();
        conforms_iff_no_issues(front, document);
        if conforms(required, document) {
            assert forall|i: int| 0 <= i < front.len() implies (#[trigger] lookup_path(
                document,
                front[i].0,
            ) matches Some(v) && tree_kind(v) == front[i].1) by {
                assert(front[i] == required[i]);
                assert(lookup_path(document, required[i].0) matches Some(v) && tree_kind(v)
                    == required[i].1);
            }
            let last = required.len() - 1;
            assert(lookup_path(document, required[last].0) matches Some(v) && tree_kind(v)
                == required[last].1);
        }
        if layout_issues(required, document).len() == 0 {
            assert forall|i: int| 0 <= i < required.len() implies (#[trigger] lookup_path(
                document,
                required[i].0,
            ) matches Some(v) && tree_kind(v) == required[i].1) by {
                if i < front.len() {
                    assert(front[i] == required[i]);
                    assert(lookup_path(document, front[i].0) matches Some(v) && tree_kind(v)
                        == front[i].1);
                }
            }
        }
    }
}

/// Checking names at most one issue per required key, and each issue names
/// the path of a key the layout requires.
pub proof fn issues_name_required_paths(
    required: Seq<(Seq<char>, Kind)>,
    document: Seq<(Seq<char>, Tree)>,
)
    ensures
        layout_issues(required, document).len() <= required.len(),
        forall|j: int|
            0 <= j < layout_issues(required, document).len() ==> exists|i: int|
                0 <= i < required.len() && (#[trigger] layout_issues(required, document)[j]).path
                    == Some(required[i].0),
    decreases required.len(),
{
    if required.len() > 0 {
        let front = required.drop_last();
        issues_name_required_paths(front, document);
        let issues = layout_issues(required, document);
        let before = layout_issues(front, document);
        assert forall|j: int| 0 <= j < issues.len() implies exists|i: int|
            0 <= i < required.len() && (#[trigger] issues[j]).path == Some(required[i].0) by {
            if j < before.len() {
                assert(issues[j] == before[j]);
                let i = choose|i: int| 0 <= i < front.len() && before[j].path == Some(front[i].0);
                assert(front[i] == required[i]);
            } else {
                assert(issues[j].path == Some(required[required.len() - 1].0));
            }
        }
    }
}

/// A key the document did not have, and that no required path starts with,
/// changes none of the issues: a document may carry more than the layout
/// asks for.
pub proof fn extra_keys_change_no_issue(
    required: Seq<(Seq<char>, Kind)>,
    document: Seq<(Seq<char>, Tree)>,
    key: Seq<char>,
    value: Tree,
)
    requires
        entry_get(document, key) is None,
        forall|i: int| 0 <= i < required.len() ==> split_on(#[trigger] required[i].0, '.')[0] != key,
    ensures
        layout_issues(required, document.push((key, value))) == layout_issues(required, document),
    decreases required.len(),
{
    if required.len() > 0 {
        let front = required.drop_last();
        assert forall|i: int| 0 <= i < front.len() implies split_on(#[trigger] front[i].0, '.')[0]
            != key by {
            assert(front[i] == required[i]);
        }
        extra_keys_change_no_issue(front, document, key, value);
        let last = required[required.len() - 1];
        let segments = split_on(last.0, '.');
        lemma_split_len(last.0, '.');
        let bigger = document.push((key, value));
        assert(bigger.drop_last() =~= document);
        assert(entry_get(bigger, segments[0]) == entry_get(document, segments[0]));
        assert(lookup_path(bigger, last.0) == lookup_path(document, last.0));
    }
}


/// Whether every key of a layout table, at any depth, is non-empty, holds no
/// dot, and differs from the other keys of its table.
pub open spec fn plain_keys(entries: Seq<(Seq<char>, Tree)>) -> bool
    decreases entries,
{
    if entries.len() == 0 {
        true
    } else {
        let key = entries.last().0;
        &&& plain_keys(entries.drop_last())
        &&& key.len() > 0
        &&& find(key, '.') is None
        &&& entry_get(entries.drop_last(), key) is None
        &&& match entries.last().1 {
            Tree::Table(nested) => plain_keys(nested),
            _ => true,
        }
    }
}

proof fn lemma_split_dot_concat(x: Seq<char>, y: Seq<char>)
    ensures
        split_on(x + "."@ + y, '.') == split_on(x, '.') + split_on(y, '.'),
    decreases x.len(),
{
    reveal_strlit(".");
    let whole = x + "."@ + y;
    match find(x, '.') {
        None => {
            crate::text::lemma_find_concat(x, "."@ + y, '.');
            assert(whole =~= x + ("."@ + y));
            assert(find("."@ + y, '.') == Some(0int));
            assert(whole.take(x.len() as int) =~= x);
            assert(whole.skip(x.len() as int + 1) =~= y);
        },
        Some(i) => {
            crate::text::lemma_find_bound(x, '.');
            let rest = x.skip(i + 1);
            assert forall|j: int| 0 <= j < i implies #[trigger] whole[j] != '.' by {
                assert(whole[j] == x[j]);
            }
            assert(whole[i] == x[i]);
            crate::text::lemma_find_at(whole, '.', i);
            assert(whole.take(i) =~= x.take(i));
            assert(whole.skip(i + 1) =~= rest + "."@ + y);
            lemma_split_dot_concat(rest, y);
            assert(seq![x.take(i)] + (split_on(rest, '.') + split_on(y, '.')) =~= (seq![x.take(i)]
                + split_on(rest, '.')) + split_on(y, '.'));
        },
    }
}

proof fn lemma_lookup_extend(
    entries: Seq<(Seq<char>, Tree)>,
    e: (Seq<char>, Tree),
    segments: Seq<Seq<char>>,
)
    requires
        lookup_segments(entries, segments) is Some,
    ensures
        lookup_segments(entries.push(e), segments) == lookup_segments(entries, segments),
{
    assert(entries.push(e).drop_last() =~= entries);
}

proof fn lemma_layout_paths(entries: Seq<(Seq<char>, Tree)>, prefix: Seq<char>, pre: Seq<Seq<char>>)
    requires
        plain_keys(entries),
        read_layout(entries, prefix) is Ok,
        prefix.len() == 0 ==> pre.len() == 0,
        prefix.len() > 0 ==> pre == split_on(prefix, '.'),
    ensures
        forall|i: int|
            0 <= i < read_layout(entries, prefix)->Ok_0.len() ==> {
                let r = #[trigger] read_layout(entries, prefix)->Ok_0[i];
                let s = split_on(r.0, '.');
                &&& s.len() > pre.len()
                &&& s.take(pre.len() as int) == pre
                &&& lookup_segments(entries, s.skip(pre.len() as int)) == Some(
                    Tree::String(kind_name(r.1)),
                )
            },
    decreases entries,
{
    if entries.len() > 0 {
        let front = entries.drop_last();
        let key = entries.last().0;
        let last = entries.last();
        assert(entries =~= front.push(last));
        lemma_layout_paths(front, prefix, pre);
        let before = read_layout(front, prefix)->Ok_0;
        let all = read_layout(entries, prefix)->Ok_0;
        let path = join_path(prefix, key);
        let pre2 = pre.push(key);
        assert(split_on(key, '.') == seq![key]);
        assert(split_on(path, '.') == pre2) by {
            if prefix.len() > 0 {
                lemma_split_dot_concat(prefix, key);
            } else {
                assert(pre2 =~= seq![key]);
            }
        }
        assert(entry_get(entries, key) == Some(last.1));
        assert forall|i: int| 0 <= i < before.len() implies {
            let r = #[trigger] before[i];
            let s = split_on(r.0, '.');
            lookup_segments(entries, s.skip(pre.len() as int)) == lookup_segments(
                front,
                s.skip(pre.len() as int),
            )
        } by {
            let r = before[i];
            let s = split_on(r.0, '.');
            lemma_lookup_extend(front, last, s.skip(pre.len() as int));
        }
        match last.1 {
            Tree::Table(nested) => {
                assert(decreases_to!(entries => nested)) by {
                    let e = entries[entries.len() - 1];
                    assert(decreases_to!(entries => e));
                    assert(decreases_to!(e => e.1));
                    assert(decreases_to!(e.1 => e.1->Table_0));
                }
                lemma_layout_paths(nested, path, pre2);
                let inner = read_layout(nested, path)->Ok_0;
                assert(all == before + inner);
                assert forall|i: int| 0 <= i < all.len() implies {
                    let r = #[trigger] all[i];
                    let s = split_on(r.0, '.');
                    &&& s.len() > pre.len()
                    &&& s.take(pre.len() as int) == pre
                    &&& lookup_segments(entries, s.skip(pre.len() as int)) == Some(
                        Tree::String(kind_name(r.1)),
                    )
                } by {
                    if i < before.len() {
                        assert(all[i] == before[i]);
                    } else {
                        let r = inner[i - before.len()];
                        assert(all[i] == r);
                        let s = split_on(r.0, '.');
                        let t = s.skip(pre2.len() as int);
                        assert(s.take(pre.len() as int) =~= s.take(pre2.len() as int).take(
                            pre.len() as int,
                        ));
                        assert(pre2.take(pre.len() as int) =~= pre);
                        assert(t.len() > 0);
                        let u = s.skip(pre.len() as int);
                        assert(u[0] == s[pre.len() as int]);
                        assert(s[pre.len() as int] == s.take(pre2.len() as int)[pre.len() as int]);
                        assert(u.drop_first() =~= t);
                        assert(table_entries(last.1) == nested);
                    }
                }
            },
            Tree::String(name) => {
                let k = kind_named(name)->Some_0;
                assert(all == before.push((path, k)));
                assert(name == kind_name(k));
                assert forall|i: int| 0 <= i < all.len() implies {
                    let r = #[trigger] all[i];
                    let s = split_on(r.0, '.');
                    &&& s.len() > pre.len()
                    &&& s.take(pre.len() as int) == pre
                    &&& lookup_segments(entries, s.skip(pre.len() as int)) == Some(
                        Tree::String(kind_name(r.1)),
                    )
                } by {
                    if i < before.len() {
                        assert(all[i] == before[i]);
                    } else {
                        assert(all[i] == (path, k));
                        assert(pre2.take(pre.len() as int) =~= pre);
                        assert(pre2.skip(pre.len() as int) =~= seq![key]);
                    }
                }
            },
            _ => {},
        }
    }
}

/// Keys nest by dotted path: every key a layout requires is, at its dotted
/// path, a leaf of the layout itself that names its type, so long as the
/// layout's keys are non-empty, hold no dot and are distinct within a table.
pub proof fn required_keys_lie_at_their_dotted_paths(entries: Seq<(Seq<char>, Tree)>)
    requires
        plain_keys(entries),
        read_layout(entries, Seq::empty()) is Ok,
    ensures
        forall|i: int|
            0 <= i < read_layout(entries, Seq::empty())->Ok_0.len() ==> {
                let r = #[trigger] read_layout(entries, Seq::empty())->Ok_0[i];
                lookup_path(entries, r.0) == Some(Tree::String(kind_name(r.1)))
            },
{
    let all = read_layout(entries, Seq::empty())->Ok_0;
    lemma_layout_paths(entries, Seq::empty(), Seq::empty());
    assert forall|i: int| 0 <= i < all.len() implies {
        let r = #[trigger] all[i];
        lookup_path(entries, r.0) == Some(Tree::String(kind_name(r.1)))
    } by {
        let s = split_on(all[i].0, '.');
        assert(s.skip(0) =~= s);
    }
}


/// The leaves of a layout table, depth first in table order, each with its
/// dotted path under `prefix`: every value that is not a table.
pub open spec fn layout_leaves(entries: Seq<(Seq<char>, Tree)>, prefix: Seq<char>) -> Seq<
    (Seq<char>, Tree),
>
    decreases entries,
{
    if entries.len() == 0 {
        Seq::empty()
    } else {
        let before = layout_leaves(entries.drop_last(), prefix);
        let path = join_path(prefix, entries.last().0);
        match entries.last().1 {
            Tree::Table(nested) => before + layout_leaves(nested, path),
            other => before.push((path, other)),
        }
    }
}

/// What one leaf of a layout requires: its path and the type its string
/// names; or why the leaf is refused.
pub open spec fn leaf_requirement(leaf: (Seq<char>, Tree)) -> Result<(Seq<char>, Kind), Seq<char>> {
    match leaf.1 {
        Tree::String(name) => match kind_named(name) {
            Some(k) => Ok((leaf.0, k)),
            None => Err(unknown_message(leaf.0, name)),
        },
        other => Err(not_a_name_message(leaf.0, kind_name(tree_kind(other)))),
    }
}

/// What leaves require, in their order; or the refusal of the first leaf
/// that is refused.
pub open spec fn requirements(leaves: Seq<(Seq<char>, Tree)>) -> Result<
    Seq<(Seq<char>, Kind)>,
    Seq<char>,
>
    decreases leaves.len(),
{
    if leaves.len() == 0 {
        Ok(Seq::empty())
    } else {
        match requirements(leaves.drop_last()) {
            Err(m) => Err(m),
            Ok(before) => match leaf_requirement(leaves.last()) {
                Ok(q) => Ok(before.push(q)),
                Err(m) => Err(m),
            },
        }
    }
}

proof fn lemma_requirements_concat(a: Seq<(Seq<char>, Tree)>, b: Seq<(Seq<char>, Tree)>)
    ensures
        requirements(a + b) == match requirements(a) {
            Err(m) => Err(m),
            Ok(x) => match requirements(b) {
                Ok(y) => Ok(x + y),
                Err(m) => Err(m),
            },
        },
    decreases b.len(),
{
    if b.len() == 0 {
        assert(a + b =~= a);
        if let Ok(x) = requirements(a) {
            assert(x + Seq::<(Seq<char>, Kind)>::empty() =~= x);
        }
    } else {
        lemma_requirements_concat(a, b.drop_last());
        assert((a + b).drop_last() =~= a + b.drop_last());
        assert((a + b).last() == b.last());
        if let Ok(x) = requirements(a) {
            if let Ok(y) = requirements(b.drop_last()) {
                if let Ok(q) = leaf_requirement(b.last()) {
                    assert(x + y.push(q) =~= (x + y).push(q));
                }
            }
        }
    }
}

proof fn lemma_read_layout_is_requirements(entries: Seq<(Seq<char>, Tree)>, prefix: Seq<char>)
    ensures
        read_layout(entries, prefix) == requirements(layout_leaves(entries, prefix)),
    decreases entries,
{
    if entries.len() > 0 {
        let front = entries.drop_last();
        let path = join_path(prefix, entries.last().0);
        lemma_read_layout_is_requirements(front, prefix);
        let before = layout_leaves(front, prefix);
        match entries.last().1 {
            Tree::Table(nested) => {
                assert(decreases_to!(entries => nested)) by {
                    let e = entries[entries.len() - 1];
                    assert(decreases_to!(entries => e));
                    assert(decreases_to!(e => e.1));
                    assert(decreases_to!(e.1 => e.1->Table_0));
                }
                lemma_read_layout_is_requirements(nested, path);
                lemma_requirements_concat(before, layout_leaves(nested, path));
            },
            other => {
                assert(before.push((path, other)).drop_last() =~= before);
            },
        }
    }
}

proof fn lemma_requirements_pointwise(leaves: Seq<(Seq<char>, Tree)>)
    ensures
        requirements(leaves) is Ok <==> forall|i: int|
            0 <= i < leaves.len() ==> leaf_requirement(#[trigger] leaves[i]) is Ok,
        requirements(leaves) matches Ok(r) ==> r.len() == leaves.len() && forall|i: int|
            0 <= i < leaves.len() ==> leaf_requirement(#[trigger] leaves[i]) == Ok::<
                (Seq<char>, Kind),
                Seq<char>,
            >(r[i]),
        requirements(leaves) matches Err(m) ==> exists|j: int|
            0 <= j < leaves.len() && leaf_requirement(#[trigger] leaves[j]) == Err::<
                (Seq<char>, Kind),
                Seq<char>,
            >(m) && forall|i: int| 0 <= i < j ==> leaf_requirement(#[trigger] leaves[i]) is Ok,
    decreases leaves.len(),
{
    if leaves.len() > 0 {
        let front = leaves.drop_last();
        let n = leaves.len() - 1;
        lemma_requirements_pointwise(front);
        assert forall|i: int| 0 <= i < n implies #[trigger] leaves[i] == front[i] by {}
        match requirements(front) {
            Err(m) => {
                let j = choose|j: int|
                    0 <= j < front.len() && leaf_requirement(#[trigger] front[j]) == Err::<
                        (Seq<char>, Kind),
                        Seq<char>,
                    >(m) && forall|i: int| 0 <= i < j ==> leaf_requirement(#[trigger] front[i]) is Ok;
                assert(leaves[j] == front[j]);
                assert forall|i: int| 0 <= i < j implies leaf_requirement(#[trigger] leaves[i]) is Ok by {
                    assert(leaves[i] == front[i]);
                }
                assert(!(leaf_requirement(leaves[j]) is Ok));
            },
            Ok(before) => {
                match leaf_requirement(leaves.last()) {
                    Ok(q) => {
                        let r = before.push(q);
                        assert forall|i: int| 0 <= i < leaves.len() implies leaf_requirement(
                            #[trigger] leaves[i],
                        ) == Ok::<(Seq<char>, Kind), Seq<char>>(r[i]) by {
                            if i < n {
                                assert(leaves[i] == front[i]);
                            }
                        }
                    },
                    Err(m) => {
                        assert forall|i: int| 0 <= i < n implies leaf_requirement(
                            #[trigger] leaves[i],
                        ) is Ok by {
                            assert(leaves[i] == front[i]);
                        }
                        assert(leaves[n] == leaves.last());
                    },
                }
            },
        }
    }
}

/// A layout requires, depth first in table order, one key per leaf: the
/// leaf's dotted path under the prefix, with the type its string names. It
/// is refused exactly when some leaf is not a string naming a type, and
/// then with the refusal of the first such leaf.
pub proof fn layout_requires_its_leaves_in_order(
    entries: Seq<(Seq<char>, Tree)>,
    prefix: Seq<char>,
)
    ensures
        read_layout(entries, prefix) == requirements(layout_leaves(entries, prefix)),
        ({
            let leaves = layout_leaves(entries, prefix);
            &&& read_layout(entries, prefix) is Ok <==> forall|i: int|
                0 <= i < leaves.len() ==> leaf_requirement(#[trigger] leaves[i]) is Ok
            &&& read_layout(entries, prefix) matches Ok(r) ==> r.len() == leaves.len() && forall|
                i: int,
            |
                0 <= i < leaves.len() ==> leaf_requirement(#[trigger] leaves[i]) == Ok::<
                    (Seq<char>, Kind),
                    Seq<char>,
                >(r[i])
            &&& read_layout(entries, prefix) matches Err(m) ==> exists|j: int|
                0 <= j < leaves.len() && leaf_requirement(#[trigger] leaves[j]) == Err::<
                    (Seq<char>, Kind),
                    Seq<char>,
                >(m) && forall|i: int|
                    0 <= i < j ==> leaf_requirement(#[trigger] leaves[i]) is Ok
        }),
{
    lemma_read_layout_is_requirements(entries, prefix);
    lemma_requirements_pointwise(layout_leaves(entries, prefix));
}

/// Whether following `segments` from `document` passes through the tables
/// `tables`, the first being `document`, each holding the next at its
/// segment, and the last holding `v` at the last segment.
pub open spec fn reaches(
    document: Seq<(Seq<char>, Tree)>,
    segments: Seq<Seq<char>>,
    tables: Seq<Seq<(Seq<char>, Tree)>>,
    v: Tree,
) -> bool {
    &&& segments.len() > 0
    &&& tables.len() == segments.len()
    &&& tables[0] == document
    &&& forall|i: int|
        0 <= i < segments.len() - 1 ==> entry_get(tables[i], #[trigger] segments[i]) == Some(
            Tree::Table(tables[i + 1]),
        )
    &&& entry_get(tables[segments.len() - 1], segments[segments.len() - 1]) == Some(v)
}

proof fn lemma_lookup_chain(
    document: Seq<(Seq<char>, Tree)>,
    segments: Seq<Seq<char>>,
    v: Tree,
)
    ensures
        lookup_segments(document, segments) == Some(v) <==> exists|tables: Seq<
            Seq<(Seq<char>, Tree)>,
        >| #[trigger] reaches(document, segments, tables, v),
    decreases segments.len(),
{
    if segments.len() > 0 {
        let rest = segments.drop_first();
        if lookup_segments(document, segments) == Some(v) {
            if segments.len() == 1 {
                assert(reaches(document, segments, seq![document], v));
            } else {
                let t = entry_get(document, segments[0])->Some_0;
                let inner = table_entries(t);
                if !(t is Table) {
                    assert(inner =~= Seq::empty());
                    lemma_lookup_in_nothing(rest);
                }
                lemma_lookup_chain(inner, rest, v);
                let more = choose|tables: Seq<Seq<(Seq<char>, Tree)>>| #[trigger] reaches(
                    inner,
                    rest,
                    tables,
                    v,
                );
                let tables = seq![document] + more;
                assert forall|i: int| 0 <= i < segments.len() - 1 implies entry_get(
                    tables[i],
                    #[trigger] segments[i],
                ) == Some(Tree::Table(tables[i + 1])) by {
                    if i > 0 {
                        assert(segments[i] == rest[i - 1]);
                        assert(tables[i] == more[i - 1]);
                    }
                }
                assert(reaches(document, segments, tables, v));
            }
        }
        if exists|tables: Seq<Seq<(Seq<char>, Tree)>>| #[trigger] reaches(
            document,
            segments,
            tables,
            v,
        ) {
            let tables = choose|tables: Seq<Seq<(Seq<char>, Tree)>>| #[trigger] reaches(
                document,
                segments,
                tables,
                v,
            );
            if segments.len() > 1 {
                let more = tables.drop_first();
                assert(entry_get(tables[0], segments[0]) == Some(Tree::Table(tables[1])));
                assert forall|i: int| 0 <= i < rest.len() - 1 implies entry_get(
                    more[i],
                    #[trigger] rest[i],
                ) == Some(Tree::Table(more[i + 1])) by {
                    assert(rest[i] == segments[i + 1]);
                }
                assert(reaches(tables[1], rest, more, v));
                lemma_lookup_chain(tables[1], rest, v);
            }
        }
    }
}

proof fn lemma_lookup_in_nothing(rest: Seq<Seq<char>>)
    requires
        rest.len() > 0,
    ensures
        lookup_segments(Seq::empty(), rest) is None,
{
}

/// A dotted path leads to a value exactly when following its segments from
/// the document passes through tables, each holding the next at its
/// segment, to a table that holds the value at the last segment; a value on
/// the way that is not a table leads nowhere.
pub proof fn lookup_follows_tables(document: Seq<(Seq<char>, Tree)>, path: Seq<char>, v: Tree)
    ensures
        lookup_path(document, path) == Some(v) <==> exists|tables: Seq<
            Seq<(Seq<char>, Tree)>,
        >| #[trigger] reaches(document, split_on(path, '.'), tables, v),
{
    lemma_lookup_chain(document, split_on(path, '.'), v);
}


/// Whether `a` and `b` are the same table written in another order: their
/// entries pair off one for one, with equal keys, equal values, and nested
/// tables that are again the same table.
pub open spec fn same_table(a: Seq<(Seq<char>, Tree)>, b: Seq<(Seq<char>, Tree)>) -> bool
    decreases a,
{
    if a.len() == 0 {
        b.len() == 0
    } else {
        exists|j: int|
            #![trigger b[j]]
            0 <= j < b.len() && b[j].0 == a.last().0 && match (a.last().1, b[j].1) {
                (Tree::Table(m), Tree::Table(n)) => same_table(m, n),
                (x, y) => x == y,
            } && same_table(a.drop_last(), b.remove(j))
    }
}

/// Two results taken one after the other: the first refusal, or both lists.
pub open spec fn combine(
    x: Result<Seq<(Seq<char>, Kind)>, Seq<char>>,
    y: Result<Seq<(Seq<char>, Kind)>, Seq<char>>,
) -> Result<Seq<(Seq<char>, Kind)>, Seq<char>> {
    match x {
        Err(m) => Err(m),
        Ok(u) => match y {
            Ok(v) => Ok(u + v),
            Err(m) => Err(m),
        },
    }
}

proof fn lemma_layout_leaves_concat(
    x: Seq<(Seq<char>, Tree)>,
    y: Seq<(Seq<char>, Tree)>,
    prefix: Seq<char>,
)
    ensures
        layout_leaves(x + y, prefix) == layout_leaves(x, prefix) + layout_leaves(y, prefix),
    decreases y.len(),
{
    if y.len() == 0 {
        assert(x + y =~= x);
        assert(layout_leaves(x, prefix) + Seq::empty() =~= layout_leaves(x, prefix));
    } else {
        lemma_layout_leaves_concat(x, y.drop_last(), prefix);
        assert((x + y).drop_last() =~= x + y.drop_last());
        assert((x + y).last() == y.last());
        let lx = layout_leaves(x, prefix);
        let ly = layout_leaves(y.drop_last(), prefix);
        let path = join_path(prefix, y.last().0);
        match y.last().1 {
            Tree::Table(n) => {
                assert((lx + ly) + layout_leaves(n, path) =~= lx + (ly + layout_leaves(n, path)));
            },
            other => {
                assert((lx + ly).push((path, other)) =~= lx + ly.push((path, other)));
            },
        }
    }
}

proof fn lemma_read_layout_concat(
    x: Seq<(Seq<char>, Tree)>,
    y: Seq<(Seq<char>, Tree)>,
    prefix: Seq<char>,
)
    ensures
        read_layout(x + y, prefix) == combine(read_layout(x, prefix), read_layout(y, prefix)),
{
    lemma_read_layout_is_requirements(x + y, prefix);
    lemma_read_layout_is_requirements(x, prefix);
    lemma_read_layout_is_requirements(y, prefix);
    lemma_layout_leaves_concat(x, y, prefix);
    lemma_requirements_concat(layout_leaves(x, prefix), layout_leaves(y, prefix));
}

proof fn lemma_combine_multiset(
    x: Result<Seq<(Seq<char>, Kind)>, Seq<char>>,
    y: Result<Seq<(Seq<char>, Kind)>, Seq<char>>,
)
    ensures
        combine(x, y) is Ok <==> x is Ok && y is Ok,
        combine(x, y) is Ok ==> combine(x, y)->Ok_0.to_multiset() == x->Ok_0.to_multiset().add(
            y->Ok_0.to_multiset(),
        ),
{
    if let (Ok(u), Ok(v)) = (x, y) {
        vstd::seq_lib::lemma_multiset_commutative(u, v);
    }
}

/// Two layout tables that are the same table written in another order
/// require the same keys, each with the same type, listed perhaps in
/// another order; and one is refused exactly when the other is.
pub proof fn same_table_same_requirements(
    a: Seq<(Seq<char>, Tree)>,
    b: Seq<(Seq<char>, Tree)>,
    prefix: Seq<char>,
)
    requires
        same_table(a, b),
    ensures
        read_layout(a, prefix) is Ok <==> read_layout(b, prefix) is Ok,
        read_layout(a, prefix) is Ok ==> read_layout(a, prefix)->Ok_0.to_multiset() == read_layout(
            b,
            prefix,
        )->Ok_0.to_multiset(),
    decreases a,
{
    if a.len() > 0 {
        let j = choose|j: int|
            #![trigger b[j]]
            0 <= j < b.len() && b[j].0 == a.last().0 && match (a.last().1, b[j].1) {
                (Tree::Table(m), Tree::Table(n)) => same_table(m, n),
                (x, y) => x == y,
            } && same_table(a.drop_last(), b.remove(j));
        let e = a.last();
        let f = b[j];
        let front = a.drop_last();
        let rest = b.remove(j);
        same_table_same_requirements(front, rest, prefix);
        let path = join_path(prefix, e.0);
        let se = seq![e];
        let sf = seq![f];
        assert(se.drop_last() =~= Seq::<(Seq<char>, Tree)>::empty());
        assert(sf.drop_last() =~= Seq::<(Seq<char>, Tree)>::empty());
        assert(se.last() == e);
        assert(sf.last() == f);
        let re = read_layout(se, prefix);
        let rf = read_layout(sf, prefix);
        assert((re is Ok <==> rf is Ok) && (re is Ok ==> re->Ok_0.to_multiset()
            == rf->Ok_0.to_multiset())) by {
            match (e.1, f.1) {
                (Tree::Table(m), Tree::Table(n)) => {
                    assert(decreases_to!(a => m)) by {
                        let ee = a[a.len() - 1];
                        assert(decreases_to!(a => ee));
                        assert(decreases_to!(ee => ee.1));
                        assert(decreases_to!(ee.1 => ee.1->Table_0));
                    }
                    same_table_same_requirements(m, n, path);
                    let empty = Seq::<(Seq<char>, Kind)>::empty();
                    assert(read_layout(se.drop_last(), prefix) == Ok::<Seq<(Seq<char>, Kind)>, Seq<char>>(empty));
                    assert(read_layout(sf.drop_last(), prefix) == Ok::<Seq<(Seq<char>, Kind)>, Seq<char>>(empty));
                    assert(join_path(prefix, f.0) == path);
                    assert(re == combine(Ok(empty), read_layout(m, path)));
                    assert(rf == combine(Ok(empty), read_layout(n, path)));
                    if let Ok(u) = read_layout(m, path) {
                        assert(empty + u =~= u);
                        let v = read_layout(n, path)->Ok_0;
                        assert(empty + v =~= v);
                    }
                    assert(join_path(prefix, f.0) == path);
                },
                _ => {
                    assert(e.1 == f.1);
                    assert(e == f);
                    assert(se =~= sf);
                },
            }
        }
        assert(a =~= front + se);
        lemma_read_layout_concat(front, se, prefix);
        let left = b.take(j);
        let right = b.skip(j + 1);
        assert(b =~= left + sf + right);
        assert(rest =~= left + right);
        lemma_read_layout_concat(left + sf, right, prefix);
        lemma_read_layout_concat(left, sf, prefix);
        lemma_read_layout_concat(left, right, prefix);
        let rl = read_layout(left, prefix);
        let rr = read_layout(right, prefix);
        lemma_combine_multiset(rl, rf);
        lemma_combine_multiset(combine(rl, rf), rr);
        lemma_combine_multiset(rl, rr);
        lemma_combine_multiset(read_layout(front, prefix), re);
        if read_layout(a, prefix) is Ok {
            let ml = rl->Ok_0.to_multiset();
            let mf = rf->Ok_0.to_multiset();
            let mr = rr->Ok_0.to_multiset();
            assert(ml.add(mf).add(mr) =~= ml.add(mr).add(mf));
        }
    }
}

/// Two layout texts that denote the same table, however their keys are
/// written, dotted or under `[table]` headers, and in whatever order, are
/// both bound or both refused, and require the same keys with the same
/// types, up to order.
pub proof fn same_table_texts_bind_alike(text_a: Seq<char>, text_b: Seq<char>)
    requires
        toml_document(text_a) matches Some(a) && toml_document(text_b) matches Some(b)
            && same_table(a, b),
    ensures
        layout_reading(text_a) is Ok <==> layout_reading(text_b) is Ok,
        layout_reading(text_a) is Ok ==> layout_reading(text_a)->Ok_0.to_multiset()
            == layout_reading(text_b)->Ok_0.to_multiset(),
{
    same_table_same_requirements(
        toml_document(text_a)->Some_0,
        toml_document(text_b)->Some_0,
        Seq::empty(),
    );
}


/// Every value is of the kind its variant names, whatever it holds: a
/// table is a table and is named `table` whatever its entries, a string is
/// a string whatever its text.
pub proof fn every_value_is_of_its_own_kind(text: Seq<char>, entries: Seq<(Seq<char>, Tree)>)
    ensures
        tree_kind(Tree::String(text)) == Kind::String,
        kind_name(tree_kind(Tree::String(text))) == "string"@,
        tree_kind(Tree::Integer) == Kind::Integer,
        kind_name(tree_kind(Tree::Integer)) == "integer"@,
        tree_kind(Tree::Float) == Kind::Float,
        kind_name(tree_kind(Tree::Float)) == "float"@,
        tree_kind(Tree::Boolean) == Kind::Boolean,
        kind_name(tree_kind(Tree::Boolean)) == "boolean"@,
        tree_kind(Tree::Table(entries)) == Kind::Table,
        kind_name(tree_kind(Tree::Table(entries))) == "table"@,
        tree_kind(Tree::Array) == Kind::Array,
        kind_name(tree_kind(Tree::Array)) == "array"@,
        tree_kind(Tree::Datetime) == Kind::Datetime,
        kind_name(tree_kind(Tree::Datetime)) == "datetime"@,
{
}

/// What checking says of one required key: that it is required when the
/// document lacks it, nothing when the document holds it with the type
/// required, and otherwise a type issue that names the kind it holds.
pub proof fn each_key_gets_the_issue_its_value_calls_for(
    req: (Seq<char>, Kind),
    document: Seq<(Seq<char>, Tree)>,
)
    ensures
        match lookup_path(document, req.0) {
            None => issue_for(req, document) == seq![
                Issue { code: "required"@, message: req.0 + " is required"@, path: Some(req.0) },
            ],
            Some(v) => if tree_kind(v) == req.1 {
                issue_for(req, document).len() == 0
            } else {
                issue_for(req, document) == seq![
                    Issue {
                        code: "type"@,
                        message: req.0 + " is "@ + kind_name(tree_kind(v)) + ", not "@ + kind_name(
                            req.1,
                        ),
                        path: Some(req.0),
                    },
                ]
            },
        },
{
}

/// An issue is coded `required` only for a key the document lacks, and
/// coded `type` only for a key the document holds with a value of another
/// kind than the layout requires there; every issue is one of the two.
pub proof fn issue_codes_match_what_the_document_holds(
    required: Seq<(Seq<char>, Kind)>,
    document: Seq<(Seq<char>, Tree)>,
)
    ensures
        forall|j: int|
            0 <= j < layout_issues(required, document).len() ==> {
                let issue = #[trigger] layout_issues(required, document)[j];
                &&& issue.code == "required"@ || issue.code == "type"@
                &&& issue.code == "required"@ ==> (issue.path matches Some(p) && lookup_path(
                    document,
                    p,
                ) is None)
                &&& issue.code == "type"@ ==> exists|i: int|
                    0 <= i < required.len() && issue.path == Some(required[i].0) && (lookup_path(
                        document,
                        required[i].0,
                    ) matches Some(v) && tree_kind(v) != required[i].1)
            },
    decreases required.len(),
{
    reveal_strlit("required");
    reveal_strlit("type");
    assert("required"@ != "type"@) by {
        assert("required"@.len() != "type"@.len());
    }
    if required.len() > 0 {
        let front = required.drop_last();
        issue_codes_match_what_the_document_holds(front, document);
        let issues = layout_issues(required, document);
        let before = layout_issues(front, document);
        let n = required.len() - 1;
        assert forall|j: int| 0 <= j < issues.len() implies {
            let issue = #[trigger] issues[j];
            &&& issue.code == "required"@ || issue.code == "type"@
            &&& issue.code == "required"@ ==> (issue.path matches Some(p) && lookup_path(
                document,
                p,
            ) is None)
            &&& issue.code == "type"@ ==> exists|i: int|
                0 <= i < required.len() && issue.path == Some(required[i].0) && (lookup_path(
                    document,
                    required[i].0,
                ) matches Some(v) && tree_kind(v) != required[i].1)
        } by {
            if j < before.len() {
                assert(issues[j] == before[j]);
                if before[j].code == "type"@ {
                    let i = choose|i: int|
                        0 <= i < front.len() && before[j].path == Some(front[i].0) && (lookup_path(
                            document,
                            front[i].0,
                        ) matches Some(v) && tree_kind(v) != front[i].1);
                    assert(front[i] == required[i]);
                }
            } else {
                assert(issues[j] == issue_for(required[n], document)[j - before.len()]);
            }
        }
    }
}

} // verus!
