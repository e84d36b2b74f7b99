//! A TOML document as the contract reads it: every value by its kind, a
//! string by its text and a table by its entries. The `toml` crate reads
//! the text; this module holds what it read as plain values.

use vstd::prelude::*;

verus! {

/// `toml::map::Map`, the map behind `toml::Table`, known to Verus as an
/// opaque type.
#[verifier::external_type_specification]
#[verifier::external_body]
#[verifier::reject_recursive_types(K)]
#[verifier::reject_recursive_types(V)]
pub struct ExTomlMap<K, V>(toml::map::Map<K, V>);

/// `toml::Value`, known to Verus as an opaque type.
#[verifier::external_type_specification]
#[verifier::external_body]
pub struct ExTomlValue(toml::Value);

/// A TOML value as the contract reads it.
pub enum Tree {
    String(Seq<char>),
    Integer,
    Float,
    Boolean,
    Datetime,
    Array,
    Table(Seq<(Seq<char>, Tree)>),
}

/// The entries of a `toml::Table`, key and value, in the order the table
/// hands them out: with `toml`'s `preserve_order` feature, the order in
/// which the text names them.
pub uninterp spec fn toml_entries(t: toml::Table) -> Seq<(Seq<char>, Tree)>;

/// The entries of the table that `toml` reads from `text`, or `None` where
/// `text` is not a TOML document.
pub uninterp spec fn toml_document(text: Seq<char>) -> Option<Seq<(Seq<char>, Tree)>>;

/// The message `toml` gives for what is wrong with `text`.
pub uninterp spec fn toml_error_message(text: Seq<char>) -> Seq<char>;

/// Where in `text`, as a byte offset, `toml` found what is wrong with it, if
/// it says.
pub uninterp spec fn toml_error_start(text: Seq<char>) -> Option<usize>;

/// Why a text is not a TOML document: the parser's message, and the byte
/// offset where it found the fault, if it gave one.
#[derive(Clone, Debug)]
pub struct TomlFailure {
    pub message: String,
    pub start: Option<usize>,
}

/// A TOML value, as plain values: its kind, and for a string its text, for a
/// table its entries.
#[derive(Debug)]
pub enum Item {
    String(String),
    Integer,
    Float,
    Boolean,
    Datetime,
    Array,
    Table(Table),
}

/// One key of a table and the value it holds.
#[derive(Debug)]
pub struct Entry {
    pub key: String,
    pub value: Item,
}

/// A TOML table: its entries, in order.
#[derive(Debug)]
pub struct Table {
    pub entries: Vec<Entry>,
}

/// What a value reads as.
pub open spec fn value_tree(v: Item) -> Tree
    decreases v,
{
    match v {
        Item::String(s) => Tree::String(s@),
        Item::Integer => Tree::Integer,
        Item::Float => Tree::Float,
        Item::Boolean => Tree::Boolean,
        Item::Datetime => Tree::Datetime,
        Item::Array => Tree::Array,
        Item::Table(t) => Tree::Table(entries_tree(t.entries@)),
    }
}

/// What a sequence of entries reads as.
pub open spec fn entries_tree(s: Seq<Entry>) -> Seq<(Seq<char>, Tree)>
    decreases s,
{
    if s.len() == 0 {
        Seq::empty()
    } else {
        entries_tree(s.drop_last()).push((s.last().key@, value_tree(s.last().value)))
    }
}

impl View for Item {
    type V = Tree;

    open spec fn view(&self) -> Tree {
        value_tree(*self)
    }
}

impl View for Table {
    type V = Seq<(Seq<char>, Tree)>;

    open spec fn view(&self) -> Seq<(Seq<char>, Tree)> {
        entries_tree(self.entries@)
    }
}

/// The value that `key` holds among `entries`: that of its first entry.
pub open spec fn entry_get(entries: Seq<(Seq<char>, Tree)>, key: Seq<char>) -> Option<Tree>
    decreases entries.len(),
{
    if entries.len() == 0 {
        None
    } else {
        match entry_get(entries.drop_last(), key) {
            Some(v) => Some(v),
            None => if entries.last().0 == key {
                Some(entries.last().1)
            } else {
                None
            },
        }
    }
}

pub(crate) proof fn lemma_entries_tree_len(s: Seq<Entry>)
    ensures
        entries_tree(s).len() == s.len(),
    decreases s.len(),
{
    if s.len() > 0 {
        lemma_entries_tree_len(s.drop_last());
    }
}

pub(crate) proof fn lemma_entries_tree_index(s: Seq<Entry>, i: int)
    requires
        0 <= i < s.len(),
    ensures
        entries_tree(s)[i] == (s[i].key@, value_tree(s[i].value)),
    decreases s.len(),
{
    lemma_entries_tree_len(s.drop_last());
    if i < s.len() - 1 {
        lemma_entries_tree_index(s.drop_last(), i);
    }
}

proof fn lemma_entry_get_prefix(s: Seq<(Seq<char>, Tree)>, k: int, key: Seq<char>)
    requires
        0 <= k <= s.len(),
        entry_get(s.take(k), key) is Some,
    ensures
        entry_get(s, key) == entry_get(s.take(k), key),
    decreases s.len() - k,
{
    if k < s.len() {
        assert(s.take(k + 1).drop_last() =~= s.take(k));
        lemma_entry_get_prefix(s, k + 1, key);
    } else {
        assert(s.take(k) =~= s);
    }
}

impl Table {
    /// A table with no entries.
    pub fn new() -> (t: Self)
        ensures
            t@ == Seq::<(Seq<char>, Tree)>::empty(),
    {
        Table { entries: Vec::new() }
    }

    /// The value `key` holds, if the table has it.
    pub fn get(&self, key: &String) -> (r: Option<&Item>)
        ensures
            match r {
                Some(v) => entry_get(self@, key@) == Some(v@),
                None => entry_get(self@, key@) is None,
            },
    {
        let mut i: usize = 0;
        proof {
            lemma_entries_tree_len(self.entries@);
        }
        while i < self.entries.len()
            invariant
                i <= self.entries.len(),
                self@.len() == self.entries@.len(),
                entry_get(self@.take(i as int), key@) is None,
            decreases self.entries.len() - i,
        {
            proof {
                lemma_entries_tree_index(self.entries@, i as int);
                assert(self@.take(i + 1).drop_last() =~= self@.take(i as int));
            }
            if self.entries[i].key == *key {
                proof {
                    lemma_entry_get_prefix(self@, i + 1, key@);
                }
                return Some(&self.entries[i].value);
            }
            i = i + 1;
        }
        assert(self@.take(i as int) =~= self@);
        None
    }

    /// The table that `toml` read as `t`.
    pub fn from_toml(t: &toml::Table) -> (r: Table)
        ensures
            r@ == toml_entries(*t),
        decreases toml_entries(*t),
    {
        let n = toml_len(t);
        let mut entries: Vec<Entry> = Vec::new();
        let mut i: usize = 0;
        while i < n
            invariant
                i <= n,
                n == toml_entries(*t).len(),
                entries_tree(entries@) == toml_entries(*t).take(i as int),
            decreases n - i,
        {
            let (key, held) = toml_entry(t, i);
            let ghost e = toml_entries(*t)[i as int];
            let value = match held {
                Held::String(s) => Item::String(s),
                Held::Integer => Item::Integer,
                Held::Float => Item::Float,
                Held::Boolean => Item::Boolean,
                Held::Datetime => Item::Datetime,
                Held::Array => Item::Array,
                Held::Table(nested) => {
                    assert(decreases_to!(toml_entries(*t) => toml_entries(*nested))) by {
                        assert(decreases_to!(toml_entries(*t) => e));
                        assert(decreases_to!(e => e.1));
                        assert(decreases_to!(e.1 => e.1->Table_0));
                    }
                    Item::Table(Table::from_toml(nested))
                },
            };
            assert(value_tree(value) == e.1);
            let ghost before = entries@;
            entries.push(Entry { key, value });
            assert(entries@.drop_last() =~= before);
            assert(entries_tree(entries@) == entries_tree(before).push(e));
            assert(toml_entries(*t).take(i + 1) =~= toml_entries(*t).take(i as int).push(e));
            i = i + 1;
        }
        assert(toml_entries(*t).take(n as int) =~= toml_entries(*t));
        Table { entries }
    }

    /// The table that `text` is, or why it is not one.
    pub fn parse(text: &str) -> (r: Result<Table, TomlFailure>)
        ensures
            match toml_document(text@) {
                Some(d) => r matches Ok(t) && t@ == d,
                None => r matches Err(f) && f.message@ == toml_error_message(text@) && f.start
                    == toml_error_start(text@),
            },
    {
        match toml_parse(text) {
            Ok(t) => Ok(Table::from_toml(&t)),
            Err(f) => Err(f),
        }
    }
}

/// A value of a `toml::Table` as handed out: plain values, or the nested
/// table itself.
enum Held<'a> {
    String(String),
    Integer,
    Float,
    Boolean,
    Datetime,
    Array,
    Table(&'a toml::Table),
}

/// Whether `h` hands out the value that `tree` reads as.
spec fn held_matches(h: Held, tree: Tree) -> bool {
    match (h, tree) {
        (Held::String(s), Tree::String(x)) => s@ == x,
        (Held::Integer, Tree::Integer) => true,
        (Held::Float, Tree::Float) => true,
        (Held::Boolean, Tree::Boolean) => true,
        (Held::Datetime, Tree::Datetime) => true,
        (Held::Array, Tree::Array) => true,
        (Held::Table(n), Tree::Table(e)) => toml_entries(*n) == e,
        _ => false,
    }
}

/// Reads `text` as a TOML table, with `<toml::Table as FromStr>::from_str`.
///
/// Claimed of it: it succeeds exactly on the texts `toml_document` reads,
/// and the table it gives holds what `toml_document` says; a failure carries
/// the error's `message()` and the start of its `span()`.
#[verifier::external_body]
fn toml_parse(text: &str) -> (r: Result<toml::Table, TomlFailure>)
    ensures
        r is Ok <==> toml_document(text@) is Some,
        r matches Ok(t) ==> Some(toml_entries(t)) == toml_document(text@),
        r matches Err(f) ==> f.message@ == toml_error_message(text@) && f.start
            == toml_error_start(text@),
{
    text.parse::<toml::Table>().map_err(
        |e| TomlFailure { message: e.message().to_owned(), start: e.span().map(|s| s.start) },
    )
}

/// The number of entries of `t`, with `toml::map::Map::len`.
///
/// Claimed of it: it is the number of entries `toml_entries` says `t` has.
#[verifier::external_body]
fn toml_len(t: &toml::Table) -> (n: usize)
    ensures
        n == toml_entries(*t).len(),
{
    t.len()
}

/// The entry at `i` in `t`'s order, with `toml::map::Map::iter`: its key,
/// and its value told apart by variant, a string with its text and a table
/// by reference.
///
/// Claimed of it: the key and the value are those of `toml_entries(t)[i]`.
#[verifier::external_body]
fn toml_entry<'a>(t: &'a toml::Table, i: usize) -> (r: (String, Held<'a>))
    requires
        i < toml_entries(*t).len(),
    ensures
        r.0@ == toml_entries(*t)[i as int].0,
        held_matches(r.1, toml_entries(*t)[i as int].1),
{
    let (key, value) = t.iter().nth(i).unwrap();
    let held = match value {
        toml::Value::String(s) => Held::String(s.clone()),
        toml::Value::Integer(_) => Held::Integer,
        toml::Value::Float(_) => Held::Float,
        toml::Value::Boolean(_) => Held::Boolean,
        toml::Value::Datetime(_) => Held::Datetime,
        toml::Value::Array(_) => Held::Array,
        toml::Value::Table(n) => Held::Table(n),
    };
    (key.clone(), held)
}

} // verus!
