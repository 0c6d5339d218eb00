//! The file adapter: from the text of a TOML document to a table.

use crate::error::ConfigError;
use crate::tree::lemma_array_view;
use crate::tree::nodes_of;
use crate::tree::Item;
use crate::tree::Node;
use crate::tree::Table;
use vstd::prelude::*;

verus! {

/// The `toml` crate's value, opaque here: it is only handed from the parser
/// to the conversion.
#[verifier::external_type_specification]
#[verifier::external_body]
pub struct ExTomlValue(toml::Value);

/// The `toml` crate's parse error, opaque here but for its message.
#[verifier::external_type_specification]
#[verifier::external_body]
pub struct ExTomlError(toml::de::Error);

/// What a value of the `toml` crate holds, as a node: strings, integers,
/// booleans, arrays and tables as they are; a float by the text that Rust
/// writes for it, the shortest that reads back as the same number; a
/// datetime by its text, as a string.
pub uninterp spec fn toml_content(value: toml::Value) -> Node;

/// How many levels of arrays and tables a value of the `toml` crate has
/// below it.
pub uninterp spec fn toml_height(value: toml::Value) -> nat;

/// What the `toml` crate's parser makes of a text: the content of the
/// document, or `None` where the text is not a well-formed document.
pub uninterp spec fn toml_document(text: Seq<char>) -> Option<Node>;

/// One level of a value of the `toml` crate: a leaf as a plain value, an
/// array or a table with what it holds still as values of that crate.
enum Level<'a> {
    /// A string, or the text of a datetime.
    Text(String),
    /// An integer.
    Integer(i64),
    /// The text of a float.
    Float(String),
    /// A boolean.
    Boolean(bool),
    /// The items of an array.
    Array(Vec<&'a toml::Value>),
    /// The keys of a table, each with its value.
    Table(Vec<(String, &'a toml::Value)>),
}

/// The key of each entry.
spec fn entry_keys(entries: Seq<(String, &toml::Value)>) -> Seq<Seq<char>> {
    entries.map_values(|e: (String, &toml::Value)| e.0@)
}

/// The map from the key of each entry to the content of its value.
spec fn entries_content(entries: Seq<(String, &toml::Value)>) -> Map<Seq<char>, Node> {
    Map::new(
        |k: Seq<char>| entry_keys(entries).contains(k),
        |k: Seq<char>| toml_content(*entries[entry_keys(entries).index_of(k)].1),
    )
}

/// What one level holds, given what the values below it hold.
spec fn level_content(level: Level) -> Node {
    match level {
        Level::Text(s) => Node::Text(s@),
        Level::Integer(i) => Node::Integer(i),
        Level::Float(s) => Node::Float(s@),
        Level::Boolean(b) => Node::Boolean(b),
        Level::Array(items) => Node::Array(items@.map_values(|v: &toml::Value| toml_content(*v))),
        Level::Table(entries) => Node::Table(entries_content(entries@)),
    }
}

/// Calls the `toml` crate's parser for a whole document, `from_str` of
/// `toml::Table`, and hands the table on as a value. The parser is a function
/// of the text alone, and a document is a table: the contract names what
/// comes back and says no more.
#[verifier::external_body]
fn toml_parse(text: &str) -> (r: Result<toml::Value, toml::de::Error>)
    ensures
        match r {
            Ok(value) => toml_document(text@) == Some(toml_content(value)) && toml_content(
                value,
            ) is Table,
            Err(_) => toml_document(text@) is None,
        },
{
    text.parse::<toml::Table>().map(toml::Value::Table)
}

/// Takes a `toml::Value` apart by one level, matching on its variants: a
/// leaf is moved over, a float and a datetime as the text that their
/// `Display` writes, and an array or a table gives references to what it
/// holds, the entries of a table as `toml::map::Map::iter` hands them out.
/// The content of the value is what the level says of it; what it holds lies
/// lower than the value itself; and a table of the `toml` crate being a map,
/// each of its keys comes once.
#[verifier::external_body]
fn toml_level<'a>(value: &'a toml::Value) -> (r: Level<'a>)
    ensures
        toml_content(*value) == level_content(r),
        r matches Level::Array(items) ==> forall|i: int|
            0 <= i < items@.len() ==> toml_height(*#[trigger] items@[i]) < toml_height(*value),
        r matches Level::Table(entries) ==> forall|i: int|
            0 <= i < entries@.len() ==> toml_height(*(#[trigger] entries@[i]).1) < toml_height(
                *value,
            ),
        r matches Level::Table(entries) ==> entry_keys(entries@).no_duplicates(),
{
    match value {
        toml::Value::String(s) => Level::Text(s.clone()),
        toml::Value::Integer(i) => Level::Integer(*i),
        toml::Value::Float(x) => Level::Float(x.to_string()),
        toml::Value::Boolean(b) => Level::Boolean(*b),
        toml::Value::Datetime(d) => Level::Text(d.to_string()),
        toml::Value::Array(a) => Level::Array(a.iter().collect()),
        toml::Value::Table(t) => Level::Table(t.iter().map(|(k, v)| (k.clone(), v)).collect()),
    }
}

/// Turns a value of the `toml` crate into an item, level by level.
fn from_toml(value: &toml::Value) -> (r: Item)
    ensures
        r.wf(),
        r@ == toml_content(*value),
    decreases toml_height(*value),
{
    match toml_level(value) {
        Level::Text(s) => Item::String(s),
        Level::Integer(i) => Item::Integer(i),
        Level::Float(s) => Item::Float(s),
        Level::Boolean(b) => Item::Boolean(b),
        Level::Array(children) => {
            let n: usize = children.len();
            let mut items: Vec<Item> = Vec::new();
            let mut i: usize = 0;
            while i < n
                invariant
                    i <= n,
                    n == children@.len(),
                    items@.len() == i,
                    forall|j: int|
                        0 <= j < n ==> toml_height(*#[trigger] children@[j]) < toml_height(*value),
                    forall|j: int| 0 <= j < i ==> (#[trigger] items@[j]).wf(),
                    forall|j: int| 0 <= j < i ==> (#[trigger] items@[j])@ == toml_content(*children@[j]),
                decreases n - i,
            {
                items.push(from_toml(children[i]));
                i += 1;
            }
            proof {
                lemma_array_view(items);
                assert(nodes_of(items@) =~= children@.map_values(|v: &toml::Value| toml_content(*v)));
            }
            Item::Array(items)
        },
        Level::Table(entries) => {
            let n: usize = entries.len();
            let mut table = Table::new();
            let mut i: usize = 0;
            let ghost keys = entry_keys(entries@);
            while i < n
                invariant
                    i <= n,
                    n == entries@.len(),
                    keys == entry_keys(entries@),
                    keys.no_duplicates(),
                    table.wf(),
                    forall|j: int|
                        0 <= j < n ==> toml_height(*(#[trigger] entries@[j]).1) < toml_height(*value),
                    forall|k: Seq<char>| table@.dom().contains(k) <==> keys.take(i as int).contains(k),
                    forall|j: int|
                        0 <= j < i ==> table@[#[trigger] keys[j]] == toml_content(*entries@[j].1),
                decreases n - i,
            {
                let key = entries[i].0.clone();
                let child = from_toml(entries[i].1);
                table.insert(key, child);
                proof {
                    assert forall|k: Seq<char>| table@.dom().contains(k) <==> keys.take(
                        i + 1,
                    ).contains(k) by {
                        if keys.take(i as int).contains(k) {
                            let j = keys.take(i as int).index_of(k);
                            assert(keys.take(i + 1)[j] == k);
                        }
                        if keys.take(i + 1).contains(k) {
                            let j = keys.take(i + 1).index_of(k);
                            assert(j < i ==> keys.take(i as int)[j] == k);
                        }
                        assert(keys.take(i + 1)[i as int] == keys[i as int]);
                    }
                    assert forall|j: int| 0 <= j < i + 1 implies table@[#[trigger] keys[j]]
                        == toml_content(*entries@[j].1) by {
                        if j < i {
                            assert(keys[j] != keys[i as int]);
                        }
                    }
                }
                i += 1;
            }
            proof {
                assert(keys.take(n as int) =~= keys);
                assert forall|k: Seq<char>| table@.dom().contains(k) implies #[trigger] table@[k]
                    == entries_content(entries@)[k] by {
                    let j = keys.index_of(k);
                    assert(keys[j] == k);
                }
                assert(table@ =~= entries_content(entries@));
            }
            Item::Table(table)
        },
    }
}

/// The table that a text holds as a TOML document, if it is one.
pub open spec fn document(text: Seq<char>) -> Option<Map<Seq<char>, Node>> {
    match toml_document(text) {
        Some(Node::Table(table)) => Some(table),
        _ => None,
    }
}

/// Parses a TOML document into a table. A text that is no well-formed
/// document is a parse error, with the parser's message.
pub fn parse_document(text: &str) -> (r: Result<Table, ConfigError>)
    ensures
        match document(text@) {
            Some(t) => r matches Ok(table) && table.wf() && table@ == t,
            None => r matches Err(e) && e@ is ParseError,
        },
{
    match toml_parse(text) {
        Ok(value) => match from_toml(&value) {
            Item::Table(table) => Ok(table),
            // A document is a table, so nothing else comes here.
            _ => Err(ConfigError::ParseError(String::new())),
        },
        Err(e) => Err(ConfigError::ParseError(e.to_string())),
    }
}

} // verus!
