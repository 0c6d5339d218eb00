//! Insertion of a value at a dotted path.

use crate::coerce::coerced;
use crate::coerce::parse_value;
use crate::error::ConfigError;
use crate::error::Failure;
use crate::text::chars_of;
use crate::text::find_char;
use crate::text::first_index;
use crate::text::lemma_first_index;
use crate::text::lemma_first_index_found;
use crate::tree::Item;
use crate::tree::Node;
use crate::tree::Table;
use vstd::prelude::*;
use vstd::string::StringExecFns;

verus! {

/// What an insertion that goes through the key `head` finds below it: what
/// the key holds, or an empty table where the key is absent.
pub open spec fn below(table: Map<Seq<char>, Node>, head: Seq<char>) -> Node {
    if table.dom().contains(head) {
        table[head]
    } else {
        Node::Table(Map::empty())
    }
}

/// The table that has `value` at the dotted `path` of `table`, or the path of
/// the value that stands in the way.
///
/// A path without a point is a key: the value is stored under it, in place of
/// whatever was there. Otherwise the segment before the first point names a
/// table, made new where the key is absent, into which the value is inserted
/// at the rest of the path. Where that key holds a value that is no table,
/// the insertion fails with the key; a failure further down comes back with
/// the key and a point before it.
pub open spec fn inserted(table: Map<Seq<char>, Node>, path: Seq<char>, value: Node) -> Result<
    Map<Seq<char>, Node>,
    Seq<char>,
>
    decreases path.len(),
    via inserted_decreases
{
    match first_index(path, '.') {
        None => Ok(table.insert(path, value)),
        Some(i) => {
            let head = path.subrange(0, i);
            let rest = path.subrange(i + 1, path.len() as int);
            match below(table, head) {
                Node::Table(sub) => match inserted(sub, rest, value) {
                    Ok(changed) => Ok(table.insert(head, Node::Table(changed))),
                    Err(place) => Err(head + seq!['.'] + place),
                },
                _ => Err(head),
            }
        },
    }
}

#[via_fn]
proof fn inserted_decreases(table: Map<Seq<char>, Node>, path: Seq<char>, value: Node) {
    lemma_first_index(path, '.');
}

/// A path without a point is a key: the value is stored under it, whatever
/// was there.
pub proof fn lemma_insert_key(table: Map<Seq<char>, Node>, key: Seq<char>, value: Node)
    requires
        !key.contains('.'),
    ensures
        inserted(table, key, value) == Ok::<Map<Seq<char>, Node>, Seq<char>>(
            table.insert(key, value),
        ),
{
    lemma_first_index(key, '.');
}

/// A path of two segments puts the value into the table under the first
/// segment, made new where it is absent, and leaves that table's other keys
/// as they are.
pub proof fn lemma_insert_nested(
    table: Map<Seq<char>, Node>,
    head: Seq<char>,
    leaf: Seq<char>,
    value: Node,
)
    requires
        !head.contains('.'),
        !leaf.contains('.'),
        below(table, head) is Table,
    ensures
        inserted(table, head + seq!['.'] + leaf, value) == Ok::<Map<Seq<char>, Node>, Seq<char>>(
            table.insert(head, Node::Table(below(table, head)->Table_0.insert(leaf, value))),
        ),
{
    let path = head + seq!['.'] + leaf;
    let i = head.len() as int;
    lemma_first_index_found(path, '.', i);
    assert(path.subrange(0, i) =~= head);
    assert(path.subrange(i + 1, path.len() as int) =~= leaf);
    lemma_insert_key(below(table, head)->Table_0, leaf, value);
}

/// A path that runs through a value which is no table is refused, with the
/// key of that value.
pub proof fn lemma_insert_mismatch(
    table: Map<Seq<char>, Node>,
    head: Seq<char>,
    rest: Seq<char>,
    value: Node,
)
    requires
        !head.contains('.'),
        table.dom().contains(head),
        !(table[head] is Table),
    ensures
        inserted(table, head + seq!['.'] + rest, value) == Err::<Map<Seq<char>, Node>, Seq<char>>(
            head,
        ),
{
    let path = head + seq!['.'] + rest;
    let i = head.len() as int;
    lemma_first_index_found(path, '.', i);
    assert(path.subrange(0, i) =~= head);
}

/// The error for a mismatch below `head`, at `place` from there.
fn mismatch_below(head: &str, place: String) -> (r: ConfigError)
    ensures
        r matches ConfigError::TypeMismatch(q) && q@ == head@ + seq!['.'] + place@,
{
    proof {
        reveal_strlit(".");
    }
    let full = String::from_str(head).concat(".").concat(place.as_str());
    ConfigError::TypeMismatch(full)
}

/// Inserts `value` at the dotted `path`, making the tables on the way that
/// are not there yet. The last segment's entry is replaced, whatever it was.
/// A segment before the last that names a value which is no table is a type
/// mismatch: the table is then left as it was.
pub fn insert_at(table: &mut Table, path: &str, value: Item) -> (r: Result<(), ConfigError>)
    requires
        old(table).wf(),
        value.wf(),
    ensures
        final(table).wf(),
        match inserted(old(table)@, path@, value@) {
            Ok(t) => r is Ok && final(table)@ == t,
            Err(place) => r matches Err(e) && e@ == Failure::TypeMismatch(place) && final(table)@
                == old(table)@,
        },
    decreases path@.len(),
{
    let chars = chars_of(path);
    let s = chars.as_slice();
    let n: usize = s.len();
    match find_char(s, '.') {
        None => {
            table.insert(path.to_owned(), value);
            Ok(())
        },
        Some(i) => {
            let head = path.substring_char(0, i);
            let rest = path.substring_char(i + 1, n);
            match table.position(head) {
                None => {
                    let mut sub = Table::new();
                    match insert_at(&mut sub, rest, value) {
                        Ok(()) => {
                            table.insert(head.to_owned(), Item::Table(sub));
                            Ok(())
                        },
                        Err(ConfigError::TypeMismatch(place)) => Err(mismatch_below(head, place)),
                        Err(e) => Err(e),
                    }
                },
                Some(p) => {
                    let ghost before = *table;
                    proof {
                        before.lemma_entry(p as int);
                    }
                    if !table.entries[p].value.is_table() {
                        return Err(ConfigError::TypeMismatch(head.to_owned()));
                    }
                    match &mut table.entries[p].value {
                        Item::Table(sub) => {
                            let done = insert_at(sub, rest, value);
                            proof {
                                table.lemma_replaced(before, p as int);
                            }
                            match done {
                                Ok(()) => Ok(()),
                                Err(ConfigError::TypeMismatch(place)) => Err(
                                    mismatch_below(head, place),
                                ),
                                Err(e) => Err(e),
                            }
                        },
                        _ => Err(ConfigError::TypeMismatch(head.to_owned())),
                    }
                },
            }
        },
    }
}

/// Coerces the raw `value` and stores it at the dotted path `option`.
pub fn set_option(config: &mut Table, option: &str, value: &str) -> (r: Result<(), ConfigError>)
    requires
        old(config).wf(),
    ensures
        final(config).wf(),
        match inserted(old(config)@, option@, coerced(value@)) {
            Ok(t) => r is Ok && final(config)@ == t,
            Err(place) => r matches Err(e) && e@ == Failure::TypeMismatch(place) && final(config)@
                == old(config)@,
        },
{
    insert_at(config, option, parse_value(value))
}

} // verus!
