//! The value tree: a recursive document of strings, integers, floats,
//! booleans, arrays and tables keyed by strings.
//!
//! Contracts speak of a tree through its view, a [`Node`]: a table is a map
//! from keys to nodes, so the order in which a table keeps its entries never
//! shows in a contract.

use crate::text::same_text;
use vstd::prelude::*;

verus! {

/// What a value tree holds, as a mathematical value.
pub enum Node {
    /// A string.
    Text(Seq<char>),
    /// A signed 64-bit integer.
    Integer(i64),
    /// A floating-point number, as the text that denotes it.
    Float(Seq<char>),
    /// A boolean.
    Boolean(bool),
    /// A sequence of nodes.
    Array(Seq<Node>),
    /// Named children; no other node has any.
    Table(Map<Seq<char>, Node>),
}

/// One node of a value tree.
#[derive(Debug, PartialEq)]
pub enum Item {
    /// A string.
    String(String),
    /// A signed 64-bit integer.
    Integer(i64),
    /// A floating-point number, kept as the text that denotes it.
    Float(String),
    /// A boolean.
    Boolean(bool),
    /// A sequence of values.
    Array(Vec<Item>),
    /// A table of named values.
    Table(Table),
}

/// A key of a table with the value stored under it.
#[derive(Debug, PartialEq)]
pub(crate) struct Entry {
    pub(crate) key: String,
    pub(crate) value: Item,
}

/// A mapping from string keys to values. Each key occurs once; entries are
/// kept in the order in which their keys were first inserted, and `==`
/// compares them in that order.
#[derive(Debug, PartialEq)]
pub struct Table {
    pub(crate) entries: Vec<Entry>,
}

impl View for Item {
    type V = Node;

    open spec fn view(&self) -> Node
        decreases self,
    {
        match self {
            Item::String(s) => Node::Text(s@),
            Item::Integer(i) => Node::Integer(*i),
            Item::Float(s) => Node::Float(s@),
            Item::Boolean(b) => Node::Boolean(*b),
            Item::Array(items) => Node::Array(
                Seq::new(
                    items@.len(),
                    |i: int|
                        if 0 <= i < items@.len() {
                            items@[i].view()
                        } else {
                            arbitrary()
                        },
                ),
            ),
            Item::Table(t) => Node::Table(t.view()),
        }
    }
}

impl View for Table {
    type V = Map<Seq<char>, Node>;

    open(crate) spec fn view(&self) -> Map<Seq<char>, Node>
        decreases self,
    {
        Map::new(
            |k: Seq<char>| self.key_seq().contains(k),
            |k: Seq<char>|
                {
                    let i = self.key_seq().index_of(k);
                    if 0 <= i < self.entries@.len() {
                        self.entries@[i].value.view()
                    } else {
                        arbitrary()
                    }
                },
        )
    }
}

/// The views of a sequence of values, one for one.
pub open spec fn nodes_of(items: Seq<Item>) -> Seq<Node> {
    items.map_values(|v: Item| v@)
}

/// The view of an array is the sequence of the views of its items.
pub proof fn lemma_array_view(items: Vec<Item>)
    ensures
        Item::Array(items)@ == Node::Array(nodes_of(items@)),
{
    reveal_with_fuel(<Item as View>::view, 2);
    assert(Item::Array(items)@->Array_0 =~= nodes_of(items@));
}

impl Item {
    /// Whether the value is a table.
    pub fn is_table(&self) -> (b: bool)
        ensures
            b == (self is Table),
            b == (self@ is Table),
    {
        match self {
            Item::Table(_) => true,
            _ => false,
        }
    }

    /// The characters of a string.
    pub fn as_str(&self) -> (r: Option<&str>)
        ensures
            match r {
                Some(s) => self@ == Node::Text(s@),
                None => !(self@ is Text),
            },
    {
        match self {
            Item::String(s) => Some(s.as_str()),
            _ => None,
        }
    }

    /// The number of an integer.
    pub fn as_integer(&self) -> (r: Option<i64>)
        ensures
            match r {
                Some(i) => self@ == Node::Integer(i),
                None => !(self@ is Integer),
            },
    {
        match self {
            Item::Integer(i) => Some(*i),
            _ => None,
        }
    }

    /// The text that denotes a float.
    pub fn as_float(&self) -> (r: Option<&str>)
        ensures
            match r {
                Some(s) => self@ == Node::Float(s@),
                None => !(self@ is Float),
            },
    {
        match self {
            Item::Float(s) => Some(s.as_str()),
            _ => None,
        }
    }

    /// The truth value of a boolean.
    pub fn as_bool(&self) -> (r: Option<bool>)
        ensures
            match r {
                Some(b) => self@ == Node::Boolean(b),
                None => !(self@ is Boolean),
            },
    {
        match self {
            Item::Boolean(b) => Some(*b),
            _ => None,
        }
    }

    /// The items of an array.
    pub fn as_array(&self) -> (r: Option<&Vec<Item>>)
        ensures
            match r {
                Some(items) => self@ == Node::Array(nodes_of(items@)) && (self.wf() ==> forall|
                    i: int,
                | 0 <= i < items@.len() ==> (#[trigger] items@[i]).wf()),
                None => !(self@ is Array),
            },
    {
        match self {
            Item::Array(items) => {
                proof {
                    lemma_array_view(*items);
                }
                Some(items)
            },
            _ => None,
        }
    }

    /// The table of a table item.
    pub fn as_table(&self) -> (r: Option<&Table>)
        ensures
            match r {
                Some(table) => self@ == Node::Table(table@) && (self.wf() ==> table.wf()),
                None => !(self@ is Table),
            },
    {
        match self {
            Item::Table(table) => Some(table),
            _ => None,
        }
    }

    /// Every table in the tree keeps each of its keys once.
    pub open spec fn wf(&self) -> bool
        decreases self,
    {
        match self {
            Item::Array(items) => forall|i: int| 0 <= i < items@.len() ==> (#[trigger] items@[i]).wf(),
            Item::Table(t) => t.wf(),
            _ => true,
        }
    }
}

impl Table {
    /// The keys of the table, in the order in which it keeps them.
    pub open(crate) spec fn key_seq(&self) -> Seq<Seq<char>> {
        Seq::new(self.entries@.len(), |i: int| self.entries@[i].key@)
    }

    /// Each key occurs once, here and in every table below.
    pub open(crate) spec fn wf(&self) -> bool
        decreases self,
    {
        &&& self.key_seq().no_duplicates()
        &&& forall|i: int|
            0 <= i < self.entries@.len() ==> (#[trigger] self.entries@[i]).value.wf()
    }

    /// In a well-formed table the entry at position `i` is what the view
    /// holds under that entry's key.
    pub(crate) proof fn lemma_entry(&self, i: int)
        requires
            self.wf(),
            0 <= i < self.entries@.len(),
        ensures
            self@.dom().contains(self.entries@[i].key@),
            self@[self.entries@[i].key@] == self.entries@[i].value@,
            self.key_seq()[i] == self.entries@[i].key@,
            self.entries@[i].value.wf(),
    {
        let k = self.entries@[i].key@;
        assert(self.key_seq()[i] == k);
        let j = self.key_seq().index_of(k);
        assert(self.key_seq()[j] == k);
    }

    /// A key is in the view exactly if some entry holds it.
    pub(crate) proof fn lemma_dom(&self, k: Seq<char>)
        ensures
            self@.dom().contains(k) <==> exists|i: int|
                0 <= i < self.entries@.len() && (#[trigger] self.entries@[i]).key@ == k,
    {
        if self.key_seq().contains(k) {
            let i = choose|i: int| 0 <= i < self.key_seq().len() && self.key_seq()[i] == k;
            assert(self.entries@[i].key@ == k);
        }
        if exists|i: int| 0 <= i < self.entries@.len() && (#[trigger] self.entries@[i]).key@ == k {
            let i = choose|i: int|
                0 <= i < self.entries@.len() && (#[trigger] self.entries@[i]).key@ == k;
            assert(self.key_seq()[i] == k);
        }
    }

    /// The keys of a well-formed table are the keys of its view, each once:
    /// the view is a finite map with as many keys as the table has entries.
    pub proof fn lemma_keys(&self)
        requires
            self.wf(),
        ensures
            self.key_seq().no_duplicates(),
            self.key_seq().to_set() == self@.dom(),
            self@.dom().finite(),
            self@.dom().len() == self.key_seq().len(),
    {
        self.key_seq().unique_seq_to_set();
    }

    /// What the first `n` entries hold.
    pub open(crate) spec fn prefix(&self, n: int) -> Map<Seq<char>, Node> {
        Map::new(|k: Seq<char>| self.key_seq().take(n).contains(k), |k: Seq<char>| self@[k])
    }

    /// No entry, nothing held; all entries, the whole view.
    pub(crate) proof fn lemma_prefix_ends(&self)
        ensures
            self.prefix(0) == Map::<Seq<char>, Node>::empty(),
            self.prefix(self.entries@.len() as int) == self@,
    {
        assert(self.key_seq().take(self.entries@.len() as int) =~= self.key_seq());
    }

    /// One entry more adds that entry's key, which the entries before it
    /// do not hold.
    pub(crate) proof fn lemma_prefix_step(&self, n: int)
        requires
            self.wf(),
            0 <= n < self.entries@.len(),
        ensures
            !self.prefix(n).dom().contains(self.entries@[n].key@),
            self.prefix(n + 1) == self.prefix(n).insert(
                self.entries@[n].key@,
                self.entries@[n].value@,
            ),
    {
        let k = self.entries@[n].key@;
        let shorter = self.key_seq().take(n);
        let longer = self.key_seq().take(n + 1);
        self.lemma_entry(n);
        if shorter.contains(k) {
            let j = choose|j: int| 0 <= j < shorter.len() && shorter[j] == k;
            assert(self.key_seq()[j] == k);
        }
        assert forall|q: Seq<char>| longer.contains(q) <==> (shorter.contains(q) || q == k) by {
            if longer.contains(q) {
                let j = choose|j: int| 0 <= j < longer.len() && longer[j] == q;
                assert(j < n ==> shorter[j] == q);
            }
            if shorter.contains(q) {
                let j = choose|j: int| 0 <= j < shorter.len() && shorter[j] == q;
                assert(longer[j] == q);
            }
            if q == k {
                assert(longer[n] == q);
            }
        }
    }

    /// A table that differs from a well-formed one in the value of one entry
    /// is that table with the new value inserted under the entry's key.
    pub(crate) proof fn lemma_replaced(&self, before: Table, p: int)
        requires
            before.wf(),
            0 <= p < before.entries@.len(),
            self.entries@.len() == before.entries@.len(),
            forall|j: int|
                0 <= j < before.entries@.len() && j != p ==> self.entries@[j]
                    == #[trigger] before.entries@[j],
            self.entries@[p].key@ == before.entries@[p].key@,
            self.entries@[p].value.wf(),
        ensures
            self.wf(),
            self@ == before@.insert(self.entries@[p].key@, self.entries@[p].value@),
    {
        let k = self.entries@[p].key@;
        let v = self.entries@[p].value@;
        assert(self.key_seq() =~= before.key_seq());
        assert forall|j: int| 0 <= j < self.entries@.len() implies (#[trigger] self.entries@[j])
            .value.wf() by {
            if j != p {
                assert(before.entries@[j].value.wf());
            }
        }
        before.lemma_entry(p);
        assert forall|q: Seq<char>| self@.dom().contains(q) implies #[trigger] self@[q]
            == before@.insert(k, v)[q] by {
            let j = self.key_seq().index_of(q);
            assert(self.key_seq()[j] == q);
            self.lemma_entry(j);
            before.lemma_entry(j);
        }
    }

    /// An empty table.
    pub fn new() -> (t: Table)
        ensures
            t.wf(),
            t@ == Map::<Seq<char>, Node>::empty(),
    {
        let t = Table { entries: Vec::new() };
        t
    }

    /// The number of keys.
    pub fn len(&self) -> (n: usize)
        requires
            self.wf(),
        ensures
            n == self@.dom().len(),
            n == self.key_seq().len(),
    {
        proof {
            self.lemma_keys();
        }
        self.entries.len()
    }

    /// Whether the table has no key.
    pub fn is_empty(&self) -> (b: bool)
        requires
            self.wf(),
        ensures
            b == (self@ == Map::<Seq<char>, Node>::empty()),
    {
        proof {
            self.lemma_keys();
            if self.entries@.len() == 0 {
                assert(self@ =~= Map::<Seq<char>, Node>::empty());
            }
        }
        self.entries.len() == 0
    }

    /// The keys of the table, in the order in which it keeps them.
    pub fn keys(&self) -> (r: Vec<String>)
        ensures
            r@.len() == self.key_seq().len(),
            forall|i: int| 0 <= i < r@.len() ==> (#[trigger] r@[i])@ == self.key_seq()[i],
    {
        let n: usize = self.entries.len();
        let mut out: Vec<String> = Vec::new();
        let mut i: usize = 0;
        while i < n
            invariant
                i <= n,
                n == self.entries@.len(),
                out@.len() == i,
                forall|j: int| 0 <= j < i ==> (#[trigger] out@[j])@ == self.entries@[j].key@,
            decreases n - i,
        {
            out.push(self.entries[i].key.clone());
            i += 1;
        }
        out
    }

    /// The position at which the table keeps `key`.
    pub(crate) fn position(&self, key: &str) -> (r: Option<usize>)
        ensures
            match r {
                Some(i) => i < self.entries@.len() && self.entries@[i as int].key@ == key@,
                None => !self@.dom().contains(key@),
            },
    {
        let n: usize = self.entries.len();
        let mut i: usize = 0;
        while i < n
            invariant
                i <= n,
                n == self.entries@.len(),
                forall|j: int| 0 <= j < i ==> (#[trigger] self.entries@[j]).key@ != key@,
            decreases n - i,
        {
            if same_text(self.entries[i].key.as_str(), key) {
                return Some(i);
            }
            i += 1;
        }
        None
    }

    /// Whether the table has `key`.
    pub fn contains_key(&self, key: &str) -> (b: bool)
        ensures
            b == self@.dom().contains(key@),
    {
        match self.position(key) {
            Some(i) => {
                proof {
                    self.lemma_dom(key@);
                }
                true
            },
            None => false,
        }
    }

    /// The value stored under `key`.
    pub fn get(&self, key: &str) -> (r: Option<&Item>)
        requires
            self.wf(),
        ensures
            match r {
                Some(v) => self@.dom().contains(key@) && v@ == self@[key@] && v.wf(),
                None => !self@.dom().contains(key@),
            },
    {
        match self.position(key) {
            Some(i) => {
                proof {
                    self.lemma_entry(i as int);
                }
                Some(&self.entries[i].value)
            },
            None => None,
        }
    }

    /// Stores `value` under `key`, in place of what was there.
    pub fn insert(&mut self, key: String, value: Item)
        requires
            old(self).wf(),
            value.wf(),
        ensures
            final(self).wf(),
            final(self)@ == old(self)@.insert(key@, value@),
    {
        let ghost before = *self;
        let ghost k = key@;
        let ghost v = value@;
        match self.position(key.as_str()) {
            Some(i) => {
                self.entries.set(i, Entry { key, value });
                proof {
                    self.lemma_replaced(before, i as int);
                }
            },
            None => {
                self.entries.push(Entry { key, value });
                proof {
                    let n = before.entries@.len() as int;
                    assert forall|a: int, b: int|
                        0 <= a < self.key_seq().len() && 0 <= b < self.key_seq().len() && a != b implies
                        self.key_seq()[a] != self.key_seq()[b] by {
                        if a == n {
                            assert(before.key_seq()[b] == self.key_seq()[b]);
                        } else if b == n {
                            assert(before.key_seq()[a] == self.key_seq()[a]);
                        } else {
                            assert(before.key_seq()[a] == self.key_seq()[a]);
                            assert(before.key_seq()[b] == self.key_seq()[b]);
                        }
                    }
                    self.lemma_entry(n);
                    assert forall|q: Seq<char>| self@.dom().contains(q) <==> before@.insert(
                        k,
                        v,
                    ).dom().contains(q) by {
                        if self.key_seq().contains(q) {
                            let j = self.key_seq().index_of(q);
                            if j != n {
                                assert(before.key_seq()[j] == q);
                            }
                        }
                        if before.key_seq().contains(q) {
                            let j = before.key_seq().index_of(q);
                            assert(self.key_seq()[j] == q);
                        }
                    }
                    assert forall|q: Seq<char>| self@.dom().contains(q) implies #[trigger] self@[q]
                        == before@.insert(k, v)[q] by {
                        let j = self.key_seq().index_of(q);
                        if j != n {
                            before.lemma_entry(j);
                        }
                    }
                }
            },
        }
    }
}

impl Default for Table {
    /// An empty table.
    fn default() -> (t: Table)
        ensures
            t.wf(),
            t@ == Map::<Seq<char>, Node>::empty(),
    {
        Table::new()
    }
}

impl Clone for Item {
    /// A copy of the whole tree below the value.
    fn clone(&self) -> (r: Self)
        ensures
            r@ == self@,
            self.wf() ==> r.wf(),
        decreases self,
    {
        match self {
            Item::String(s) => Item::String(s.clone()),
            Item::Integer(i) => Item::Integer(*i),
            Item::Float(s) => Item::Float(s.clone()),
            Item::Boolean(b) => Item::Boolean(*b),
            Item::Array(items) => {
                let n: usize = items.len();
                let mut out: Vec<Item> = Vec::new();
                let mut i: usize = 0;
                while i < n
                    invariant
                        i <= n,
                        n == items@.len(),
                        out@.len() == i,
                        forall|k: int| 0 <= k < n ==> decreases_to!(self => #[trigger] items@[k]),
                        forall|j: int| 0 <= j < i ==> (#[trigger] out@[j])@ == items@[j]@,
                        forall|j: int| 0 <= j < i && items@[j].wf() ==> (#[trigger] out@[j]).wf(),
                    decreases n - i,
                {
                    out.push(items[i].clone());
                    i += 1;
                }
                let r = Item::Array(out);
                proof {
                    lemma_array_view(*items);
                    assert(r@->Array_0 =~= self@->Array_0);
                }
                r
            },
            Item::Table(t) => Item::Table(t.clone()),
        }
    }
}

impl Clone for Table {
    /// A copy of the table and of every tree below it.
    fn clone(&self) -> (r: Self)
        ensures
            r@ == self@,
            self.wf() ==> r.wf(),
        decreases self,
    {
        let n: usize = self.entries.len();
        let mut out: Vec<Entry> = Vec::new();
        let mut i: usize = 0;
        while i < n
            invariant
                i <= n,
                n == self.entries@.len(),
                out@.len() == i,
                forall|j: int| 0 <= j < i ==> (#[trigger] out@[j]).key@ == self.entries@[j].key@,
                forall|j: int| 0 <= j < i ==> (#[trigger] out@[j]).value@ == self.entries@[j].value@,
                forall|j: int|
                    0 <= j < i && self.entries@[j].value.wf() ==> (#[trigger] out@[j]).value.wf(),
            decreases n - i,
        {
            let entry = &self.entries[i];
            out.push(Entry { key: entry.key.clone(), value: entry.value.clone() });
            i += 1;
        }
        let r = Table { entries: out };
        proof {
            assert(r.key_seq() =~= self.key_seq());
        }
        r
    }
}

} // verus!
