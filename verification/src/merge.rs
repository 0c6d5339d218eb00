//! Right-biased deep merge of two tables.

use crate::tree::Item;
use crate::tree::Node;
use crate::tree::Table;
use vstd::prelude::*;

verus! {

/// What merging `overlay` over `base` leaves at one place of the tree. Two
/// tables give the table of every key of either: a key of `overlay` alone has
/// the overlay's node, a key of `base` alone the base's, and a key of both
/// what merging leaves of the two nodes. In every other case the overlay's
/// node stands.
pub open spec fn merge_nodes(base: Node, overlay: Node) -> Node
    decreases overlay,
{
    match (base, overlay) {
        (Node::Table(b), Node::Table(o)) => Node::Table(
            Map::new(
                |k: Seq<char>| b.dom().contains(k) || o.dom().contains(k),
                |k: Seq<char>|
                    if o.dom().contains(k) {
                        if b.dom().contains(k) {
                            merge_nodes(b[k], o[k])
                        } else {
                            o[k]
                        }
                    } else {
                        b[k]
                    },
            ),
        ),
        _ => overlay,
    }
}

/// The merge of two tables: `merge_nodes` of the two as table nodes.
pub open spec fn merge_tables(base: Map<Seq<char>, Node>, overlay: Map<Seq<char>, Node>) -> Map<
    Seq<char>,
    Node,
> {
    merge_nodes(Node::Table(base), Node::Table(overlay))->Table_0
}

/// What `merge_tables` holds, key by key.
pub proof fn lemma_merge_tables(base: Map<Seq<char>, Node>, overlay: Map<Seq<char>, Node>)
    ensures
        merge_tables(base, overlay).dom() == base.dom().union(overlay.dom()),
        forall|k: Seq<char>|
            overlay.dom().contains(k) && base.dom().contains(k) ==> #[trigger] merge_tables(
                base,
                overlay,
            )[k] == merge_nodes(base[k], overlay[k]),
        forall|k: Seq<char>|
            overlay.dom().contains(k) && !base.dom().contains(k) ==> #[trigger] merge_tables(
                base,
                overlay,
            )[k] == overlay[k],
        forall|k: Seq<char>|
            !overlay.dom().contains(k) && base.dom().contains(k) ==> #[trigger] merge_tables(
                base,
                overlay,
            )[k] == base[k],
{
}

/// Merging one key more into a table: the key gets the overlay's node, merged
/// with the base's where the base has the key.
pub proof fn lemma_merge_step(
    base: Map<Seq<char>, Node>,
    overlay: Map<Seq<char>, Node>,
    k: Seq<char>,
    v: Node,
)
    requires
        !overlay.dom().contains(k),
    ensures
        merge_tables(base, overlay.insert(k, v)) == merge_tables(base, overlay).insert(
            k,
            if base.dom().contains(k) {
                merge_nodes(base[k], v)
            } else {
                v
            },
        ),
{
}

/// Merging an empty overlay changes nothing.
pub proof fn lemma_merge_empty_overlay(base: Map<Seq<char>, Node>)
    ensures
        merge_tables(base, Map::empty()) == base,
{
}

/// Merging over an empty base gives the overlay, with all that is below it.
pub proof fn lemma_merge_empty_base(overlay: Map<Seq<char>, Node>)
    ensures
        merge_tables(Map::empty(), overlay) == overlay,
{
}

/// The merge is right-biased: under a key of the overlay, the overlay's node
/// stands, unless both sides hold a table there.
pub proof fn lemma_merge_right_biased(
    base: Map<Seq<char>, Node>,
    overlay: Map<Seq<char>, Node>,
    k: Seq<char>,
)
    requires
        overlay.dom().contains(k),
        base.dom().contains(k) ==> !(base[k] is Table && overlay[k] is Table),
    ensures
        merge_tables(base, overlay).dom().contains(k),
        merge_tables(base, overlay)[k] == overlay[k],
{
    lemma_merge_tables(base, overlay);
}

/// Two tables under one key are merged in turn.
pub proof fn lemma_merge_recurses(
    base: Map<Seq<char>, Node>,
    overlay: Map<Seq<char>, Node>,
    k: Seq<char>,
)
    requires
        base.dom().contains(k),
        overlay.dom().contains(k),
        base[k] is Table,
        overlay[k] is Table,
    ensures
        merge_tables(base, overlay).dom().contains(k),
        merge_tables(base, overlay)[k] == Node::Table(
            merge_tables(base[k]->Table_0, overlay[k]->Table_0),
        ),
{
}

/// A key that the overlay does not have keeps the node of the base.
pub proof fn lemma_merge_keeps(
    base: Map<Seq<char>, Node>,
    overlay: Map<Seq<char>, Node>,
    k: Seq<char>,
)
    requires
        base.dom().contains(k),
        !overlay.dom().contains(k),
    ensures
        merge_tables(base, overlay).dom().contains(k),
        merge_tables(base, overlay)[k] == base[k],
{
}

/// Merges `right` into `left`, key by key: a key that only `right` has is
/// copied with all below it, two tables under one key are merged in turn, and
/// in every other case the value of `right` takes the place of that of `left`.
/// Keys that only `left` has stay as they are.
pub fn merge_toml(left: &mut Table, right: &Table)
    requires
        old(left).wf(),
        right.wf(),
    ensures
        final(left).wf(),
        final(left)@ == merge_tables(old(left)@, right@),
    decreases right,
{
    let ghost base = left@;
    let n: usize = right.entries.len();
    let mut i: usize = 0;
    while i < n
        invariant
            i <= n,
            n == right.entries@.len(),
            right.wf(),
            left.wf(),
            left@ == merge_tables(base, right.prefix(i as int)),
        decreases n - i,
    {
        let key = &right.entries[i].key;
        let value = &right.entries[i].value;
        let ghost before = *left;
        proof {
            right.lemma_prefix_step(i as int);
            lemma_merge_step(base, right.prefix(i as int), key@, value@);
        }
        match value {
            Item::Table(sub_right) => {
                match left.position(key.as_str()) {
                    Some(p) => {
                        let slot = &mut left.entries[p].value;
                        match slot {
                            Item::Table(sub_left) => {
                                merge_toml(sub_left, sub_right);
                            },
                            _ => {
                                *slot = value.clone();
                            },
                        }
                        proof {
                            before.lemma_entry(p as int);
                            left.lemma_replaced(before, p as int);
                        }
                    },
                    None => {
                        left.insert(key.clone(), value.clone());
                    },
                }
            },
            _ => {
                left.insert(key.clone(), value.clone());
            },
        }
        i += 1;
    }
    proof {
        right.lemma_prefix_ends();
    }
}

} // verus!
