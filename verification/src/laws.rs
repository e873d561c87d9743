//! What holds of lookup and of enumeration after insertion, for every store
//! and every key.
use vstd::prelude::*;
use vstd::multiset::group_multiset_axioms;
use crate::slot::{Slot, is_payload};
use crate::model::TrieView;
use crate::shape::Place;
use crate::resident::replaced_payloads;

verus! {

/// Along the path of its key, an inserted item is what a lookup finds.
proof fn lemma_insert_from_then_lookup(
    v: TrieView,
    item: u32,
    key: spec_fn(u32) -> bool,
    lookup: spec_fn(u32, u32) -> bool,
    node: int,
    i: u32,
)
    requires
        v.wf(),
        is_payload(item),
        0 <= node < v.nodes.len(),
        i < v.depth,
    ensures
        v.insert_from(item, key, lookup, node, i).0.lookup_from(key, node, i) == Some(item),
    decreases v.depth - i,
{
    let side = key(i);
    let slot = v.nodes[node].child(side);
    let after = v.insert_from(item, key, lookup, node, i).0;
    assert(v.slot_ok(node, slot));
    if i + 1 < v.depth {
        let next = (i + 1) as u32;
        match slot {
            Slot::Empty => {},
            Slot::Leaf(m) => {
                let grown = v.split(node, side, m, lookup(m, next));
                let fresh = v.nodes.len() as int;
                v.lemma_split_wf(node, side, m, lookup(m, next));
                grown.lemma_insert_from_frame(item, key, lookup, fresh, next);
                lemma_insert_from_then_lookup(grown, item, key, lookup, fresh, next);
                assert(after.nodes[node] == grown.nodes[node]);
            },
            Slot::Node(c) => {
                v.lemma_insert_from_frame(item, key, lookup, c as int, next);
                lemma_insert_from_then_lookup(v, item, key, lookup, c as int, next);
                assert(after.nodes[node] == v.nodes[node]);
            },
        }
    }
}

/// A lookup reads its key below the depth bound only.
proof fn lemma_lookup_reads_prefix(
    v: TrieView,
    a: spec_fn(u32) -> bool,
    b: spec_fn(u32) -> bool,
    node: int,
    i: u32,
)
    requires
        forall|j: u32| j < v.depth ==> #[trigger] a(j) == b(j),
    ensures
        v.lookup_from(a, node, i) == v.lookup_from(b, node, i),
    decreases v.depth - i,
{
    if i < v.depth {
        match v.nodes[node].child(a(i)) {
            Slot::Node(c) => {
                lemma_lookup_reads_prefix(v, a, b, c as int, (i + 1) as u32);
            },
            _ => {},
        }
    }
}

/// Where a lookup finds `first` and the lookup function sends `first` down
/// the path of the key at every level, an insertion under that key pushes
/// `first` ahead of it to the last level and replaces it there.
proof fn lemma_insert_from_dislodges(
    v: TrieView,
    first: u32,
    second: u32,
    key: spec_fn(u32) -> bool,
    lookup: spec_fn(u32, u32) -> bool,
    node: int,
    i: u32,
)
    requires
        v.wf(),
        0 <= node < v.nodes.len(),
        i < v.depth,
        v.lookup_from(key, node, i) == Some(first),
        forall|j: u32| j < v.depth ==> lookup(first, j) == #[trigger] key(j),
    ensures
        v.insert_from(second, key, lookup, node, i).1 == Some(first),
    decreases v.depth - i,
{
    let side = key(i);
    let slot = v.nodes[node].child(side);
    assert(v.slot_ok(node, slot));
    let next = (i + 1) as u32;
    if i + 1 < v.depth {
        match slot {
            Slot::Empty => {},
            Slot::Leaf(m) => {
                let grown = v.split(node, side, m, lookup(m, next));
                let fresh = v.nodes.len() as int;
                v.lemma_split_wf(node, side, m, lookup(m, next));
                assert(grown.nodes[fresh].child(key(next)) == Slot::Leaf(first));
                assert(grown.lookup_from(key, fresh, next) == Some(first));
                lemma_insert_from_dislodges(grown, first, second, key, lookup, fresh, next);
            },
            Slot::Node(c) => {
                lemma_insert_from_dislodges(v, first, second, key, lookup, c as int, next);
            },
        }
    } else {
        match slot {
            Slot::Node(c) => {
                assert(v.lookup_from(key, c as int, next) == None::<u32>);
            },
            _ => {},
        }
    }
}

/// Round trip: right after `item` was inserted under a key, a lookup under
/// that key finds `item`, whatever the store held before.
pub proof fn law_insert_then_get(
    v: TrieView,
    item: u32,
    key: spec_fn(u32) -> bool,
    lookup: spec_fn(u32, u32) -> bool,
)
    requires
        v.wf(),
        is_payload(item),
    ensures
        v.insert(item, key, lookup).0.wf(),
        v.insert(item, key, lookup).0.get(key) == Some(item),
{
    v.lemma_insert_from_frame(item, key, lookup, 0, 0);
    lemma_insert_from_then_lookup(v, item, key, lookup, 0, 0);
}

/// Persistence: an item that is found under its key is still found under it
/// after another item was inserted, when the two keys differ at some level
/// below the depth bound and the lookup function recovers the key of the
/// item that was there.
pub proof fn law_insert_keeps_others(
    v: TrieView,
    kept: u32,
    kept_key: spec_fn(u32) -> bool,
    item: u32,
    key: spec_fn(u32) -> bool,
    lookup: spec_fn(u32, u32) -> bool,
)
    requires
        v.tree(),
        is_payload(item),
        v.get(kept_key) == Some(kept),
        forall|j: u32| j < v.depth ==> lookup(kept, j) == #[trigger] kept_key(j),
        exists|j: u32| j < v.depth && #[trigger] kept_key(j) != key(j),
    ensures
        v.insert(item, key, lookup).0.get(kept_key) == Some(kept),
        v.insert(item, key, lookup).0.get(key) == Some(item),
{
    v.lemma_insert_keeps(kept, kept_key, item, key, lookup);
    law_insert_then_get(v, item, key, lookup);
}

/// Overwrite at the depth bound: when `second` is inserted under a key that
/// agrees at every level with the key of `first`, inserted just before, and
/// the lookup function recovers that key for `first`, then the second
/// insertion returns `first`, and a lookup under the key finds `second`.
pub proof fn law_same_key_replaces(
    v: TrieView,
    first: u32,
    first_key: spec_fn(u32) -> bool,
    first_lookup: spec_fn(u32, u32) -> bool,
    second: u32,
    second_key: spec_fn(u32) -> bool,
    second_lookup: spec_fn(u32, u32) -> bool,
)
    requires
        v.wf(),
        is_payload(first),
        is_payload(second),
        forall|j: u32| j < v.depth ==> #[trigger] first_key(j) == second_key(j),
        forall|j: u32| j < v.depth ==> second_lookup(first, j) == #[trigger] first_key(j),
    ensures
        ({
            let once = v.insert(first, first_key, first_lookup).0;
            let twice = once.insert(second, second_key, second_lookup);
            &&& twice.1 == Some(first)
            &&& twice.0.get(second_key) == Some(second)
        }),
{
    let once = v.insert(first, first_key, first_lookup).0;
    law_insert_then_get(v, first, first_key, first_lookup);
    v.lemma_insert_from_frame(first, first_key, first_lookup, 0, 0);
    lemma_lookup_reads_prefix(once, first_key, second_key, 0, 0);
    assert forall|j: u32| j < once.depth implies second_lookup(first, j) == #[trigger] second_key(
        j,
    ) by {
        assert(first_key(j) == second_key(j));
    }
    lemma_insert_from_dislodges(once, first, second, second_key, second_lookup, 0, 0);
    law_insert_then_get(once, second, second_key, second_lookup);
}

/// The store only grows: an insertion keeps the store a valid tree with the
/// same depth bound, removes no node, and adds at most one node for each
/// level below the last.
pub proof fn law_store_only_grows(
    v: TrieView,
    item: u32,
    key: spec_fn(u32) -> bool,
    lookup: spec_fn(u32, u32) -> bool,
)
    requires
        v.tree(),
        is_payload(item),
    ensures
        ({
            let after = v.insert(item, key, lookup).0;
            &&& after.tree()
            &&& after.depth == v.depth
            &&& v.nodes.len() <= after.nodes.len() <= v.nodes.len() + v.depth - 1
        }),
{
    v.lemma_insert_tree(item, key, lookup);
    v.lemma_insert_from_frame(item, key, lookup, 0, 0);
}

/// Enumeration is complete: a traversal of a tree yields exactly the
/// payloads that reside in its slots, each as often as it resides.
pub proof fn law_items_are_residents(v: TrieView)
    requires
        v.tree(),
    ensures
        v.items().to_multiset() == v.residents(),
{
    v.lemma_items_are_residents();
}

/// An insertion adds the item to what the enumeration yields and takes away
/// the payload that it replaced, if any, and nothing else.
pub proof fn law_insert_changes_items(
    v: TrieView,
    item: u32,
    key: spec_fn(u32) -> bool,
    lookup: spec_fn(u32, u32) -> bool,
)
    requires
        v.tree(),
        is_payload(item),
    ensures
        ({
            let done = v.insert(item, key, lookup);
            &&& done.0.tree()
            &&& done.0.items().to_multiset().add(replaced_payloads(done.1))
                == v.items().to_multiset().insert(item)
        }),
{
    let done = v.insert(item, key, lookup);
    let places = choose|places: Seq<Place>| v.shaped(places);
    v.lemma_insert_tree(item, key, lookup);
    v.lemma_insert_from_residents(places, item, key, lookup, 0, 0);
    v.lemma_items_are_residents();
    done.0.lemma_items_are_residents();
    assert(done.0.items().to_multiset().add(replaced_payloads(done.1))
        =~= v.items().to_multiset().insert(item));
}

/// The order of insertion does not show in what is enumerated: where two
/// items are inserted one after the other and neither insertion replaces
/// anything, either order yields the payloads of before and the two items.
pub proof fn law_insertion_order(
    v: TrieView,
    a: u32,
    a_key: spec_fn(u32) -> bool,
    b: u32,
    b_key: spec_fn(u32) -> bool,
    lookup: spec_fn(u32, u32) -> bool,
)
    requires
        v.tree(),
        is_payload(a),
        is_payload(b),
        v.insert(a, a_key, lookup).1 is None,
        v.insert(a, a_key, lookup).0.insert(b, b_key, lookup).1 is None,
        v.insert(b, b_key, lookup).1 is None,
        v.insert(b, b_key, lookup).0.insert(a, a_key, lookup).1 is None,
    ensures
        ({
            let a_first = v.insert(a, a_key, lookup).0.insert(b, b_key, lookup).0;
            let b_first = v.insert(b, b_key, lookup).0.insert(a, a_key, lookup).0;
            &&& a_first.items().to_multiset() == v.items().to_multiset().insert(a).insert(b)
            &&& b_first.items().to_multiset() == a_first.items().to_multiset()
        }),
{
    broadcast use group_multiset_axioms;

    let with_a = v.insert(a, a_key, lookup).0;
    let with_b = v.insert(b, b_key, lookup).0;
    let a_first = with_a.insert(b, b_key, lookup).0;
    let b_first = with_b.insert(a, a_key, lookup).0;
    law_insert_changes_items(v, a, a_key, lookup);
    law_insert_changes_items(with_a, b, b_key, lookup);
    law_insert_changes_items(v, b, b_key, lookup);
    law_insert_changes_items(with_b, a, a_key, lookup);
    assert(with_a.items().to_multiset() =~= v.items().to_multiset().insert(a));
    assert(with_b.items().to_multiset() =~= v.items().to_multiset().insert(b));
    assert(a_first.items().to_multiset() =~= v.items().to_multiset().insert(a).insert(b));
    assert(b_first.items().to_multiset() =~= v.items().to_multiset().insert(b).insert(a));
    assert(b_first.items().to_multiset() =~= a_first.items().to_multiset());
}

} // verus!
