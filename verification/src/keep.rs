//! An insertion leaves every other path alone: what was found under a key
//! before is found under it after, unless the new item took its very place.
use vstd::prelude::*;
use crate::slot::{Slot, is_payload};
use crate::model::TrieView;
use crate::shape::Place;

verus! {

/// `n` is `c` or lies below `c` in the tree that `places` describes.
pub open spec fn under(places: Seq<Place>, c: int, n: int) -> bool
    decreases n,
{
    if n == c {
        true
    } else if c < n < places.len() && 0 <= places[n].up < n {
        under(places, c, places[n].up)
    } else {
        false
    }
}

impl TrieView {
    /// What lies below a node lies at the node's level or deeper.
    proof fn lemma_under_level(self, places: Seq<Place>, c: int, n: int)
        requires
            self.shaped(places),
            0 <= c,
            n < self.nodes.len(),
            under(places, c, n),
        ensures
            places[n].level >= places[c].level,
        decreases n,
    {
        if n != c {
            self.lemma_under_level(places, c, places[n].up);
        }
    }

    /// What lies below a node lies below the node's parent.
    proof fn lemma_under_parent(self, places: Seq<Place>, c: int, n: int)
        requires
            self.shaped(places),
            1 <= c < self.nodes.len(),
            n < self.nodes.len(),
            under(places, c, n),
        ensures
            under(places, places[c].up, n),
        decreases n,
    {
        let top = places[c].up;
        if n == c {
            assert(under(places, top, top));
        } else {
            self.lemma_under_parent(places, c, places[n].up);
        }
    }

    /// Two different nodes of one level have nothing below them in common.
    proof fn lemma_under_apart(self, places: Seq<Place>, a: int, b: int, n: int)
        requires
            self.shaped(places),
            1 <= a < self.nodes.len(),
            1 <= b < self.nodes.len(),
            a != b,
            places[a].level == places[b].level,
            n < self.nodes.len(),
        ensures
            !(under(places, a, n) && under(places, b, n)),
        decreases n,
    {
        if under(places, a, n) && under(places, b, n) {
            if n == a {
                self.lemma_under_level(places, b, places[a].up);
            } else if n == b {
                self.lemma_under_level(places, a, places[b].up);
            } else {
                self.lemma_under_apart(places, a, b, places[n].up);
            }
        }
    }

    /// An insertion that starts at a node leaves the other side of that
    /// node as it was.
    proof fn lemma_insert_from_other_side(
        self,
        item: u32,
        key: spec_fn(u32) -> bool,
        lookup: spec_fn(u32, u32) -> bool,
        node: int,
        i: u32,
    )
        requires
            self.wf(),
            is_payload(item),
            0 <= node < self.nodes.len(),
            i < self.depth,
        ensures
            self.insert_from(item, key, lookup, node, i).0.nodes[node].child(!key(i))
                == self.nodes[node].child(!key(i)),
    {
        let side = key(i);
        let slot = self.nodes[node].child(side);
        assert(self.slot_ok(node, slot));
        if i + 1 < self.depth {
            let next = (i + 1) as u32;
            match slot {
                Slot::Empty => {},
                Slot::Leaf(m) => {
                    let grown = self.split(node, side, m, lookup(m, next));
                    self.lemma_split_wf(node, side, m, lookup(m, next));
                    grown.lemma_insert_from_frame(item, key, lookup, self.nodes.len() as int, next);
                },
                Slot::Node(c) => {
                    self.lemma_insert_from_frame(item, key, lookup, c as int, next);
                },
            }
        }
    }

    /// An insertion that starts at a node changes, of the nodes that there
    /// were, only what lies at or below that node.
    proof fn lemma_insert_from_within(
        self,
        places: Seq<Place>,
        item: u32,
        key: spec_fn(u32) -> bool,
        lookup: spec_fn(u32, u32) -> bool,
        node: int,
        i: u32,
    )
        requires
            self.wf(),
            self.shaped(places),
            is_payload(item),
            0 <= node < self.nodes.len(),
            i < self.depth,
        ensures
            forall|n: int|
                0 <= n < self.nodes.len() && !under(places, node, n) ==> (
                #[trigger] self.insert_from(item, key, lookup, node, i).0.nodes[n])
                    == self.nodes[n],
        decreases self.depth - i,
    {
        let side = key(i);
        let slot = self.nodes[node].child(side);
        let after = self.insert_from(item, key, lookup, node, i).0;
        assert(self.slot_ok(node, slot));
        if i + 1 < self.depth {
            let next = (i + 1) as u32;
            match slot {
                Slot::Empty => {},
                Slot::Leaf(m) => {
                    let grown = self.split(node, side, m, lookup(m, next));
                    self.lemma_split_wf(node, side, m, lookup(m, next));
                    grown.lemma_insert_from_frame(item, key, lookup, self.nodes.len() as int, next);
                    assert forall|n: int|
                        0 <= n < self.nodes.len() && !under(places, node, n) implies (
                    #[trigger] after.nodes[n]) == self.nodes[n] by {
                        assert(grown.nodes[n] == self.nodes[n]);
                    }
                },
                Slot::Node(c) => {
                    let below = self.insert_from(item, key, lookup, c as int, next).0;
                    self.lemma_insert_from_within(places, item, key, lookup, c as int, next);
                    assert(after == below);
                    assert(places[c as int].up == node);
                    assert forall|n: int|
                        0 <= n < self.nodes.len() && !under(places, node, n) implies (
                    #[trigger] after.nodes[n]) == self.nodes[n] by {
                        if under(places, c as int, n) {
                            self.lemma_under_parent(places, c as int, n);
                        }
                        assert(below.nodes[n] == self.nodes[n]);
                    }
                },
            }
        }
    }

    /// A lookup that starts at a node reads only what lies at or below that
    /// node.
    proof fn lemma_lookup_within(
        self,
        places: Seq<Place>,
        other: TrieView,
        key: spec_fn(u32) -> bool,
        node: int,
        i: u32,
    )
        requires
            self.wf(),
            self.shaped(places),
            0 <= node < self.nodes.len(),
            other.depth == self.depth,
            forall|n: int|
                0 <= n < self.nodes.len() && under(places, node, n) ==> (#[trigger] other.nodes[n])
                    == self.nodes[n],
        ensures
            other.lookup_from(key, node, i) == self.lookup_from(key, node, i),
        decreases self.depth - i,
    {
        if i < self.depth {
            assert(under(places, node, node));
            assert(other.nodes[node] == self.nodes[node]);
            let slot = self.nodes[node].child(key(i));
            assert(self.slot_ok(node, slot));
            if let Slot::Node(c) = slot {
                assert forall|n: int|
                    0 <= n < self.nodes.len() && under(places, c as int, n) implies (
                #[trigger] other.nodes[n]) == self.nodes[n] by {
                    self.lemma_under_parent(places, c as int, n);
                }
                self.lemma_lookup_within(places, other, key, c as int, (i + 1) as u32);
            }
        }
    }

    /// Where a lookup from a node finds `kept`, the lookup function sends
    /// `kept` down the path of its key, and the key of a new item leaves
    /// that path at this level or below, the lookup finds `kept` after the
    /// new item was inserted.
    proof fn lemma_insert_from_keeps(
        self,
        places: Seq<Place>,
        kept: u32,
        kept_key: spec_fn(u32) -> bool,
        item: u32,
        key: spec_fn(u32) -> bool,
        lookup: spec_fn(u32, u32) -> bool,
        node: int,
        i: u32,
    )
        requires
            self.wf(),
            self.shaped(places),
            is_payload(item),
            0 <= node < self.nodes.len(),
            places[node].level == i,
            self.lookup_from(kept_key, node, i) == Some(kept),
            forall|j: u32| j < self.depth ==> lookup(kept, j) == #[trigger] kept_key(j),
            exists|j: u32| i <= j < self.depth && #[trigger] kept_key(j) != key(j),
        ensures
            self.insert_from(item, key, lookup, node, i).0.lookup_from(kept_key, node, i) == Some(
                kept,
            ),
        decreases self.depth - i,
    {
        let side = key(i);
        let slot = self.nodes[node].child(side);
        let after = self.insert_from(item, key, lookup, node, i).0;
        let len = self.nodes.len() as int;
        let next = (i + 1) as u32;
        let apart = choose|j: u32| i <= j < self.depth && #[trigger] kept_key(j) != key(j);
        assert(self.slot_ok(node, slot));
        assert(self.slot_ok(node, self.nodes[node].child(kept_key(i))));
        self.lemma_insert_from_frame(item, key, lookup, node, i);
        if kept_key(i) == side {
            assert(apart != i);
            match slot {
                Slot::Empty => {},
                Slot::Leaf(m) => {
                    let grown = self.split(node, side, m, lookup(m, next));
                    let grown_places = places.push(
                        Place { level: places[node].level + 1, up: node, side },
                    );
                    self.lemma_split_wf(node, side, m, lookup(m, next));
                    self.lemma_split_shaped(places, node, side, m, lookup(m, next));
                    assert(kept_key(next) == lookup(kept, next));
                    assert(grown.nodes[len].child(kept_key(next)) == Slot::Leaf(kept));
                    assert(grown.lookup_from(kept_key, len, next) == Some(kept));
                    assert(kept_key(apart) != key(apart));
                    grown.lemma_insert_from_keeps(
                        grown_places,
                        kept,
                        kept_key,
                        item,
                        key,
                        lookup,
                        len,
                        next,
                    );
                    grown.lemma_insert_from_frame(item, key, lookup, len, next);
                    assert(after.nodes[node] == grown.nodes[node]);
                },
                Slot::Node(c) => {
                    assert(places[c as int].level == i + 1);
                    assert(kept_key(apart) != key(apart));
                    self.lemma_insert_from_keeps(
                        places,
                        kept,
                        kept_key,
                        item,
                        key,
                        lookup,
                        c as int,
                        next,
                    );
                    self.lemma_insert_from_frame(item, key, lookup, c as int, next);
                    assert(after.nodes[node] == self.nodes[node]);
                },
            }
        } else {
            let kept_slot = self.nodes[node].child(kept_key(i));
            self.lemma_insert_from_other_side(item, key, lookup, node, i);
            assert(after.nodes[node].child(kept_key(i)) == kept_slot);
            if let Slot::Node(c1) = kept_slot {
                assert forall|n: int| 0 <= n < len && under(places, c1 as int, n) implies (
                #[trigger] after.nodes[n]) == self.nodes[n] by {
                    assert(n != node);
                    if i + 1 < self.depth {
                        match slot {
                            Slot::Empty => {},
                            Slot::Leaf(m) => {
                                let grown = self.split(node, side, m, lookup(m, next));
                                let below = grown.insert_from(item, key, lookup, len, next).0;
                                self.lemma_split_wf(node, side, m, lookup(m, next));
                                grown.lemma_insert_from_frame(item, key, lookup, len, next);
                                assert(after == below);
                                assert(below.nodes[n] == grown.nodes[n]);
                                assert(grown.nodes[n] == self.nodes[n]);
                            },
                            Slot::Node(c2) => {
                                let below = self.insert_from(item, key, lookup, c2 as int, next).0;
                                self.lemma_insert_from_within(
                                    places,
                                    item,
                                    key,
                                    lookup,
                                    c2 as int,
                                    next,
                                );
                                assert(after == below);
                                assert(places[c1 as int].side == kept_key(i));
                                assert(places[c2 as int].side == side);
                                assert(places[c1 as int].level == places[c2 as int].level);
                                self.lemma_under_apart(places, c1 as int, c2 as int, n);
                                assert(below.nodes[n] == self.nodes[n]);
                            },
                        }
                    }
                }
                self.lemma_lookup_within(places, after, kept_key, c1 as int, next);
            }
        }
    }

    /// Persistence: what is found under a key stays found under it when an
    /// item is inserted whose key differs from that key at some level below
    /// the depth bound, provided the lookup function recovers the key for
    /// what is found.
    pub proof fn lemma_insert_keeps(
        self,
        kept: u32,
        kept_key: spec_fn(u32) -> bool,
        item: u32,
        key: spec_fn(u32) -> bool,
        lookup: spec_fn(u32, u32) -> bool,
    )
        requires
            self.tree(),
            is_payload(item),
            self.get(kept_key) == Some(kept),
            forall|j: u32| j < self.depth ==> lookup(kept, j) == #[trigger] kept_key(j),
            exists|j: u32| j < self.depth && #[trigger] kept_key(j) != key(j),
        ensures
            self.insert(item, key, lookup).0.get(kept_key) == Some(kept),
    {
        let places = choose|places: Seq<Place>| self.shaped(places);
        let apart = choose|j: u32| j < self.depth && #[trigger] kept_key(j) != key(j);
        assert(0 <= apart < self.depth && kept_key(apart) != key(apart));
        self.lemma_insert_from_keeps(places, kept, kept_key, item, key, lookup, 0, 0);
    }
}

} // verus!
