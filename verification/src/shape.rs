//! The shape of the store: it is a tree. Every node but the root hangs in
//! exactly one slot, one level below the node that holds the slot, and no
//! node lies at or beyond the depth bound.
use vstd::prelude::*;
use crate::slot::{Slot, is_payload};
use crate::model::{NodeView, TrieView};

verus! {

/// Where a node hangs: its level, its parent, and the side of the parent.
pub ghost struct Place {
    pub level: nat,
    pub up: int,
    pub side: bool,
}

impl TrieView {
    /// `places` says for every node where it hangs: the root at level 0,
    /// every other node in the slot of its parent that refers to it, one
    /// level below the parent and above the depth bound, and every slot that
    /// refers to a node is the slot that the node hangs in.
    pub open spec fn shaped(self, places: Seq<Place>) -> bool {
        &&& places.len() == self.nodes.len()
        &&& places[0].level == 0
        &&& forall|n: int| 0 <= n < self.nodes.len() ==> (#[trigger] places[n]).level < self.depth
        &&& forall|n: int|
            1 <= n < self.nodes.len() ==> {
                &&& 0 <= (#[trigger] places[n]).up < n
                &&& self.nodes[places[n].up].child(places[n].side) == Slot::Node(n as nat)
                &&& places[n].level == places[places[n].up].level + 1
            }
        &&& forall|n: int, s: bool|
            0 <= n < self.nodes.len() ==> (#[trigger] self.nodes[n].child(s) matches Slot::Node(c)
                ==> places[c as int].up == n && places[c as int].side == s)
    }

    /// The store is in order and is a tree.
    pub open spec fn tree(self) -> bool {
        self.wf() && exists|places: Seq<Place>| self.shaped(places)
    }

    /// A fresh store is a tree.
    pub proof fn lemma_fresh_tree(depth: u32)
        requires
            depth >= 1,
        ensures
            Self::fresh(depth).tree(),
    {
        let places = seq![Place { level: 0, up: -1, side: false }];
        assert(Self::fresh(depth).shaped(places));
    }

    /// Writing a payload over a slot that refers to no node keeps the shape.
    pub proof fn lemma_put_leaf_shaped(self, places: Seq<Place>, node: int, side: bool, item: u32)
        requires
            self.wf(),
            self.shaped(places),
            0 <= node < self.nodes.len(),
            !(self.nodes[node].child(side) is Node),
        ensures
            self.put(node, side, Slot::Leaf(item)).shaped(places),
    {
        let after = self.put(node, side, Slot::Leaf(item));
        assert forall|n: int| 1 <= n < after.nodes.len() implies {
            &&& 0 <= (#[trigger] places[n]).up < n
            &&& after.nodes[places[n].up].child(places[n].side) == Slot::Node(n as nat)
            &&& places[n].level == places[places[n].up].level + 1
        } by {
            assert(self.nodes[places[n].up].child(places[n].side) == Slot::Node(n as nat));
        }
        assert forall|n: int, s: bool| 0 <= n < after.nodes.len() implies (
        #[trigger] after.nodes[n].child(s) matches Slot::Node(c) ==> places[c as int].up == n
            && places[c as int].side == s) by {
            if after.nodes[n].child(s) is Node {
                assert(after.nodes[n].child(s) == self.nodes[n].child(s));
            }
        }
    }

    /// Splitting a leaf above the last level keeps the shape: the new node
    /// hangs in the slot that held the leaf.
    pub proof fn lemma_split_shaped(
        self,
        places: Seq<Place>,
        node: int,
        side: bool,
        m: u32,
        m_side: bool,
    )
        requires
            self.wf(),
            self.shaped(places),
            0 <= node < self.nodes.len(),
            self.nodes[node].child(side) == Slot::Leaf(m),
            places[node].level + 1 < self.depth,
        ensures
            self.split(node, side, m, m_side).shaped(
                places.push(Place { level: places[node].level + 1, up: node, side }),
            ),
    {
        let after = self.split(node, side, m, m_side);
        let fresh = self.nodes.len() as int;
        let grown = places.push(Place { level: places[node].level + 1, up: node, side });
        assert forall|n: int| 1 <= n < after.nodes.len() implies {
            &&& 0 <= (#[trigger] grown[n]).up < n
            &&& after.nodes[grown[n].up].child(grown[n].side) == Slot::Node(n as nat)
            &&& grown[n].level == grown[grown[n].up].level + 1
        } by {
            if n < fresh {
                assert(places[n] == grown[n]);
                assert(self.nodes[places[n].up].child(places[n].side) == Slot::Node(n as nat));
            }
        }
        assert forall|n: int, s: bool| 0 <= n < after.nodes.len() implies (
        #[trigger] after.nodes[n].child(s) matches Slot::Node(c) ==> grown[c as int].up == n
            && grown[c as int].side == s) by {
            if after.nodes[n].child(s) is Node {
                if n < fresh && !(n == node && s == side) {
                    assert(after.nodes[n].child(s) == self.nodes[n].child(s));
                    assert(self.slot_ok(n, self.nodes[n].child(s)));
                }
            }
        }
        assert forall|n: int| 0 <= n < after.nodes.len() implies (#[trigger] grown[n]).level
            < after.depth by {
            if n < fresh {
                assert(places[n] == grown[n]);
            }
        }
    }

    /// An insertion that starts at a node with the key bit of the node's
    /// level keeps the store a tree.
    pub proof fn lemma_insert_from_shaped(
        self,
        places: Seq<Place>,
        item: u32,
        key: spec_fn(u32) -> bool,
        lookup: spec_fn(u32, u32) -> bool,
        node: int,
        i: u32,
    ) -> (grown: Seq<Place>)
        requires
            self.wf(),
            self.shaped(places),
            is_payload(item),
            0 <= node < self.nodes.len(),
            places[node].level == i,
        ensures
            self.insert_from(item, key, lookup, node, i).0.shaped(grown),
            !(self.nodes[node].child(key(i)) is Node) || i + 1 < self.depth,
        decreases self.depth - i,
    {
        let side = key(i);
        let slot = self.nodes[node].child(side);
        assert(self.slot_ok(node, slot));
        if let Slot::Node(c) = slot {
            assert(places[c as int].level == i + 1);
        }
        if i + 1 >= self.depth {
            self.lemma_put_leaf_shaped(places, node, side, item);
            places
        } else {
            let next = (i + 1) as u32;
            match slot {
                Slot::Empty => {
                    self.lemma_put_leaf_shaped(places, node, side, item);
                    places
                },
                Slot::Leaf(m) => {
                    let m_side = lookup(m, next);
                    self.lemma_split_wf(node, side, m, m_side);
                    self.lemma_split_shaped(places, node, side, m, m_side);
                    self.split(node, side, m, m_side).lemma_insert_from_shaped(
                        places.push(Place { level: places[node].level + 1, up: node, side }),
                        item,
                        key,
                        lookup,
                        self.nodes.len() as int,
                        next,
                    )
                },
                Slot::Node(c) => self.lemma_insert_from_shaped(
                    places,
                    item,
                    key,
                    lookup,
                    c as int,
                    next,
                ),
            }
        }
    }

    /// An insertion keeps a tree a tree.
    pub proof fn lemma_insert_tree(
        self,
        item: u32,
        key: spec_fn(u32) -> bool,
        lookup: spec_fn(u32, u32) -> bool,
    )
        requires
            self.tree(),
            is_payload(item),
        ensures
            self.insert(item, key, lookup).0.tree(),
    {
        let places = choose|places: Seq<Place>| self.shaped(places);
        self.lemma_insert_from_frame(item, key, lookup, 0, 0);
        let grown = self.lemma_insert_from_shaped(places, item, key, lookup, 0, 0);
    }
}

} // verus!
