//! The mathematical model of the trie: a sequence of two-way nodes, the root
//! first, and the functions that say what lookup and insertion compute on it.
use vstd::prelude::*;
use crate::slot::{Slot, is_payload};

verus! {

/// A node: what lies on the `false` side and what on the `true` side.
pub ghost struct NodeView {
    pub zero: Slot,
    pub one: Slot,
}

impl NodeView {
    /// The node with nothing on either side.
    pub open spec fn empty() -> NodeView {
        NodeView { zero: Slot::Empty, one: Slot::Empty }
    }

    /// What lies on `side`.
    pub open spec fn child(self, side: bool) -> Slot {
        if side { self.one } else { self.zero }
    }

    /// This node with `slot` on `side`.
    pub open spec fn with(self, side: bool, slot: Slot) -> NodeView {
        if side {
            NodeView { zero: self.zero, one: slot }
        } else {
            NodeView { zero: slot, one: self.one }
        }
    }
}

/// The store: its nodes in the order of their creation, and the depth bound.
pub ghost struct TrieView {
    pub nodes: Seq<NodeView>,
    pub depth: u32,
}

impl TrieView {
    /// The store of a fresh trie: one empty root.
    pub open spec fn fresh(depth: u32) -> TrieView {
        TrieView { nodes: seq![NodeView::empty()], depth }
    }

    /// `slot` is a payload without the tag bit, or refers to a node created
    /// after `node` that exists, or is empty.
    pub open spec fn slot_ok(self, node: int, slot: Slot) -> bool {
        match slot {
            Slot::Empty => true,
            Slot::Leaf(p) => is_payload(p),
            Slot::Node(c) => node < c < self.nodes.len(),
        }
    }

    /// There is a root, the depth bound is positive, and every slot is in
    /// order: children always stand behind their parent in the store.
    pub open spec fn wf(self) -> bool {
        &&& self.nodes.len() >= 1
        &&& self.depth >= 1
        &&& forall|n: int, side: bool|
            0 <= n < self.nodes.len() ==> self.slot_ok(n, #[trigger] self.nodes[n].child(side))
    }

    /// The store with `slot` written on `side` of `node`.
    pub open spec fn put(self, node: int, side: bool, slot: Slot) -> TrieView {
        TrieView { nodes: self.nodes.update(node, self.nodes[node].with(side, slot)), ..self }
    }

    /// The store after the leaf `m` on `side` of `node` gave way to a new
    /// node, appended to the store, that holds `m` on `m_side`.
    pub open spec fn split(self, node: int, side: bool, m: u32, m_side: bool) -> TrieView {
        TrieView {
            nodes: self.nodes.push(NodeView::empty().with(m_side, Slot::Leaf(m))),
            ..self
        }.put(node, side, Slot::Node(self.nodes.len()))
    }

    /// What a descent finds that starts at `node` with the key's bit `i`.
    pub open spec fn lookup_from(self, key: spec_fn(u32) -> bool, node: int, i: u32) -> Option<u32>
        decreases self.depth - i,
    {
        if i >= self.depth {
            None
        } else {
            match self.nodes[node].child(key(i)) {
                Slot::Empty => None,
                Slot::Leaf(p) => Some(p),
                Slot::Node(c) => self.lookup_from(key, c as int, (i + 1) as u32),
            }
        }
    }

    /// The payload found under `key`, if any.
    pub open spec fn get(self, key: spec_fn(u32) -> bool) -> Option<u32> {
        self.lookup_from(key, 0, 0)
    }

    /// The payload that a slot gives up when it is overwritten.
    pub open spec fn dislodged(slot: Slot) -> Option<u32> {
        match slot {
            Slot::Empty => None,
            Slot::Leaf(p) => Some(p),
            Slot::Node(c) => Some(c as u32),
        }
    }

    /// The store and the replaced payload after inserting `item` by a descent
    /// that starts at `node` with the key's bit `i`.
    ///
    /// Below the last level an empty slot takes the item, a leaf is pushed
    /// one level down into a new node (to the side that `lookup` gives for
    /// it) and the descent goes on in that node, and a node reference is
    /// followed. At the last level the slot is overwritten.
    pub open spec fn insert_from(
        self,
        item: u32,
        key: spec_fn(u32) -> bool,
        lookup: spec_fn(u32, u32) -> bool,
        node: int,
        i: u32,
    ) -> (TrieView, Option<u32>)
        decreases self.depth - i,
    {
        let side = key(i);
        let slot = self.nodes[node].child(side);
        if i + 1 >= self.depth {
            (self.put(node, side, Slot::Leaf(item)), Self::dislodged(slot))
        } else {
            let next = (i + 1) as u32;
            match slot {
                Slot::Empty => (self.put(node, side, Slot::Leaf(item)), None),
                Slot::Leaf(m) => self.split(node, side, m, lookup(m, next)).insert_from(
                    item,
                    key,
                    lookup,
                    self.nodes.len() as int,
                    next,
                ),
                Slot::Node(c) => self.insert_from(item, key, lookup, c as int, next),
            }
        }
    }

    /// The store after inserting `item` under `key`, and the payload that it
    /// replaced at the depth bound, if any.
    pub open spec fn insert(
        self,
        item: u32,
        key: spec_fn(u32) -> bool,
        lookup: spec_fn(u32, u32) -> bool,
    ) -> (TrieView, Option<u32>) {
        self.insert_from(item, key, lookup, 0, 0)
    }

    /// Writing an orderly slot keeps the store in order.
    pub proof fn lemma_put_wf(self, node: int, side: bool, slot: Slot)
        requires
            self.wf(),
            0 <= node < self.nodes.len(),
            self.slot_ok(node, slot),
        ensures
            self.put(node, side, slot).wf(),
            self.put(node, side, slot).nodes.len() == self.nodes.len(),
            self.put(node, side, slot).depth == self.depth,
    {
        let after = self.put(node, side, slot);
        assert forall|n: int, s: bool| 0 <= n < after.nodes.len() implies after.slot_ok(
            n,
            #[trigger] after.nodes[n].child(s),
        ) by {
            assert(self.slot_ok(n, self.nodes[n].child(s)));
        }
    }

    /// Splitting a leaf keeps the store in order and adds one node.
    pub proof fn lemma_split_wf(self, node: int, side: bool, m: u32, m_side: bool)
        requires
            self.wf(),
            0 <= node < self.nodes.len(),
            is_payload(m),
        ensures
            self.split(node, side, m, m_side).wf(),
            self.split(node, side, m, m_side).nodes.len() == self.nodes.len() + 1,
            self.split(node, side, m, m_side).depth == self.depth,
    {
        let grown = TrieView {
            nodes: self.nodes.push(NodeView::empty().with(m_side, Slot::Leaf(m))),
            ..self
        };
        assert forall|n: int, s: bool| 0 <= n < grown.nodes.len() implies grown.slot_ok(
            n,
            #[trigger] grown.nodes[n].child(s),
        ) by {
            if n < self.nodes.len() {
                assert(self.slot_ok(n, self.nodes[n].child(s)));
            }
        }
        grown.lemma_put_wf(node, side, Slot::Node(self.nodes.len()));
    }

    /// An insertion keeps the store in order, never removes a node, adds at
    /// most one node per level below the last, leaves the depth bound alone
    /// and touches no node before the one it starts at.
    pub proof fn lemma_insert_from_frame(
        self,
        item: u32,
        key: spec_fn(u32) -> bool,
        lookup: spec_fn(u32, u32) -> bool,
        node: int,
        i: u32,
    )
        requires
            self.wf(),
            is_payload(item),
            0 <= node < self.nodes.len(),
            i < self.depth,
        ensures
            ({
                let after = self.insert_from(item, key, lookup, node, i).0;
                &&& after.wf()
                &&& after.depth == self.depth
                &&& self.nodes.len() <= after.nodes.len() <= self.nodes.len() + (self.depth - 1 - i)
                &&& forall|n: int| 0 <= n < node ==> after.nodes[n] == self.nodes[n]
            }),
        decreases self.depth - i,
    {
        let side = key(i);
        let slot = self.nodes[node].child(side);
        assert(self.slot_ok(node, slot));
        if i + 1 >= self.depth {
            self.lemma_put_wf(node, side, Slot::Leaf(item));
        } else {
            let next = (i + 1) as u32;
            match slot {
                Slot::Empty => {
                    self.lemma_put_wf(node, side, Slot::Leaf(item));
                },
                Slot::Leaf(m) => {
                    let m_side = lookup(m, next);
                    self.lemma_split_wf(node, side, m, m_side);
                    self.split(node, side, m, m_side).lemma_insert_from_frame(
                        item,
                        key,
                        lookup,
                        self.nodes.len() as int,
                        next,
                    );
                },
                Slot::Node(c) => {
                    self.lemma_insert_from_frame(item, key, lookup, c as int, next);
                },
            }
        }
    }
}

} // verus!
