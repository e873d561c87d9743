//! The payloads that reside in the store, counted slot by slot, and the
//! proof that a traversal from the root yields exactly these.
use vstd::prelude::*;
use vstd::multiset::{Multiset, group_multiset_axioms};
use vstd::seq_lib::lemma_multiset_commutative;
use crate::slot::{Slot, is_payload};
use crate::model::{NodeView, TrieView};
use crate::shape::Place;

verus! {

/// The payload in a slot, as a multiset of one or none.
pub open spec fn slot_payloads(slot: Slot) -> Multiset<u32> {
    match slot {
        Slot::Leaf(p) => Multiset::singleton(p),
        _ => Multiset::empty(),
    }
}

/// A replaced payload, as a multiset of one or none.
pub open spec fn replaced_payloads(replaced: Option<u32>) -> Multiset<u32> {
    match replaced {
        Some(p) => Multiset::singleton(p),
        None => Multiset::empty(),
    }
}

/// The sequences of no and of one payload, as multisets.
proof fn lemma_short_multisets(p: u32)
    ensures
        Seq::<u32>::empty().to_multiset() =~= Multiset::empty(),
        seq![p].to_multiset() =~= Multiset::singleton(p),
{
    broadcast use group_multiset_axioms;

    let none = Seq::<u32>::empty();
    none.to_multiset_ensures();
    assert(none.to_multiset().len() == 0);
    assert(none.to_multiset() =~= Multiset::empty()) by {
        assert forall|a: u32| none.to_multiset().count(a) == 0 by {
            assert(!none.contains(a));
        }
    }
    assert(seq![p] =~= none.push(p));
    assert(none.push(p).to_multiset() =~= none.to_multiset().insert(p));
}

impl TrieView {
    /// The payloads in the two slots of node `n`.
    pub open spec fn node_payloads(self, n: int) -> Multiset<u32> {
        slot_payloads(self.nodes[n].zero).add(slot_payloads(self.nodes[n].one))
    }

    /// The payloads in the slots of the first `m` nodes.
    pub open spec fn residents_upto(self, m: int) -> Multiset<u32>
        decreases m,
    {
        if m <= 0 {
            Multiset::empty()
        } else {
            self.residents_upto(m - 1).add(self.node_payloads(m - 1))
        }
    }

    /// The payloads that reside in the store: those in the slots of its
    /// nodes, each as often as it occurs.
    pub open spec fn residents(self) -> Multiset<u32> {
        self.residents_upto(self.nodes.len() as int)
    }

    /// What hangs in slot `s` of node `n` at or behind node `j`: the payloads
    /// that a traversal yields below the node that the slot refers to.
    pub open spec fn hang(self, n: int, s: bool, j: int) -> Multiset<u32> {
        match self.nodes[n].child(s) {
            Slot::Node(c) => if j <= c && n < c < self.nodes.len() {
                self.items_from(c as int).to_multiset()
            } else {
                Multiset::empty()
            },
            _ => Multiset::empty(),
        }
    }

    /// The payloads in the slots of the first `m` nodes, with what hangs in
    /// these slots at or behind node `j`.
    pub open spec fn cut(self, j: int, m: int) -> Multiset<u32>
        decreases m,
    {
        if m <= 0 {
            Multiset::empty()
        } else {
            self.cut(j, m - 1).add(self.node_payloads(m - 1)).add(self.hang(m - 1, false, j)).add(
                self.hang(m - 1, true, j),
            )
        }
    }

    /// Writing a slot exchanges what the slot held for what it holds now.
    pub proof fn lemma_put_residents(self, node: int, side: bool, slot: Slot, m: int)
        requires
            0 <= node < self.nodes.len(),
            0 <= m <= self.nodes.len(),
        ensures
            node < m ==> self.put(node, side, slot).residents_upto(m).add(
                slot_payloads(self.nodes[node].child(side)),
            ) =~= self.residents_upto(m).add(slot_payloads(slot)),
            node >= m ==> self.put(node, side, slot).residents_upto(m) =~= self.residents_upto(m),
        decreases m,
    {
        broadcast use group_multiset_axioms;

        if m > 0 {
            self.lemma_put_residents(node, side, slot, m - 1);
            let after = self.put(node, side, slot);
            let gone = slot_payloads(self.nodes[node].child(side));
            let come = slot_payloads(slot);
            if m - 1 != node {
                assert(after.nodes[m - 1] == self.nodes[m - 1]);
                if node < m {
                    assert forall|x: u32|
                        after.residents_upto(m).add(gone).count(x) == self.residents_upto(m).add(
                            come,
                        ).count(x) by {
                        assert(after.residents_upto(m - 1).add(gone).count(x)
                            == self.residents_upto(m - 1).add(come).count(x));
                    }
                }
            } else {
                assert(after.nodes[node] == self.nodes[node].with(side, slot));
                assert forall|x: u32|
                    after.residents_upto(m).add(gone).count(x) == self.residents_upto(m).add(
                        come,
                    ).count(x) by {
                    assert(after.node_payloads(node).add(gone).count(x) == self.node_payloads(
                        node,
                    ).add(come).count(x));
                }
            }
        }
    }

    /// A node appended to the store changes nothing in the nodes before it.
    pub proof fn lemma_push_residents(self, last: NodeView, m: int)
        requires
            0 <= m <= self.nodes.len(),
        ensures
            (TrieView { nodes: self.nodes.push(last), ..self }).residents_upto(m)
                =~= self.residents_upto(m),
        decreases m,
    {
        if m > 0 {
            self.lemma_push_residents(last, m - 1);
        }
    }

    /// Splitting a leaf moves its payload and changes no resident.
    pub proof fn lemma_split_residents(self, node: int, side: bool, m: u32, m_side: bool)
        requires
            0 <= node < self.nodes.len(),
            self.nodes[node].child(side) == Slot::Leaf(m),
        ensures
            self.split(node, side, m, m_side).residents() =~= self.residents(),
    {
        broadcast use group_multiset_axioms;

        let last = NodeView::empty().with(m_side, Slot::Leaf(m));
        let grown = TrieView { nodes: self.nodes.push(last), ..self };
        let len = self.nodes.len() as int;
        self.lemma_push_residents(last, len);
        assert(grown.nodes[len] == last);
        assert(grown.node_payloads(len) =~= Multiset::singleton(m));
        assert(grown.residents_upto(len + 1) =~= self.residents().add(Multiset::singleton(m)));
        assert(grown.nodes[node] == self.nodes[node]);
        grown.lemma_put_residents(node, side, Slot::Node(len as nat), len + 1);
        let after = self.split(node, side, m, m_side);
        assert(after.nodes.len() == len + 1);
        assert forall|x: u32| after.residents().count(x) == self.residents().count(x) by {
            assert(after.residents_upto(len + 1).add(Multiset::singleton(m)).count(x)
                == grown.residents_upto(len + 1).add(Multiset::empty()).count(x));
        }
    }

    /// An insertion into a tree adds the item to the residents and takes
    /// away what it replaced.
    pub proof fn lemma_insert_from_residents(
        self,
        places: Seq<Place>,
        item: u32,
        key: spec_fn(u32) -> bool,
        lookup: spec_fn(u32, u32) -> bool,
        node: int,
        i: u32,
    )
        requires
            self.wf(),
            self.shaped(places),
            is_payload(item),
            0 <= node < self.nodes.len(),
            places[node].level == i,
        ensures
            ({
                let done = self.insert_from(item, key, lookup, node, i);
                done.0.residents().add(replaced_payloads(done.1)) =~= self.residents().insert(item)
            }),
        decreases self.depth - i,
    {
        broadcast use group_multiset_axioms;

        let side = key(i);
        let slot = self.nodes[node].child(side);
        let len = self.nodes.len() as int;
        assert(self.slot_ok(node, slot));
        if let Slot::Node(c) = slot {
            assert(places[c as int].level == i + 1);
        }
        if i + 1 >= self.depth {
            self.lemma_put_residents(node, side, Slot::Leaf(item), len);
        } else {
            let next = (i + 1) as u32;
            match slot {
                Slot::Empty => {
                    self.lemma_put_residents(node, side, Slot::Leaf(item), len);
                },
                Slot::Leaf(m) => {
                    let m_side = lookup(m, next);
                    self.lemma_split_wf(node, side, m, m_side);
                    self.lemma_split_shaped(places, node, side, m, m_side);
                    self.lemma_split_residents(node, side, m, m_side);
                    self.split(node, side, m, m_side).lemma_insert_from_residents(
                        places.push(Place { level: places[node].level + 1, up: node, side }),
                        item,
                        key,
                        lookup,
                        len,
                        next,
                    );
                },
                Slot::Node(c) => {
                    self.lemma_insert_from_residents(places, item, key, lookup, c as int, next);
                },
            }
        }
    }

    /// What a traversal yields below a node: the payloads in its slots and
    /// what hangs in them.
    pub proof fn lemma_items_from_payloads(self, n: int, j: int)
        requires
            self.wf(),
            0 <= n < self.nodes.len(),
            j <= n + 1,
        ensures
            self.items_from(n).to_multiset() =~= self.node_payloads(n).add(
                self.hang(n, false, j),
            ).add(self.hang(n, true, j)),
    {
        broadcast use group_multiset_axioms;

        let zero = self.nodes[n].child(false);
        let one = self.nodes[n].child(true);
        assert(self.slot_ok(n, zero));
        assert(self.slot_ok(n, one));
        lemma_multiset_commutative(self.items_under(n, zero), self.items_under(n, one));
        assert(self.items_under(n, zero).to_multiset() =~= slot_payloads(zero).add(
            self.hang(n, false, j),
        )) by {
            match zero {
                Slot::Leaf(p) => lemma_short_multisets(p),
                _ => lemma_short_multisets(0),
            }
        }
        assert(self.items_under(n, one).to_multiset() =~= slot_payloads(one).add(
            self.hang(n, true, j),
        )) by {
            match one {
                Slot::Leaf(p) => lemma_short_multisets(p),
                _ => lemma_short_multisets(0),
            }
        }
    }

    /// Moving the cut behind node `j` takes away what a traversal yields
    /// below `j`, once: in the one slot that `j` hangs in.
    pub proof fn lemma_cut_step(self, places: Seq<Place>, j: int, m: int)
        requires
            self.wf(),
            self.shaped(places),
            1 <= j < self.nodes.len(),
            0 <= m <= j,
        ensures
            self.cut(j, m) =~= self.cut(j + 1, m).add(
                if places[j].up < m {
                    self.items_from(j).to_multiset()
                } else {
                    Multiset::empty()
                },
            ),
        decreases m,
    {
        broadcast use group_multiset_axioms;

        if m > 0 {
            self.lemma_cut_step(places, j, m - 1);
            let n = m - 1;
            let up = places[j].up;
            let side = places[j].side;
            assert(self.nodes[up].child(side) == Slot::Node(j as nat));
            assert(self.slot_ok(n, self.nodes[n].child(false)));
            assert(self.slot_ok(n, self.nodes[n].child(true)));
            if n == up {
                assert(self.hang(n, side, j) =~= self.items_from(j).to_multiset());
                assert(self.hang(n, side, j + 1) =~= Multiset::empty());
                assert(self.hang(n, !side, j) =~= self.hang(n, !side, j + 1));
            } else {
                assert(self.hang(n, false, j) =~= self.hang(n, false, j + 1));
                assert(self.hang(n, true, j) =~= self.hang(n, true, j + 1));
            }
        }
    }

    /// With the cut behind any node, the slots before the cut and what
    /// hangs in them hold what a traversal from the root yields.
    pub proof fn lemma_cut_items(self, places: Seq<Place>, j: int)
        requires
            self.wf(),
            self.shaped(places),
            1 <= j <= self.nodes.len(),
        ensures
            self.cut(j, j) =~= self.items().to_multiset(),
        decreases j,
    {
        broadcast use group_multiset_axioms;

        if j == 1 {
            self.lemma_items_from_payloads(0, 1);
            assert(self.cut(1, 0) =~= Multiset::empty());
        } else {
            self.lemma_cut_items(places, j - 1);
            self.lemma_cut_step(places, j - 1, j - 1);
            self.lemma_items_from_payloads(j - 1, j);
        }
    }

    /// With the cut behind the last node nothing hangs behind it.
    pub proof fn lemma_cut_residents(self, m: int)
        requires
            self.wf(),
            0 <= m <= self.nodes.len(),
        ensures
            self.cut(self.nodes.len() as int, m) =~= self.residents_upto(m),
        decreases m,
    {
        broadcast use group_multiset_axioms;

        if m > 0 {
            self.lemma_cut_residents(m - 1);
            assert(self.slot_ok(m - 1, self.nodes[m - 1].child(false)));
            assert(self.slot_ok(m - 1, self.nodes[m - 1].child(true)));
        }
    }

    /// In a tree a traversal from the root yields the residents, each as
    /// often as it resides.
    pub proof fn lemma_items_are_residents(self)
        requires
            self.tree(),
        ensures
            self.items().to_multiset() =~= self.residents(),
    {
        let places = choose|places: Seq<Place>| self.shaped(places);
        self.lemma_cut_items(places, self.nodes.len() as int);
        self.lemma_cut_residents(self.nodes.len() as int);
    }
}

} // verus!
