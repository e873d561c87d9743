//! The full enumeration of a trie: a lazy depth-first traversal that keeps
//! its own stack.
use vstd::prelude::*;
use crate::slot::{HIGH, LOW, lemma_word_ranges};
use crate::trie::BinTrie;
use crate::walk::Frame;

verus! {

/// A traversal of every payload of a trie, resumed by each call of `next`.
pub struct Iter<'a> {
    trie: &'a BinTrie,
    indices: Vec<Frame>,
}

impl<'a> Iter<'a> {
    /// The trie that is traversed.
    pub closed spec fn trie(&self) -> BinTrie {
        *self.trie
    }

    /// The payloads still to come, in order.
    pub closed spec fn pending(&self) -> Seq<u32> {
        self.trie@.stack_items(self.indices@)
    }

    /// The trie is valid and every frame stands at one of its nodes.
    pub closed spec fn wf(&self) -> bool {
        &&& self.trie.wf()
        &&& forall|j: int|
            0 <= j < self.indices@.len() ==> (#[trigger] self.indices@[j]).0
                < self.trie@.nodes.len()
    }

    /// A traversal of `trie` that has everything still to yield.
    pub fn new(trie: &'a BinTrie) -> (iter: Self)
        requires
            trie.wf(),
        ensures
            iter.wf(),
            iter.trie() == *trie,
            iter.pending() == trie@.items(),
    {
        let mut indices: Vec<Frame> = Vec::new();
        indices.push((0, 0));
        proof {
            trie.lemma_wf();
            trie@.lemma_stack_push(Seq::<Frame>::empty(), (0usize, 0u8));
            assert(indices@ =~= Seq::<Frame>::empty().push((0usize, 0u8)));
            assert(trie@.stack_items(Seq::<Frame>::empty()) =~= Seq::<u32>::empty());
        }
        Iter { trie, indices }
    }

    /// The next payload, or `None` when every payload was yielded.
    pub fn next(&mut self) -> (item: Option<u32>)
        requires
            old(self).wf(),
        ensures
            final(self).wf(),
            final(self).trie() == old(self).trie(),
            match item {
                Some(p) => old(self).pending().len() > 0 && p == old(self).pending()[0]
                    && final(self).pending() == old(self).pending().skip(1),
                None => old(self).pending().len() == 0 && final(self).pending().len() == 0,
            },
    {
        loop
            invariant
                self.wf(),
                self.trie == old(self).trie,
                self.pending() == old(self).pending(),
            decreases self.trie@.stack_steps(self.indices@),
        {
            if self.indices.len() == 0 {
                return None;
            }
            let ghost stack = self.indices@;
            let ghost v = self.trie@;
            let (node, taken) = self.indices.pop().unwrap();
            let ghost below = self.indices@;
            proof {
                self.trie.lemma_wf();
                assert(below == stack.drop_last());
                assert(stack.last() == (node, taken));
            }
            if taken >= 2 {
                assert(v.stack_items(stack) =~= v.stack_items(below));
                continue ;
            }
            let side = taken == 1;
            self.indices.push((node, (taken + 1) as u8));
            let raw = self.trie.word(node, side);
            proof {
                lemma_word_ranges(raw);
                v.lemma_stack_push(below, (node, (taken + 1) as u8));
                assert(v.slot_ok(node as int, v.nodes[node as int].child(side)));
            }
            if raw == 0 {
                assert(v.stack_items(self.indices@) =~= v.stack_items(stack));
            } else if raw & HIGH != 0 {
                assert(v.stack_items(self.indices@) =~= v.stack_items(stack).skip(1));
                return Some(raw & LOW);
            } else {
                let ghost upper = self.indices@;
                self.indices.push((raw as usize, 0));
                proof {
                    v.lemma_stack_push(upper, (raw as usize, 0u8));
                    assert(v.stack_items(self.indices@) =~= v.stack_items(stack));
                }
            }
        }
    }

    /// Every payload still to come, in order.
    pub fn collect(self) -> (items: Vec<u32>)
        requires
            self.wf(),
        ensures
            items@ == self.pending(),
    {
        let mut rest = self;
        let mut items: Vec<u32> = Vec::new();
        loop
            invariant
                rest.wf(),
                items@ + rest.pending() == self.pending(),
            decreases rest.pending().len(),
        {
            let ghost before = rest.pending();
            match rest.next() {
                Some(p) => {
                    items.push(p);
                    assert(items@ + rest.pending() =~= self.pending()) by {
                        assert(before =~= seq![p] + before.skip(1));
                    }
                },
                None => {
                    assert(items@ =~= self.pending());
                    return items;
                },
            }
        }
    }
}

impl BinTrie {
    /// A traversal of every stored payload, depth first, the `false` side of
    /// each node before its `true` side.
    pub fn items<'a>(&'a self) -> (iter: Iter<'a>)
        requires
            self.wf(),
        ensures
            iter.wf(),
            iter.trie() == *self,
            iter.pending() == self@.items(),
    {
        Iter::new(self)
    }
}

} // verus!
