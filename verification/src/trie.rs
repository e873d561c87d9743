//! The trie itself: the node store, insertion and exact lookup.
use vstd::prelude::*;
use crate::slot::{HIGH, LOW, Slot, decode, is_payload, lemma_leaf_word, lemma_word_ranges};
use crate::model::{NodeView, TrieView};

verus! {

/// `bits` describes the key function `key` below `depth`: whatever `key`
/// returns for a depth below the bound is the bit that `bits` has there.
pub open spec fn key_is<K: FnMut(u32) -> bool>(
    key: K,
    bits: spec_fn(u32) -> bool,
    depth: u32,
) -> bool {
    forall|i: u32, b: bool| i < depth && call_ensures(key, (i,), b) ==> b == bits(i)
}

/// `bits` describes the lookup function `lookup` below `depth`: whatever
/// `lookup` returns for a payload and a depth below the bound is the bit
/// that `bits` has there.
pub open spec fn lookup_is<F: FnMut(u32, u32) -> bool>(
    lookup: F,
    bits: spec_fn(u32, u32) -> bool,
    depth: u32,
) -> bool {
    forall|m: u32, i: u32, b: bool| i < depth && call_ensures(lookup, (m, i), b) ==> b == bits(m, i)
}

/// A key function can be asked for every bit below `depth`, and gives one
/// answer for each.
pub open spec fn key_fn_ok<K: FnMut(u32) -> bool>(key: K, depth: u32) -> bool {
    &&& forall|i: u32| i < depth ==> call_requires(key, (i,))
    &&& forall|i: u32| !(call_ensures(key, (i,), true) && call_ensures(key, (i,), false))
}

/// A lookup function can be asked for every bit below `depth` of every
/// payload, and gives one answer for each.
pub open spec fn lookup_fn_ok<F: FnMut(u32, u32) -> bool>(lookup: F, depth: u32) -> bool {
    &&& forall|m: u32, i: u32| is_payload(m) && i < depth ==> call_requires(lookup, (m, i))
    &&& forall|m: u32, i: u32|
        !(call_ensures(lookup, (m, i), true) && call_ensures(lookup, (m, i), false))
}

/// The bits of a key function that gives one answer for each depth.
spec fn key_of<K: FnMut(u32) -> bool>(key: K) -> spec_fn(u32) -> bool {
    |i: u32| call_ensures(key, (i,), true)
}

/// The bits of a lookup function that gives one answer for each payload and
/// depth.
spec fn lookup_of<F: FnMut(u32, u32) -> bool>(lookup: F) -> spec_fn(u32, u32) -> bool {
    |m: u32, i: u32| call_ensures(lookup, (m, i), true)
}

/// Functions that give one answer each are described by their own bits.
proof fn lemma_own_bits<K: FnMut(u32) -> bool, F: FnMut(u32, u32) -> bool>(
    key: K,
    lookup: F,
    depth: u32,
)
    requires
        key_fn_ok(key, depth),
        lookup_fn_ok(lookup, depth),
    ensures
        key_is(key, key_of(key), depth),
        lookup_is(lookup, lookup_of(lookup), depth),
{
}

/// A node of the store: its two child words, the `false` side first.
#[derive(Clone, Copy, Debug)]
struct Internal {
    slots: [u32; 2],
}

impl Internal {
    /// What the node's two words mean.
    spec fn view(&self) -> NodeView {
        NodeView { zero: decode(self.slots[0]), one: decode(self.slots[1]) }
    }
}

/// A trie of 31-bit payloads, each filed under a key that is read one bit
/// per level.
#[derive(Clone, Debug)]
pub struct BinTrie {
    /// The nodes in the order of their creation; the root is the first.
    internals: Vec<Internal>,
    /// The number of levels at most.
    depth: u32,
}

impl BinTrie {
    /// The store as a sequence of decoded nodes, with the depth bound.
    pub closed spec fn view(&self) -> TrieView {
        TrieView { nodes: Seq::new(self.internals@.len(), |n: int| self.internals@[n]@), depth: self.depth }
    }

    /// The store is a tree in order and every node index fits below the tag
    /// bit.
    pub closed spec fn wf(&self) -> bool {
        &&& self@.tree()
        &&& self.internals@.len() <= HIGH
    }

    /// A valid trie has a store that is a tree of at most 2^31 nodes.
    pub proof fn lemma_wf(&self)
        requires
            self.wf(),
        ensures
            self@.wf(),
            self@.tree(),
            self@.nodes.len() <= HIGH,
    {
    }

    /// Makes an empty trie with the depth bound 8192.
    pub fn new() -> (trie: Self)
        ensures
            trie.wf(),
            trie@ == TrieView::fresh(8192),
    {
        Self::new_depth(8192)
    }

    /// Makes an empty trie with the depth bound `depth`.
    pub fn new_depth(depth: u32) -> (trie: Self)
        requires
            depth > 0,
        ensures
            trie.wf(),
            trie@ == TrieView::fresh(depth),
    {
        let mut internals: Vec<Internal> = Vec::new();
        internals.push(Internal { slots: [0, 0] });
        let trie = BinTrie { internals, depth };
        proof {
            assert(trie@.nodes =~= seq![NodeView::empty()]);
            TrieView::lemma_fresh_tree(depth);
        }
        trie
    }

    /// The depth bound.
    pub fn depth(&self) -> (d: u32)
        ensures
            d == self@.depth,
    {
        self.depth
    }

    /// The number of nodes in the store.
    pub fn node_count(&self) -> (n: usize)
        ensures
            n == self@.nodes.len(),
    {
        self.internals.len()
    }

    /// Says whether the store has room for any one insertion: an insertion
    /// adds at most one node for each level below the last.
    pub fn has_room(&self) -> (room: bool)
        requires
            self.wf(),
        ensures
            room == (self@.nodes.len() + self@.depth - 1 <= HIGH),
            room ==> forall|item: u32, k: spec_fn(u32) -> bool, l: spec_fn(u32, u32) -> bool|
                is_payload(item) ==> (#[trigger] self@.insert(item, k, l)).0.nodes.len() <= HIGH,
    {
        let nodes: u64 = self.internals.len() as u64;
        let levels: u64 = self.depth as u64;
        let room = nodes + levels - 1 <= 0x8000_0000;
        proof {
            assert forall|item: u32, k: spec_fn(u32) -> bool, l: spec_fn(u32, u32) -> bool|
                is_payload(item) implies (#[trigger] self@.insert(item, k, l)).0.nodes.len()
                <= self@.nodes.len() + self@.depth - 1 by {
                self@.lemma_insert_from_frame(item, k, l, 0, 0);
            }
        }
        room
    }

    /// The word on `side` of `node`.
    pub(crate) fn word(&self, node: usize, side: bool) -> (raw: u32)
        requires
            node < self@.nodes.len(),
        ensures
            decode(raw) == self@.nodes[node as int].child(side),
    {
        let slots = &self.internals[node].slots;
        if side { slots[1] } else { slots[0] }
    }

    /// Writes `raw` on `side` of `node`.
    fn set_word(&mut self, node: usize, side: bool, raw: u32)
        requires
            node < old(self)@.nodes.len(),
        ensures
            final(self)@ == old(self)@.put(node as int, side, decode(raw)),
    {
        let slots = &self.internals[node].slots;
        let changed = if side { [slots[0], raw] } else { [raw, slots[1]] };
        self.internals.set(node, Internal { slots: changed });
        proof {
            assert(final(self)@.nodes =~= old(self)@.put(node as int, side, decode(raw)).nodes);
        }
    }

    /// Looks up the payload filed under `key`.
    ///
    /// The descent reads one bit of the key per level. It ends with nothing
    /// at an empty slot or past the depth bound, and with the payload at a
    /// leaf. The result is that of the lookup under the bits that describe
    /// `key`.
    pub fn get<K>(&self, key: K) -> (found: Option<u32>)
        where K: FnMut(u32) -> bool
        requires
            self.wf(),
            key_fn_ok(key, self@.depth),
        ensures
            forall|bits: spec_fn(u32) -> bool|
                key_is(key, bits, self@.depth) ==> found == #[trigger] self@.get(bits),
    {
        let mut ask = key;
        let mut index: usize = 0;
        let mut i: u32 = 0;
        while i < self.depth
            invariant
                self.wf(),
                key_fn_ok(ask, self@.depth),
                ask == key,
                i <= self.depth,
                index < self@.nodes.len(),
                forall|bits: spec_fn(u32) -> bool|
                    key_is(key, bits, self@.depth) ==> #[trigger] self@.lookup_from(
                        bits,
                        index as int,
                        i,
                    ) == self@.get(bits),
            decreases self.depth - i,
        {
            let side = ask(i);
            let raw = self.word(index, side);
            let ghost from = index as int;
            proof {
                assert(self@.slot_ok(from, self@.nodes[from].child(side)));
                assert forall|bits: spec_fn(u32) -> bool|
                    key_is(key, bits, self@.depth) implies bits(i) == side && self@.lookup_from(
                    bits,
                    from,
                    i,
                ) == #[trigger] self@.get(bits) by {
                    assert(call_ensures(key, (i,), side));
                }
            }
            if raw == 0 {
                return None;
            } else if raw & HIGH != 0 {
                return Some(raw & LOW);
            } else {
                index = raw as usize;
            }
            i += 1;
            proof {
                assert forall|bits: spec_fn(u32) -> bool|
                    key_is(key, bits, self@.depth) implies #[trigger] self@.lookup_from(
                    bits,
                    index as int,
                    i,
                ) == self@.get(bits) by {
                    assert(bits((i - 1) as u32) == side);
                    assert(self@.lookup_from(bits, from, (i - 1) as u32) == self@.get(bits));
                }
            }
        }
        proof {
            assert forall|bits: spec_fn(u32) -> bool|
                key_is(key, bits, self@.depth) implies None::<u32> == #[trigger] self@.get(
                bits,
            ) by {
                assert(self@.lookup_from(bits, index as int, i) == self@.get(bits));
            }
        }
        None
    }

    /// Appends a node that holds the word `raw` on `side` and nothing else.
    fn push_node(&mut self, side: bool, raw: u32)
        ensures
            final(self)@.depth == old(self)@.depth,
            final(self)@.nodes == old(self)@.nodes.push(NodeView::empty().with(side, decode(raw))),
    {
        let slots = if side { [0, raw] } else { [raw, 0] };
        self.internals.push(Internal { slots });
        proof {
            assert(final(self)@.nodes =~= old(self)@.nodes.push(
                NodeView::empty().with(side, decode(raw)),
            ));
        }
    }

    /// Files `item` under `key` and returns the payload that it replaced, if
    /// it replaced one.
    ///
    /// `lookup` gives the key bits of payloads that are already stored: when
    /// the descent meets a leaf above the last level, the leaf moves one
    /// level down into a new node, to the side that `lookup` names for it. At
    /// the last level the item overwrites what it finds. The store may hold
    /// 2^31 nodes at most; an insertion that needs more is not admitted. The
    /// result is that of the insertion under the bits that describe `key`
    /// and `lookup`.
    pub fn insert<K, F>(&mut self, item: u32, key: K, lookup: F) -> (replaced: Option<u32>)
        where K: FnMut(u32) -> bool, F: FnMut(u32, u32) -> bool
        requires
            old(self).wf(),
            is_payload(item),
            key_fn_ok(key, old(self)@.depth),
            lookup_fn_ok(lookup, old(self)@.depth),
            forall|k: spec_fn(u32) -> bool, l: spec_fn(u32, u32) -> bool|
                key_is(key, k, old(self)@.depth) && lookup_is(lookup, l, old(self)@.depth) ==> (
                #[trigger] old(self)@.insert(item, k, l)).0.nodes.len() <= HIGH,
        ensures
            final(self).wf(),
            forall|k: spec_fn(u32) -> bool, l: spec_fn(u32, u32) -> bool|
                key_is(key, k, old(self)@.depth) && lookup_is(lookup, l, old(self)@.depth) ==> (
                final(self)@,
                replaced,
            ) == #[trigger] old(self)@.insert(item, k, l),
    {
        let ghost own_k = key_of(key);
        let ghost own_l = lookup_of(lookup);
        let ghost goal = old(self)@.insert(item, own_k, own_l);
        let ghost start = old(self)@;
        let ghost depth = old(self)@.depth;
        let mut ask = key;
        let mut find = lookup;
        let mut index: usize = 0;
        let mut i: u32 = 0;
        proof {
            lemma_leaf_word(item);
            lemma_own_bits(key, lookup, depth);
            start.lemma_insert_tree(item, own_k, own_l);
        }
        while i < self.depth - 1
            invariant
                self@.wf(),
                self.internals@.len() <= HIGH,
                self@.depth == depth,
                start == old(self)@,
                depth == start.depth,
                goal == start.insert(item, own_k, own_l),
                goal.0.tree(),
                goal.0.nodes.len() <= HIGH,
                is_payload(item),
                decode(item | HIGH) == Slot::Leaf(item),
                key_fn_ok(ask, depth),
                lookup_fn_ok(find, depth),
                ask == key,
                find == lookup,
                key_is(key, own_k, depth),
                lookup_is(lookup, own_l, depth),
                i < depth,
                index < self@.nodes.len(),
                forall|k: spec_fn(u32) -> bool, l: spec_fn(u32, u32) -> bool|
                    key_is(key, k, depth) && lookup_is(lookup, l, depth) ==> #[trigger] self@.insert_from(
                        item,
                        k,
                        l,
                        index as int,
                        i,
                    ) == start.insert(item, k, l),
            decreases depth - i,
        {
            let ghost before = self@;
            let ghost from = index as int;
            let side = ask(i);
            let raw = self.word(index, side);
            proof {
                lemma_word_ranges(raw);
                assert(before.slot_ok(from, before.nodes[from].child(side)));
                assert(call_ensures(key, (i,), side));
                assert(before.insert_from(item, own_k, own_l, from, i) == goal);
            }
            if raw == 0 {
                self.set_word(index, side, item | HIGH);
                proof {
                    assert forall|k: spec_fn(u32) -> bool, l: spec_fn(u32, u32) -> bool|
                        key_is(key, k, depth) && lookup_is(lookup, l, depth) implies (
                        self@,
                        None::<u32>,
                    ) == #[trigger] start.insert(item, k, l) by {
                        assert(k(i) == side);
                        assert(before.insert_from(item, k, l, from, i) == start.insert(item, k, l));
                    }
                }
                return None;
            } else if raw & HIGH != 0 {
                let m = raw & LOW;
                let m_side = find(m, i + 1);
                let new_index = self.internals.len();
                let ghost next = (i + 1) as u32;
                proof {
                    assert(call_ensures(lookup, (m, next), m_side));
                    assert(own_l(m, next) == m_side);
                    before.lemma_split_wf(from, side, m, m_side);
                    before.split(from, side, m, m_side).lemma_insert_from_frame(
                        item,
                        own_k,
                        own_l,
                        new_index as int,
                        next,
                    );
                    lemma_word_ranges(new_index as u32);
                }
                self.push_node(m_side, raw);
                self.set_word(index, side, new_index as u32);
                proof {
                    assert(self@ == before.split(from, side, m, m_side));
                    assert forall|k: spec_fn(u32) -> bool, l: spec_fn(u32, u32) -> bool|
                        key_is(key, k, depth) && lookup_is(lookup, l, depth) implies #[trigger] self@.insert_from(
                        item,
                        k,
                        l,
                        new_index as int,
                        next,
                    ) == start.insert(item, k, l) by {
                        assert(k(i) == side);
                        assert(l(m, next) == m_side);
                        assert(before.insert_from(item, k, l, from, i) == start.insert(item, k, l));
                    }
                }
                index = new_index;
            } else {
                proof {
                    assert forall|k: spec_fn(u32) -> bool, l: spec_fn(u32, u32) -> bool|
                        key_is(key, k, depth) && lookup_is(lookup, l, depth) implies #[trigger] self@.insert_from(
                        item,
                        k,
                        l,
                        raw as int,
                        (i + 1) as u32,
                    ) == start.insert(item, k, l) by {
                        assert(k(i) == side);
                        assert(before.insert_from(item, k, l, from, i) == start.insert(item, k, l));
                    }
                }
                index = raw as usize;
            }
            i += 1;
        }
        let ghost before = self@;
        let ghost from = index as int;
        let side = ask(i);
        let raw = self.word(index, side);
        proof {
            lemma_word_ranges(raw);
            assert(call_ensures(key, (i,), side));
            assert(before.insert_from(item, own_k, own_l, from, i) == goal);
        }
        self.set_word(index, side, item | HIGH);
        let replaced = if raw != 0 {
            Some(raw & LOW)
        } else {
            None
        };
        proof {
            assert forall|k: spec_fn(u32) -> bool, l: spec_fn(u32, u32) -> bool|
                key_is(key, k, depth) && lookup_is(lookup, l, depth) implies (self@, replaced)
                == #[trigger] start.insert(item, k, l) by {
                assert(k(i) == side);
                assert(before.insert_from(item, k, l, from, i) == start.insert(item, k, l));
            }
        }
        replaced
    }
}

impl Default for BinTrie {
    /// An empty trie with the depth bound 8192.
    fn default() -> (trie: Self)
        ensures
            trie.wf(),
            trie@ == TrieView::fresh(8192),
    {
        Self::new_depth(8192)
    }
}

} // verus!
