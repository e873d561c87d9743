//! The tagged 32-bit word stored in each child position of a node.
use vstd::prelude::*;

verus! {

/// The tag bit: set in a word that holds a payload.
pub const HIGH: u32 = 0x8000_0000;

/// The bits that carry a payload or a node index.
pub const LOW: u32 = 0x7fff_ffff;

/// What a child position of a node holds.
pub ghost enum Slot {
    /// Nothing.
    Empty,
    /// A stored payload.
    Leaf(u32),
    /// The index of another node of the store.
    Node(nat),
}

/// The meaning of a raw word: zero is empty, a word with the tag bit holds
/// the payload in its low bits, any other word is a node index.
pub open spec fn decode(raw: u32) -> Slot {
    if raw == 0 {
        Slot::Empty
    } else if raw & HIGH != 0 {
        Slot::Leaf(raw & LOW)
    } else {
        Slot::Node(raw as nat)
    }
}

/// A payload is storable when the tag bit is clear in it.
pub open spec fn is_payload(item: u32) -> bool {
    item & HIGH == 0
}

/// Tagging a payload gives a word that decodes to that payload's leaf.
pub proof fn lemma_leaf_word(item: u32)
    requires
        is_payload(item),
    ensures
        decode(item | HIGH) == Slot::Leaf(item),
{
    assert(item & 0x8000_0000u32 == 0 ==> (item | 0x8000_0000u32) != 0 && (item | 0x8000_0000u32)
        & 0x8000_0000u32 != 0 && (item | 0x8000_0000u32) & 0x7fff_ffffu32 == item)
        by (bit_vector);
}

/// A word below the tag bit, other than zero, decodes to a node index; and
/// whatever a tagged word carries is a payload.
pub proof fn lemma_word_ranges(raw: u32)
    ensures
        raw < HIGH <==> raw & HIGH == 0,
        is_payload(raw & LOW),
        raw & HIGH == 0 ==> raw & LOW == raw,
{
    assert(raw < 0x8000_0000u32 <==> raw & 0x8000_0000u32 == 0) by (bit_vector);
    assert((raw & 0x7fff_ffffu32) & 0x8000_0000u32 == 0) by (bit_vector);
    assert(raw & 0x8000_0000u32 == 0 ==> raw & 0x7fff_ffffu32 == raw) by (bit_vector);
}

} // verus!
