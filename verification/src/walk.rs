//! What a full traversal of the store yields, and how much of it is left
//! when the traversal stands at a given stack of frames.
use vstd::prelude::*;
use crate::slot::Slot;
use crate::model::TrieView;

verus! {

/// A frame of the traversal: a node, and how many of its sides were taken.
pub type Frame = (usize, u8);

impl TrieView {
    /// The payloads below `node`, depth first, the `false` side first.
    pub open spec fn items_from(self, node: int) -> Seq<u32>
        decreases self.nodes.len() - node, 1nat,
    {
        if 0 <= node < self.nodes.len() {
            self.items_under(node, self.nodes[node].zero) + self.items_under(
                node,
                self.nodes[node].one,
            )
        } else {
            seq![]
        }
    }

    /// The payloads that `slot`, a slot of `node`, leads to.
    pub open spec fn items_under(self, node: int, slot: Slot) -> Seq<u32>
        decreases self.nodes.len() - node, 0nat,
    {
        match slot {
            Slot::Empty => seq![],
            Slot::Leaf(p) => seq![p],
            Slot::Node(c) => if node < c < self.nodes.len() {
                self.items_from(c as int)
            } else {
                seq![]
            },
        }
    }

    /// Every stored payload, in the order of a depth-first traversal from
    /// the root.
    pub open spec fn items(self) -> Seq<u32> {
        self.items_from(0)
    }

    /// What a frame has still to yield.
    pub open spec fn frame_items(self, frame: Frame) -> Seq<u32> {
        if frame.1 == 0 {
            self.items_from(frame.0 as int)
        } else if frame.1 == 1 {
            self.items_under(frame.0 as int, self.nodes[frame.0 as int].one)
        } else {
            seq![]
        }
    }

    /// What a stack of frames has still to yield: the top frame first.
    pub open spec fn stack_items(self, stack: Seq<Frame>) -> Seq<u32>
        decreases stack.len(),
    {
        if stack.len() == 0 {
            seq![]
        } else {
            self.frame_items(stack.last()) + self.stack_items(stack.drop_last())
        }
    }

    /// The steps that a traversal below `node` takes.
    pub open spec fn steps_from(self, node: int) -> nat
        decreases self.nodes.len() - node, 1nat,
    {
        if 0 <= node < self.nodes.len() {
            3 + self.steps_under(node, self.nodes[node].zero) + self.steps_under(
                node,
                self.nodes[node].one,
            )
        } else {
            3
        }
    }

    /// The steps that a traversal takes below `slot`, a slot of `node`.
    pub open spec fn steps_under(self, node: int, slot: Slot) -> nat
        decreases self.nodes.len() - node, 0nat,
    {
        match slot {
            Slot::Node(c) => if node < c < self.nodes.len() {
                self.steps_from(c as int)
            } else {
                0
            },
            _ => 0,
        }
    }

    /// The steps that a frame has still to take.
    pub open spec fn frame_steps(self, frame: Frame) -> nat {
        if frame.1 == 0 {
            self.steps_from(frame.0 as int)
        } else if frame.1 == 1 {
            2 + self.steps_under(frame.0 as int, self.nodes[frame.0 as int].one)
        } else {
            1
        }
    }

    /// The steps that a stack of frames has still to take.
    pub open spec fn stack_steps(self, stack: Seq<Frame>) -> nat
        decreases stack.len(),
    {
        if stack.len() == 0 {
            0
        } else {
            self.frame_steps(stack.last()) + self.stack_steps(stack.drop_last())
        }
    }

    /// A frame on top of a stack yields its own items before the stack's.
    pub proof fn lemma_stack_push(self, stack: Seq<Frame>, frame: Frame)
        ensures
            self.stack_items(stack.push(frame)) == self.frame_items(frame) + self.stack_items(
                stack,
            ),
            self.stack_steps(stack.push(frame)) == self.frame_steps(frame) + self.stack_steps(
                stack,
            ),
    {
        assert(stack.push(frame).drop_last() =~= stack);
    }
}

} // verus!
