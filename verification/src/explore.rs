//! The guided exploration of a trie: a lazy traversal in which a heuristic
//! says which sides of each node are tried, and in what order.
use vstd::prelude::*;
use crate::slot::{HIGH, LOW, Slot, lemma_word_ranges};
use crate::model::TrieView;
use crate::trie::BinTrie;
use crate::heuristic::{Heuristic, IntoHeuristic, Plan, has_plan};

verus! {

/// What the exploration of `node` yields from the side at position `at`
/// on, where `path` is the path of sides that leads to `node` and `plan`
/// names the sides to try.
pub open spec fn explore_rest(v: TrieView, plan: Plan, path: Seq<bool>, node: int, at: int) -> Seq<
    u32,
>
    decreases v.nodes.len() - node, plan(path).len() - at + 1,
{
    if 0 <= at < plan(path).len() && 0 <= node < v.nodes.len() {
        explore_under(v, plan, path, node, plan(path)[at]) + explore_rest(
            v,
            plan,
            path,
            node,
            at + 1,
        )
    } else {
        seq![]
    }
}

/// What the exploration yields on `side` of `node`: nothing at an empty
/// slot, the payload at a leaf, and below a node reference what the plan
/// explores there, one step further down the path.
pub open spec fn explore_under(v: TrieView, plan: Plan, path: Seq<bool>, node: int, side: bool) -> Seq<
    u32,
>
    decreases v.nodes.len() - node, 0int,
{
    match v.nodes[node].child(side) {
        Slot::Empty => seq![],
        Slot::Leaf(p) => seq![p],
        Slot::Node(c) => if 0 <= node < c < v.nodes.len() {
            explore_rest(v, plan, path.push(side), c as int, 0)
        } else {
            seq![]
        },
    }
}

/// What the exploration of the whole trie yields under `plan`.
pub open spec fn explore_all(v: TrieView, plan: Plan) -> Seq<u32> {
    explore_rest(v, plan, Seq::empty(), 0, 0)
}

/// The steps that the exploration of `node` takes from position `at` on.
pub open spec fn explore_steps(v: TrieView, plan: Plan, path: Seq<bool>, node: int, at: int) -> nat
    decreases v.nodes.len() - node, plan(path).len() - at,
{
    if 0 <= at < plan(path).len() && 0 <= node < v.nodes.len() {
        let side = plan(path)[at];
        let below: nat = match v.nodes[node].child(side) {
            Slot::Node(c) => if node < c < v.nodes.len() {
                explore_steps(v, plan, path.push(side), c as int, 0)
            } else {
                0
            },
            _ => 0,
        };
        1 + below + explore_steps(v, plan, path, node, at + 1)
    } else {
        1
    }
}

/// A frame of the exploration: a node, the path that leads to it, the
/// heuristic that stands there, the sides that it chose, and how many of
/// them were taken.
pub struct ExploreFrame<H> {
    pub node: usize,
    pub path: Ghost<Seq<bool>>,
    pub heuristic: H,
    pub sides: Vec<bool>,
    pub at: usize,
}

impl<H: Heuristic> ExploreFrame<H> {
    /// The frame's heuristic follows `plan` and chose the sides that `plan`
    /// names for the frame's node.
    pub open spec fn follows(self, plan: Plan) -> bool {
        self.heuristic.follows(plan, self.path@) && self.sides@ == plan(self.path@)
    }
}

/// Every frame of the stack follows `plan`.
pub open spec fn stack_follows<H: Heuristic>(stack: Seq<ExploreFrame<H>>, plan: Plan) -> bool {
    forall|j: int| 0 <= j < stack.len() ==> (#[trigger] stack[j]).follows(plan)
}

/// What a stack of frames has still to yield: the top frame first.
pub open spec fn stack_items<H: Heuristic>(
    v: TrieView,
    plan: Plan,
    stack: Seq<ExploreFrame<H>>,
) -> Seq<u32>
    decreases stack.len(),
{
    if stack.len() == 0 {
        seq![]
    } else {
        let top = stack.last();
        explore_rest(v, plan, top.path@, top.node as int, top.at as int) + stack_items(
            v,
            plan,
            stack.drop_last(),
        )
    }
}

/// The steps that a stack of frames has still to take.
pub open spec fn stack_steps<H: Heuristic>(
    v: TrieView,
    plan: Plan,
    stack: Seq<ExploreFrame<H>>,
) -> nat
    decreases stack.len(),
{
    if stack.len() == 0 {
        0
    } else {
        let top = stack.last();
        explore_steps(v, plan, top.path@, top.node as int, top.at as int) + stack_steps(
            v,
            plan,
            stack.drop_last(),
        )
    }
}

/// A frame on top of a stack yields its own items before the stack's.
pub proof fn lemma_stack_push<H: Heuristic>(
    v: TrieView,
    plan: Plan,
    stack: Seq<ExploreFrame<H>>,
    top: ExploreFrame<H>,
)
    ensures
        stack_items(v, plan, stack.push(top)) == explore_rest(
            v,
            plan,
            top.path@,
            top.node as int,
            top.at as int,
        ) + stack_items(v, plan, stack),
        stack_steps(v, plan, stack.push(top)) == explore_steps(
            v,
            plan,
            top.path@,
            top.node as int,
            top.at as int,
        ) + stack_steps(v, plan, stack),
{
    assert(stack.push(top).drop_last() =~= stack);
}

/// Branch independence: what is explored below a side depends on the plan
/// at the paths through that side only. The choices made in a branch are
/// those for the path that leads into it, whatever was entered below an
/// earlier side of the same node.
pub proof fn law_branch_follows_its_path(
    v: TrieView,
    plan: Plan,
    path: Seq<bool>,
    node: int,
    at: int,
    child: nat,
)
    requires
        v.wf(),
        0 <= node < v.nodes.len(),
        0 <= at < plan(path).len(),
        v.nodes[node].child(plan(path)[at]) == Slot::Node(child),
    ensures
        explore_rest(v, plan, path, node, at) == explore_rest(
            v,
            plan,
            path.push(plan(path)[at]),
            child as int,
            0,
        ) + explore_rest(v, plan, path, node, at + 1),
{
    let side = plan(path)[at];
    assert(v.slot_ok(node, v.nodes[node].child(side)));
    assert(explore_under(v, plan, path, node, side) == explore_rest(
        v,
        plan,
        path.push(side),
        child as int,
        0,
    ));
}

/// An exploration of a trie under a heuristic, resumed by each call of
/// `next`.
pub struct ExploreIter<'a, H> {
    trie: &'a BinTrie,
    indices: Vec<ExploreFrame<H>>,
    plan: Ghost<Plan>,
}

impl<'a, H: Heuristic> ExploreIter<'a, H> {
    /// The trie that is explored.
    pub closed spec fn trie(&self) -> BinTrie {
        *self.trie
    }

    /// The heuristics of the exploration go on as `plan` says.
    pub closed spec fn follows(&self, plan: Plan) -> bool {
        stack_follows(self.indices@, plan)
    }

    /// The payloads still to come, in order, where the heuristics follow
    /// `plan`.
    pub closed spec fn pending(&self, plan: Plan) -> Seq<u32> {
        stack_items(self.trie@, plan, self.indices@)
    }

    /// The trie is valid, every frame stands at one of its nodes, every
    /// frame's heuristic can be asked, and there is a plan that they follow.
    pub closed spec fn wf(&self) -> bool {
        &&& self.trie.wf()
        &&& stack_follows(self.indices@, self.plan@)
        &&& forall|j: int|
            0 <= j < self.indices@.len() ==> {
                &&& (#[trigger] self.indices@[j]).node < self.trie@.nodes.len()
                &&& self.indices@[j].heuristic.inv()
            }
    }

    /// An exploration of `trie` under `heuristic` with everything still to
    /// yield.
    pub fn new(trie: &'a BinTrie, heuristic: H) -> (iter: Self)
        requires
            trie.wf(),
            heuristic.inv(),
            has_plan(heuristic),
        ensures
            iter.wf(),
            iter.trie() == *trie,
            forall|plan: Plan| #[trigger]
                heuristic.follows(plan, Seq::empty()) ==> iter.follows(plan) && iter.pending(plan)
                    == explore_all(trie@, plan),
    {
        let ghost own = choose|plan: Plan| heuristic.follows(plan, Seq::empty());
        let sides = heuristic.iter();
        let root = ExploreFrame { node: 0, path: Ghost(Seq::empty()), heuristic, sides, at: 0 };
        let mut indices: Vec<ExploreFrame<H>> = Vec::new();
        proof {
            trie.lemma_wf();
            assert forall|plan: Plan| #[trigger]
                heuristic.follows(plan, Seq::empty()) implies stack_follows(
                indices@.push(root),
                plan,
            ) && stack_items(trie@, plan, indices@.push(root)) == explore_all(trie@, plan) by {
                lemma_stack_push(trie@, plan, indices@, root);
                assert(stack_items(trie@, plan, indices@) =~= Seq::<u32>::empty());
            }
        }
        indices.push(root);
        Self { trie, indices, plan: Ghost(own) }
    }

    /// The next payload, or `None` when the exploration is over.
    pub fn next(&mut self) -> (item: Option<u32>)
        requires
            old(self).wf(),
        ensures
            final(self).wf(),
            final(self).trie() == old(self).trie(),
            forall|plan: Plan| #[trigger]
                old(self).follows(plan) ==> final(self).follows(plan) && match item {
                    Some(p) => old(self).pending(plan).len() > 0 && p == old(self).pending(plan)[0]
                        && final(self).pending(plan) == old(self).pending(plan).skip(1),
                    None => old(self).pending(plan).len() == 0 && final(self).pending(plan).len()
                        == 0,
                },
    {
        loop
            invariant
                self.wf(),
                self.trie == old(self).trie,
                self.plan == old(self).plan,
                forall|plan: Plan| #[trigger]
                    old(self).follows(plan) ==> self.follows(plan) && self.pending(plan) == old(
                        self,
                    ).pending(plan),
            decreases stack_steps(self.trie@, self.plan@, self.indices@),
        {
            if self.indices.len() == 0 {
                return None;
            }
            let ghost stack = self.indices@;
            let ghost v = self.trie@;
            let ghost own = self.plan@;
            let frame = self.indices.pop().unwrap();
            let ghost below = self.indices@;
            let ghost path = frame.path@;
            let ghost node = frame.node as int;
            proof {
                self.trie.lemma_wf();
                assert(below == stack.drop_last());
                assert(stack.last() == frame);
                assert(stack[stack.len() - 1] == frame);
                assert(frame.follows(own));
                assert forall|plan: Plan| stack_follows(stack, plan) implies #[trigger] stack_follows(
                    below,
                    plan,
                ) && frame.follows(plan) by {
                    assert(stack[stack.len() - 1].follows(plan));
                    assert forall|j: int| 0 <= j < below.len() implies (#[trigger] below[j]).follows(
                        plan,
                    ) by {
                        assert(stack[j].follows(plan));
                    }
                }
            }
            if frame.at >= frame.sides.len() {
                proof {
                    assert forall|plan: Plan| #[trigger] old(self).follows(plan) implies self.follows(
                        plan,
                    ) && self.pending(plan) == old(self).pending(plan) by {
                        assert(stack_follows(stack, plan));
                        assert(stack_follows(below, plan));
                        assert(stack_items(v, plan, stack) =~= stack_items(v, plan, below));
                    }
                }
                continue ;
            }
            let side = frame.sides[frame.at];
            let raw = self.trie.word(frame.node, side);
            let ghost at = frame.at as int;
            proof {
                lemma_word_ranges(raw);
                assert(v.slot_ok(node, v.nodes[node].child(side)));
            }
            if raw == 0 || raw & HIGH != 0 {
                let again = ExploreFrame {
                    node: frame.node,
                    path: frame.path,
                    heuristic: frame.heuristic,
                    sides: frame.sides,
                    at: frame.at + 1,
                };
                self.indices.push(again);
                proof {
                    lemma_stack_push(v, own, below, again);
                    assert forall|plan: Plan| #[trigger] old(self).follows(plan) implies self.follows(
                        plan,
                    ) && stack_items(v, plan, self.indices@) =~= (if raw == 0 {
                        stack_items(v, plan, stack)
                    } else {
                        stack_items(v, plan, stack).skip(1)
                    }) && (raw != 0 ==> stack_items(v, plan, stack).len() > 0 && stack_items(
                        v,
                        plan,
                        stack,
                    )[0] == raw & LOW) by {
                        assert(stack_follows(stack, plan));
                        assert(stack_follows(below, plan) && frame.follows(plan));
                        assert(again.follows(plan));
                        lemma_stack_push(v, plan, below, again);
                        assert(explore_rest(v, plan, path, node, at) == explore_under(
                            v,
                            plan,
                            path,
                            node,
                            side,
                        ) + explore_rest(v, plan, path, node, at + 1));
                        if raw == 0 {
                            assert(explore_under(v, plan, path, node, side) =~= Seq::<u32>::empty());
                        } else {
                            assert(explore_under(v, plan, path, node, side) =~= seq![raw & LOW]);
                        }
                    }
                }
                if raw != 0 {
                    return Some(raw & LOW);
                }
            } else {
                let mut branch = frame.heuristic.fork();
                let ghost copy = branch;
                branch.enter(side);
                let sides = branch.iter();
                let again = ExploreFrame {
                    node: frame.node,
                    path: frame.path,
                    heuristic: frame.heuristic,
                    sides: frame.sides,
                    at: frame.at + 1,
                };
                let deeper = ExploreFrame {
                    node: raw as usize,
                    path: Ghost(path.push(side)),
                    heuristic: branch,
                    sides,
                    at: 0,
                };
                self.indices.push(again);
                self.indices.push(deeper);
                proof {
                    assert(self.indices@ == below.push(again).push(deeper));
                    assert forall|plan: Plan| frame.follows(plan) implies #[trigger] deeper.follows(
                        plan,
                    ) && again.follows(plan) by {
                        assert(frame.heuristic.follows(plan, path));
                        assert(copy.follows(plan, path));
                        assert(branch.follows(plan, path.push(side)));
                    }
                    assert(deeper.follows(own));
                    lemma_stack_push(v, own, below, again);
                    lemma_stack_push(v, own, below.push(again), deeper);
                    assert forall|plan: Plan| #[trigger] old(self).follows(plan) implies self.follows(
                        plan,
                    ) && self.pending(plan) == old(self).pending(plan) by {
                        assert(stack_follows(stack, plan));
                        assert(stack_follows(below, plan) && frame.follows(plan));
                        assert(deeper.follows(plan) && again.follows(plan));
                        lemma_stack_push(v, plan, below, again);
                        lemma_stack_push(v, plan, below.push(again), deeper);
                        assert(explore_rest(v, plan, path, node, at) == explore_under(
                            v,
                            plan,
                            path,
                            node,
                            side,
                        ) + explore_rest(v, plan, path, node, at + 1));
                        assert(explore_under(v, plan, path, node, side) == explore_rest(
                            v,
                            plan,
                            path.push(side),
                            raw as int,
                            0,
                        ));
                        assert(stack_items(v, plan, self.indices@) =~= stack_items(v, plan, stack));
                    }
                }
            }
        }
    }

    /// Every payload still to come, in order.
    pub fn collect(self) -> (items: Vec<u32>)
        requires
            self.wf(),
        ensures
            forall|plan: Plan| #[trigger] self.follows(plan) ==> items@ == self.pending(plan),
    {
        let ghost own = self.plan@;
        let mut rest = self;
        let mut items: Vec<u32> = Vec::new();
        loop
            invariant
                rest.wf(),
                rest.follows(own),
                forall|plan: Plan| #[trigger]
                    self.follows(plan) ==> rest.follows(plan) && items@ + rest.pending(plan)
                        == self.pending(plan),
            decreases rest.pending(own).len(),
        {
            let ghost before = rest;
            let ghost so_far = items@;
            match rest.next() {
                Some(p) => {
                    items.push(p);
                    proof {
                        assert forall|plan: Plan| #[trigger] self.follows(plan) implies rest.follows(
                            plan,
                        ) && items@ + rest.pending(plan) == self.pending(plan) by {
                            assert(before.follows(plan));
                            assert(before.pending(plan) =~= seq![p] + before.pending(plan).skip(1));
                            assert(items@ + rest.pending(plan) =~= so_far + before.pending(plan));
                        }
                    }
                },
                None => {
                    proof {
                        assert forall|plan: Plan| #[trigger] self.follows(plan) implies items@
                            == self.pending(plan) by {
                            assert(before.follows(plan));
                            assert(items@ =~= so_far + before.pending(plan));
                        }
                    }
                    return items;
                },
            }
        }
    }
}

impl BinTrie {
    /// An exploration of the trie that `heuristic` guides: at each node the
    /// heuristic names the sides to try, and each branch goes on with a copy
    /// of it that was told which side was entered. What it yields is what
    /// the plan that the heuristic follows explores.
    pub fn explore<'a, H>(&'a self, heuristic: H) -> (iter: ExploreIter<'a, H::Heuristic>)
        where H: IntoHeuristic
        requires
            self.wf(),
            heuristic.heuristic().inv(),
            has_plan(heuristic.heuristic()),
        ensures
            iter.wf(),
            iter.trie() == *self,
            forall|plan: Plan| #[trigger]
                heuristic.heuristic().follows(plan, Seq::empty()) ==> iter.follows(plan)
                    && iter.pending(plan) == explore_all(self@, plan),
    {
        ExploreIter::new(self, heuristic.into_heuristic())
    }
}

} // verus!
