//! Heuristics: the strategies that say which sides of a node a guided
//! traversal tries, and in what order.
use vstd::prelude::*;

verus! {

/// What a heuristic does over a whole traversal: for every path of sides
/// entered from the root, the sides to try at the node that the path leads
/// to, in order.
pub type Plan = spec_fn(Seq<bool>) -> Seq<bool>;

/// A heuristic chooses which sides to explore below the node it stands at.
///
/// A traversal asks it for the sides to try with `iter`. Before it descends
/// to a side it takes a copy with `fork` and tells the copy with `enter`, so
/// each branch carries a state of its own and nothing that happens below one
/// side is seen below the other.
pub trait Heuristic: Sized {
    /// What the heuristic needs to hold in order to be asked. Unless an
    /// implementation says otherwise, nothing.
    open spec fn inv(&self) -> bool {
        true
    }

    /// The heuristic, having entered the sides of `path`, chooses here and
    /// in everything below as `plan` says. Unless an implementation says
    /// otherwise, it is known to follow no plan.
    open spec fn follows(&self, plan: Plan, path: Seq<bool>) -> bool {
        false
    }

    /// Tells the heuristic that the traversal descends to `side`: it goes
    /// on by every plan it followed, one step further down the path.
    fn enter(&mut self, side: bool)
        requires
            old(self).inv(),
        ensures
            final(self).inv(),
            forall|plan: Plan, path: Seq<bool>|
                old(self).follows(plan, path) ==> #[trigger] final(self).follows(
                    plan,
                    path.push(side),
                ),
    ;

    /// The sides to try at the current node, in order: those of every plan
    /// that the heuristic follows.
    fn iter(&self) -> (sides: Vec<bool>)
        requires
            self.inv(),
        ensures
            forall|plan: Plan, path: Seq<bool>| #[trigger]
                self.follows(plan, path) ==> sides@ == plan(path),
    ;

    /// A copy of the heuristic in its current state: it follows every plan
    /// that this one follows.
    fn fork(&self) -> (copy: Self)
        requires
            self.inv(),
        ensures
            copy.inv(),
            forall|plan: Plan, path: Seq<bool>| #[trigger]
                self.follows(plan, path) ==> copy.follows(plan, path),
    ;
}

/// There is a plan that `h` follows from the root.
pub open spec fn has_plan<H: Heuristic>(h: H) -> bool {
    exists|plan: Plan| h.follows(plan, Seq::empty())
}

/// What can be made into a heuristic.
pub trait IntoHeuristic: Sized {
    type Heuristic: Heuristic;

    /// The heuristic that this value becomes.
    spec fn heuristic(self) -> Self::Heuristic;

    /// Makes the value into its heuristic.
    fn into_heuristic(self) -> (h: Self::Heuristic)
        ensures
            h == self.heuristic(),
    ;
}

impl<H: Heuristic> IntoHeuristic for H {
    type Heuristic = H;

    open spec fn heuristic(self) -> H {
        self
    }

    fn into_heuristic(self) -> (h: H) {
        self
    }
}

/// `answers` describes the side function `f`: whatever `f` returns for a
/// side is what `answers` has there.
pub open spec fn side_is<F: FnMut(bool) -> bool>(f: F, answers: spec_fn(bool) -> bool) -> bool {
    forall|side: bool, r: bool| call_ensures(f, (side,), r) ==> r == answers(side)
}

/// A side function can be asked about both sides.
pub open spec fn side_fn_ok<F: FnMut(bool) -> bool>(f: F) -> bool {
    forall|side: bool| call_requires(f, (side,))
}

/// The sides from `from` on (0 stands for `false`, 1 for `true`) that
/// `answers` accepts, `false` before `true`.
pub open spec fn accepted_from(answers: spec_fn(bool) -> bool, from: int) -> Seq<bool> {
    let first: Seq<bool> = if from <= 0 && answers(false) { seq![false] } else { seq![] };
    let second: Seq<bool> = if from <= 1 && answers(true) { seq![true] } else { seq![] };
    first + second
}

/// The two sides, `first` before the other.
pub open spec fn ordered_from(first: bool) -> Seq<bool> {
    seq![first, !first]
}

/// Chooses whether to enter a side or not: the wrapped function is given a
/// side and says whether the traversal may go there. The sides are tried
/// `false` first.
#[derive(Clone, Copy)]
pub struct FilterHeuristic<F>(pub F);

impl<F> Heuristic for FilterHeuristic<F> where F: FnMut(bool) -> bool + Copy {
    open spec fn inv(&self) -> bool {
        side_fn_ok(self.0)
    }

    /// At every node at or below the path, the plan tries the sides that
    /// the function accepts.
    open spec fn follows(&self, plan: Plan, path: Seq<bool>) -> bool {
        exists|answers: spec_fn(bool) -> bool|
            side_is(self.0, answers) && forall|below: Seq<bool>| #[trigger]
                plan(path + below) == accepted_from(answers, 0)
    }

    fn enter(&mut self, side: bool) {
        (self.0)(side);
        proof {
            assert forall|plan: Plan, path: Seq<bool>| old(self).follows(plan, path) implies (
            #[trigger] final(self).follows(plan, path.push(side))) by {
                let answers = choose|answers: spec_fn(bool) -> bool|
                    side_is(self.0, answers) && forall|below: Seq<bool>| #[trigger]
                        plan(path + below) == accepted_from(answers, 0);
                assert forall|below: Seq<bool>| #[trigger]
                    plan(path.push(side) + below) == accepted_from(answers, 0) by {
                    assert(path.push(side) + below =~= path + (seq![side] + below));
                }
            }
        }
    }

    fn iter(&self) -> (sides: Vec<bool>) {
        let mut rest = FilterHeuristicIter { f: self.0, at: 0 };
        let mut sides: Vec<bool> = Vec::new();
        let ghost fresh = rest;
        let first = rest.next();
        let ghost once = rest;
        if let Some(side) = first {
            sides.push(side);
            let second = rest.next();
            if let Some(side) = second {
                sides.push(side);
            }
        }
        proof {
            assert forall|plan: Plan, path: Seq<bool>| #[trigger]
                self.follows(plan, path) implies sides@ == plan(path) by {
                let answers = choose|answers: spec_fn(bool) -> bool|
                    side_is(self.0, answers) && forall|below: Seq<bool>| #[trigger]
                        plan(path + below) == accepted_from(answers, 0);
                assert(path + Seq::<bool>::empty() =~= path);
                assert(plan(path + Seq::<bool>::empty()) == accepted_from(answers, 0));
                assert(fresh.describes(answers));
                assert(once.describes(answers));
                assert(sides@ =~= accepted_from(answers, 0));
            }
        }
        sides
    }

    fn fork(&self) -> (copy: Self) {
        FilterHeuristic(self.0)
    }
}

/// The sides that a `FilterHeuristic` has still to offer.
pub struct FilterHeuristicIter<F> {
    f: F,
    at: u8,
}

impl<F> FilterHeuristicIter<F> where F: FnMut(bool) -> bool + Copy {
    /// The side function can be asked.
    pub closed spec fn inv(&self) -> bool {
        side_fn_ok(self.f)
    }

    /// `answers` describes the side function.
    pub closed spec fn describes(&self, answers: spec_fn(bool) -> bool) -> bool {
        side_is(self.f, answers)
    }

    /// The sides still to come, in order, where `answers` describes the
    /// side function.
    pub closed spec fn pending(&self, answers: spec_fn(bool) -> bool) -> Seq<bool> {
        accepted_from(answers, self.at as int)
    }

    /// The next accepted side, if one is left.
    pub fn next(&mut self) -> (side: Option<bool>)
        requires
            old(self).inv(),
        ensures
            final(self).inv(),
            forall|answers: spec_fn(bool) -> bool| #[trigger]
                old(self).describes(answers) ==> final(self).describes(answers) && match side {
                    Some(s) => old(self).pending(answers).len() > 0 && s == old(self).pending(
                        answers,
                    )[0] && final(self).pending(answers) == old(self).pending(answers).skip(1),
                    None => old(self).pending(answers).len() == 0 && final(self).pending(
                        answers,
                    ).len() == 0,
                },
    {
        if self.at == 0 {
            self.at = 1;
            let mut f = self.f;
            if f(false) {
                proof {
                    assert forall|answers: spec_fn(bool) -> bool| #[trigger]
                        old(self).describes(answers) implies final(self).pending(answers)
                        =~= old(self).pending(answers).skip(1) && answers(false) by {
                        assert(call_ensures(self.f, (false,), true));
                    }
                }
                return Some(false);
            }
            assert(call_ensures(self.f, (false,), false));
        }
        if self.at == 1 {
            self.at = 2;
            let mut f = self.f;
            if f(true) {
                proof {
                    assert forall|answers: spec_fn(bool) -> bool| #[trigger]
                        old(self).describes(answers) implies final(self).pending(answers)
                        =~= old(self).pending(answers).skip(1) && answers(true) && old(
                        self,
                    ).pending(answers) =~= seq![true] by {
                        assert(call_ensures(self.f, (true,), true));
                    }
                }
                return Some(true);
            }
            assert(call_ensures(self.f, (true,), false));
        }
        proof {
            assert forall|answers: spec_fn(bool) -> bool| #[trigger]
                old(self).describes(answers) implies old(self).pending(answers).len() == 0 by {
                if old(self).at == 0 {
                    assert(!answers(false));
                }
                if old(self).at <= 1 {
                    assert(!answers(true));
                }
            }
        }
        None
    }
}

/// Chooses the side to search first: the wrapped function is given the side
/// that was just entered and says which side to try first below it; the
/// other side comes second. The second field is the side to try first at
/// the current node.
#[derive(Clone, Copy)]
pub struct SearchHeuristic<F>(pub F, pub bool);

impl<F> Heuristic for SearchHeuristic<F> where F: FnMut(bool) -> bool + Copy {
    open spec fn inv(&self) -> bool {
        side_fn_ok(self.0)
    }

    /// At the end of the path the plan tries the side of the second field
    /// first; at every node below, the side that the function names for the
    /// side that leads to the node.
    open spec fn follows(&self, plan: Plan, path: Seq<bool>) -> bool {
        exists|answers: spec_fn(bool) -> bool|
            side_is(self.0, answers) && forall|below: Seq<bool>| #[trigger]
                plan(path + below) == ordered_from(
                    if below.len() == 0 {
                        self.1
                    } else {
                        answers(below.last())
                    },
                )
    }

    fn enter(&mut self, side: bool) {
        self.1 = (self.0)(side);
        proof {
            assert(call_ensures(self.0, (side,), self.1));
            assert forall|plan: Plan, path: Seq<bool>| old(self).follows(plan, path) implies (
            #[trigger] final(self).follows(plan, path.push(side))) by {
                let answers = choose|answers: spec_fn(bool) -> bool|
                    side_is(old(self).0, answers) && forall|below: Seq<bool>| #[trigger]
                        plan(path + below) == ordered_from(
                            if below.len() == 0 {
                                old(self).1
                            } else {
                                answers(below.last())
                            },
                        );
                assert forall|below: Seq<bool>| #[trigger]
                    plan(path.push(side) + below) == ordered_from(
                        if below.len() == 0 {
                            self.1
                        } else {
                            answers(below.last())
                        },
                    ) by {
                    let longer = seq![side] + below;
                    assert(path.push(side) + below =~= path + longer);
                    assert(longer.last() == if below.len() == 0 {
                        side
                    } else {
                        below.last()
                    });
                }
            }
        }
    }

    fn iter(&self) -> (sides: Vec<bool>) {
        let mut sides: Vec<bool> = Vec::new();
        sides.push(self.1);
        sides.push(!self.1);
        proof {
            assert forall|plan: Plan, path: Seq<bool>| #[trigger]
                self.follows(plan, path) implies sides@ == plan(path) by {
                let none = Seq::<bool>::empty();
                assert(path + none =~= path);
                assert(sides@ =~= ordered_from(self.1));
            }
        }
        sides
    }

    fn fork(&self) -> (copy: Self) {
        SearchHeuristic(self.0, self.1)
    }
}

/// A filter whose side function `answers` describes can be asked, and
/// follows from the root the plan that tries at every node the sides that
/// `answers` accepts.
pub proof fn lemma_filter_follows<F>(
    h: FilterHeuristic<F>,
    answers: spec_fn(bool) -> bool,
    plan: Plan,
) where F: FnMut(bool) -> bool + Copy
    requires
        side_fn_ok(h.0),
        side_is(h.0, answers),
        forall|path: Seq<bool>| #[trigger] plan(path) == accepted_from(answers, 0),
    ensures
        h.inv(),
        h.follows(plan, Seq::empty()),
        has_plan(h),
{
}

/// A search whose side function `answers` describes can be asked, and
/// follows from the root the plan that tries first, at the root, the side of
/// its second field, and at every other node the side that `answers` names
/// for the side that leads to the node.
pub proof fn lemma_search_follows<F>(
    h: SearchHeuristic<F>,
    answers: spec_fn(bool) -> bool,
    plan: Plan,
) where F: FnMut(bool) -> bool + Copy
    requires
        side_fn_ok(h.0),
        side_is(h.0, answers),
        forall|path: Seq<bool>| #[trigger]
            plan(path) == ordered_from(
                if path.len() == 0 {
                    h.1
                } else {
                    answers(path.last())
                },
            ),
    ensures
        h.inv(),
        h.follows(plan, Seq::empty()),
        has_plan(h),
{
    assert forall|below: Seq<bool>| #[trigger]
        plan(Seq::<bool>::empty() + below) == ordered_from(
            if below.len() == 0 {
                h.1
            } else {
                answers(below.last())
            },
        ) by {
        assert(Seq::<bool>::empty() + below =~= below);
    }
}

} // verus!
