use vstd::prelude::*;

use crate::problem::{
    depth_bound, depth_bounded_by, finite_search, is_search_path,
    is_solution_path, lemma_path_last, lemma_same_search_trans, lemma_search_path_push,
    same_search, Problem,
};
use crate::search::{
    all_solution_paths, child_nodes, forest_paths, forest_size, lemma_expand, lemma_forest_sound,
};

verus! {

/// A decision waiting on the search stack.
struct Candidate<T> {
    /// The number of decisions made before this one on its path. We keep track of this so we
    /// can call undo the appropriate number of times, if we roll back to an earlier state.
    depth: usize,
    /// Possibility which will lead to this candidate
    possibility: T,
}

/// The node of the search tree that a candidate leads to: the first `depth` decisions of
/// `history`, followed by the candidate's own.
spec fn node_of<T>(history: Seq<T>, candidate: Candidate<T>) -> Seq<T> {
    history.take(candidate.depth as int).push(candidate.possibility)
}

/// Going down to a node and back up to a shallower depth leaves the decisions above that depth
/// as they were.
proof fn lemma_branch_take<T>(history: Seq<T>, depth: int, decision: T, shallower: int)
    requires
        0 <= shallower <= depth <= history.len(),
    ensures
        history.take(depth).push(decision).take(shallower) == history.take(shallower),
{
    assert(history.take(depth).push(decision).take(shallower) =~= history.take(shallower));
}

/// Moves every decision of `decisions` onto the search stack `open`, in order, each waiting at
/// `depth`.
fn push_candidates<T>(open: &mut Vec<Candidate<T>>, decisions: &mut Vec<T>, depth: usize)
    ensures
        final(open)@ == old(open)@ + old(decisions)@.map_values(
            |decision: T| Candidate { depth, possibility: decision },
        ),
        final(decisions)@.len() == 0,
{
    let ghost offers = decisions@;
    let ghost below = open@;
    let mut reversed: Vec<T> = Vec::new();
    while decisions.len() > 0
        invariant
            decisions@ == offers.take(decisions@.len() as int),
            reversed@.len() + decisions@.len() == offers.len(),
            forall|k: int|
                0 <= k < reversed@.len() ==> #[trigger] reversed@[k] == offers[offers.len() - 1
                    - k],
        decreases decisions@.len(),
    {
        let ghost before = decisions@;
        match decisions.pop() {
            Some(decision) => {
                assert(decision == offers[decisions@.len() as int]);
                reversed.push(decision);
                assert(decisions@ =~= offers.take(decisions@.len() as int));
            },
            None => {},
        }
    }
    while reversed.len() > 0
        invariant
            reversed@.len() <= offers.len(),
            forall|k: int|
                0 <= k < reversed@.len() ==> #[trigger] reversed@[k] == offers[offers.len() - 1
                    - k],
            open@.len() == below.len() + offers.len() - reversed@.len(),
            forall|j: int| 0 <= j < below.len() ==> #[trigger] open@[j] == below[j],
            forall|j: int|
                below.len() <= j < open@.len() ==> #[trigger] open@[j] == (Candidate {
                    depth,
                    possibility: offers[j - below.len()],
                }),
            decisions@.len() == 0,
        decreases reversed@.len(),
    {
        match reversed.pop() {
            Some(decision) => {
                open.push(Candidate { depth, possibility: decision });
            },
            None => {},
        }
    }
    assert(open@ =~= below + offers.map_values(
        |decision: T| Candidate { depth, possibility: decision },
    ));
}

/// An iterator performing backtracking to find solutions to a problem.
pub struct Solutions<P: Problem> {
    decisions: Vec<P::Possibility>,
    open: Vec<Candidate<P::Possibility>>,
    /// Keeps track of the decisions, which yielded the current problem state, starting from the
    /// initial state.
    history: Vec<P::Possibility>,
    current: P,
    /// The problem as it was handed to [`Solutions::new`].
    init: Ghost<P>,
}

impl<P: Problem> Solutions<P> {
    /// The problem the search started from.
    pub closed spec fn initial(&self) -> P {
        self.init@
    }

    /// The decisions that led from the initial state to the current one.
    pub closed spec fn path(&self) -> Seq<P::Possibility> {
        self.history@
    }

    /// The problem state the search is in.
    pub closed spec fn state(&self) -> P {
        self.current
    }

    /// The nodes of the search tree still to be searched, the next one last.
    closed spec fn pending(&self) -> Seq<Seq<P::Possibility>> {
        self.open@.map_values(
            |candidate: Candidate<P::Possibility>| node_of(self.history@, candidate),
        )
    }

    /// The nodes at which the search will find the solutions it has still to hand out, in
    /// order, where the search is finite.
    pub closed spec fn remaining_paths(&self) -> Seq<Seq<P::Possibility>> {
        forest_paths(self.init@, self.pending(), depth_bound(self.init@))
    }

    /// The search has nothing left to try: every later call of `next` answers `None` at once.
    pub closed spec fn exhausted(&self) -> bool {
        self.open@.len() == 0
    }

    /// The search is consistent: the current state is consistent with the path the search stands
    /// on and spans the same tree as the initial one, and every pending node is a search path
    /// that branches off the current path, deeper for candidates nearer the top of the stack.
    pub closed spec fn wf(&self) -> bool {
        let init = self.init@;
        let history = self.history@;
        &&& self.current.consistent(history)
        &&& same_search(init, self.current)
        &&& is_search_path(init, history)
        &&& forall|i: int|
            0 <= i < self.open@.len() ==> (#[trigger] self.open@[i]).depth <= history.len()
        &&& forall|i: int, j: int|
            0 <= i <= j < self.open@.len() ==> (#[trigger] self.open@[i]).depth <= (
            #[trigger] self.open@[j]).depth
        &&& forall|i: int|
            0 <= i < self.open@.len() ==> is_search_path(
                init,
                #[trigger] node_of(history, self.open@[i]),
            )
    }

    /// Starts the search for the solutions of `init`, with the decisions it offers before any
    /// decision is made waiting to be tried, the last offered first.
    pub fn new(init: P) -> (solutions: Self)
        requires
            init.consistent(Seq::empty()),
        ensures
            solutions.wf(),
            solutions.initial() == init,
            solutions.state() == init,
            solutions.path() == Seq::<P::Possibility>::empty(),
            solutions.remaining_paths() == all_solution_paths(init),
    {
        let mut possible_moves: Vec<P::Possibility> = Vec::new();
        let no_history: Vec<P::Possibility> = Vec::new();
        init.extend_possibilities(&mut possible_moves, no_history.as_slice());
        let ghost root: Seq<P::Possibility> = Seq::empty();
        let ghost choices = possible_moves@;
        let mut open: Vec<Candidate<P::Possibility>> = Vec::new();
        push_candidates(&mut open, &mut possible_moves, 0);
        let solutions = Solutions {
            decisions: possible_moves,
            open,
            history: Vec::new(),
            current: init,
            init: Ghost(init),
        };
        proof {
            assert(root.take(0) =~= root);
            assert(solutions.pending() =~= child_nodes(root, choices));
            assert(is_search_path(init, root));
            assert forall|i: int| 0 <= i < solutions.open@.len() implies is_search_path(
                init,
                #[trigger] node_of(solutions.history@, solutions.open@[i]),
            ) by {
                assert(choices.contains(choices[i]));
                lemma_search_path_push(init, root, choices[i]);
            }
        }
        solutions
    }

    /// The cached state stays in sync with the history across backtracks: the search stands on
    /// a search path, the state is consistent with it, and it spans the same tree as the
    /// initial one, whatever was undone on the way.
    pub proof fn lemma_state_follows_path(&self)
        requires
            self.wf(),
        ensures
            is_search_path(self.initial(), self.path()),
            self.state().consistent(self.path()),
            same_search(self.initial(), self.state()),
    {
    }

    /// The search finds its remaining solutions only at solution paths of the tree.
    pub proof fn lemma_remaining_sound(&self)
        requires
            self.wf(),
        ensures
            forall|i: int|
                0 <= i < self.remaining_paths().len() ==> is_solution_path(
                    self.initial(),
                    #[trigger] self.remaining_paths()[i],
                ),
    {
        let init = self.init@;
        let nodes = self.pending();
        assert forall|j: int| 0 <= j < nodes.len() implies is_search_path(
            init,
            #[trigger] nodes[j],
        ) && nodes[j].len() > 0 by {
            assert(nodes[j] == node_of(self.history@, self.open@[j]));
        }
        lemma_forest_sound(init, nodes, depth_bound(init));
    }

    /// Searches on until the next solution, and hands it out; `None` once the search is
    /// exhausted. The search hands `what_if` a clone of each decision and records the decision
    /// itself in its path.
    pub fn next(&mut self) -> (found: Option<P::Solution>)
        requires
            old(self).wf(),
            finite_search(old(self).initial()),
        ensures
            final(self).wf(),
            final(self).initial() == old(self).initial(),
            found is None <==> old(self).remaining_paths().len() == 0,
            found is None ==> final(self).exhausted() && final(self).remaining_paths().len() == 0,
            old(self).exhausted() ==> final(self).path() == old(self).path() && final(self).state()
                == old(self).state() && final(self).exhausted(),
            found matches Some(solution) ==> {
                &&& old(self).remaining_paths() == seq![final(self).path()]
                    + final(self).remaining_paths()
                &&& old(self).initial().describes(final(self).path(), solution)
            },
    {
        let ghost init = self.init@;
        let ghost bound = depth_bound(init);
        let ghost target = self.remaining_paths();
        proof {
            let b = choose|b: nat| depth_bounded_by(init, b);
            assert(depth_bounded_by(init, b));
        }
        loop
            invariant
                self.wf(),
                self.init@ == init,
                bound == depth_bound(init),
                depth_bounded_by(init, bound),
                forest_paths(init, self.pending(), bound) == target,
                target == old(self).remaining_paths(),
                init == old(self).initial(),
                old(self).exhausted() ==> self.history@ == old(self).history@ && self.current
                    == old(self).current && self.open@ == old(self).open@,
            decreases forest_size(init, self.pending(), bound),
        {
            let ghost stack = self.pending();
            let ghost open_before = self.open@;
            let ghost h0 = self.history@;
            match self.open.pop() {
                None => {
                    assert(stack =~= Seq::<Seq<P::Possibility>>::empty());
                    return None;
                },
                Some(candidate) => {
                    let ghost node = node_of(h0, candidate);
                    let ghost rest_open = self.open@;
                    let ghost rest = stack.drop_last();
                    let ghost base = h0.take(candidate.depth as int);
                    assert(rest_open =~= open_before.drop_last());
                    assert(node == stack.last());
                    proof {
                        assert forall|j: int| 0 <= j < rest_open.len() implies (
                            #[trigger] rest_open[j]).depth <= candidate.depth by {
                            assert(open_before[j] == rest_open[j]);
                            assert(open_before.last() == open_before[open_before.len() - 1]);
                        }
                    }
                    let depth = candidate.depth;
                    // Unroll all the moves until our current state is identical with the one
                    // which we had once we put that candidate into the open list.
                    while self.history.len() > depth
                        invariant
                            depth <= self.history@.len() <= h0.len(),
                            self.history@ == h0.take(self.history@.len() as int),
                            self.current.consistent(self.history@),
                            same_search(init, self.current),
                            self.open@ == rest_open,
                            self.init@ == init,
                        decreases self.history@.len(),
                    {
                        let ghost before = self.history@;
                        match self.history.pop() {
                            Some(last) => {
                                proof {
                                    assert(self.history@.push(last) =~= before);
                                    assert(self.history@ =~= h0.take(self.history@.len() as int));
                                }
                                let ghost prior = self.current;
                                self.current.undo(&last, self.history.as_slice());
                                proof {
                                    lemma_same_search_trans(init, prior, self.current);
                                }
                            },
                            None => {},
                        }
                    }
                    // We advance one move deeper into the search tree
                    proof {
                        assert(self.history@ == base);
                        assert(node.drop_last() =~= base);
                        lemma_path_last(init, node);
                        assert(self.current.offered(base) == init.offered(base));
                    }
                    let ghost prior = self.current;
                    let decision = candidate.possibility.clone();
                    assert(vstd::pervasive::cloned(candidate.possibility, decision));
                    self.current.what_if(decision);
                    proof {
                        assert(self.current.consistent(base.push(candidate.possibility)));
                        lemma_same_search_trans(init, prior, self.current);
                    }
                    self.history.push(candidate.possibility);
                    proof {
                        assert(self.history@ == node);
                        assert forall|j: int| 0 <= j < rest_open.len() implies node_of(
                            node,
                            #[trigger] rest_open[j],
                        ) == rest[j] by {
                            assert(open_before[j] == rest_open[j]);
                            lemma_branch_take(h0, depth as int, candidate.possibility, rest_open[j].depth as int);
                        }
                        assert(self.pending() =~= rest);
                        assert(init.is_goal(node) == self.current.is_goal(node));
                        assert(init.offered(node) == self.current.offered(node));
                    }
                    // Emit solution
                    match self.current.is_solution(self.history.as_slice()) {
                        Some(solution) => {
                            proof {
                                assert(target == seq![node] + forest_paths(init, rest, bound));
                                assert(init.describes(node, solution) == self.current.describes(
                                    node,
                                    solution,
                                ));
                            }
                            return Some(solution);
                        },
                        None => {},
                    }
                    // Extend search tree
                    self.decisions.clear();
                    self.current.extend_possibilities(&mut self.decisions, self.history.as_slice());
                    let ghost choices = self.decisions@;
                    proof {
                        if choices.len() > 0 {
                            assert(choices.contains(choices[0]));
                            lemma_search_path_push(init, node, choices[0]);
                        }
                    }
                    let child_depth = self.history.len();
                    push_candidates(&mut self.open, &mut self.decisions, child_depth);
                    proof {
                        assert(node.take(node.len() as int) =~= node);
                        assert(self.pending() =~= rest + child_nodes(node, choices));
                        assert forall|i: int| 0 <= i < self.open@.len() implies is_search_path(
                            init,
                            #[trigger] node_of(self.history@, self.open@[i]),
                        ) by {
                            if i < rest_open.len() {
                                assert(node_of(self.history@, self.open@[i]) == rest[i]);
                            } else {
                                let c = choices[i - rest_open.len()];
                                assert(choices.contains(c));
                                lemma_search_path_push(init, node, c);
                            }
                        }
                        if choices.len() > 0 {
                            lemma_expand(init, rest, node, choices, bound);
                        } else {
                            assert(rest + child_nodes(node, choices) =~= rest);
                        }
                    }
                }
            }
        }
    }

    /// Runs the search to its end and hands out every solution it finds, in order.
    pub fn collect(self) -> (found: Vec<P::Solution>)
        requires
            self.wf(),
            finite_search(self.initial()),
        ensures
            found@.len() == self.remaining_paths().len(),
            forall|i: int|
                0 <= i < found@.len() ==> self.initial().describes(
                    self.remaining_paths()[i],
                    #[trigger] found@[i],
                ),
    {
        let ghost expected = self.remaining_paths();
        let ghost init = self.initial();
        let mut search = self;
        let mut found: Vec<P::Solution> = Vec::new();
        loop
            invariant
                search.wf(),
                search.initial() == init,
                init == self.initial(),
                finite_search(init),
                expected == self.remaining_paths(),
                search.remaining_paths() == expected.skip(found@.len() as int),
                found@.len() <= expected.len(),
                forall|i: int|
                    0 <= i < found@.len() ==> init.describes(expected[i], #[trigger] found@[i]),
            decreases search.remaining_paths().len(),
        {
            let ghost before = search.remaining_paths();
            match search.next() {
                Some(solution) => {
                    proof {
                        assert(before[0] == search.path());
                        assert(expected[found@.len() as int] == before[0]);
                        let after = search.remaining_paths();
                        assert(before == seq![search.path()] + after);
                        assert forall|k: int| 0 <= k < after.len() implies after[k] == expected.skip(
                            found@.len() + 1int,
                        )[k] by {
                            assert(after[k] == before[k + 1]);
                        }
                        assert(after =~= expected.skip(found@.len() + 1int));
                    }
                    found.push(solution);
                },
                None => {
                    assert(expected.skip(found@.len() as int).len() == 0);
                    return found;
                },
            }
        }
    }
}

} // verus!
