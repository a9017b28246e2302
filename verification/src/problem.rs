use vstd::prelude::*;

verus! {

/// A problem to be tackled with backtracking. Used by the [`crate::Solutions`] iterator which
/// can find solutions for types implementing [`Problem`].
///
/// Technically any problem solvable with backtracking would not need to keep any state, apart
/// from the initial state, since all the essential input is part of the history. An empty
/// implementation for [`Problem::what_if`] and [`Problem::undo`] would always be sufficient.
/// Given the large search space for many of these problems, though, real world implementations
/// are likely to keep some cached state, which is updated in these methods.
///
/// Four spec functions describe an implementation. `consistent` says when the cached state is
/// the one that the decisions of a history lead to. `offered` says what `extend_possibilities`
/// answers after a history, `is_goal` whether `is_solution` finds a solution there, and
/// `describes` which values it may hand out for it: a relation, so that a solution built
/// afresh, such as a `Vec`, can be described by its view. These three depend on the rules of
/// the problem only, not on its cached state, so `what_if` and `undo` leave them as they are
/// (see [`same_search`]).
///
/// A verified implementation states all four. The bodies given here are placeholders: Verus
/// keeps a spec function of a trait as a method of the compiled trait, so without a body every
/// implementation written outside Verus, which cannot state one, would fail to compile. The
/// search tree of such an implementation is unknown to the proofs, and nothing proved here is
/// claimed of it.
pub trait Problem: Sized {
    /// Describes a decision made in a problem state leading to a new candidate for a solution.
    /// E.g. which field to jump to in a knights journey problem or which digit to write into a
    /// cell for a sudoku puzzle.
    type Possibility: Clone;
    /// Final state we are interested in. E.g. The history of moves made for a knights journey,
    /// or the final distribution of digits in the cells of a sudoku puzzle.
    type Solution;

    /// Whether the state cached in this problem is the one reached from its initial state by
    /// deciding the elements of `history` in turn. A problem without cached state is
    /// consistent with every history.
    open spec fn consistent(&self, history: Seq<Self::Possibility>) -> bool {
        true
    }

    /// The decisions to be considered next after `history`.
    open spec fn offered(&self, history: Seq<Self::Possibility>) -> Seq<Self::Possibility> {
        Seq::empty()
    }

    /// Whether the candidate reached through `history` is a solution.
    open spec fn is_goal(&self, history: Seq<Self::Possibility>) -> bool {
        false
    }

    /// Whether `solution` is a value that `is_solution` may hand out for the solution reached
    /// through `history`.
    open spec fn describes(&self, history: Seq<Self::Possibility>, solution: Self::Solution) -> bool {
        false
    }

    /// Extends `possibilities` with a set of decisions to be considered next. Implementations
    /// may assume that the `possibilities` is empty if invoked through the `Solutions`
    /// iterator.
    fn extend_possibilities(
        &self,
        possibilities: &mut Vec<Self::Possibility>,
        history: &[Self::Possibility],
    )
        requires
            old(possibilities)@.len() == 0,
            self.consistent(history@),
        ensures
            final(possibilities)@ == self.offered(history@),
    ;

    /// Undo the last decision made. If invoked by the [`crate::Solutions`] iterator `last` is
    /// guaranteed to be the last decision made with [`Problem::what_if`], and `history` the
    /// decisions made before it.
    fn undo(&mut self, last: &Self::Possibility, history: &[Self::Possibility])
        requires
            old(self).consistent(history@.push(*last)),
        ensures
            final(self).consistent(history@),
            forall|h: Seq<Self::Possibility>|
                #![trigger old(self).offered(h)]
                #![trigger final(self).offered(h)]
                #![trigger old(self).is_goal(h)]
                #![trigger final(self).is_goal(h)]
                final(self).offered(h) == old(self).offered(h) && final(self).is_goal(h) == old(
                    self,
                ).is_goal(h),
            forall|h: Seq<Self::Possibility>, solution: Self::Solution|
                #![trigger old(self).describes(h, solution)]
                #![trigger final(self).describes(h, solution)]
                final(self).describes(h, solution) == old(self).describes(h, solution),
    ;

    /// Update internal caches to reflect a scenario in which we would decide to execute the
    /// given possibility. The search hands this method a clone of the decision it records.
    fn what_if(&mut self, decision: Self::Possibility)
        ensures
            forall|h: Seq<Self::Possibility>|
                #![trigger old(self).offered(h)]
                #![trigger final(self).offered(h)]
                #![trigger old(self).is_goal(h)]
                #![trigger final(self).is_goal(h)]
                final(self).offered(h) == old(self).offered(h) && final(self).is_goal(h) == old(
                    self,
                ).is_goal(h),
            forall|h: Seq<Self::Possibility>, solution: Self::Solution|
                #![trigger old(self).describes(h, solution)]
                #![trigger final(self).describes(h, solution)]
                final(self).describes(h, solution) == old(self).describes(h, solution),
            forall|history: Seq<Self::Possibility>, offer: Self::Possibility|
                old(self).consistent(history) && old(self).offered(history).contains(offer)
                    && vstd::pervasive::cloned(offer, decision) ==> #[trigger] final(self).consistent(
                    history.push(offer),
                ),
    ;

    /// Check if the candidate state we are looking at is a solution to our problem. If so
    /// extract the information we are interested in.
    fn is_solution(&self, history: &[Self::Possibility]) -> (found: Option<Self::Solution>)
        requires
            self.consistent(history@),
        ensures
            found is Some <==> self.is_goal(history@),
            found matches Some(solution) ==> self.describes(history@, solution),
    ;
}

/// `a` and `b` span the same search tree: they offer the same decisions, have the same goals
/// and describe their solutions alike after every history.
pub open spec fn same_search<P: Problem>(a: P, b: P) -> bool {
    &&& forall|history: Seq<P::Possibility>|
        #![trigger a.offered(history)]
        #![trigger b.offered(history)]
        #![trigger a.is_goal(history)]
        #![trigger b.is_goal(history)]
        a.offered(history) == b.offered(history) && a.is_goal(history) == b.is_goal(history)
    &&& forall|history: Seq<P::Possibility>, solution: P::Solution|
        #![trigger a.describes(history, solution)]
        #![trigger b.describes(history, solution)]
        a.describes(history, solution) == b.describes(history, solution)
}

/// Spanning the same search tree is transitive.
pub proof fn lemma_same_search_trans<P: Problem>(a: P, b: P, c: P)
    requires
        same_search(a, b),
        same_search(b, c),
    ensures
        same_search(a, c),
{
    assert forall|history: Seq<P::Possibility>|
        a.offered(history) == c.offered(history) && a.is_goal(history) == c.is_goal(history) by {
        assert(a.offered(history) == b.offered(history));
        assert(a.is_goal(history) == b.is_goal(history));
    }
    assert forall|history: Seq<P::Possibility>, solution: P::Solution|
        a.describes(history, solution) == c.describes(history, solution) by {
        assert(a.describes(history, solution) == b.describes(history, solution));
    }
}

/// `history` is a path of the search tree of `init`: each of its decisions was offered after
/// the decisions before it.
pub open spec fn is_path<P: Problem>(init: P, history: Seq<P::Possibility>) -> bool {
    forall|i: int|
        #![trigger history.take(i)]
        0 <= i < history.len() ==> init.offered(history.take(i)).contains(history[i])
}

/// `history` is a path that a search of the tree of `init` walks: no node on it before its end,
/// other than the root, is a solution, so the search looked below each of them.
pub open spec fn is_search_path<P: Problem>(init: P, history: Seq<P::Possibility>) -> bool {
    &&& is_path(init, history)
    &&& forall|k: int|
        #![trigger history.take(k)]
        1 <= k < history.len() ==> !init.is_goal(history.take(k))
}

/// `history` leads to the first solution on it: a search path, other than the root, that ends
/// at a solution.
pub open spec fn is_solution_path<P: Problem>(init: P, history: Seq<P::Possibility>) -> bool {
    &&& is_search_path(init, history)
    &&& history.len() > 0
    &&& init.is_goal(history)
}

/// No search path of the tree of `init` is longer than `bound`.
pub open spec fn depth_bounded_by<P: Problem>(init: P, bound: nat) -> bool {
    forall|history: Seq<P::Possibility>| #[trigger]
        is_search_path(init, history) ==> history.len() <= bound
}

/// The search of the tree of `init` is finite: its search paths have a common bound on their
/// length, which holds where every node offers finitely many decisions and no path runs on
/// forever without meeting a solution.
pub open spec fn finite_search<P: Problem>(init: P) -> bool {
    exists|bound: nat| depth_bounded_by(init, bound)
}

/// A bound on the length of the search paths of a finite search of the tree of `init`.
pub open spec fn depth_bound<P: Problem>(init: P) -> nat {
    choose|bound: nat| depth_bounded_by(init, bound)
}

/// Every node of the search tree of `init` that the search looks below offers each decision
/// once at most.
pub open spec fn distinct_offers<P: Problem>(init: P) -> bool {
    forall|history: Seq<P::Possibility>| #[trigger]
        is_search_path(init, history) ==> init.offered(history).no_duplicates()
}

/// A search path extended by a decision offered at its end, where its end is the root or no
/// solution, is a search path again.
pub proof fn lemma_search_path_push<P: Problem>(
    init: P,
    history: Seq<P::Possibility>,
    decision: P::Possibility,
)
    requires
        is_search_path(init, history),
        init.offered(history).contains(decision),
        history.len() == 0 || !init.is_goal(history),
    ensures
        is_search_path(init, history.push(decision)),
{
    let ext = history.push(decision);
    assert forall|i: int| 0 <= i < ext.len() implies init.offered(#[trigger] ext.take(i)).contains(
        ext[i],
    ) by {
        if i < history.len() {
            assert(ext.take(i) =~= history.take(i));
        } else {
            assert(ext.take(i) =~= history);
        }
    }
    assert forall|k: int| 1 <= k < ext.len() implies !init.is_goal(#[trigger] ext.take(k)) by {
        if k < history.len() {
            assert(ext.take(k) =~= history.take(k));
        } else {
            assert(ext.take(k) =~= history);
        }
    }
}

/// The last decision of a path was offered after the decisions before it.
pub proof fn lemma_path_last<P: Problem>(init: P, history: Seq<P::Possibility>)
    requires
        is_path(init, history),
        history.len() > 0,
    ensures
        init.offered(history.drop_last()).contains(history.last()),
{
    let n = history.len() - 1;
    assert(history.take(n) =~= history.drop_last());
    assert(init.offered(history.take(n)).contains(history[n]));
}

} // verus!
