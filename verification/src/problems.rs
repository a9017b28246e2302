//! Small problems implemented and verified against the contracts of [`Problem`]: the search
//! tree of each is known to the proofs, so what the library states of `Solutions` holds of it.
use vstd::prelude::*;

use crate::problem::{depth_bounded_by, finite_search, is_search_path, is_solution_path, Problem};
use crate::search::{
    all_solution_paths, child_nodes, children_paths, forest_paths, fuel_at,
    lemma_all_solution_paths_sound, lemma_expand, lemma_occurrences_absent,
    lemma_occurrences_distinct, lemma_solution_path_count, lemma_subtree_prefix, occurrences,
    offer_count_from, subtree_paths,
};
use crate::problem::{depth_bound, lemma_search_path_push};

verus! {

/// Enumerates every binary sequence of length `n`, without any pruning.
pub struct BinarySequences {
    pub n: usize,
}

impl Problem for BinarySequences {
    type Possibility = bool;
    type Solution = Vec<bool>;

    open spec fn offered(&self, history: Seq<bool>) -> Seq<bool> {
        if history.len() < self.n {
            seq![false, true]
        } else {
            Seq::empty()
        }
    }

    open spec fn is_goal(&self, history: Seq<bool>) -> bool {
        history.len() == self.n
    }

    open spec fn describes(&self, history: Seq<bool>, solution: Vec<bool>) -> bool {
        solution@ == history
    }

    fn extend_possibilities(&self, possibilities: &mut Vec<bool>, history: &[bool]) {
        if history.len() < self.n {
            possibilities.push(false);
            possibilities.push(true);
        }
        assert(possibilities@ =~= self.offered(history@));
    }

    fn undo(&mut self, _last: &bool, _history: &[bool]) {
    }

    fn what_if(&mut self, _decision: bool) {
    }

    fn is_solution(&self, history: &[bool]) -> (found: Option<Vec<bool>>)
        ensures
            found is Some <==> history@.len() == self.n,
            found matches Some(sequence) ==> sequence@ == history@,
    {
        if history.len() == self.n {
            Some(vstd::slice::slice_to_vec(history))
        } else {
            None
        }
    }
}

/// The values below `bound` that `history` does not hold, in increasing order.
pub open spec fn unused_below(history: Seq<u8>, bound: nat) -> Seq<u8>
    decreases bound,
{
    if bound == 0 {
        Seq::empty()
    } else {
        let value = (bound - 1) as u8;
        let below = unused_below(history, (bound - 1) as nat);
        if history.contains(value) {
            below
        } else {
            below.push(value)
        }
    }
}

/// Whether `history` holds `value`.
fn holds(history: &[u8], value: u8) -> (found: bool)
    ensures
        found == history@.contains(value),
{
    let mut i: usize = 0;
    while i < history.len()
        invariant
            i <= history@.len(),
            forall|j: int| 0 <= j < i ==> history@[j] != value,
        decreases history@.len() - i,
    {
        if history[i] == value {
            return true;
        }
        i = i + 1;
    }
    false
}

/// Only yields permutations of `0..n`, by refusing to reuse a value already present in
/// `history`.
pub struct DistinctPermutations {
    pub n: u8,
}

impl Problem for DistinctPermutations {
    type Possibility = u8;
    type Solution = Vec<u8>;

    open spec fn offered(&self, history: Seq<u8>) -> Seq<u8> {
        if history.len() == self.n {
            Seq::empty()
        } else {
            unused_below(history, self.n as nat)
        }
    }

    open spec fn is_goal(&self, history: Seq<u8>) -> bool {
        history.len() == self.n
    }

    open spec fn describes(&self, history: Seq<u8>, solution: Vec<u8>) -> bool {
        solution@ == history
    }

    fn extend_possibilities(&self, possibilities: &mut Vec<u8>, history: &[u8]) {
        if history.len() == self.n as usize {
            return;
        }
        let mut value: u8 = 0;
        while value < self.n
            invariant
                value <= self.n,
                possibilities@ == unused_below(history@, value as nat),
            decreases self.n - value,
        {
            if !holds(history, value) {
                possibilities.push(value);
            }
            value = value + 1;
        }
    }

    fn undo(&mut self, _last: &u8, _history: &[u8]) {
    }

    fn what_if(&mut self, _decision: u8) {
    }

    fn is_solution(&self, history: &[u8]) -> (found: Option<Vec<u8>>)
        ensures
            found is Some <==> history@.len() == self.n,
            found matches Some(permutation) ==> permutation@ == history@,
    {
        if history.len() == self.n as usize {
            Some(vstd::slice::slice_to_vec(history))
        } else {
            None
        }
    }
}

/// The number of `true` decisions in `history`.
pub open spec fn count_true(history: Seq<bool>) -> nat
    decreases history.len(),
{
    if history.len() == 0 {
        0
    } else {
        count_true(history.drop_last()) + if history.last() {
            1nat
        } else {
            0nat
        }
    }
}

/// Counting one more decision.
proof fn lemma_count_true_push(history: Seq<bool>, decision: bool)
    ensures
        count_true(history.push(decision)) == count_true(history) + if decision {
            1nat
        } else {
            0nat
        },
{
    assert(history.push(decision).drop_last() =~= history);
}

/// No more decisions are `true` than there are decisions.
proof fn lemma_count_true_len(history: Seq<bool>)
    ensures
        count_true(history) <= history.len(),
    decreases history.len(),
{
    if history.len() > 0 {
        lemma_count_true_len(history.drop_last());
    }
}

/// Every binary sequence of length `n`, keeping the number of `true` decisions on the current
/// path as cached state, which `what_if` and `undo` update.
pub struct SumChecking {
    pub n: usize,
    pub cached_sum: i32,
}

impl Problem for SumChecking {
    type Possibility = bool;
    type Solution = i32;

    open spec fn consistent(&self, history: Seq<bool>) -> bool {
        &&& self.n < i32::MAX
        &&& history.len() <= self.n
        &&& self.cached_sum == count_true(history)
    }

    open spec fn offered(&self, history: Seq<bool>) -> Seq<bool> {
        if history.len() < self.n {
            seq![false, true]
        } else {
            Seq::empty()
        }
    }

    open spec fn is_goal(&self, history: Seq<bool>) -> bool {
        history.len() == self.n
    }

    open spec fn describes(&self, history: Seq<bool>, solution: i32) -> bool {
        solution == count_true(history)
    }

    fn extend_possibilities(&self, possibilities: &mut Vec<bool>, history: &[bool]) {
        if history.len() < self.n {
            possibilities.push(false);
            possibilities.push(true);
        }
        assert(possibilities@ =~= self.offered(history@));
    }

    fn undo(&mut self, last: &bool, history: &[bool])
        ensures
            final(self).n == old(self).n,
            *last ==> final(self).cached_sum == old(self).cached_sum - 1,
            !*last ==> final(self).cached_sum == old(self).cached_sum,
    {
        proof {
            lemma_count_true_push(history@, *last);
        }
        if *last {
            self.cached_sum = self.cached_sum - 1;
        }
    }

    fn what_if(&mut self, decision: bool)
        ensures
            final(self).n == old(self).n,
            decision && old(self).cached_sum < i32::MAX ==> final(self).cached_sum == old(
                self,
            ).cached_sum + 1,
            !decision ==> final(self).cached_sum == old(self).cached_sum,
    {
        if decision {
            self.cached_sum = self.cached_sum.wrapping_add(1);
        }
        proof {
            assert forall|history: Seq<bool>, offer: bool|
                old(self).consistent(history) && old(self).offered(history).contains(offer)
                    && vstd::pervasive::cloned(offer, decision) implies #[trigger] self.consistent(
                history.push(offer),
            ) by {
                assert(offer == decision);
                lemma_count_true_push(history, offer);
                lemma_count_true_len(history);
            }
        }
    }

    fn is_solution(&self, history: &[bool]) -> (found: Option<i32>)
        ensures
            found is Some <==> history@.len() == self.n,
            found matches Some(sum) ==> sum == history@.filter(|bit: bool| bit).len(),
    {
        proof {
            lemma_count_true_filter(history@);
        }
        if history.len() == self.n {
            Some(self.cached_sum)
        } else {
            None
        }
    }
}

/// The search of every binary sequence of length `n` is finite: its search paths are no
/// longer than `n`.
pub proof fn lemma_binary_sequences_finite(problem: BinarySequences)
    ensures
        finite_search(problem),
{
    assert forall|history: Seq<bool>| #[trigger] is_search_path(problem, history) implies history.len()
        <= problem.n by {
        if history.len() > problem.n {
            assert(problem.offered(history.take(problem.n as int)).contains(
                history[problem.n as int],
            ));
        }
    }
    assert(depth_bounded_by(problem, problem.n as nat));
}

/// The search of the permutations of `0..n` is finite: its search paths are no longer than `n`.
pub proof fn lemma_distinct_permutations_finite(problem: DistinctPermutations)
    ensures
        finite_search(problem),
{
    assert forall|history: Seq<u8>| #[trigger] is_search_path(problem, history) implies history.len()
        <= problem.n by {
        if history.len() > problem.n {
            assert(problem.offered(history.take(problem.n as int)).contains(
                history[problem.n as int],
            ));
        }
    }
    assert(depth_bounded_by(problem, problem.n as nat));
}

/// The search of the binary sequences with a cached count of `true` decisions is finite: its
/// search paths are no longer than `n`.
pub proof fn lemma_sum_checking_finite(problem: SumChecking)
    ensures
        finite_search(problem),
{
    assert forall|history: Seq<bool>| #[trigger] is_search_path(problem, history) implies history.len()
        <= problem.n by {
        if history.len() > problem.n {
            assert(problem.offered(history.take(problem.n as int)).contains(
                history[problem.n as int],
            ));
        }
    }
    assert(depth_bounded_by(problem, problem.n as nat));
}

/// The number of `true` decisions, counted one decision at a time, is that of the `true`
/// decisions kept by a filter.
proof fn lemma_count_true_filter(history: Seq<bool>)
    ensures
        count_true(history) == history.filter(|bit: bool| bit).len(),
    decreases history.len(),
{
    reveal_with_fuel(Seq::filter, 1);
    if history.len() > 0 {
        lemma_count_true_filter(history.drop_last());
    }
}

/// `false` and `true` are offered once each.
proof fn lemma_both_bits_once(bit: bool)
    ensures
        occurrences(seq![false, true], bit) == 1,
{
    let both = seq![false, true];
    assert(both[0] == false && both[1] == true);
    assert(both.no_duplicates());
    lemma_occurrences_distinct(both, bit);
    if bit {
        assert(both.contains(bit));
    } else {
        assert(both.contains(bit));
    }
}

/// The paths that a search of the binary sequences of length `n` walks are those of at most
/// `n` decisions.
proof fn lemma_binary_search_paths(problem: BinarySequences, history: Seq<bool>)
    ensures
        is_search_path(problem, history) <==> history.len() <= problem.n,
{
    if history.len() <= problem.n {
        assert forall|i: int| 0 <= i < history.len() implies problem.offered(
            #[trigger] history.take(i),
        ).contains(history[i]) by {
            let both = seq![false, true];
            assert(both[0] == false && both[1] == true);
        }
    } else if is_search_path(problem, history) {
        assert(problem.offered(history.take(problem.n as int)).contains(history[problem.n as int]));
    }
}

/// Each binary sequence of at most `n` decisions is offered one way only.
proof fn lemma_binary_offer_count(problem: BinarySequences, history: Seq<bool>, i: int)
    requires
        history.len() <= problem.n,
    ensures
        offer_count_from(problem, history, i) == 1,
    decreases history.len() - i,
{
    if 0 <= i < history.len() {
        lemma_binary_offer_count(problem, history, i + 1);
        assert(history.take(i).len() < problem.n);
        lemma_both_bits_once(history[i]);
    }
}

/// A binary sequences problem has a solution exactly after `n` decisions, and hands out, as
/// that solution, the very decisions of the path.
pub proof fn lemma_binary_sequences_describes(
    problem: BinarySequences,
    history: Seq<bool>,
    solution: Vec<bool>,
)
    ensures
        problem.is_goal(history) <==> history.len() == problem.n,
        problem.describes(history, solution) ==> solution@ == history,
{
}

/// A search of the binary sequences of length `n` finds every sequence of `n` bits, each once,
/// and nothing else.
pub proof fn lemma_binary_sequences_found_once(problem: BinarySequences, history: Seq<bool>)
    ensures
        is_solution_path(problem, history) <==> history.len() == problem.n && problem.n > 0,
        occurrences(all_solution_paths(problem), history) == if history.len() == problem.n
            && problem.n > 0 {
            1nat
        } else {
            0nat
        },
{
    lemma_binary_search_paths(problem, history);
    lemma_binary_sequences_finite(problem);
    if history.len() == problem.n && problem.n > 0 {
        lemma_solution_path_count(problem, history);
        lemma_binary_offer_count(problem, history, 0);
    } else {
        lemma_all_solution_paths_sound(problem);
        let paths = all_solution_paths(problem);
        if paths.contains(history) {
            let i = choose|i: int| 0 <= i < paths.len() && paths[i] == history;
            assert(is_solution_path(problem, paths[i]));
        }
        lemma_occurrences_absent(paths, history);
    }
}

/// A running sum problem, where `n` is below `i32::MAX`, is consistent with exactly the
/// histories of at most `n` decisions whose number of `true` decisions is in its cache; it has
/// a solution exactly after `n` decisions, and hands out, as that solution, the number of
/// `true` decisions of the path.
pub proof fn lemma_sum_checking_describes(problem: SumChecking, history: Seq<bool>, solution: i32)
    ensures
        problem.consistent(history) <==> problem.n < i32::MAX && history.len() <= problem.n
            && problem.cached_sum == history.filter(|bit: bool| bit).len(),
        problem.is_goal(history) <==> history.len() == problem.n,
        problem.describes(history, solution) ==> solution == history.filter(|bit: bool| bit).len(),
{
    lemma_count_true_filter(history);
}

/// The paths that a running sum search walks are those of at most `n` decisions.
proof fn lemma_sum_search_paths(problem: SumChecking, history: Seq<bool>)
    ensures
        is_search_path(problem, history) <==> history.len() <= problem.n,
{
    if history.len() <= problem.n {
        assert forall|i: int| 0 <= i < history.len() implies problem.offered(
            #[trigger] history.take(i),
        ).contains(history[i]) by {
            let both = seq![false, true];
            assert(both[0] == false && both[1] == true);
        }
    } else if is_search_path(problem, history) {
        assert(problem.offered(history.take(problem.n as int)).contains(history[problem.n as int]));
    }
}

/// Each path of a running sum search of at most `n` decisions is offered one way only.
proof fn lemma_sum_offer_count(problem: SumChecking, history: Seq<bool>, i: int)
    requires
        history.len() <= problem.n,
    ensures
        offer_count_from(problem, history, i) == 1,
    decreases history.len() - i,
{
    if 0 <= i < history.len() {
        lemma_sum_offer_count(problem, history, i + 1);
        assert(history.take(i).len() < problem.n);
        lemma_both_bits_once(history[i]);
    }
}

/// A running sum search finds every sequence of `n` bits, each once, and nothing else.
pub proof fn lemma_sum_checking_found_once(problem: SumChecking, history: Seq<bool>)
    ensures
        is_solution_path(problem, history) <==> history.len() == problem.n && problem.n > 0,
        occurrences(all_solution_paths(problem), history) == if history.len() == problem.n
            && problem.n > 0 {
            1nat
        } else {
            0nat
        },
{
    lemma_sum_search_paths(problem, history);
    lemma_sum_checking_finite(problem);
    if history.len() == problem.n && problem.n > 0 {
        lemma_solution_path_count(problem, history);
        lemma_sum_offer_count(problem, history, 0);
    } else {
        lemma_all_solution_paths_sound(problem);
        let paths = all_solution_paths(problem);
        if paths.contains(history) {
            let i = choose|i: int| 0 <= i < paths.len() && paths[i] == history;
            assert(is_solution_path(problem, paths[i]));
        }
        lemma_occurrences_absent(paths, history);
    }
}

/// The values below `bound` not held in `history` are those values, in increasing order, each
/// once.
proof fn lemma_unused_below(history: Seq<u8>, bound: nat)
    requires
        bound <= 256,
    ensures
        forall|value: u8| #[trigger]
            unused_below(history, bound).contains(value) <==> value < bound && !history.contains(
                value,
            ),
        forall|i: int|
            0 <= i < unused_below(history, bound).len() ==> #[trigger] unused_below(
                history,
                bound,
            )[i] < bound,
        unused_below(history, bound).no_duplicates(),
        forall|i: int, j: int|
            0 <= i < j < unused_below(history, bound).len() ==> #[trigger] unused_below(
                history,
                bound,
            )[i] < #[trigger] unused_below(history, bound)[j],
    decreases bound,
{
    if bound > 0 {
        let top = (bound - 1) as u8;
        let below = unused_below(history, (bound - 1) as nat);
        lemma_unused_below(history, (bound - 1) as nat);
        let all = unused_below(history, bound);
        if !history.contains(top) {
            assert(all == below.push(top));
            assert forall|value: u8| #[trigger]
                all.contains(value) <==> value < bound && !history.contains(value) by {
                if all.contains(value) {
                    let i = choose|i: int| 0 <= i < all.len() && all[i] == value;
                    if i < below.len() {
                        assert(below[i] == value);
                        assert(below.contains(value));
                    } else {
                        assert(value == top);
                        assert(top < bound);
                    }
                }
                if value < bound && !history.contains(value) {
                    if value == top {
                        assert(all[below.len() as int] == top);
                    } else {
                        assert(value < bound - 1);
                        assert(below.contains(value));
                        let i = choose|i: int| 0 <= i < below.len() && below[i] == value;
                        assert(all[i] == value);
                    }
                }
            }
            assert forall|a: int, b: int| 0 <= a < b < all.len() implies #[trigger] all[a]
                < #[trigger] all[b] by {
                if b < below.len() {
                    assert(all[a] == below[a] && all[b] == below[b]);
                } else {
                    assert(all[a] == below[a] && below[a] < bound - 1);
                }
            }
            assert forall|a: int, b: int| 0 <= a < all.len() && 0 <= b < all.len() && a != b
                implies all[a] != all[b] by {
                if a < below.len() && b < below.len() {
                    assert(all[a] == below[a] && all[b] == below[b]);
                } else if a < below.len() {
                    assert(all[a] == below[a] && below[a] < bound - 1);
                } else {
                    assert(all[b] == below[b] && below[b] < bound - 1);
                }
            }
        } else {
            assert(all == below);
            assert forall|value: u8| #[trigger]
                all.contains(value) <==> value < bound && !history.contains(value) by {
                if value < bound && !history.contains(value) {
                    assert(value != top);
                    assert(value < bound - 1);
                    assert(below.contains(value));
                }
            }
        }
    }
}

/// A permutations problem offers, after a history of other than `n` decisions, every value
/// below `n` not yet decided, each once, in increasing order, and nothing else.
pub proof fn lemma_distinct_permutations_offers(problem: DistinctPermutations, history: Seq<u8>)
    ensures
        forall|value: u8| #[trigger]
            problem.offered(history).contains(value) <==> history.len() != problem.n && value
                < problem.n && !history.contains(value),
        problem.offered(history).no_duplicates(),
        forall|i: int, j: int|
            0 <= i < j < problem.offered(history).len() ==> #[trigger] problem.offered(history)[i]
                < #[trigger] problem.offered(history)[j],
{
    lemma_unused_below(history, problem.n as nat);
}

/// `history` holds values below `n`, each once.
pub open spec fn is_arrangement(history: Seq<u8>, n: u8) -> bool {
    &&& history.no_duplicates()
    &&& forall|i: int| 0 <= i < history.len() ==> #[trigger] history[i] < n
}

/// The paths that a permutations search walks are the arrangements of at most `n` values.
proof fn lemma_permutation_search_paths(problem: DistinctPermutations, history: Seq<u8>)
    ensures
        is_search_path(problem, history) <==> history.len() <= problem.n && is_arrangement(
            history,
            problem.n,
        ),
{
    if history.len() <= problem.n && is_arrangement(history, problem.n) {
        assert forall|i: int| 0 <= i < history.len() implies problem.offered(
            #[trigger] history.take(i),
        ).contains(history[i]) by {
            lemma_distinct_permutations_offers(problem, history.take(i));
            if history.take(i).contains(history[i]) {
                let j = choose|j: int| 0 <= j < i && history.take(i)[j] == history[i];
                assert(history[j] == history[i]);
            }
        }
    }
    if is_search_path(problem, history) {
        if history.len() > problem.n {
            assert(problem.offered(history.take(problem.n as int)).contains(
                history[problem.n as int],
            ));
        }
        assert forall|i: int| 0 <= i < history.len() implies #[trigger] history[i] < problem.n by {
            lemma_distinct_permutations_offers(problem, history.take(i));
            assert(problem.offered(history.take(i)).contains(history[i]));
        }
        assert forall|a: int, b: int| 0 <= a < history.len() && 0 <= b < history.len() && a != b
            implies history[a] != history[b] by {
            let (first, second) = if a < b {
                (a, b)
            } else {
                (b, a)
            };
            lemma_distinct_permutations_offers(problem, history.take(second));
            assert(problem.offered(history.take(second)).contains(history[second]));
            assert(history.take(second)[first] == history[first]);
        }
    }
}

/// Each arrangement is offered one way only.
proof fn lemma_permutation_offer_count(problem: DistinctPermutations, history: Seq<u8>, i: int)
    requires
        is_search_path(problem, history),
    ensures
        offer_count_from(problem, history, i) == 1,
    decreases history.len() - i,
{
    if 0 <= i < history.len() {
        lemma_permutation_offer_count(problem, history, i + 1);
        lemma_distinct_permutations_offers(problem, history.take(i));
        assert(problem.offered(history.take(i)).contains(history[i]));
        lemma_occurrences_distinct(problem.offered(history.take(i)), history[i]);
    }
}

/// A permutations problem has a solution exactly after `n` decisions, and hands out, as that
/// solution, the very decisions of the path.
pub proof fn lemma_distinct_permutations_describes(
    problem: DistinctPermutations,
    history: Seq<u8>,
    solution: Vec<u8>,
)
    ensures
        problem.is_goal(history) <==> history.len() == problem.n,
        problem.describes(history, solution) ==> solution@ == history,
{
}

/// A permutations search finds every permutation of `0..n`, each once, and nothing else.
pub proof fn lemma_distinct_permutations_found_once(
    problem: DistinctPermutations,
    history: Seq<u8>,
)
    ensures
        is_solution_path(problem, history) <==> history.len() == problem.n && problem.n > 0
            && is_arrangement(history, problem.n),
        occurrences(all_solution_paths(problem), history) == if history.len() == problem.n
            && problem.n > 0 && is_arrangement(history, problem.n) {
            1nat
        } else {
            0nat
        },
{
    lemma_permutation_search_paths(problem, history);
    lemma_distinct_permutations_finite(problem);
    if history.len() == problem.n && problem.n > 0 && is_arrangement(history, problem.n) {
        lemma_solution_path_count(problem, history);
        lemma_permutation_offer_count(problem, history, 0);
    } else {
        lemma_all_solution_paths_sound(problem);
        let paths = all_solution_paths(problem);
        if paths.contains(history) {
            let i = choose|i: int| 0 <= i < paths.len() && paths[i] == history;
            assert(is_solution_path(problem, paths[i]));
        }
        lemma_occurrences_absent(paths, history);
    }
}

/// `a` comes before `b` in decreasing binary order: where they first differ, `a` has `true`.
pub open spec fn bits_descend(a: Seq<bool>, b: Seq<bool>) -> bool {
    exists|k: int| 0 <= k < a.len() && k < b.len() && a.take(k) == b.take(k) && a[k] && !b[k]
}

/// Each of `paths` comes before every later one in decreasing binary order.
pub open spec fn in_descending_order(paths: Seq<Seq<bool>>) -> bool {
    forall|i: int, j: int|
        0 <= i < j < paths.len() ==> bits_descend(#[trigger] paths[i], #[trigger] paths[j])
}

/// `problem` offers `false` and then `true` after every history shorter than `n`, nothing
/// after a longer one, and has its goals after exactly `n` decisions.
spec fn binary_rules<P: Problem<Possibility = bool>>(problem: P, n: nat) -> bool {
    &&& forall|history: Seq<bool>| #[trigger]
        problem.offered(history) == if history.len() < n {
            seq![false, true]
        } else {
            Seq::empty()
        }
    &&& forall|history: Seq<bool>| #[trigger] problem.is_goal(history) <==> history.len() == n
}

/// Below any node, a search of the binary sequences meets its solutions in decreasing binary
/// order.
proof fn lemma_bits_subtree_descending<P: Problem<Possibility = bool>>(
    problem: P,
    n: nat,
    history: Seq<bool>,
    fuel: nat,
)
    requires
        binary_rules(problem, n),
    ensures
        in_descending_order(subtree_paths(problem, history, fuel)),
    decreases fuel,
{
    assert(problem.offered(history) == if history.len() < n {
        seq![false, true]
    } else {
        Seq::<bool>::empty()
    });
    if problem.is_goal(history) {
        assert(subtree_paths(problem, history, fuel) == seq![history]);
    } else if fuel == 0 {
    } else if history.len() < n {
        let rest = (fuel - 1) as nat;
        let high = history.push(true);
        let low = history.push(false);
        lemma_bits_subtree_descending(problem, n, high, rest);
        lemma_bits_subtree_descending(problem, n, low, rest);
        lemma_subtree_prefix(problem, high, rest);
        lemma_subtree_prefix(problem, low, rest);
        let first = subtree_paths(problem, high, rest);
        let second = subtree_paths(problem, low, rest);
        let both = seq![false, true];
        assert(both.last() == true);
        assert(both.drop_last() =~= seq![false]);
        assert(seq![false].last() == false);
        assert(seq![false].drop_last() =~= Seq::<bool>::empty());
        assert(children_paths(problem, history, Seq::<bool>::empty(), rest) =~= Seq::<
            Seq<bool>,
        >::empty());
        assert(children_paths(problem, history, seq![false], rest) =~= second);
        let all = subtree_paths(problem, history, fuel);
        assert(all == first + second);
        let k = history.len() as int;
        assert forall|i: int, j: int| 0 <= i < j < all.len() implies bits_descend(
            #[trigger] all[i],
            #[trigger] all[j],
        ) by {
            if j < first.len() {
                assert(all[i] == first[i] && all[j] == first[j]);
            } else if i >= first.len() {
                assert(all[i] == second[i - first.len()] && all[j] == second[j - first.len()]);
            } else {
                let a = first[i];
                let b = second[j - first.len()];
                assert(all[i] == a && all[j] == b);
                assert(a.take(k + 1) == high);
                assert(b.take(k + 1) == low);
                assert(a.take(k) =~= high.take(k));
                assert(b.take(k) =~= low.take(k));
                assert(high.take(k) =~= history);
                assert(low.take(k) =~= history);
                assert(a[k] == a.take(k + 1)[k]);
                assert(b[k] == b.take(k + 1)[k]);
            }
        }
    } else {
        assert(subtree_paths(problem, history, fuel) =~= Seq::<Seq<bool>>::empty());
    }
}

/// A search of binary sequences hands out its solutions in decreasing binary order.
proof fn lemma_bits_order<P: Problem<Possibility = bool>>(problem: P, n: nat)
    requires
        binary_rules(problem, n),
        finite_search(problem),
    ensures
        in_descending_order(all_solution_paths(problem)),
{
    let root: Seq<bool> = Seq::empty();
    let bound = depth_bound(problem);
    let witness = choose|b: nat| depth_bounded_by(problem, b);
    assert(depth_bounded_by(problem, witness));
    let choices = problem.offered(root);
    if n == 0 {
        assert(choices =~= Seq::<bool>::empty());
        assert(child_nodes(root, choices) =~= Seq::<Seq<bool>>::empty());
    } else {
        assert(choices == seq![false, true]);
        assert(choices.contains(false));
        assert(is_search_path(problem, root));
        lemma_search_path_push(problem, root, false);
        assert(root.push(false).len() == 1);
        let empty: Seq<Seq<bool>> = Seq::empty();
        lemma_expand(problem, empty, root, choices, bound);
        assert(empty + child_nodes(root, choices) =~= child_nodes(root, choices));
        assert(forest_paths(problem, empty, bound) =~= empty);
        assert(!problem.is_goal(root));
        assert(subtree_paths(problem, root, fuel_at(bound, 0)) == children_paths(
            problem,
            root,
            choices,
            fuel_at(bound, 1),
        ));
        lemma_bits_subtree_descending(problem, n, root, fuel_at(bound, 0));
        assert(all_solution_paths(problem) =~= children_paths(problem, root, choices, fuel_at(bound, 1)));
    }
}

/// A search of the binary sequences of length `n` hands them out in decreasing binary order,
/// all `true` first.
pub proof fn lemma_binary_sequences_order(problem: BinarySequences)
    ensures
        in_descending_order(all_solution_paths(problem)),
{
    lemma_binary_sequences_finite(problem);
    lemma_bits_order(problem, problem.n as nat);
}

/// A running sum search walks the binary sequences of length `n` in decreasing binary order,
/// all `true` first.
pub proof fn lemma_sum_checking_order(problem: SumChecking)
    ensures
        in_descending_order(all_solution_paths(problem)),
{
    lemma_sum_checking_finite(problem);
    lemma_bits_order(problem, problem.n as nat);
}

} // verus!
