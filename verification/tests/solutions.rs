use backtracking::problems::{BinarySequences, DistinctPermutations, SumChecking};
use backtracking::{Problem, Solutions};

#[test]
fn enumerates_all_binary_sequences() {
    let solutions: Vec<_> = Solutions::new(BinarySequences { n: 3 }).collect();

    assert_eq!(8, solutions.len());
    let mut distinct = solutions;
    distinct.sort();
    distinct.dedup();
    assert_eq!(8, distinct.len());
}

struct Empty;

impl Problem for Empty {
    type Possibility = ();
    type Solution = ();

    fn extend_possibilities(&self, _possibilities: &mut Vec<()>, _history: &[()]) {}
    fn undo(&mut self, _last: &(), _history: &[()]) {}
    fn what_if(&mut self, _decision: ()) {}
    fn is_solution(&self, _history: &[()]) -> Option<()> {
        None
    }
}

#[test]
fn no_solutions_if_extend_possibilities_never_yields_candidates() {
    let solutions: Vec<_> = Solutions::new(Empty).collect();

    assert!(solutions.is_empty());
}

#[test]
fn pruned_search_only_yields_permutations() {
    let solutions: Vec<_> = Solutions::new(DistinctPermutations { n: 3 }).collect();

    // 3! permutations of [0, 1, 2]
    assert_eq!(6, solutions.len());
    for permutation in &solutions {
        let mut sorted = permutation.clone();
        sorted.sort();
        assert_eq!(vec![0, 1, 2], sorted);
    }
}

#[test]
fn cached_state_stays_in_sync_with_history_across_backtracks() {
    let solutions: Vec<_> = Solutions::new(SumChecking { n: 4, cached_sum: 0 }).collect();

    assert_eq!(16, solutions.len());
}
