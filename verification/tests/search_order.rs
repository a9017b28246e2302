use backtracking::{Problem, Solutions};

/// Every sequence of `n` bits, offering `false` before `true` at every step.
struct Bits {
    n: usize,
}

impl Problem for Bits {
    type Possibility = bool;
    type Solution = Vec<bool>;

    fn extend_possibilities(&self, possibilities: &mut Vec<bool>, history: &[bool]) {
        if history.len() < self.n {
            possibilities.push(false);
            possibilities.push(true);
        }
    }

    fn undo(&mut self, _last: &bool, _history: &[bool]) {}

    fn what_if(&mut self, _decision: bool) {}

    fn is_solution(&self, history: &[bool]) -> Option<Vec<bool>> {
        if history.len() == self.n {
            Some(history.to_vec())
        } else {
            None
        }
    }
}

#[test]
fn later_offered_decisions_are_searched_first() {
    let solutions: Vec<Vec<bool>> = Solutions::new(Bits { n: 2 }).collect();

    assert_eq!(
        vec![
            vec![true, true],
            vec![true, false],
            vec![false, true],
            vec![false, false],
        ],
        solutions
    );
}

#[test]
fn next_keeps_answering_none_once_exhausted() {
    let mut search = Solutions::new(Bits { n: 1 });

    assert_eq!(Some(vec![true]), search.next());
    assert_eq!(Some(vec![false]), search.next());
    assert_eq!(None, search.next());
    assert_eq!(None, search.next());
}

#[test]
fn zero_depth_problem_offering_nothing_has_no_solution() {
    let solutions: Vec<Vec<bool>> = Solutions::new(Bits { n: 0 }).collect();

    assert!(solutions.is_empty());
}

/// Offers the digits 0 and 1 up to length 2, but already counts `[1]` as a solution.
struct StopsEarly;

impl Problem for StopsEarly {
    type Possibility = u8;
    type Solution = Vec<u8>;

    fn extend_possibilities(&self, possibilities: &mut Vec<u8>, history: &[u8]) {
        if history.len() < 2 {
            possibilities.push(0);
            possibilities.push(1);
        }
    }

    fn undo(&mut self, _last: &u8, _history: &[u8]) {}

    fn what_if(&mut self, _decision: u8) {}

    fn is_solution(&self, history: &[u8]) -> Option<Vec<u8>> {
        if history == [1] || history.len() == 2 {
            Some(history.to_vec())
        } else {
            None
        }
    }
}

#[test]
fn a_solution_is_not_searched_below() {
    let solutions: Vec<Vec<u8>> = Solutions::new(StopsEarly).collect();

    assert_eq!(vec![vec![1], vec![0, 1], vec![0, 0]], solutions);
}

/// Keeps its own copy of the decisions made and checks every call the search makes against it.
struct Recorder {
    made: Vec<u8>,
}

impl Problem for Recorder {
    type Possibility = u8;
    type Solution = Vec<u8>;

    fn extend_possibilities(&self, possibilities: &mut Vec<u8>, history: &[u8]) {
        assert!(possibilities.is_empty());
        assert_eq!(self.made.as_slice(), history);
        if history.len() < 3 {
            possibilities.extend([7, 8, 9]);
        }
    }

    fn undo(&mut self, last: &u8, history: &[u8]) {
        assert_eq!(Some(*last), self.made.pop());
        assert_eq!(self.made.as_slice(), history);
    }

    fn what_if(&mut self, decision: u8) {
        self.made.push(decision);
    }

    fn is_solution(&self, history: &[u8]) -> Option<Vec<u8>> {
        assert_eq!(self.made.as_slice(), history);
        if history.len() == 3 {
            Some(history.to_vec())
        } else {
            None
        }
    }
}

#[test]
fn undo_is_told_the_last_decision_and_the_rest_of_the_history() {
    let solutions: Vec<Vec<u8>> = Solutions::new(Recorder { made: Vec::new() }).collect();

    assert_eq!(27, solutions.len());
    assert_eq!(vec![9, 9, 9], solutions[0]);
    assert_eq!(vec![9, 9, 8], solutions[1]);
    assert_eq!(vec![9, 8, 9], solutions[3]);
    assert_eq!(vec![7, 7, 7], solutions[26]);
}

/// Every history is a solution, yet every node offers one more decision: the search must not
/// look below a solution.
struct EndlessOffers;

impl Problem for EndlessOffers {
    type Possibility = u8;
    type Solution = Vec<u8>;

    fn extend_possibilities(&self, possibilities: &mut Vec<u8>, _history: &[u8]) {
        possibilities.push(0);
    }

    fn undo(&mut self, _last: &u8, _history: &[u8]) {}

    fn what_if(&mut self, _decision: u8) {}

    fn is_solution(&self, history: &[u8]) -> Option<Vec<u8>> {
        if history.is_empty() {
            None
        } else {
            Some(history.to_vec())
        }
    }
}

#[test]
fn search_ends_where_offers_only_go_on_below_solutions() {
    let solutions: Vec<Vec<u8>> = Solutions::new(EndlessOffers).collect();

    assert_eq!(vec![vec![0]], solutions);
}

/// Places the digits `0..n` in a row, each once, keeping a flag per digit that `what_if` sets
/// and `undo` clears: the cache is overwritten, not counted.
struct DistinctRow {
    n: u8,
    used: Vec<bool>,
}

impl Problem for DistinctRow {
    type Possibility = u8;
    type Solution = Vec<u8>;

    fn extend_possibilities(&self, possibilities: &mut Vec<u8>, history: &[u8]) {
        if history.len() < self.n as usize {
            possibilities.extend((0..self.n).filter(|digit| !self.used[*digit as usize]));
        }
    }

    fn undo(&mut self, last: &u8, _history: &[u8]) {
        self.used[*last as usize] = false;
    }

    fn what_if(&mut self, decision: u8) {
        self.used[decision as usize] = true;
    }

    fn is_solution(&self, history: &[u8]) -> Option<Vec<u8>> {
        for digit in 0..self.n {
            assert_eq!(history.contains(&digit), self.used[digit as usize]);
        }
        if history.len() == self.n as usize {
            Some(history.to_vec())
        } else {
            None
        }
    }
}

#[test]
fn flags_set_by_what_if_and_cleared_by_undo_stay_in_sync() {
    let solutions: Vec<Vec<u8>> =
        Solutions::new(DistinctRow { n: 4, used: vec![false; 4] }).collect();

    assert_eq!(24, solutions.len());
    assert_eq!(vec![3, 2, 1, 0], solutions[0]);
    assert_eq!(vec![0, 1, 2, 3], solutions[23]);
}

/// Written outside Verus: tracks a running sum as cached state via `what_if`/`undo`, and cross checks it against a
/// sum computed fresh from `history` on every candidate solution. This exercises that
/// `Solutions` unwinds (`undo`s) and replays (`what_if`s) the cache correctly when
/// backtracking between sibling branches, not just on the way down.
struct SumCrossCheck {
    n: usize,
    cached_sum: i32,
}

impl Problem for SumCrossCheck {
    type Possibility = bool;
    type Solution = i32;

    fn extend_possibilities(&self, possibilities: &mut Vec<bool>, history: &[bool]) {
        if history.len() < self.n {
            possibilities.push(false);
            possibilities.push(true);
        }
    }

    fn undo(&mut self, last: &bool, _history: &[bool]) {
        if *last {
            self.cached_sum -= 1;
        }
    }

    fn what_if(&mut self, decision: bool) {
        if decision {
            self.cached_sum += 1;
        }
    }

    fn is_solution(&self, history: &[bool]) -> Option<i32> {
        if history.len() == self.n {
            let expected = history.iter().filter(|&&bit| bit).count() as i32;
            assert_eq!(
                expected, self.cached_sum,
                "cached sum diverged from history"
            );
            Some(self.cached_sum)
        } else {
            None
        }
    }
}

#[test]
fn running_sum_written_outside_verus_stays_in_sync() {
    let solutions: Vec<_> = Solutions::new(SumCrossCheck { n: 4, cached_sum: 0 }).collect();

    assert_eq!(16, solutions.len());
    assert_eq!(4, solutions[0]);
    assert_eq!(0, solutions[15]);
}

/// Offers the same decision twice at the root.
struct RepeatedOffer;

impl Problem for RepeatedOffer {
    type Possibility = u8;
    type Solution = Vec<u8>;

    fn extend_possibilities(&self, possibilities: &mut Vec<u8>, history: &[u8]) {
        if history.is_empty() {
            possibilities.push(5);
            possibilities.push(5);
            possibilities.push(6);
        }
    }

    fn undo(&mut self, _last: &u8, _history: &[u8]) {}

    fn what_if(&mut self, _decision: u8) {}

    fn is_solution(&self, history: &[u8]) -> Option<Vec<u8>> {
        if history.len() == 1 {
            Some(history.to_vec())
        } else {
            None
        }
    }
}

#[test]
fn a_decision_offered_twice_is_searched_twice() {
    let solutions: Vec<Vec<u8>> = Solutions::new(RepeatedOffer).collect();

    assert_eq!(vec![vec![6], vec![5], vec![5]], solutions);
}
