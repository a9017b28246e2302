use backtracking::{Problem, Solutions};

/// Chains of distinct dictionary words, each starting with the last letter of the one before.
struct WordChain {
    dictionary: Vec<String>,
    target_len: usize,
}

impl Problem for WordChain {
    type Possibility = String;
    type Solution = Vec<String>;

    fn extend_possibilities(&self, possibilities: &mut Vec<String>, history: &[String]) {
        if history.len() == self.target_len {
            return;
        }
        let last_char = history.last().and_then(|w| w.chars().last());
        possibilities.extend(
            self.dictionary
                .iter()
                .filter(|w| !history.contains(w))
                .filter(|w| match last_char {
                    Some(c) => w.starts_with(c),
                    None => true,
                })
                .cloned(),
        );
    }

    fn what_if(&mut self, _decision: String) {}

    fn undo(&mut self, _last: &String, _history: &[String]) {}

    fn is_solution(&self, history: &[String]) -> Option<Vec<String>> {
        if history.len() == self.target_len {
            Some(history.to_vec())
        } else {
            None
        }
    }
}

fn dictionary() -> Vec<String> {
    ["cat", "tag", "gnu", "used", "dog"]
        .into_iter()
        .map(String::from)
        .collect()
}

#[test]
fn finds_every_chain_of_the_target_length() {
    let problem = WordChain {
        dictionary: dictionary(),
        target_len: 3,
    };

    let mut solutions: Vec<_> = Solutions::new(problem).collect();
    solutions.sort();

    let mut expected = vec![
        vec!["cat", "tag", "gnu"],
        vec!["tag", "gnu", "used"],
        vec!["gnu", "used", "dog"],
        vec!["used", "dog", "gnu"],
        vec!["dog", "gnu", "used"],
    ];
    expected.sort();
    assert_eq!(expected, solutions);
}

#[test]
fn chains_may_not_reuse_a_word() {
    let problem = WordChain {
        dictionary: dictionary(),
        target_len: 4,
    };

    let mut solutions: Vec<_> = Solutions::new(problem).collect();
    solutions.sort();

    let mut expected = vec![
        vec!["cat", "tag", "gnu", "used"],
        vec!["tag", "gnu", "used", "dog"],
    ];
    expected.sort();
    assert_eq!(expected, solutions);
}
