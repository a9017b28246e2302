# backtracking

Generic depth first search with backtracking, verified with Verus.

- `src/problem.rs`: the `Problem` trait that a search problem implements. Its spec functions
  describe an implementation: `consistent` relates the cached state to a history, `offered`
  and `is_goal` give the search tree, `describes` relates a solution found to its path. Also the notions of path, search path (one the search
  walks: no solution before its end), solution path, and a finite search (search paths of
  bounded length).
- `src/search.rs`: where a depth first search of that tree finds solutions
  (`all_solution_paths`), and the proofs that it finds exactly the solution paths, each as
  many times as its decisions are offered (once where no node offers a decision twice).
- `src/solutions.rs`: the `Solutions` iterator, proved to hand out, in order, a solution for
  each of `all_solution_paths` of a finite search, with the problem's cached state consistent
  with the path at every call it makes, and to stay put once exhausted.
- `src/problems.rs`: small problems verified against the trait's contracts.
- `tests/`: scenarios run against the compiled library.

`Solutions` cannot implement `Iterator` here; `next` and `collect` are inherent methods.
