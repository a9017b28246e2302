use vstd::prelude::*;

use crate::problem::{
    depth_bound, depth_bounded_by, distinct_offers, finite_search, is_search_path,
    is_solution_path, lemma_search_path_push, Problem,
};

verus! {

/// The nodes at which a depth first search of the subtree at `history` finds solutions, in the
/// order it finds them: a node that is a solution is not looked below, and the children of any
/// other node are searched from the last offered one to the first. `fuel` is how many levels
/// below `history` the search may still descend.
pub open spec fn subtree_paths<P: Problem>(
    init: P,
    history: Seq<P::Possibility>,
    fuel: nat,
) -> Seq<Seq<P::Possibility>>
    decreases fuel, 0nat,
{
    if init.is_goal(history) {
        seq![history]
    } else if fuel == 0 {
        Seq::empty()
    } else {
        children_paths(init, history, init.offered(history), (fuel - 1) as nat)
    }
}

/// The nodes at which solutions are found in the subtrees at `history` extended by each of
/// `choices`, searched from the last choice to the first.
pub open spec fn children_paths<P: Problem>(
    init: P,
    history: Seq<P::Possibility>,
    choices: Seq<P::Possibility>,
    fuel: nat,
) -> Seq<Seq<P::Possibility>>
    decreases fuel, choices.len(),
{
    if choices.len() == 0 {
        Seq::empty()
    } else {
        subtree_paths(init, history.push(choices.last()), fuel) + children_paths(
            init,
            history,
            choices.drop_last(),
            fuel,
        )
    }
}

/// The fuel of a node `history_len` decisions deep in a tree whose search paths are no longer
/// than `bound`.
pub open spec fn fuel_at(bound: nat, history_len: nat) -> nat {
    if history_len <= bound {
        (bound - history_len) as nat
    } else {
        0
    }
}

/// The nodes at which solutions are found by searching the subtrees at `nodes` one after the
/// other, from the last node to the first.
pub open spec fn forest_paths<P: Problem>(
    init: P,
    nodes: Seq<Seq<P::Possibility>>,
    bound: nat,
) -> Seq<Seq<P::Possibility>>
    decreases nodes.len(),
{
    if nodes.len() == 0 {
        Seq::empty()
    } else {
        subtree_paths(init, nodes.last(), fuel_at(bound, nodes.last().len())) + forest_paths(
            init,
            nodes.drop_last(),
            bound,
        )
    }
}

/// The number of nodes a search visits in the subtree at `history`, `fuel` levels deep.
pub open spec fn subtree_size<P: Problem>(init: P, history: Seq<P::Possibility>, fuel: nat) -> nat
    decreases fuel, 0nat,
{
    if init.is_goal(history) || fuel == 0 {
        1
    } else {
        1 + children_size(init, history, init.offered(history), (fuel - 1) as nat)
    }
}

/// The number of nodes a search visits in the subtrees at `history` extended by each of
/// `choices`.
pub open spec fn children_size<P: Problem>(
    init: P,
    history: Seq<P::Possibility>,
    choices: Seq<P::Possibility>,
    fuel: nat,
) -> nat
    decreases fuel, choices.len(),
{
    if choices.len() == 0 {
        0
    } else {
        subtree_size(init, history.push(choices.last()), fuel) + children_size(
            init,
            history,
            choices.drop_last(),
            fuel,
        )
    }
}

/// The number of nodes a search visits in the subtrees at `nodes`.
pub open spec fn forest_size<P: Problem>(
    init: P,
    nodes: Seq<Seq<P::Possibility>>,
    bound: nat,
) -> nat
    decreases nodes.len(),
{
    if nodes.len() == 0 {
        0
    } else {
        subtree_size(init, nodes.last(), fuel_at(bound, nodes.last().len())) + forest_size(
            init,
            nodes.drop_last(),
            bound,
        )
    }
}

/// The nodes `history` extended by each of `choices`, in the order of `choices`.
pub open spec fn child_nodes<T>(history: Seq<T>, choices: Seq<T>) -> Seq<Seq<T>> {
    choices.map_values(|choice: T| history.push(choice))
}

/// Every node at which a finite search of the tree of `init` finds a solution, in the order a
/// depth first search meets them, the children of every node searched from the last offered
/// one to the first.
pub open spec fn all_solution_paths<P: Problem>(init: P) -> Seq<Seq<P::Possibility>> {
    forest_paths(init, child_nodes(Seq::empty(), init.offered(Seq::empty())), depth_bound(init))
}

/// Replacing a node on top of the search stack by its children: where the search finds
/// solutions, and how many nodes it has left to visit.
pub proof fn lemma_expand<P: Problem>(
    init: P,
    rest: Seq<Seq<P::Possibility>>,
    history: Seq<P::Possibility>,
    choices: Seq<P::Possibility>,
    bound: nat,
)
    requires
        history.len() < bound,
    ensures
        forest_paths(init, rest + child_nodes(history, choices), bound) == children_paths(
            init,
            history,
            choices,
            fuel_at(bound, history.len() + 1),
        ) + forest_paths(init, rest, bound),
        forest_size(init, rest + child_nodes(history, choices), bound) == children_size(
            init,
            history,
            choices,
            fuel_at(bound, history.len() + 1),
        ) + forest_size(init, rest, bound),
    decreases choices.len(),
{
    let all = rest + child_nodes(history, choices);
    let fuel = fuel_at(bound, history.len() + 1);
    if choices.len() == 0 {
        assert(all =~= rest);
        assert(children_paths(init, history, choices, fuel) =~= Seq::<Seq<P::Possibility>>::empty());
    } else {
        let shorter = choices.drop_last();
        lemma_expand(init, rest, history, shorter, bound);
        assert(all.drop_last() =~= rest + child_nodes(history, shorter));
        assert(all.last() == history.push(choices.last()));
        assert(history.push(choices.last()).len() == history.len() + 1);
        assert(forest_paths(init, all, bound) =~= subtree_paths(
            init,
            history.push(choices.last()),
            fuel,
        ) + forest_paths(init, rest + child_nodes(history, shorter), bound));
    }
}

// ---- Every node where the search finds a solution leads to the first solution on its path.

/// Below a search path, the search finds solutions only at solution paths.
pub proof fn lemma_subtree_sound<P: Problem>(init: P, history: Seq<P::Possibility>, fuel: nat)
    requires
        is_search_path(init, history),
        history.len() > 0,
    ensures
        forall|i: int|
            0 <= i < subtree_paths(init, history, fuel).len() ==> is_solution_path(
                init,
                #[trigger] subtree_paths(init, history, fuel)[i],
            ),
    decreases fuel, 0nat,
{
    let paths = subtree_paths(init, history, fuel);
    if init.is_goal(history) {
        assert(paths == seq![history]);
        assert(paths[0] == history);
    } else if fuel > 0 {
        let choices = init.offered(history);
        assert forall|k: int| 0 <= k < choices.len() implies choices.contains(
            #[trigger] choices[k],
        ) by {}
        lemma_children_sound(init, history, choices, (fuel - 1) as nat);
        assert(paths == children_paths(init, history, choices, (fuel - 1) as nat));
    }
}

/// Below the children of a search path that the search looks below, it finds solutions only
/// at solution paths.
pub proof fn lemma_children_sound<P: Problem>(
    init: P,
    history: Seq<P::Possibility>,
    choices: Seq<P::Possibility>,
    fuel: nat,
)
    requires
        is_search_path(init, history),
        history.len() == 0 || !init.is_goal(history),
        forall|k: int| 0 <= k < choices.len() ==> init.offered(history).contains(#[trigger] choices[k]),
    ensures
        forall|i: int|
            0 <= i < children_paths(init, history, choices, fuel).len() ==> is_solution_path(
                init,
                #[trigger] children_paths(init, history, choices, fuel)[i],
            ),
    decreases fuel, choices.len(),
{
    if choices.len() > 0 {
        let last = choices.last();
        assert(choices[choices.len() - 1] == last);
        lemma_search_path_push(init, history, last);
        lemma_subtree_sound(init, history.push(last), fuel);
        let shorter = choices.drop_last();
        assert forall|k: int| 0 <= k < shorter.len() implies init.offered(history).contains(
            #[trigger] shorter[k],
        ) by {
            assert(shorter[k] == choices[k]);
        }
        lemma_children_sound(init, history, shorter, fuel);
        let first = subtree_paths(init, history.push(last), fuel);
        let second = children_paths(init, history, shorter, fuel);
        let all = children_paths(init, history, choices, fuel);
        assert(all == first + second);
        assert forall|i: int| 0 <= i < all.len() implies is_solution_path(init, #[trigger] all[i]) by {
            if i < first.len() {
                assert(all[i] == first[i]);
            } else {
                assert(all[i] == second[i - first.len()]);
            }
        }
    }
}

/// Below a stack of search paths, the search finds solutions only at solution paths.
pub proof fn lemma_forest_sound<P: Problem>(init: P, nodes: Seq<Seq<P::Possibility>>, bound: nat)
    requires
        forall|j: int|
            0 <= j < nodes.len() ==> is_search_path(init, #[trigger] nodes[j]) && nodes[j].len()
                > 0,
    ensures
        forall|i: int|
            0 <= i < forest_paths(init, nodes, bound).len() ==> is_solution_path(
                init,
                #[trigger] forest_paths(init, nodes, bound)[i],
            ),
    decreases nodes.len(),
{
    if nodes.len() > 0 {
        let top = nodes.last();
        assert(nodes[nodes.len() - 1] == top);
        lemma_subtree_sound(init, top, fuel_at(bound, top.len()));
        let rest = nodes.drop_last();
        assert forall|j: int| 0 <= j < rest.len() implies is_search_path(init, #[trigger] rest[j])
            && rest[j].len() > 0 by {
            assert(rest[j] == nodes[j]);
        }
        lemma_forest_sound(init, rest, bound);
        let first = subtree_paths(init, top, fuel_at(bound, top.len()));
        let second = forest_paths(init, rest, bound);
        let all = forest_paths(init, nodes, bound);
        assert(all == first + second);
        assert forall|i: int| 0 <= i < all.len() implies is_solution_path(init, #[trigger] all[i]) by {
            if i < first.len() {
                assert(all[i] == first[i]);
            } else {
                assert(all[i] == second[i - first.len()]);
            }
        }
    }
}

/// The root's children are search paths.
proof fn lemma_root_children<P: Problem>(init: P)
    ensures
        forall|j: int|
            0 <= j < child_nodes(Seq::empty(), init.offered(Seq::empty())).len() ==> is_search_path(
                init,
                #[trigger] child_nodes(Seq::empty(), init.offered(Seq::empty()))[j],
            ) && child_nodes(Seq::<P::Possibility>::empty(), init.offered(Seq::empty()))[j].len()
                > 0,
{
    let root: Seq<P::Possibility> = Seq::empty();
    let choices = init.offered(root);
    let nodes = child_nodes(root, choices);
    assert(is_search_path(init, root));
    assert forall|j: int| 0 <= j < nodes.len() implies is_search_path(init, #[trigger] nodes[j])
        && nodes[j].len() > 0 by {
        assert(choices.contains(choices[j]));
        lemma_search_path_push(init, root, choices[j]);
    }
}

/// Everything a search of the tree of `init` finds is the first solution on its path.
pub proof fn lemma_all_solution_paths_sound<P: Problem>(init: P)
    ensures
        forall|i: int|
            0 <= i < all_solution_paths(init).len() ==> is_solution_path(
                init,
                #[trigger] all_solution_paths(init)[i],
            ),
{
    lemma_root_children(init);
    lemma_forest_sound(init, child_nodes(Seq::empty(), init.offered(Seq::empty())), depth_bound(init));
}

// ---- Every first solution on a path is found.

/// What the search finds below one of the choices, it finds below the node that offers them.
proof fn lemma_children_contain<P: Problem>(
    init: P,
    history: Seq<P::Possibility>,
    choices: Seq<P::Possibility>,
    choice: P::Possibility,
    target: Seq<P::Possibility>,
    fuel: nat,
)
    requires
        choices.contains(choice),
        subtree_paths(init, history.push(choice), fuel).contains(target),
    ensures
        children_paths(init, history, choices, fuel).contains(target),
    decreases choices.len(),
{
    let last = choices.last();
    let shorter = choices.drop_last();
    let first = subtree_paths(init, history.push(last), fuel);
    let second = children_paths(init, history, shorter, fuel);
    let all = children_paths(init, history, choices, fuel);
    assert(all == first + second);
    if last == choice {
        let i = choose|i: int| 0 <= i < first.len() && first[i] == target;
        assert(all[i] == target);
    } else {
        let k = choose|k: int| 0 <= k < choices.len() && choices[k] == choice;
        assert(k != choices.len() - 1);
        assert(shorter[k] == choice);
        lemma_children_contain(init, history, shorter, choice, target, fuel);
        let i = choose|i: int| 0 <= i < second.len() && second[i] == target;
        assert(all[first.len() + i] == target);
    }
}

/// What the search finds below one of a stack of nodes, it finds below the stack.
proof fn lemma_forest_contains<P: Problem>(
    init: P,
    nodes: Seq<Seq<P::Possibility>>,
    j: int,
    target: Seq<P::Possibility>,
    bound: nat,
)
    requires
        0 <= j < nodes.len(),
        subtree_paths(init, nodes[j], fuel_at(bound, nodes[j].len())).contains(target),
    ensures
        forest_paths(init, nodes, bound).contains(target),
    decreases nodes.len(),
{
    let top = nodes.last();
    let rest = nodes.drop_last();
    let first = subtree_paths(init, top, fuel_at(bound, top.len()));
    let second = forest_paths(init, rest, bound);
    let all = forest_paths(init, nodes, bound);
    assert(all == first + second);
    if j == nodes.len() - 1 {
        let i = choose|i: int| 0 <= i < first.len() && first[i] == target;
        assert(all[i] == target);
    } else {
        assert(rest[j] == nodes[j]);
        lemma_forest_contains(init, rest, j, target, bound);
        let i = choose|i: int| 0 <= i < second.len() && second[i] == target;
        assert(all[first.len() + i] == target);
    }
}

/// A solution path is found below every node of it other than the root.
proof fn lemma_prefix_subtree_contains<P: Problem>(
    init: P,
    history: Seq<P::Possibility>,
    n: int,
    bound: nat,
)
    requires
        is_solution_path(init, history),
        depth_bounded_by(init, bound),
        1 <= n <= history.len(),
    ensures
        subtree_paths(init, history.take(n), fuel_at(bound, n as nat)).contains(history),
    decreases history.len() - n,
{
    let prefix = history.take(n);
    if n == history.len() {
        assert(prefix =~= history);
        assert(subtree_paths(init, prefix, fuel_at(bound, n as nat)) =~= seq![history]);
        assert(seq![history][0] == history);
    } else {
        lemma_prefix_subtree_contains(init, history, n + 1, bound);
        assert(history.len() <= bound);
        let next = history[n];
        assert(history.take(n + 1) =~= prefix.push(next));
        assert(init.offered(history.take(n)).contains(history[n]));
        assert(!init.is_goal(history.take(n)));
        assert(fuel_at(bound, (n + 1) as nat) == fuel_at(bound, n as nat) - 1);
        lemma_children_contain(
            init,
            prefix,
            init.offered(prefix),
            next,
            history,
            fuel_at(bound, (n + 1) as nat),
        );
    }
}

/// A finite search of the tree of `init` finds every solution path.
pub proof fn lemma_solution_path_found<P: Problem>(init: P, history: Seq<P::Possibility>)
    requires
        finite_search(init),
        is_solution_path(init, history),
    ensures
        all_solution_paths(init).contains(history),
{
    let bound = depth_bound(init);
    let witness = choose|b: nat| depth_bounded_by(init, b);
    assert(depth_bounded_by(init, witness));
    lemma_prefix_subtree_contains(init, history, 1, bound);
    let root: Seq<P::Possibility> = Seq::empty();
    assert(history.take(0) =~= root);
    let choices = init.offered(root);
    assert(init.offered(history.take(0)).contains(history[0]));
    let j = choose|j: int| 0 <= j < choices.len() && choices[j] == history[0];
    let nodes = child_nodes(root, choices);
    assert(nodes[j] =~= history.take(1));
    lemma_forest_contains(init, nodes, j, history, bound);
}

// ---- Where offers do not repeat, the search finds every solution path once.

/// Everything found below a node starts with it.
pub proof fn lemma_subtree_prefix<P: Problem>(init: P, history: Seq<P::Possibility>, fuel: nat)
    ensures
        forall|i: int|
            0 <= i < subtree_paths(init, history, fuel).len() ==> (#[trigger] subtree_paths(
                init,
                history,
                fuel,
            )[i]).len() >= history.len() && subtree_paths(init, history, fuel)[i].take(
                history.len() as int,
            ) == history,
    decreases fuel, 0nat,
{
    let paths = subtree_paths(init, history, fuel);
    if init.is_goal(history) {
        assert(paths == seq![history]);
        assert(paths[0] == history);
        assert(history.take(history.len() as int) =~= history);
    } else if fuel > 0 {
        lemma_children_prefix(init, history, init.offered(history), (fuel - 1) as nat);
        assert(paths == children_paths(init, history, init.offered(history), (fuel - 1) as nat));
    }
}

/// Everything found below the children of a node starts with the node and one of the choices.
proof fn lemma_children_prefix<P: Problem>(
    init: P,
    history: Seq<P::Possibility>,
    choices: Seq<P::Possibility>,
    fuel: nat,
)
    ensures
        forall|i: int|
            0 <= i < children_paths(init, history, choices, fuel).len() ==> {
                let path = #[trigger] children_paths(init, history, choices, fuel)[i];
                &&& path.len() > history.len()
                &&& path.take(history.len() as int) == history
                &&& choices.contains(path[history.len() as int])
            },
    decreases fuel, choices.len(),
{
    if choices.len() > 0 {
        let last = choices.last();
        let child = history.push(last);
        let shorter = choices.drop_last();
        lemma_subtree_prefix(init, child, fuel);
        lemma_children_prefix(init, history, shorter, fuel);
        let first = subtree_paths(init, child, fuel);
        let second = children_paths(init, history, shorter, fuel);
        let all = children_paths(init, history, choices, fuel);
        assert(all == first + second);
        assert forall|i: int| 0 <= i < all.len() implies {
            let path = #[trigger] all[i];
            &&& path.len() > history.len()
            &&& path.take(history.len() as int) == history
            &&& choices.contains(path[history.len() as int])
        } by {
            let path = all[i];
            if i < first.len() {
                assert(path == first[i]);
                assert(path.take(child.len() as int) == child);
                assert(path.take(history.len() as int) =~= child.take(history.len() as int));
                assert(child.take(history.len() as int) =~= history);
                assert(path[history.len() as int] == path.take(child.len() as int)[history.len() as int]);
                assert(choices[choices.len() - 1] == last);
            } else {
                assert(path == second[i - first.len()]);
                let k = choose|k: int| 0 <= k < shorter.len() && shorter[k] == path[history.len() as int];
                assert(choices[k] == shorter[k]);
            }
        }
    }
}

/// Below a search path, where offers do not repeat, the search finds each node once at most.
proof fn lemma_subtree_distinct<P: Problem>(init: P, history: Seq<P::Possibility>, fuel: nat)
    requires
        distinct_offers(init),
        is_search_path(init, history),
        history.len() > 0,
    ensures
        subtree_paths(init, history, fuel).no_duplicates(),
    decreases fuel, 0nat,
{
    let paths = subtree_paths(init, history, fuel);
    if init.is_goal(history) {
        assert(paths == seq![history]);
    } else if fuel > 0 {
        let choices = init.offered(history);
        assert forall|k: int| 0 <= k < choices.len() implies choices.contains(
            #[trigger] choices[k],
        ) by {}
        lemma_children_distinct(init, history, choices, (fuel - 1) as nat);
    }
}

/// Below the children of a search path, where offers do not repeat, the search finds each node
/// once at most.
proof fn lemma_children_distinct<P: Problem>(
    init: P,
    history: Seq<P::Possibility>,
    choices: Seq<P::Possibility>,
    fuel: nat,
)
    requires
        distinct_offers(init),
        is_search_path(init, history),
        history.len() == 0 || !init.is_goal(history),
        choices.no_duplicates(),
        forall|k: int| 0 <= k < choices.len() ==> init.offered(history).contains(#[trigger] choices[k]),
    ensures
        children_paths(init, history, choices, fuel).no_duplicates(),
    decreases fuel, choices.len(),
{
    if choices.len() > 0 {
        let last = choices.last();
        let child = history.push(last);
        let shorter = choices.drop_last();
        assert(choices[choices.len() - 1] == last);
        lemma_search_path_push(init, history, last);
        lemma_subtree_distinct(init, child, fuel);
        lemma_subtree_prefix(init, child, fuel);
        assert forall|k: int| 0 <= k < shorter.len() implies init.offered(history).contains(
            #[trigger] shorter[k],
        ) by {
            assert(shorter[k] == choices[k]);
        }
        assert(shorter.no_duplicates()) by {
            assert forall|a: int, b: int| 0 <= a < shorter.len() && 0 <= b < shorter.len() && a
                != b implies shorter[a] != shorter[b] by {
                assert(shorter[a] == choices[a]);
                assert(shorter[b] == choices[b]);
            }
        }
        lemma_children_distinct(init, history, shorter, fuel);
        lemma_children_prefix(init, history, shorter, fuel);
        let first = subtree_paths(init, child, fuel);
        let second = children_paths(init, history, shorter, fuel);
        let all = children_paths(init, history, choices, fuel);
        assert(all == first + second);
        assert forall|a: int, b: int| 0 <= a < all.len() && 0 <= b < all.len() && a != b implies all[a]
            != all[b] by {
            if a < first.len() && b < first.len() {
                assert(all[a] == first[a] && all[b] == first[b]);
            } else if a >= first.len() && b >= first.len() {
                assert(all[a] == second[a - first.len()] && all[b] == second[b - first.len()]);
            } else {
                let (x, y) = if a < first.len() {
                    (a, b - first.len())
                } else {
                    (b, a - first.len())
                };
                let p = first[x];
                let q = second[y];
                assert(p.take(child.len() as int) == child);
                assert(p[history.len() as int] == p.take(child.len() as int)[history.len() as int]);
                assert(p[history.len() as int] == last);
                let k = choose|k: int| 0 <= k < shorter.len() && shorter[k] == q[history.len() as int];
                assert(choices[k] == shorter[k]);
                assert(k != choices.len() - 1);
                assert(p != q);
                if a < first.len() {
                    assert(all[a] == p && all[b] == q);
                } else {
                    assert(all[b] == p && all[a] == q);
                }
            }
        }
    }
}

/// Where no node offers a decision twice, a finite search of the tree of `init` finds each
/// solution path once.
pub proof fn lemma_all_solution_paths_distinct<P: Problem>(init: P)
    requires
        finite_search(init),
        distinct_offers(init),
    ensures
        all_solution_paths(init).no_duplicates(),
{
    let bound = depth_bound(init);
    let witness = choose|b: nat| depth_bounded_by(init, b);
    assert(depth_bounded_by(init, witness));
    let root: Seq<P::Possibility> = Seq::empty();
    let choices = init.offered(root);
    let empty: Seq<Seq<P::Possibility>> = Seq::empty();
    assert(is_search_path(init, root));
    assert(choices.no_duplicates());
    assert forall|k: int| 0 <= k < choices.len() implies init.offered(root).contains(
        #[trigger] choices[k],
    ) by {}
    if choices.len() > 0 {
        lemma_search_path_push(init, root, choices[0]);
        assert(root.push(choices[0]).len() == 1);
        lemma_expand(init, empty, root, choices, bound);
        assert(empty + child_nodes(root, choices) =~= child_nodes(root, choices));
        assert(forest_paths(init, empty, bound) =~= empty);
        lemma_children_distinct(init, root, choices, fuel_at(bound, 1));
        assert(all_solution_paths(init) =~= children_paths(init, root, choices, fuel_at(bound, 1)));
    } else {
        assert(child_nodes(root, choices) =~= empty);
    }
}

// ---- Where a node offers a decision more than once, the search finds what lies below it as
// ---- many times.

/// How many times `x` occurs in `items`.
pub open spec fn occurrences<T>(items: Seq<T>, x: T) -> nat
    decreases items.len(),
{
    if items.len() == 0 {
        0
    } else {
        occurrences(items.drop_last(), x) + if items.last() == x {
            1nat
        } else {
            0nat
        }
    }
}

/// How many ways the nodes of `history` from the `n`-th decision on are offered: the product,
/// over those decisions, of how many times each is offered after the decisions before it.
pub open spec fn offer_count_from<P: Problem>(
    init: P,
    history: Seq<P::Possibility>,
    n: int,
) -> nat
    decreases history.len() - n,
{
    if n < 0 || n >= history.len() {
        1
    } else {
        occurrences(init.offered(history.take(n)), history[n]) * offer_count_from(
            init,
            history,
            n + 1,
        )
    }
}

/// How many ways the decisions of `history` are offered, each after the ones before it.
pub open spec fn offer_count<P: Problem>(init: P, history: Seq<P::Possibility>) -> nat {
    offer_count_from(init, history, 0)
}

/// Occurrences in a concatenation add up.
proof fn lemma_occurrences_append<T>(first: Seq<T>, second: Seq<T>, x: T)
    ensures
        occurrences(first + second, x) == occurrences(first, x) + occurrences(second, x),
    decreases second.len(),
{
    if second.len() == 0 {
        assert(first + second =~= first);
    } else {
        lemma_occurrences_append(first, second.drop_last(), x);
        assert((first + second).drop_last() =~= first + second.drop_last());
    }
}

/// A value that does not occur, occurs no time.
pub proof fn lemma_occurrences_absent<T>(items: Seq<T>, x: T)
    requires
        !items.contains(x),
    ensures
        occurrences(items, x) == 0,
    decreases items.len(),
{
    if items.len() > 0 {
        assert(items.drop_last().len() < items.len());
        assert forall|i: int| 0 <= i < items.drop_last().len() implies items.drop_last()[i] != x by {
            assert(items.drop_last()[i] == items[i]);
        }
        lemma_occurrences_absent(items.drop_last(), x);
        assert(items.last() == items[items.len() - 1]);
    }
}

/// In a sequence without repeats, a value occurs once if it occurs at all.
pub proof fn lemma_occurrences_distinct<T>(items: Seq<T>, x: T)
    requires
        items.no_duplicates(),
    ensures
        occurrences(items, x) == if items.contains(x) {
            1nat
        } else {
            0nat
        },
    decreases items.len(),
{
    if items.len() == 0 {
    } else {
        let shorter = items.drop_last();
        assert forall|a: int, b: int| 0 <= a < shorter.len() && 0 <= b < shorter.len() && a != b
            implies shorter[a] != shorter[b] by {
            assert(shorter[a] == items[a] && shorter[b] == items[b]);
        }
        lemma_occurrences_distinct(shorter, x);
        assert(items.last() == items[items.len() - 1]);
        if items.last() == x {
            if shorter.contains(x) {
                let i = choose|i: int| 0 <= i < shorter.len() && shorter[i] == x;
                assert(items[i] == x);
            }
        } else {
            if items.contains(x) {
                let i = choose|i: int| 0 <= i < items.len() && items[i] == x;
                assert(shorter[i] == x);
            }
            if shorter.contains(x) {
                let i = choose|i: int| 0 <= i < shorter.len() && shorter[i] == x;
                assert(items[i] == x);
            }
        }
    }
}

/// Below the children of `history`, a longer path through it is found as many times as its
/// next decision is among the choices, times as often as it is found below that child.
proof fn lemma_children_occurrences<P: Problem>(
    init: P,
    history: Seq<P::Possibility>,
    choices: Seq<P::Possibility>,
    fuel: nat,
    target: Seq<P::Possibility>,
)
    requires
        target.len() > history.len(),
        target.take(history.len() as int) == history,
    ensures
        occurrences(children_paths(init, history, choices, fuel), target) == occurrences(
            choices,
            target[history.len() as int],
        ) * occurrences(
            subtree_paths(init, history.push(target[history.len() as int]), fuel),
            target,
        ),
    decreases choices.len(),
{
    let next = target[history.len() as int];
    let below = occurrences(subtree_paths(init, history.push(next), fuel), target);
    if choices.len() > 0 {
        let last = choices.last();
        let shorter = choices.drop_last();
        let first = subtree_paths(init, history.push(last), fuel);
        let second = children_paths(init, history, shorter, fuel);
        lemma_children_occurrences(init, history, shorter, fuel, target);
        assert(children_paths(init, history, choices, fuel) == first + second);
        lemma_occurrences_append(first, second, target);
        let rest_count = occurrences(shorter, next);
        let total = occurrences(children_paths(init, history, choices, fuel), target);
        assert(occurrences(second, target) == rest_count * below);
        assert(total == occurrences(first, target) + occurrences(second, target));
        if last == next {
            assert(occurrences(choices, next) == rest_count + 1);
            assert(occurrences(first, target) == below);
            assert(below + rest_count * below == (rest_count + 1) * below) by (nonlinear_arith);
            assert(total == occurrences(choices, next) * below);
        } else {
            lemma_subtree_prefix(init, history.push(last), fuel);
            if first.contains(target) {
                let i = choose|i: int| 0 <= i < first.len() && first[i] == target;
                assert(target.take(history.len() + 1int) == history.push(last));
                assert(target[history.len() as int] == target.take(history.len() + 1int)[history.len() as int]);
            }
            lemma_occurrences_absent(first, target);
            assert(occurrences(choices, next) == rest_count);
            assert(total == occurrences(choices, next) * below);
        }
    } else {
        assert(occurrences(choices, next) == 0);
        assert(0 * below == 0) by (nonlinear_arith);
    }
}

/// A solution path is found below each node of it, other than the root, as many ways as the
/// decisions from that node on are offered.
proof fn lemma_prefix_occurrences<P: Problem>(
    init: P,
    history: Seq<P::Possibility>,
    n: int,
    bound: nat,
)
    requires
        is_solution_path(init, history),
        depth_bounded_by(init, bound),
        1 <= n <= history.len(),
    ensures
        occurrences(subtree_paths(init, history.take(n), fuel_at(bound, n as nat)), history)
            == offer_count_from(init, history, n),
    decreases history.len() - n,
{
    let prefix = history.take(n);
    if n == history.len() {
        assert(prefix =~= history);
        assert(subtree_paths(init, prefix, fuel_at(bound, n as nat)) =~= seq![history]);
        assert(seq![history].drop_last() =~= Seq::<Seq<P::Possibility>>::empty());
        assert(seq![history].last() == history);
        assert(occurrences(seq![history].drop_last(), history) == 0);
        assert(occurrences(seq![history], history) == 1);
        assert(offer_count_from(init, history, n) == 1);
    } else {
        lemma_prefix_occurrences(init, history, n + 1, bound);
        assert(history.len() <= bound);
        assert(history.take(n + 1) =~= prefix.push(history[n]));
        assert(!init.is_goal(history.take(n)));
        assert(fuel_at(bound, (n + 1) as nat) == fuel_at(bound, n as nat) - 1);
        assert(prefix.len() == n);
        assert(history.take(n) == prefix);
        let fuel = fuel_at(bound, (n + 1) as nat);
        lemma_children_occurrences(init, prefix, init.offered(prefix), fuel, history);
        assert(subtree_paths(init, prefix, fuel_at(bound, n as nat)) == children_paths(
            init,
            prefix,
            init.offered(prefix),
            fuel,
        ));
        assert(prefix.push(history[n]) == history.take(n + 1));
        assert(offer_count_from(init, history, n) == occurrences(
            init.offered(history.take(n)),
            history[n],
        ) * offer_count_from(init, history, n + 1));
    }
}

/// A finite search of the tree of `init` finds each solution path as many times as its
/// decisions are offered: once where no node on it offers a decision twice.
pub proof fn lemma_solution_path_count<P: Problem>(init: P, history: Seq<P::Possibility>)
    requires
        finite_search(init),
        is_solution_path(init, history),
    ensures
        occurrences(all_solution_paths(init), history) == offer_count(init, history),
{
    let bound = depth_bound(init);
    let witness = choose|b: nat| depth_bounded_by(init, b);
    assert(depth_bounded_by(init, witness));
    assert(history.len() <= bound);
    lemma_prefix_occurrences(init, history, 1, bound);
    let root: Seq<P::Possibility> = Seq::empty();
    let choices = init.offered(root);
    let empty: Seq<Seq<P::Possibility>> = Seq::empty();
    lemma_expand(init, empty, root, choices, bound);
    assert(empty + child_nodes(root, choices) =~= child_nodes(root, choices));
    assert(forest_paths(init, empty, bound) =~= empty);
    assert(all_solution_paths(init) =~= children_paths(init, root, choices, fuel_at(bound, 1)));
    assert(history.take(0) =~= root);
    assert(history.take(1) =~= root.push(history[0]));
    lemma_children_occurrences(init, root, choices, fuel_at(bound, 1), history);
}

} // verus!
