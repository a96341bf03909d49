//! What holds of every tree that a search builds.

use crate::descent::{
    lemma_expanded_extends, lemma_extends_transitive, lemma_grown_descent, lemma_settled,
    lemma_settled_extends,
};
use crate::model::{
    balanced, child, edge_ok, extends, node_balanced, node_ok, root_expanded, sum_simulations,
    well_formed, NodeId, NodeView, MAX_SIMULATIONS,
};
use crate::position::{legal_moves_of, playout, Fault, Outcome};
use crate::steps::{
    abort_along, backpropagated, child_simulations, expanded, has_room, is_aborted, is_best_move,
    is_first_max, is_first_unvisited, is_iteration, is_scripted, is_selected_branch, is_uct_choice,
    is_uct_step, iterated, iteration_along, iteration_draws, reaches, reaches_wasting, replayable,
    scored_by, scripted_along,
};
use crate::tree_lemmas::lemma_backpropagated_well_formed;
use vstd::prelude::*;

verus! {

/// A selected branch runs through ever larger handles: it is finite, no
/// longer than the tree, and it ends in a node without children.
pub proof fn selected_branch_is_finite<F: Fn(u64, u64, u64) -> u64>(
    score: &F,
    t: Seq<NodeView>,
    root: int,
    branch: Seq<NodeId>,
)
    requires
        well_formed(t),
        is_selected_branch(score, t, root, branch),
    ensures
        forall|j: int, k: int| 0 <= j < k < branch.len() ==> branch[j].0 < branch[k].0,
        branch.len() <= t.len(),
        t[branch.last().0 as int].children.len() == 0,
{
    assert forall|j: int, k: int| 0 <= j < k < branch.len() implies branch[j].0
        < branch[k].0 by {
        branch_step_grows(score, t, root, branch, j, k);
    }
    if branch.len() > t.len() {
        branch_handles_spread(score, t, root, branch, branch.len() - 1);
        assert(branch[branch.len() - 1].0 < t.len());
    }
}

proof fn branch_step_grows<F: Fn(u64, u64, u64) -> u64>(
    score: &F,
    t: Seq<NodeView>,
    root: int,
    branch: Seq<NodeId>,
    j: int,
    k: int,
)
    requires
        well_formed(t),
        is_selected_branch(score, t, root, branch),
        0 <= j < k < branch.len(),
    ensures
        branch[j].0 < branch[k].0,
    decreases k - j,
{
    assert(is_uct_step(score, t, branch[k - 1], branch[k - 1 + 1]));
    let a = choose|a: int|
        #[trigger] is_uct_choice(score, t, branch[k - 1].0 as int, a) && branch[k]
            == t[branch[k - 1].0 as int].children[a];
    assert(node_ok(t, branch[k - 1].0 as int));
    assert(edge_ok(t, branch[k - 1].0 as int, a));
    if j < k - 1 {
        branch_step_grows(score, t, root, branch, j, k - 1);
    }
}

proof fn branch_handles_spread<F: Fn(u64, u64, u64) -> u64>(
    score: &F,
    t: Seq<NodeView>,
    root: int,
    branch: Seq<NodeId>,
    k: int,
)
    requires
        well_formed(t),
        is_selected_branch(score, t, root, branch),
        0 <= k < branch.len(),
    ensures
        branch[0].0 + k <= branch[k].0,
    decreases k,
{
    if k > 0 {
        branch_handles_spread(score, t, root, branch, k - 1);
        branch_step_grows(score, t, root, branch, k - 1, k);
    }
}

/// Between iterations a node has as many simulations as its children
/// together, unless a playout was started from the node itself when it was
/// created: then it has one more.
pub proof fn simulations_sum_over_children(t: Seq<NodeView>, n: int)
    requires
        balanced(t),
        0 <= n < t.len(),
    ensures
        !t[n].sampled ==> t[n].simulations == sum_simulations(t, t[n].children),
        t[n].sampled ==> t[n].simulations == sum_simulations(t, t[n].children) + 1,
{
    assert(node_balanced(t, n));
}

/// Between iterations the root has as many simulations as its children
/// together.
pub proof fn root_simulations_sum_over_children(t: Seq<NodeView>)
    requires
        well_formed(t),
        balanced(t),
    ensures
        t[0].simulations == sum_simulations(t, t[0].children),
{
    assert(node_balanced(t, 0));
}

/// The wins of a node lie between nothing and its simulations: doubled, they
/// do not exceed twice the simulations.
pub proof fn wins_within_simulations(t: Seq<NodeView>, n: int)
    requires
        well_formed(t),
        0 <= n < t.len(),
    ensures
        0 <= t[n].half_wins <= 2 * t[n].simulations,
{
    assert(node_ok(t, n));
}

/// Selection takes a child without simulations before any child that has
/// one: where some child is unvisited, the chosen child is unvisited, and no
/// unvisited child comes before it.
pub proof fn unvisited_child_goes_first<F: Fn(u64, u64, u64) -> u64>(
    score: &F,
    t: Seq<NodeView>,
    n: int,
    a: int,
    b: int,
)
    requires
        is_uct_choice(score, t, n, a),
        0 <= b < t[n].children.len(),
        t[child(t, n, b)].simulations == 0,
    ensures
        t[child(t, n, a)].simulations == 0,
        a <= b,
{
}

/// A list has one first maximum at most.
pub proof fn first_max_is_unique(keys: Seq<u64>, a: int, b: int)
    requires
        is_first_max(keys, a),
        is_first_max(keys, b),
    ensures
        a == b,
{
    if a < b {
        assert(keys[a] < keys[b]);
        assert(keys[b] <= keys[a]);
    }
    if b < a {
        assert(keys[b] < keys[a]);
        assert(keys[a] <= keys[b]);
    }
}

/// The recommended move is determined by the tree.
pub proof fn best_move_is_unique(
    t: Seq<NodeView>,
    m1: Option<shakmaty::Move>,
    m2: Option<shakmaty::Move>,
)
    requires
        is_best_move(t, m1),
        is_best_move(t, m2),
    ensures
        m1 == m2,
{
    if t[0].children.len() > 0 {
        let a = choose|a: int|
            is_first_max(child_simulations(t, 0), a) && m1 == t[child(t, 0, a)].last_move;
        let b = choose|b: int|
            is_first_max(child_simulations(t, 0), b) && m2 == t[child(t, 0, b)].last_move;
        first_max_is_unique(child_simulations(t, 0), a, b);
    }
}

/// The recommended move belongs to a child of the root that no other child
/// exceeds in simulations, and that every earlier child falls short of.
pub proof fn best_move_is_most_visited(t: Seq<NodeView>, m: Option<shakmaty::Move>)
    requires
        well_formed(t),
        is_best_move(t, m),
        t[0].children.len() > 0,
    ensures
        exists|a: int|
            {
                &&& 0 <= a < t[0].children.len()
                &&& m == Some(#[trigger] legal_moves_of(t[0].position)[a])
                &&& forall|b: int|
                    0 <= b < t[0].children.len() ==> t[child(t, 0, b)].simulations <= t[child(
                        t,
                        0,
                        a,
                    )].simulations
                &&& forall|b: int|
                    0 <= b < a ==> t[child(t, 0, b)].simulations < t[child(t, 0, a)].simulations
            },
{
    let sims = child_simulations(t, 0);
    let a = choose|a: int| is_first_max(sims, a) && m == t[child(t, 0, a)].last_move;
    assert(node_ok(t, 0));
    assert(edge_ok(t, 0, a));
    assert forall|b: int| 0 <= b < t[0].children.len() implies t[child(t, 0, b)].simulations
        <= t[child(t, 0, a)].simulations by {
        assert(sims[b] == t[child(t, 0, b)].simulations);
        assert(sims[a] == t[child(t, 0, a)].simulations);
    }
    assert forall|b: int| 0 <= b < a implies t[child(t, 0, b)].simulations < t[child(
        t,
        0,
        a,
    )].simulations by {
        assert(sims[b] == t[child(t, 0, b)].simulations);
        assert(sims[a] == t[child(t, 0, a)].simulations);
    }
    assert(m == Some(legal_moves_of(t[0].position)[a]));
}

/// Where the root's position has a single legal move and the root has been
/// expanded, that move is recommended.
pub proof fn only_move_is_recommended(t: Seq<NodeView>, m: Option<shakmaty::Move>)
    requires
        well_formed(t),
        root_expanded(t),
        legal_moves_of(t[0].position).len() == 1,
        is_best_move(t, m),
    ensures
        m == Some(legal_moves_of(t[0].position)[0]),
{
    best_move_is_most_visited(t, m);
}

/// Where the root's position has no legal move, no move is recommended.
pub proof fn no_move_without_legal_moves(t: Seq<NodeView>, m: Option<shakmaty::Move>)
    requires
        well_formed(t),
        legal_moves_of(t[0].position).len() == 0,
        is_best_move(t, m),
    ensures
        m is None,
{
    assert(node_ok(t, 0));
}

/// The tree after a full iteration along a selected branch: it is
/// well-formed and balanced, it continues the tree before, its root is
/// expanded and has one more simulation.
pub proof fn iterated_tree_is_sound<F: Fn(u64, u64, u64) -> u64>(
    score: &F,
    t: Seq<NodeView>,
    branch: Seq<NodeId>,
    pick: int,
    result: Outcome,
)
    requires
        well_formed(t),
        balanced(t),
        t[0].simulations < MAX_SIMULATIONS,
        is_selected_branch(score, t, 0, branch),
        replayable(t[branch.last().0 as int].position),
        0 <= pick < legal_moves_of(t[branch.last().0 as int].position).len(),
        t.len() + legal_moves_of(t[branch.last().0 as int].position).len() <= usize::MAX,
    ensures
        well_formed(iterated(t, branch, pick, result)),
        balanced(iterated(t, branch, pick, result)),
        extends(t, iterated(t, branch, pick, result)),
        root_expanded(iterated(t, branch, pick, result)),
        iterated(t, branch, pick, result)[0].simulations == t[0].simulations + 1,
{
    let leaf = branch.last().0 as int;
    let u = iterated(t, branch, pick, result);
    assert(branch[branch.len() - 1] == branch.last());
    assert(node_ok(t, 0));
    if leaf != 0 {
        assert(is_uct_step(score, t, branch[0], branch[1]));
    }
    let g = expanded(t, leaf);
    let c = NodeId((t.len() + pick) as usize);
    lemma_grown_descent(score, t, branch, pick);
    let path = branch.push(c);
    assert(path.last() == c);
    lemma_settled(g, path, result);
    lemma_settled_extends(g, path, result);
    lemma_expanded_extends(t, leaf);
    lemma_extends_transitive(t, g, u);
    assert(u[0].children == g[0].children);
}

/// A selected branch that ends in a position without legal moves leaves the
/// root expanded.
proof fn root_is_expanded_at_dead_end<F: Fn(u64, u64, u64) -> u64>(
    score: &F,
    t: Seq<NodeView>,
    branch: Seq<NodeId>,
)
    requires
        well_formed(t),
        is_selected_branch(score, t, 0, branch),
        legal_moves_of(t[branch.last().0 as int].position).len() == 0,
    ensures
        root_expanded(t),
{
    assert(branch[branch.len() - 1] == branch.last());
    assert(node_ok(t, 0));
    if branch.last().0 != 0 {
        assert(is_uct_step(score, t, branch[0], branch[1]));
    }
}

/// An iteration keeps the invariants of the tree, continues the tree and
/// leaves the root expanded. It adds one simulation at the root, unless it
/// ended in a position without legal moves and changed nothing.
pub proof fn iteration_extends<F: Fn(u64, u64, u64) -> u64>(
    score: &F,
    t: Seq<NodeView>,
    u: Seq<NodeView>,
)
    requires
        well_formed(t),
        balanced(t),
        is_iteration(score, t, u),
    ensures
        well_formed(u),
        balanced(u),
        extends(t, u),
        root_expanded(u),
        u == t || u[0].simulations == t[0].simulations + 1,
{
    let branch = choose|branch: Seq<NodeId>|
        is_selected_branch(score, t, 0, branch) && #[trigger] iteration_along(t, branch, u);
    let leaf = branch.last().0 as int;
    if legal_moves_of(t[leaf].position).len() > 0 {
        let (pick, picks) = choose|pick: int, picks: Seq<usize>|
            iteration_draws(t, branch, pick, picks, u);
        let result = playout(expanded(t, leaf)[t.len() + pick].position, picks)->Ok_0;
        iterated_tree_is_sound(score, t, branch, pick, result);
    } else {
        root_is_expanded_at_dead_end(score, t, branch);
    }
}

/// A scripted iteration does what an iteration does: it keeps the
/// invariants of the tree, continues the tree and leaves the root expanded.
/// It adds one simulation at the root, unless it ended in a position without
/// legal moves and changed nothing.
pub proof fn scripted_iteration_extends<F: Fn(u64, u64, u64) -> u64>(
    score: &F,
    t: Seq<NodeView>,
    pick: usize,
    result: Outcome,
    u: Seq<NodeView>,
)
    requires
        well_formed(t),
        balanced(t),
        is_scripted(score, t, pick, result, u),
    ensures
        well_formed(u),
        balanced(u),
        extends(t, u),
        root_expanded(u),
        u == t || u[0].simulations == t[0].simulations + 1,
{
    let branch = choose|branch: Seq<NodeId>|
        is_selected_branch(score, t, 0, branch) && #[trigger] scripted_along(
            t,
            branch,
            pick,
            result,
            u,
        );
    let leaf = branch.last().0 as int;
    let count = legal_moves_of(t[leaf].position).len();
    if count > 0 {
        iterated_tree_is_sound(score, t, branch, pick as int % count as int, result);
    } else {
        root_is_expanded_at_dead_end(score, t, branch);
    }
}

/// The scorer is a function: it has one result for each triple of
/// statistics.
pub open spec fn is_deterministic<F: Fn(u64, u64, u64) -> u64>(score: &F) -> bool {
    forall|half_wins: u64, simulations: u64, parent: u64, first: u64, second: u64|
        #![trigger score.ensures((half_wins, simulations, parent), first), score.ensures((half_wins, simulations, parent), second)]
        score.ensures((half_wins, simulations, parent), first) && score.ensures(
            (half_wins, simulations, parent),
            second,
        ) ==> first == second
}

/// With a scorer that is a function, selection at a node has one choice at
/// most.
pub proof fn uct_choice_is_unique<F: Fn(u64, u64, u64) -> u64>(
    score: &F,
    t: Seq<NodeView>,
    n: int,
    a: int,
    b: int,
)
    requires
        is_deterministic(score),
        is_uct_choice(score, t, n, a),
        is_uct_choice(score, t, n, b),
    ensures
        a == b,
{
    if !is_first_unvisited(t, n, a) && !is_first_unvisited(t, n, b) {
        let first = choose|keys: Seq<u64>| scored_by(score, t, n, keys) && is_first_max(keys, a);
        let second = choose|keys: Seq<u64>| scored_by(score, t, n, keys) && is_first_max(keys, b);
        assert forall|i: int| 0 <= i < first.len() implies first[i] == second[i] by {
            assert(score.ensures(
                (t[child(t, n, i)].half_wins, t[child(t, n, i)].simulations, t[n].simulations),
                first[i],
            ));
            assert(score.ensures(
                (t[child(t, n, i)].half_wins, t[child(t, n, i)].simulations, t[n].simulations),
                second[i],
            ));
        }
        assert(first =~= second);
        first_max_is_unique(first, a, b);
    }
}

/// With a scorer that is a function, selection from a node has one branch
/// at most.
pub proof fn selected_branch_is_unique<F: Fn(u64, u64, u64) -> u64>(
    score: &F,
    t: Seq<NodeView>,
    root: int,
    first: Seq<NodeId>,
    second: Seq<NodeId>,
)
    requires
        is_deterministic(score),
        is_selected_branch(score, t, root, first),
        is_selected_branch(score, t, root, second),
    ensures
        first == second,
{
    assert forall|k: int| 0 <= k < first.len() && k < second.len() implies first[k]
        == second[k] by {
        branches_agree(score, t, root, first, second, k);
    }
    if first.len() < second.len() {
        let k = first.len() - 1;
        assert(first[k] == second[k]);
        assert(is_uct_step(score, t, second[k], second[k + 1]));
    }
    if second.len() < first.len() {
        let k = second.len() - 1;
        assert(first[k] == second[k]);
        assert(is_uct_step(score, t, first[k], first[k + 1]));
    }
    assert(first =~= second);
}

proof fn branches_agree<F: Fn(u64, u64, u64) -> u64>(
    score: &F,
    t: Seq<NodeView>,
    root: int,
    first: Seq<NodeId>,
    second: Seq<NodeId>,
    k: int,
)
    requires
        is_deterministic(score),
        is_selected_branch(score, t, root, first),
        is_selected_branch(score, t, root, second),
        0 <= k < first.len(),
        k < second.len(),
    ensures
        first[k] == second[k],
    decreases k,
{
    if k > 0 {
        branches_agree(score, t, root, first, second, k - 1);
        assert(is_uct_step(score, t, first[k - 1], first[k - 1 + 1]));
        assert(is_uct_step(score, t, second[k - 1], second[k - 1 + 1]));
        let n = first[k - 1].0 as int;
        let a = choose|a: int| #[trigger]
            is_uct_choice(score, t, n, a) && first[k] == t[n].children[a];
        let b = choose|b: int| #[trigger]
            is_uct_choice(score, t, n, b) && second[k] == t[n].children[b];
        uct_choice_is_unique(score, t, n, a, b);
    }
}

/// With a scorer that is a function, a scripted iteration has one result at
/// most: the tree after it is determined by the tree before, the draw and
/// the playout result.
pub proof fn scripted_iteration_is_unique<F: Fn(u64, u64, u64) -> u64>(
    score: &F,
    t: Seq<NodeView>,
    pick: usize,
    result: Outcome,
    first: Seq<NodeView>,
    second: Seq<NodeView>,
)
    requires
        is_deterministic(score),
        is_scripted(score, t, pick, result, first),
        is_scripted(score, t, pick, result, second),
    ensures
        first == second,
{
    let one = choose|branch: Seq<NodeId>|
        is_selected_branch(score, t, 0, branch) && #[trigger] scripted_along(
            t,
            branch,
            pick,
            result,
            first,
        );
    let other = choose|branch: Seq<NodeId>|
        is_selected_branch(score, t, 0, branch) && #[trigger] scripted_along(
            t,
            branch,
            pick,
            result,
            second,
        );
    selected_branch_is_unique(score, t, 0, one, other);
}

/// An iteration that stops with a fault keeps the invariants of the tree and
/// continues the tree.
pub proof fn abort_extends<F: Fn(u64, u64, u64) -> u64>(
    score: &F,
    t: Seq<NodeView>,
    u: Seq<NodeView>,
    fault: Fault,
)
    requires
        well_formed(t),
        is_aborted(score, t, u, fault),
    ensures
        extends(t, u),
{
    let branch = choose|branch: Seq<NodeId>|
        is_selected_branch(score, t, 0, branch) && #[trigger] abort_along(t, branch, u, fault);
    let leaf = branch.last().0 as int;
    assert(branch[branch.len() - 1] == branch.last());
    if replayable(t[leaf].position) {
        lemma_expanded_extends(t, leaf);
    }
}

/// Any number of iterations keeps the invariants of the tree and continues
/// the tree. Each adds at most one simulation at the root.
pub proof fn iterations_keep_invariants<F: Fn(u64, u64, u64) -> u64>(
    score: &F,
    t: Seq<NodeView>,
    u: Seq<NodeView>,
    n: nat,
)
    requires
        well_formed(t),
        balanced(t),
        reaches(score, t, u, n),
    ensures
        well_formed(u),
        balanced(u),
        extends(t, u),
        u[0].simulations <= t[0].simulations + n,
        n > 0 ==> root_expanded(u),
    decreases n,
{
    if n > 0 {
        let mid = choose|mid: Seq<NodeView>|
            reaches(score, t, mid, (n - 1) as nat) && #[trigger] is_iteration(score, mid, u);
        iterations_keep_invariants(score, t, mid, (n - 1) as nat);
        iteration_extends(score, mid, u);
        lemma_extends_transitive(t, mid, u);
    }
}

/// Searches add up: what `n` iterations reach, and `m` more from there, is
/// reached by `n + m` iterations from the start.
pub proof fn searches_accumulate<F: Fn(u64, u64, u64) -> u64>(
    score: &F,
    t: Seq<NodeView>,
    u: Seq<NodeView>,
    v: Seq<NodeView>,
    n: nat,
    m: nat,
)
    requires
        reaches(score, t, u, n),
        reaches(score, u, v, m),
    ensures
        reaches(score, t, v, n + m),
    decreases m,
{
    if m > 0 {
        let mid = choose|mid: Seq<NodeView>|
            reaches(score, u, mid, (m - 1) as nat) && #[trigger] is_iteration(score, mid, v);
        searches_accumulate(score, t, u, mid, n, (m - 1) as nat);
        assert((n + m - 1) as nat == n + (m - 1) as nat);
    }
}

/// Backpropagation keeps the wins of every node within its simulations.
pub proof fn backpropagation_keeps_wins_within_simulations(
    t: Seq<NodeView>,
    path: Seq<NodeId>,
    result: Outcome,
    n: int,
)
    requires
        well_formed(t),
        has_room(t, path, result),
        0 <= n < t.len(),
    ensures
        backpropagated(t, path, result).len() == t.len(),
        0 <= backpropagated(t, path, result)[n].half_wins <= 2 * backpropagated(
            t,
            path,
            result,
        )[n].simulations,
{
    lemma_backpropagated_well_formed(t, path, result);
    assert(node_ok(backpropagated(t, path, result), n));
}

/// Iterations that are counted with those among them that change nothing
/// are iterations.
pub proof fn wasting_is_reaching<F: Fn(u64, u64, u64) -> u64>(
    score: &F,
    t: Seq<NodeView>,
    u: Seq<NodeView>,
    n: nat,
    w: nat,
)
    requires
        reaches_wasting(score, t, u, n, w),
    ensures
        reaches(score, t, u, n),
        w <= n,
    decreases n,
{
    if n > 0 {
        let mid = choose|mid: Seq<NodeView>| #[trigger]
            is_iteration(score, mid, u) && if u == mid {
                w > 0 && reaches_wasting(score, t, mid, (n - 1) as nat, (w - 1) as nat)
            } else {
                reaches_wasting(score, t, mid, (n - 1) as nat, w)
            };
        if u == mid {
            wasting_is_reaching(score, t, mid, (n - 1) as nat, (w - 1) as nat);
        } else {
            wasting_is_reaching(score, t, mid, (n - 1) as nat, w);
        }
    }
}

/// Among any `n` iterations some number change nothing.
pub proof fn reaching_is_wasting<F: Fn(u64, u64, u64) -> u64>(
    score: &F,
    t: Seq<NodeView>,
    u: Seq<NodeView>,
    n: nat,
) -> (w: nat)
    requires
        reaches(score, t, u, n),
    ensures
        w <= n,
        reaches_wasting(score, t, u, n, w),
    decreases n,
{
    if n == 0 {
        0
    } else {
        let mid = choose|mid: Seq<NodeView>|
            reaches(score, t, mid, (n - 1) as nat) && #[trigger] is_iteration(score, mid, u);
        let before = reaching_is_wasting(score, t, mid, (n - 1) as nat);
        if u == mid {
            let w = before + 1;
            assert((w - 1) as nat == before);
            w
        } else {
            before
        }
    }
}

/// The root counts the iterations that did not end in a position without
/// legal moves: after `n` iterations of which `w` changed nothing it has
/// `n - w` simulations more.
pub proof fn root_counts_the_iterations<F: Fn(u64, u64, u64) -> u64>(
    score: &F,
    t: Seq<NodeView>,
    u: Seq<NodeView>,
    n: nat,
    w: nat,
)
    requires
        well_formed(t),
        balanced(t),
        reaches_wasting(score, t, u, n, w),
    ensures
        w <= n,
        u[0].simulations == t[0].simulations + n - w,
    decreases n,
{
    if n > 0 {
        let mid = choose|mid: Seq<NodeView>| #[trigger]
            is_iteration(score, mid, u) && if u == mid {
                w > 0 && reaches_wasting(score, t, mid, (n - 1) as nat, (w - 1) as nat)
            } else {
                reaches_wasting(score, t, mid, (n - 1) as nat, w)
            };
        let v = if u == mid {
            (w - 1) as nat
        } else {
            w
        };
        wasting_is_reaching(score, t, mid, (n - 1) as nat, v);
        iterations_keep_invariants(score, t, mid, (n - 1) as nat);
        root_counts_the_iterations(score, t, mid, (n - 1) as nat, v);
        iteration_extends(score, mid, u);
    }
}

/// Searches add up, and so do their iterations that change nothing: two
/// searches on one tree, of `n` and `m` iterations with `v` and `w` of them
/// changing nothing, are one search of `n + m` with `v + w`.
pub proof fn searches_accumulate_with_waste<F: Fn(u64, u64, u64) -> u64>(
    score: &F,
    t: Seq<NodeView>,
    u: Seq<NodeView>,
    x: Seq<NodeView>,
    n: nat,
    v: nat,
    m: nat,
    w: nat,
)
    requires
        reaches_wasting(score, t, u, n, v),
        reaches_wasting(score, u, x, m, w),
    ensures
        reaches_wasting(score, t, x, n + m, v + w),
    decreases m,
{
    if m > 0 {
        let mid = choose|mid: Seq<NodeView>| #[trigger]
            is_iteration(score, mid, x) && if x == mid {
                w > 0 && reaches_wasting(score, u, mid, (m - 1) as nat, (w - 1) as nat)
            } else {
                reaches_wasting(score, u, mid, (m - 1) as nat, w)
            };
        if x == mid {
            searches_accumulate_with_waste(score, t, u, mid, n, v, (m - 1) as nat, (w - 1) as nat);
            assert((n + m - 1) as nat == n + (m - 1) as nat);
            assert((v + w - 1) as nat == v + (w - 1) as nat);
        } else {
            searches_accumulate_with_waste(score, t, u, mid, n, v, (m - 1) as nat, w);
            assert((n + m - 1) as nat == n + (m - 1) as nat);
        }
    }
}

} // verus!
