//! The first round of a search on a fresh tree: as long as the root has a
//! child without a simulation, each iteration visits the first such child,
//! so after as many iterations as the root has children each child has been
//! visited once.

use crate::descent::{
    lemma_backpropagated_once, lemma_descent_bounded, lemma_descent_increasing,
    lemma_grown_descent,
};
use crate::laws::iterated_tree_is_sound;
use crate::model::{
    balanced, child, edge_ok, node_balanced, node_ok, root_view, sum_simulations, well_formed,
    NodeId, NodeView, MAX_SIMULATIONS,
};
use crate::position::{admitted, legal_moves_of, playout, successor_of, Outcome};
use crate::steps::{
    child_simulations, expanded, fresh_child, is_best_move, is_first_max, is_iteration,
    is_selected_branch, is_uct_choice, is_uct_step, iterated, iteration_along, iteration_draws,
    marked, on_path, reaches, replayable,
};
use vstd::prelude::*;

verus! {

/// No legal move of `position` leads to a position without legal moves.
pub open spec fn no_successor_is_terminal(position: shakmaty::Chess) -> bool {
    forall|a: int|
        0 <= a < legal_moves_of(position).len() ==> {
            let next = successor_of(position, #[trigger] legal_moves_of(position)[a]);
            next is Some ==> legal_moves_of(next->Some_0).len() > 0
        }
}

/// The tree is in the first round of a search on `position`, `j`
/// iterations in: the root is expanded and has `j` simulations, none of its
/// children has more than one, and a child without a simulation has no
/// children.
pub open spec fn in_first_round(t: Seq<NodeView>, position: shakmaty::Chess, j: nat) -> bool {
    &&& well_formed(t)
    &&& balanced(t)
    &&& t[0].position == position
    &&& t[0].children.len() == legal_moves_of(position).len()
    &&& t[0].simulations == j
    &&& forall|a: int| 0 <= a < t[0].children.len() ==> t[#[trigger] child(t, 0, a)].simulations <= 1
    &&& forall|a: int|
        0 <= a < t[0].children.len() && t[#[trigger] child(t, 0, a)].simulations == 0 ==> t[child(
            t,
            0,
            a,
        )].children.len() == 0
}

/// Nodes with one simulation at most, fewer in sum than there are nodes:
/// one of them has none.
proof fn lemma_sum_short(t: Seq<NodeView>, kids: Seq<NodeId>) -> (i: int)
    requires
        forall|i: int| 0 <= i < kids.len() ==> t[(#[trigger] kids[i]).0 as int].simulations <= 1,
        sum_simulations(t, kids) < kids.len(),
    ensures
        0 <= i < kids.len(),
        t[kids[i].0 as int].simulations == 0,
    decreases kids.len(),
{
    let last = kids.len() - 1;
    assert(kids.last() == kids[last]);
    if t[kids[last].0 as int].simulations == 0 {
        last
    } else {
        let front = kids.drop_last();
        assert forall|i: int| 0 <= i < front.len() implies t[(
        #[trigger] front[i]).0 as int].simulations <= 1 by {
            assert(front[i] == kids[i]);
        }
        let i = lemma_sum_short(t, front);
        assert(front[i] == kids[i]);
        i
    }
}

/// Nodes with one simulation at most, as many in sum as there are nodes:
/// each of them has one.
proof fn lemma_sum_full(t: Seq<NodeView>, kids: Seq<NodeId>)
    requires
        forall|i: int| 0 <= i < kids.len() ==> t[(#[trigger] kids[i]).0 as int].simulations <= 1,
        sum_simulations(t, kids) == kids.len(),
    ensures
        forall|i: int| 0 <= i < kids.len() ==> t[(#[trigger] kids[i]).0 as int].simulations == 1,
    decreases kids.len(),
{
    if kids.len() > 0 {
        let last = kids.len() - 1;
        let front = kids.drop_last();
        assert(kids.last() == kids[last]);
        assert forall|i: int| 0 <= i < front.len() implies t[(
        #[trigger] front[i]).0 as int].simulations <= 1 by {
            assert(front[i] == kids[i]);
        }
        lemma_sum_at_most_len(t, front);
        lemma_sum_full(t, front);
        assert forall|i: int| 0 <= i < kids.len() implies t[(
        #[trigger] kids[i]).0 as int].simulations == 1 by {
            if i < last {
                assert(front[i] == kids[i]);
            }
        }
    }
}

/// Nodes with one simulation at most have no more in sum than there are
/// nodes.
proof fn lemma_sum_at_most_len(t: Seq<NodeView>, kids: Seq<NodeId>)
    requires
        forall|i: int| 0 <= i < kids.len() ==> t[(#[trigger] kids[i]).0 as int].simulations <= 1,
    ensures
        sum_simulations(t, kids) <= kids.len(),
    decreases kids.len(),
{
    if kids.len() > 0 {
        let front = kids.drop_last();
        assert(kids.last() == kids[kids.len() - 1]);
        assert forall|i: int| 0 <= i < front.len() implies t[(
        #[trigger] front[i]).0 as int].simulations <= 1 by {
            assert(front[i] == kids[i]);
        }
        lemma_sum_at_most_len(t, front);
    }
}

/// The nodes of the tree after a full iteration: each node of the expanded
/// tree keeps its position and its children, and gains a simulation if it
/// is on the branch or is the drawn child.
proof fn lemma_iterated_nodes<F: Fn(u64, u64, u64) -> u64>(
    score: &F,
    t: Seq<NodeView>,
    branch: Seq<NodeId>,
    pick: int,
    result: Outcome,
)
    requires
        well_formed(t),
        balanced(t),
        t[0].simulations < MAX_SIMULATIONS,
        is_selected_branch(score, t, 0, branch),
        replayable(t[branch.last().0 as int].position),
        0 <= pick < legal_moves_of(t[branch.last().0 as int].position).len(),
        t.len() + legal_moves_of(t[branch.last().0 as int].position).len() <= usize::MAX,
    ensures
        ({
            let g = expanded(t, branch.last().0 as int);
            let u = iterated(t, branch, pick, result);
            let path = branch.push(NodeId((t.len() + pick) as usize));
            &&& u.len() == g.len()
            &&& g.len() == t.len() + legal_moves_of(t[branch.last().0 as int].position).len()
            &&& forall|n: int|
                0 <= n < g.len() ==> {
                    &&& (#[trigger] u[n]).children == g[n].children
                    &&& u[n].position == g[n].position
                    &&& u[n].simulations == g[n].simulations + (if on_path(path, n) {
                        1int
                    } else {
                        0int
                    })
                }
        }),
{
    let leaf = branch.last().0 as int;
    let g = expanded(t, leaf);
    let c = NodeId((t.len() + pick) as usize);
    let path = branch.push(c);
    let m = marked(g, c.0 as int);
    let u = iterated(t, branch, pick, result);
    lemma_grown_descent(score, t, branch, pick);
    assert forall|j: int, k: int| 0 <= j < k < path.len() implies path[j] != path[k] by {
        lemma_descent_increasing(g, path, j, k);
    }
    lemma_backpropagated_once(m, path, result);
    assert forall|n: int| 0 <= n < g.len() implies {
        &&& (#[trigger] u[n]).children == g[n].children
        &&& u[n].position == g[n].position
        &&& u[n].simulations == g[n].simulations + (if on_path(path, n) {
            1int
        } else {
            0int
        })
    } by {
        if on_path(path, n) {
            let k = choose|k: int| 0 <= k < path.len() && (#[trigger] path[k]).0 == n;
            lemma_descent_bounded(g, path, k);
        }
    }
}

/// A fresh tree is well-formed and balanced.
proof fn lemma_fresh_tree(position: shakmaty::Chess)
    requires
        admitted(position),
    ensures
        well_formed(seq![root_view(position)]),
        balanced(seq![root_view(position)]),
{
    let t = seq![root_view(position)];
    assert(node_ok(t, 0));
    assert(t[0].children.len() == 0);
    assert(node_balanced(t, 0));
}

/// The first iteration on a fresh tree expands the root and visits one of
/// its children.
proof fn lemma_first_round_opens<F: Fn(u64, u64, u64) -> u64>(
    score: &F,
    position: shakmaty::Chess,
    u: Seq<NodeView>,
)
    requires
        admitted(position),
        legal_moves_of(position).len() >= 1,
        is_iteration(score, seq![root_view(position)], u),
    ensures
        in_first_round(u, position, 1),
{
    let t = seq![root_view(position)];
    lemma_fresh_tree(position);
    let branch = choose|branch: Seq<NodeId>|
        is_selected_branch(score, t, 0, branch) && #[trigger] iteration_along(t, branch, u);
    assert(branch[0].0 == 0);
    if branch.len() > 1 {
        assert(is_uct_step(score, t, branch[0], branch[1]));
    }
    assert(branch.len() == 1);
    assert(branch.last() == branch[0]);
    let (pick, picks) = choose|pick: int, picks: Seq<usize>|
        iteration_draws(t, branch, pick, picks, u);
    let g = expanded(t, 0);
    let result = playout(g[t.len() + pick].position, picks)->Ok_0;
    let c = NodeId((t.len() + pick) as usize);
    let path = branch.push(c);
    iterated_tree_is_sound(score, t, branch, pick, result);
    lemma_iterated_nodes(score, t, branch, pick, result);
    assert(path[0] == branch[0] && path[1] == c && path.len() == 2);
    assert forall|a: int| 0 <= a < u[0].children.len() implies u[#[trigger] child(
        u,
        0,
        a,
    )].simulations <= 1 && (u[child(u, 0, a)].simulations == 0 ==> u[child(
        u,
        0,
        a,
    )].children.len() == 0) by {
        let n = child(u, 0, a);
        assert(u[0].children == g[0].children);
        assert(n == t.len() + a);
        assert(g[n] == fresh_child(t, 0, a));
    }
}

/// In the first round an iteration visits the first child of the root that
/// has no simulation yet.
proof fn lemma_first_round_step<F: Fn(u64, u64, u64) -> u64>(
    score: &F,
    position: shakmaty::Chess,
    t: Seq<NodeView>,
    u: Seq<NodeView>,
    j: nat,
)
    requires
        no_successor_is_terminal(position),
        in_first_round(t, position, j),
        1 <= j < legal_moves_of(position).len(),
        is_iteration(score, t, u),
    ensures
        in_first_round(u, position, j + 1),
{
    let kids = t[0].children;
    let branch = choose|branch: Seq<NodeId>|
        is_selected_branch(score, t, 0, branch) && #[trigger] iteration_along(t, branch, u);
    assert(node_balanced(t, 0));
    assert(node_ok(t, 0));
    assert forall|i: int| 0 <= i < kids.len() implies t[(
    #[trigger] kids[i]).0 as int].simulations <= 1 by {
        assert(t[child(t, 0, i)].simulations <= 1);
    }
    let free = lemma_sum_short(t, kids);
    assert(t[child(t, 0, free)].simulations == 0);
    assert(branch[0].0 == 0);
    assert(branch.len() >= 2) by {
        if branch.len() == 1 {
            assert(branch.last() == branch[0]);
        }
    }
    assert(is_uct_step(score, t, branch[0], branch[1]));
    let a = choose|a: int| #[trigger]
        is_uct_choice(score, t, 0, a) && branch[1] == t[0].children[a];
    assert(t[child(t, 0, a)].simulations == 0);
    assert(t[child(t, 0, a)].children.len() == 0);
    if branch.len() > 2 {
        assert(is_uct_step(score, t, branch[1], branch[2]));
    }
    assert(branch.len() == 2);
    assert(branch.last() == branch[1]);
    let leaf = branch[1].0 as int;
    assert(leaf == child(t, 0, a));
    assert(edge_ok(t, 0, a));
    assert(legal_moves_of(t[leaf].position).len() > 0) by {
        let next = successor_of(position, legal_moves_of(position)[a]);
        assert(next == Some(t[leaf].position));
    }
    let (pick, picks) = choose|pick: int, picks: Seq<usize>|
        iteration_draws(t, branch, pick, picks, u);
    let g = expanded(t, leaf);
    let result = playout(g[t.len() + pick].position, picks)->Ok_0;
    let c = NodeId((t.len() + pick) as usize);
    let path = branch.push(c);
    iterated_tree_is_sound(score, t, branch, pick, result);
    lemma_iterated_nodes(score, t, branch, pick, result);
    assert(path[0] == branch[0] && path[1] == branch[1] && path[2] == c && path.len() == 3);
    assert(g[0] == t[0]);
    assert(u[0].children == t[0].children);
    assert forall|b: int| 0 <= b < u[0].children.len() implies u[#[trigger] child(
        u,
        0,
        b,
    )].simulations <= 1 && (u[child(u, 0, b)].simulations == 0 ==> u[child(
        u,
        0,
        b,
    )].children.len() == 0) by {
        let n = child(u, 0, b);
        assert(n == child(t, 0, b));
        assert(edge_ok(t, 0, b));
        assert(t[n].simulations <= 1);
        if b == a {
            assert(on_path(path, n)) by {
                assert(path[1].0 == n);
            }
        } else {
            assert(t[0].children[b] != t[0].children[a]);
            assert(g[n] == t[n]);
            if on_path(path, n) {
                let k = choose|k: int| 0 <= k < path.len() && (#[trigger] path[k]).0 == n;
                assert(k == 0 || k == 1 || k == 2);
            }
            assert(!on_path(path, n));
        }
    }
}

/// The first round of a search. On a fresh tree over a position that the
/// rules accept, none of whose moves leads to a position without legal
/// moves, `j` iterations, no
/// more than the position has legal moves, leave the root expanded with `j`
/// simulations and no child with more than one.
pub proof fn first_round_visits_new_children<F: Fn(u64, u64, u64) -> u64>(
    score: &F,
    position: shakmaty::Chess,
    u: Seq<NodeView>,
    j: nat,
)
    requires
        admitted(position),
        no_successor_is_terminal(position),
        1 <= j <= legal_moves_of(position).len(),
        reaches(score, seq![root_view(position)], u, j),
    ensures
        in_first_round(u, position, j),
    decreases j,
{
    let t = seq![root_view(position)];
    let mid = choose|mid: Seq<NodeView>|
        reaches(score, t, mid, (j - 1) as nat) && #[trigger] is_iteration(score, mid, u);
    if j == 1 {
        assert(mid == t);
        lemma_first_round_opens(score, position, u);
    } else {
        first_round_visits_new_children(score, position, mid, (j - 1) as nat);
        lemma_first_round_step(score, position, mid, u, (j - 1) as nat);
    }
}

/// After the first round every child has been visited once. On a fresh
/// tree over a position that the rules accept, with `k` legal moves, none of
/// which leads to a position without legal moves, `k` iterations give the root `k`
/// simulations and each of its children one, and the first legal move is
/// recommended.
pub proof fn first_round_visits_every_child_once<F: Fn(u64, u64, u64) -> u64>(
    score: &F,
    position: shakmaty::Chess,
    u: Seq<NodeView>,
    m: Option<shakmaty::Move>,
)
    requires
        admitted(position),
        no_successor_is_terminal(position),
        1 <= legal_moves_of(position).len(),
        reaches(score, seq![root_view(position)], u, legal_moves_of(position).len()),
        is_best_move(u, m),
    ensures
        u[0].simulations == legal_moves_of(position).len(),
        u[0].children.len() == legal_moves_of(position).len(),
        forall|a: int| 0 <= a < u[0].children.len() ==> u[#[trigger] child(u, 0, a)].simulations == 1,
        m == Some(legal_moves_of(position)[0]),
{
    let k = legal_moves_of(position).len();
    first_round_visits_new_children(score, position, u, k);
    let kids = u[0].children;
    assert(node_balanced(u, 0));
    assert forall|i: int| 0 <= i < kids.len() implies u[(
    #[trigger] kids[i]).0 as int].simulations <= 1 by {
        assert(u[child(u, 0, i)].simulations <= 1);
    }
    lemma_sum_full(u, kids);
    assert forall|a: int| 0 <= a < u[0].children.len() implies u[#[trigger] child(
        u,
        0,
        a,
    )].simulations == 1 by {
        assert(u[kids[a].0 as int].simulations == 1);
    }
    let sims = child_simulations(u, 0);
    let best = choose|best: int| is_first_max(sims, best) && m == u[child(u, 0, best)].last_move;
    assert(sims[0] == 1 && sims[best] == 1);
    assert(best == 0);
    assert(node_ok(u, 0));
    assert(edge_ok(u, 0, 0));
}

} // verus!
