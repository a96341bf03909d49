//! The steps of a search as functions and relations on the model of the
//! tree: selection, expansion, backpropagation, whole iterations and the
//! recommendation at the end.

use crate::model::{child, NodeId, NodeView, MAX_SIMULATIONS};
use crate::position::{
    admitted, legal_moves_of, playout, successor_of, Fault, Outcome, MAX_PLIES,
};
use vstd::prelude::*;

verus! {

/// The scorer may be called with the statistics of any visited node: some
/// simulations, and wins that do not exceed them.
pub open spec fn accepts_statistics<F: Fn(u64, u64, u64) -> u64>(score: &F) -> bool {
    forall|half_wins: u64, simulations: u64, parent: u64|
        0 < simulations && half_wins <= 2 * simulations ==> #[trigger] score.requires(
            (half_wins, simulations, parent),
        )
}

/// `keys` lists, child by child, a score that the scorer can return for that
/// child of `n`: it is given the child's doubled wins, the child's
/// simulations and the simulations of `n`.
pub open spec fn scored_by<F: Fn(u64, u64, u64) -> u64>(
    score: &F,
    t: Seq<NodeView>,
    n: int,
    keys: Seq<u64>,
) -> bool {
    &&& keys.len() == t[n].children.len()
    &&& forall|a: int|
        0 <= a < keys.len() ==> score.ensures(
            (t[child(t, n, a)].half_wins, t[child(t, n, a)].simulations, t[n].simulations),
            #[trigger] keys[a],
        )
}

/// `a` is the first index at which `keys` is largest.
pub open spec fn is_first_max(keys: Seq<u64>, a: int) -> bool {
    &&& 0 <= a < keys.len()
    &&& forall|b: int| 0 <= b < a ==> keys[b] < keys[a]
    &&& forall|b: int| a <= b < keys.len() ==> keys[b] <= keys[a]
}

/// The `a`-th child of `n` has no simulation yet, and every child before it
/// has.
pub open spec fn is_first_unvisited(t: Seq<NodeView>, n: int, a: int) -> bool {
    &&& 0 <= a < t[n].children.len()
    &&& t[child(t, n, a)].simulations == 0
    &&& forall|b: int| 0 <= b < a ==> t[child(t, n, b)].simulations > 0
}

/// Every child of `n` has a simulation.
pub open spec fn all_visited(t: Seq<NodeView>, n: int) -> bool {
    forall|b: int| 0 <= b < t[n].children.len() ==> t[child(t, n, b)].simulations > 0
}

/// Selection at `n` may take the `a`-th child: either it is the first child
/// without a simulation, or all children have one and it is the first among
/// those with the highest score.
pub open spec fn is_uct_choice<F: Fn(u64, u64, u64) -> u64>(
    score: &F,
    t: Seq<NodeView>,
    n: int,
    a: int,
) -> bool {
    &&& 0 <= a < t[n].children.len()
    &&& is_first_unvisited(t, n, a) || (all_visited(t, n) && exists|keys: Seq<u64>|
        scored_by(score, t, n, keys) && is_first_max(keys, a))
}

/// Selection at `parent` may descend into `next`.
pub open spec fn is_uct_step<F: Fn(u64, u64, u64) -> u64>(
    score: &F,
    t: Seq<NodeView>,
    parent: NodeId,
    next: NodeId,
) -> bool {
    exists|a: int|
        is_uct_choice(score, t, parent.0 as int, a) && next == t[parent.0 as int].children[a]
}

/// `branch` is a path that selection can take from `root`: it starts there,
/// each further node is a choice at the one before, and the last has no
/// children.
pub open spec fn is_selected_branch<F: Fn(u64, u64, u64) -> u64>(
    score: &F,
    t: Seq<NodeView>,
    root: int,
    branch: Seq<NodeId>,
) -> bool {
    &&& branch.len() >= 1
    &&& branch[0].0 == root
    &&& forall|k: int| 0 <= k < branch.len() ==> (#[trigger] branch[k]).0 < t.len()
    &&& forall|k: int|
        0 <= k < branch.len() - 1 ==> is_uct_step(score, t, #[trigger] branch[k], branch[k + 1])
    &&& t[branch.last().0 as int].children.len() == 0
}

/// What is wrong with the `a`-th legal move of the position, if anything:
/// it is rejected when played, or it leads to a position that the rules do
/// not accept.
pub open spec fn replay_fault(position: shakmaty::Chess, a: int) -> Option<Fault> {
    match successor_of(position, legal_moves_of(position)[a]) {
        None => Some(Fault::IllegalReplay),
        Some(next) => if admitted(next) {
            None
        } else {
            Some(Fault::UnsoundPosition)
        },
    }
}

/// Every legal move of the position is accepted when played, and leads to a
/// position that the rules accept.
pub open spec fn replayable(position: shakmaty::Chess) -> bool {
    forall|a: int|
        0 <= a < legal_moves_of(position).len() ==> {
            let next = successor_of(position, #[trigger] legal_moves_of(position)[a]);
            next is Some && admitted(next->Some_0)
        }
}

/// `fault` is what is wrong with the first legal move of the position that
/// is not in order.
pub open spec fn is_replay_fault(position: shakmaty::Chess, fault: Fault) -> bool {
    exists|a: int|
        0 <= a < legal_moves_of(position).len() && #[trigger] replay_fault(position, a) == Some(
            fault,
        ) && forall|b: int| 0 <= b < a ==> (#[trigger] replay_fault(position, b)) is None
}

/// The node that expansion creates for the `a`-th legal move at `leaf`.
pub open spec fn fresh_child(t: Seq<NodeView>, leaf: int, a: int) -> NodeView {
    let m = legal_moves_of(t[leaf].position)[a];
    NodeView {
        side_that_moved: t[leaf].side_that_moved.other(),
        last_move: Some(m),
        position: successor_of(t[leaf].position, m)->Some_0,
        half_wins: 0,
        simulations: 0,
        children: Seq::empty(),
        sampled: false,
    }
}

/// `count` consecutive handles, the first at index `from`.
pub open spec fn fresh_ids(from: int, count: nat) -> Seq<NodeId> {
    Seq::new(count, |a: int| NodeId((from + a) as usize))
}

/// The tree after expanding `leaf`: one new node per legal move of its
/// position, appended in the order of the moves and listed as its children.
pub open spec fn expanded(t: Seq<NodeView>, leaf: int) -> Seq<NodeView> {
    let count = legal_moves_of(t[leaf].position).len();
    t.update(leaf, NodeView { children: fresh_ids(t.len() as int, count), ..t[leaf] }) + Seq::new(
        count,
        |a: int| fresh_child(t, leaf, a),
    )
}

/// The simulations of the children of `n`, child by child.
pub open spec fn child_simulations(t: Seq<NodeView>, n: int) -> Seq<u64> {
    Seq::new(t[n].children.len(), |a: int| t[child(t, n, a)].simulations)
}

/// `m` is the move to recommend: none where the root has no children, else
/// the move of the first among the root's most simulated children.
pub open spec fn is_best_move(t: Seq<NodeView>, m: Option<shakmaty::Move>) -> bool {
    if t[0].children.len() == 0 {
        m is None
    } else {
        exists|a: int|
            is_first_max(child_simulations(t, 0), a) && m == t[child(t, 0, a)].last_move
    }
}

/// What one simulation adds to the doubled wins of a node: 2 where the side
/// that moved into it won, 1 for a draw, 0 where it lost.
pub open spec fn credit(node: NodeView, result: Outcome) -> int {
    match result {
        Outcome::Decisive { winner } => if winner == node.side_that_moved {
            2
        } else {
            0
        },
        Outcome::Draw => 1,
    }
}

/// A node after one more simulation with the given result.
pub open spec fn credited_node(node: NodeView, result: Outcome) -> NodeView {
    NodeView {
        half_wins: (node.half_wins + credit(node, result)) as u64,
        simulations: (node.simulations + 1) as u64,
        ..node
    }
}

/// The tree after one simulation with the given result is recorded at `n`.
pub open spec fn credited(t: Seq<NodeView>, n: int, result: Outcome) -> Seq<NodeView> {
    t.update(n, credited_node(t[n], result))
}

/// The tree after a simulation is recorded at each node of `path`, from the
/// first to the last. A node listed twice is credited twice.
pub open spec fn backpropagated(t: Seq<NodeView>, path: Seq<NodeId>, result: Outcome) -> Seq<
    NodeView,
>
    decreases path.len(),
{
    if path.len() == 0 {
        t
    } else {
        credited(backpropagated(t, path.drop_last(), result), path.last().0 as int, result)
    }
}

/// Every node of `path` is in the tree and has room for the simulations that
/// `path` brings it.
pub open spec fn has_room(t: Seq<NodeView>, path: Seq<NodeId>, result: Outcome) -> bool
    decreases path.len(),
{
    if path.len() == 0 {
        true
    } else {
        &&& has_room(t, path.drop_last(), result)
        &&& path.last().0 < t.len()
        &&& backpropagated(t, path.drop_last(), result)[path.last().0 as int].simulations
            < MAX_SIMULATIONS
    }
}

/// `kid` is listed among the children of `parent`.
pub open spec fn is_child(t: Seq<NodeView>, parent: NodeId, kid: NodeId) -> bool {
    exists|a: int|
        0 <= a < t[parent.0 as int].children.len() && #[trigger] t[parent.0 as int].children[a]
            == kid
}

/// `path` leads from the root downwards, from each node to one of its
/// children.
pub open spec fn is_descent(t: Seq<NodeView>, path: Seq<NodeId>) -> bool {
    &&& path.len() >= 1
    &&& path[0] == NodeId(0)
    &&& forall|k: int| 0 <= k < path.len() ==> (#[trigger] path[k]).0 < t.len()
    &&& forall|k: int| 0 <= k < path.len() - 1 ==> is_child(t, #[trigger] path[k], path[k + 1])
}

/// Node `n` is on `path`.
pub open spec fn on_path(path: Seq<NodeId>, n: int) -> bool {
    exists|k: int| 0 <= k < path.len() && (#[trigger] path[k]).0 == n
}

/// The tree with node `c` noted as the start of a playout.
pub open spec fn marked(t: Seq<NodeView>, c: int) -> Seq<NodeView> {
    t.update(c, NodeView { sampled: true, ..t[c] })
}

/// The tree after one full iteration: the last node of `branch` is
/// expanded, a playout from its child number `pick` ends in `result`, and
/// the result is recorded along `branch` and at that child.
pub open spec fn iterated(t: Seq<NodeView>, branch: Seq<NodeId>, pick: int, result: Outcome) -> Seq<
    NodeView,
> {
    let leaf = branch.last().0 as int;
    let c = NodeId((t.len() + pick) as usize);
    backpropagated(marked(expanded(t, leaf), c.0 as int), branch.push(c), result)
}

/// An iteration that selects `branch` in `t` can draw child number `pick`
/// and play it out along `picks`; it then ends in `u`.
pub open spec fn iteration_draws(
    t: Seq<NodeView>,
    branch: Seq<NodeId>,
    pick: int,
    picks: Seq<usize>,
    u: Seq<NodeView>,
) -> bool {
    let leaf = branch.last().0 as int;
    let start = expanded(t, leaf)[t.len() + pick].position;
    &&& 0 <= pick < legal_moves_of(t[leaf].position).len()
    &&& t.len() + legal_moves_of(t[leaf].position).len() <= usize::MAX
    &&& picks.len() <= MAX_PLIES
    &&& playout(start, picks) is Ok
    &&& u == iterated(t, branch, pick, playout(start, picks)->Ok_0)
}

/// An iteration that selects `branch` in `t` can end in `u`. Where the
/// selected node's position has no legal move, nothing changes.
pub open spec fn iteration_along(t: Seq<NodeView>, branch: Seq<NodeId>, u: Seq<NodeView>) -> bool {
    let leaf = branch.last().0 as int;
    &&& replayable(t[leaf].position)
    &&& if legal_moves_of(t[leaf].position).len() == 0 {
        u == t
    } else {
        exists|pick: int, picks: Seq<usize>| iteration_draws(t, branch, pick, picks, u)
    }
}

/// One iteration of the search can lead from `t` to `u`. An iteration is
/// run only while the root has room for a simulation.
pub open spec fn is_iteration<F: Fn(u64, u64, u64) -> u64>(
    score: &F,
    t: Seq<NodeView>,
    u: Seq<NodeView>,
) -> bool {
    &&& t[0].simulations < MAX_SIMULATIONS
    &&& exists|branch: Seq<NodeId>|
        is_selected_branch(score, t, 0, branch) && #[trigger] iteration_along(t, branch, u)
}

/// An iteration that selects `branch` in `t` can draw child number `pick`
/// and meet `fault` on the playout along `picks`. A playout is given up as
/// unfinished only after `MAX_PLIES` plies.
pub open spec fn abort_draws(
    t: Seq<NodeView>,
    branch: Seq<NodeId>,
    pick: int,
    picks: Seq<usize>,
    fault: Fault,
) -> bool {
    let leaf = branch.last().0 as int;
    let start = expanded(t, leaf)[t.len() + pick].position;
    &&& 0 <= pick < legal_moves_of(t[leaf].position).len()
    &&& picks.len() <= MAX_PLIES
    &&& playout(start, picks) == Err::<Outcome, Fault>(fault)
    &&& fault == Fault::Unfinished ==> picks.len() == MAX_PLIES
}

/// An iteration that selects `branch` in `t` can stop with `fault` and leave
/// `u`: either a legal move of the selected node is not in order and nothing
/// changes, or the node is expanded and the playout meets the fault.
pub open spec fn abort_along(t: Seq<NodeView>, branch: Seq<NodeId>, u: Seq<NodeView>, fault: Fault) -> bool {
    let leaf = branch.last().0 as int;
    if replayable(t[leaf].position) {
        &&& u == expanded(t, leaf)
        &&& exists|pick: int, picks: Seq<usize>| abort_draws(t, branch, pick, picks, fault)
    } else {
        &&& u == t
        &&& is_replay_fault(t[leaf].position, fault)
    }
}

/// One iteration of the search can stop with `fault` and lead from `t` to
/// `u`.
pub open spec fn is_aborted<F: Fn(u64, u64, u64) -> u64>(
    score: &F,
    t: Seq<NodeView>,
    u: Seq<NodeView>,
    fault: Fault,
) -> bool {
    exists|branch: Seq<NodeId>|
        is_selected_branch(score, t, 0, branch) && #[trigger] abort_along(t, branch, u, fault)
}

/// An iteration with a scripted draw and a scripted playout result can lead
/// from `t` to `u` along `branch`: child number `pick`, reduced modulo the
/// number of children, takes the result.
pub open spec fn scripted_along(
    t: Seq<NodeView>,
    branch: Seq<NodeId>,
    pick: usize,
    result: Outcome,
    u: Seq<NodeView>,
) -> bool {
    let leaf = branch.last().0 as int;
    let count = legal_moves_of(t[leaf].position).len();
    &&& replayable(t[leaf].position)
    &&& if count == 0 {
        u == t
    } else {
        &&& t.len() + count <= usize::MAX
        &&& u == iterated(t, branch, pick as int % count as int, result)
    }
}

/// One iteration with a scripted draw and a scripted playout result can
/// lead from `t` to `u`. An iteration is run only while the root has room
/// for a simulation.
pub open spec fn is_scripted<F: Fn(u64, u64, u64) -> u64>(
    score: &F,
    t: Seq<NodeView>,
    pick: usize,
    result: Outcome,
    u: Seq<NodeView>,
) -> bool {
    &&& t[0].simulations < MAX_SIMULATIONS
    &&& exists|branch: Seq<NodeId>|
        is_selected_branch(score, t, 0, branch) && #[trigger] scripted_along(
            t,
            branch,
            pick,
            result,
            u,
        )
}

/// `n` iterations of the search, one after the other, can lead from `t` to
/// `u`.
pub open spec fn reaches<F: Fn(u64, u64, u64) -> u64>(
    score: &F,
    t: Seq<NodeView>,
    u: Seq<NodeView>,
    n: nat,
) -> bool
    decreases n,
{
    if n == 0 {
        u == t
    } else {
        exists|mid: Seq<NodeView>|
            reaches(score, t, mid, (n - 1) as nat) && #[trigger] is_iteration(score, mid, u)
    }
}

/// `n` iterations of the search, one after the other, can lead from `t` to
/// `u`, and `w` of them change nothing. An iteration changes nothing where
/// the branch it selects ends in a position without legal moves, and only
/// there: any other iteration adds a simulation at the root.
pub open spec fn reaches_wasting<F: Fn(u64, u64, u64) -> u64>(
    score: &F,
    t: Seq<NodeView>,
    u: Seq<NodeView>,
    n: nat,
    w: nat,
) -> bool
    decreases n,
{
    if n == 0 {
        u == t && w == 0
    } else {
        exists|mid: Seq<NodeView>| #[trigger]
            is_iteration(score, mid, u) && if u == mid {
                w > 0 && reaches_wasting(score, t, mid, (n - 1) as nat, (w - 1) as nat)
            } else {
                reaches_wasting(score, t, mid, (n - 1) as nat, w)
            }
    }
}

} // verus!
