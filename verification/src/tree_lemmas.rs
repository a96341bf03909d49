//! Proofs that the steps of an iteration keep the tree's invariants.

use crate::model::{
    balanced, child, edge_ok, node_balanced, node_ok, sum_simulations, well_formed, NodeId,
    NodeView, MAX_SIMULATIONS,
};
use crate::position::{legal_moves_of, Outcome};
use crate::steps::{
    backpropagated, credited, expanded, fresh_child, fresh_ids, has_room, replayable,
};
use vstd::prelude::*;

verus! {

/// Two trees that agree on the simulations of the listed nodes give the same
/// sum.
pub proof fn lemma_sum_agrees(t: Seq<NodeView>, u: Seq<NodeView>, kids: Seq<NodeId>)
    requires
        forall|i: int|
            0 <= i < kids.len() ==> t[(#[trigger] kids[i]).0 as int].simulations
                == u[kids[i].0 as int].simulations,
    ensures
        sum_simulations(t, kids) == sum_simulations(u, kids),
    decreases kids.len(),
{
    if kids.len() > 0 {
        let front = kids.drop_last();
        assert forall|i: int| 0 <= i < front.len() implies t[(#[trigger] front[i]).0 as int].simulations
            == u[front[i].0 as int].simulations by {
            assert(front[i] == kids[i]);
        }
        lemma_sum_agrees(t, u, front);
        assert(kids.last() == kids[kids.len() - 1]);
    }
}

/// Nodes without simulations add up to nothing.
pub proof fn lemma_sum_of_unvisited(t: Seq<NodeView>, kids: Seq<NodeId>)
    requires
        forall|i: int| 0 <= i < kids.len() ==> t[(#[trigger] kids[i]).0 as int].simulations == 0,
    ensures
        sum_simulations(t, kids) == 0,
    decreases kids.len(),
{
    if kids.len() > 0 {
        let front = kids.drop_last();
        assert forall|i: int| 0 <= i < front.len() implies t[(#[trigger] front[i]).0 as int].simulations
            == 0 by {
            assert(front[i] == kids[i]);
        }
        lemma_sum_of_unvisited(t, front);
        assert(kids.last() == kids[kids.len() - 1]);
    }
}

/// Expanding a childless node of a well-formed tree gives a well-formed
/// tree.
pub proof fn lemma_expanded_well_formed(t: Seq<NodeView>, leaf: int)
    requires
        well_formed(t),
        0 <= leaf < t.len(),
        t[leaf].children.len() == 0,
        replayable(t[leaf].position),
        t.len() + legal_moves_of(t[leaf].position).len() <= usize::MAX,
    ensures
        well_formed(expanded(t, leaf)),
{
    let u = expanded(t, leaf);
    let count = legal_moves_of(t[leaf].position).len();
    let len = t.len() as int;
    assert(u.len() == len + count);
    assert forall|n: int| 0 <= n < u.len() implies #[trigger] node_ok(u, n) by {
        if n < len {
            assert(node_ok(t, n));
            if n == leaf {
                assert forall|a: int| 0 <= a < u[n].children.len() implies #[trigger] edge_ok(
                    u,
                    n,
                    a,
                ) by {
                    assert(child(u, n, a) == len + a);
                    assert(u[len + a] == fresh_child(t, leaf, a));
                }
            } else {
                assert(u[n] == t[n]);
                assert forall|a: int| 0 <= a < u[n].children.len() implies #[trigger] edge_ok(
                    u,
                    n,
                    a,
                ) by {
                    assert(edge_ok(t, n, a));
                }
            }
        } else {
            assert(u[n] == fresh_child(t, leaf, n - len));
        }
    }
    assert forall|n: int, a: int, m: int, b: int|
        0 <= n < u.len() && 0 <= a < u[n].children.len() && 0 <= m < u.len() && 0 <= b
            < u[m].children.len() && #[trigger] u[n].children[a]
            == #[trigger] u[m].children[b] implies n == m && a == b by {
        if n >= len {
            assert(u[n] == fresh_child(t, leaf, n - len));
        }
        if m >= len {
            assert(u[m] == fresh_child(t, leaf, m - len));
        }
        if n != leaf {
            assert(u[n] == t[n]);
            assert(edge_ok(t, n, a)) by {
                assert(node_ok(t, n));
            }
        }
        if m != leaf {
            assert(u[m] == t[m]);
            assert(edge_ok(t, m, b)) by {
                assert(node_ok(t, m));
            }
        }
    }
}

/// Expanding a childless node keeps the counts balanced: the new nodes have
/// no simulations.
pub proof fn lemma_expanded_balanced(t: Seq<NodeView>, leaf: int)
    requires
        well_formed(t),
        balanced(t),
        0 <= leaf < t.len(),
        t[leaf].children.len() == 0,
        t.len() + legal_moves_of(t[leaf].position).len() <= usize::MAX,
    ensures
        balanced(expanded(t, leaf)),
{
    let u = expanded(t, leaf);
    let count = legal_moves_of(t[leaf].position).len();
    let len = t.len() as int;
    assert forall|n: int| 0 <= n < u.len() implies #[trigger] node_balanced(u, n) by {
        if n >= len {
            assert(u[n] == fresh_child(t, leaf, n - len));
        } else if n == leaf {
            assert(node_balanced(t, n));
            assert forall|i: int| 0 <= i < u[n].children.len() implies u[(
            #[trigger] u[n].children[i]).0 as int].simulations == 0 by {
                assert(u[len + i] == fresh_child(t, leaf, i));
            }
            lemma_sum_of_unvisited(u, u[n].children);
        } else {
            assert(node_balanced(t, n));
            assert(node_ok(t, n));
            assert forall|i: int| 0 <= i < t[n].children.len() implies t[(
            #[trigger] t[n].children[i]).0 as int].simulations
                == u[t[n].children[i].0 as int].simulations by {
                assert(edge_ok(t, n, i));
            }
            lemma_sum_agrees(t, u, t[n].children);
        }
    }
}

/// Recording a simulation at a node that has room for it keeps the tree
/// well-formed, and keeps every node where it is.
pub proof fn lemma_credited_well_formed(t: Seq<NodeView>, n: int, result: Outcome)
    requires
        well_formed(t),
        0 <= n < t.len(),
        t[n].simulations < MAX_SIMULATIONS,
    ensures
        well_formed(credited(t, n, result)),
        credited(t, n, result).len() == t.len(),
{
    let u = credited(t, n, result);
    assert(node_ok(t, n));
    assert forall|i: int| 0 <= i < u.len() implies #[trigger] node_ok(u, i) by {
        assert(node_ok(t, i));
        assert forall|a: int| 0 <= a < u[i].children.len() implies #[trigger] edge_ok(u, i, a) by {
            assert(edge_ok(t, i, a));
        }
    }
}

/// Backpropagation along a path with room keeps the tree well-formed.
pub proof fn lemma_backpropagated_well_formed(t: Seq<NodeView>, path: Seq<NodeId>, result: Outcome)
    requires
        well_formed(t),
        has_room(t, path, result),
    ensures
        well_formed(backpropagated(t, path, result)),
        backpropagated(t, path, result).len() == t.len(),
    decreases path.len(),
{
    if path.len() > 0 {
        lemma_backpropagated_well_formed(t, path.drop_last(), result);
        lemma_credited_well_formed(
            backpropagated(t, path.drop_last(), result),
            path.last().0 as int,
            result,
        );
    }
}

/// A path with room has room on each of its prefixes.
pub proof fn lemma_room_for_prefix(t: Seq<NodeView>, path: Seq<NodeId>, result: Outcome, k: int)
    requires
        has_room(t, path, result),
        0 <= k <= path.len(),
    ensures
        has_room(t, path.take(k), result),
    decreases path.len(),
{
    if k == path.len() {
        assert(path.take(k) =~= path);
    } else {
        lemma_room_for_prefix(t, path.drop_last(), result, k);
        assert(path.drop_last().take(k) =~= path.take(k));
    }
}

/// Expanding a childless node whose position has no legal move changes
/// nothing.
pub proof fn lemma_expanded_nothing(t: Seq<NodeView>, leaf: int)
    requires
        0 <= leaf < t.len(),
        t[leaf].children.len() == 0,
        legal_moves_of(t[leaf].position).len() == 0,
    ensures
        expanded(t, leaf) == t,
{
    assert(fresh_ids(t.len() as int, 0) =~= t[leaf].children);
    assert(expanded(t, leaf) =~= t);
}

} // verus!
