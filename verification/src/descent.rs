//! Proofs about paths from the root and about recording a simulation along
//! one of them.

use crate::model::{
    balanced, child, edge_ok, extends, node_balanced, node_ok, sum_simulations, well_formed, NodeId,
    NodeView, MAX_SIMULATIONS,
};
use crate::position::{legal_moves_of, Outcome};
use crate::steps::{
    backpropagated, credited, credited_node, expanded, fresh_child, has_room, is_child, is_descent,
    is_selected_branch, is_uct_choice, is_uct_step, marked, on_path, replayable,
};
use crate::tree_lemmas::{
    lemma_backpropagated_well_formed, lemma_expanded_balanced, lemma_expanded_well_formed,
    lemma_sum_agrees,
};
use vstd::prelude::*;

verus! {

/// Handles grow along a descent.
pub proof fn lemma_descent_increasing(t: Seq<NodeView>, path: Seq<NodeId>, j: int, k: int)
    requires
        well_formed(t),
        is_descent(t, path),
        0 <= j < k < path.len(),
    ensures
        path[j].0 < path[k].0,
    decreases k - j,
{
    let parent = path[k - 1];
    assert(is_child(t, parent, path[k - 1 + 1]));
    let a = choose|a: int|
        0 <= a < t[parent.0 as int].children.len() && #[trigger] t[parent.0 as int].children[a]
            == path[k];
    assert(node_ok(t, parent.0 as int));
    assert(edge_ok(t, parent.0 as int, a));
    if j < k - 1 {
        lemma_descent_increasing(t, path, j, k - 1);
    }
}

/// No listed node has more simulations than all of them together.
pub proof fn lemma_sum_bounds_member(t: Seq<NodeView>, kids: Seq<NodeId>, i: int)
    requires
        0 <= i < kids.len(),
    ensures
        t[kids[i].0 as int].simulations <= sum_simulations(t, kids),
        0 <= sum_simulations(t, kids),
    decreases kids.len(),
{
    lemma_sum_nonnegative(t, kids);
    lemma_sum_nonnegative(t, kids.drop_last());
    if i < kids.len() - 1 {
        lemma_sum_bounds_member(t, kids.drop_last(), i);
        assert(kids.drop_last()[i] == kids[i]);
    }
}

/// A sum of simulations is not negative.
pub proof fn lemma_sum_nonnegative(t: Seq<NodeView>, kids: Seq<NodeId>)
    ensures
        0 <= sum_simulations(t, kids),
    decreases kids.len(),
{
    if kids.len() > 0 {
        lemma_sum_nonnegative(t, kids.drop_last());
    }
}

/// In a balanced tree no node of a descent has more simulations than the
/// root.
pub proof fn lemma_descent_bounded(t: Seq<NodeView>, path: Seq<NodeId>, k: int)
    requires
        well_formed(t),
        balanced(t),
        is_descent(t, path),
        0 <= k < path.len(),
    ensures
        t[path[k].0 as int].simulations <= t[0].simulations,
    decreases k,
{
    if k > 0 {
        lemma_descent_bounded(t, path, k - 1);
        let parent = path[k - 1];
        assert(is_child(t, parent, path[k - 1 + 1]));
        let a = choose|a: int|
            0 <= a < t[parent.0 as int].children.len() && #[trigger] t[parent.0 as int].children[a]
                == path[k];
        lemma_sum_bounds_member(t, t[parent.0 as int].children, a);
        assert(node_balanced(t, parent.0 as int));
    }
}

/// Backpropagation along a path that lists no node twice records one
/// simulation at each node of the path and leaves the others as they are.
pub proof fn lemma_backpropagated_once(t: Seq<NodeView>, path: Seq<NodeId>, result: Outcome)
    requires
        forall|k: int| 0 <= k < path.len() ==> (#[trigger] path[k]).0 < t.len(),
        forall|j: int, k: int| 0 <= j < k < path.len() ==> path[j] != path[k],
    ensures
        backpropagated(t, path, result).len() == t.len(),
        forall|n: int|
            0 <= n < t.len() ==> #[trigger] backpropagated(t, path, result)[n] == (if on_path(
                path,
                n,
            ) {
                credited_node(t[n], result)
            } else {
                t[n]
            }),
    decreases path.len(),
{
    if path.len() > 0 {
        let front = path.drop_last();
        let last = path.last().0 as int;
        assert forall|k: int| 0 <= k < front.len() implies (#[trigger] front[k]).0 < t.len() by {
            assert(front[k] == path[k]);
        }
        assert forall|j: int, k: int| 0 <= j < k < front.len() implies front[j] != front[k] by {
            assert(front[j] == path[j]);
            assert(front[k] == path[k]);
        }
        lemma_backpropagated_once(t, front, result);
        let mid = backpropagated(t, front, result);
        let end = backpropagated(t, path, result);
        assert(end == credited(mid, last, result));
        assert(!on_path(front, last)) by {
            if on_path(front, last) {
                let k = choose|k: int| 0 <= k < front.len() && (#[trigger] front[k]).0 == last;
                assert(front[k] == path[k]);
                assert(path[k] != path[path.len() - 1]);
            }
        }
        assert(on_path(path, last)) by {
            assert(path[path.len() - 1].0 == last);
        }
        assert forall|n: int| 0 <= n < t.len() implies #[trigger] end[n] == (if on_path(path, n) {
            credited_node(t[n], result)
        } else {
            t[n]
        }) by {
            if n != last {
                assert(end[n] == mid[n]);
                if on_path(front, n) {
                    let k = choose|k: int| 0 <= k < front.len() && (#[trigger] front[k]).0 == n;
                    assert(front[k] == path[k]);
                    assert(on_path(path, n));
                }
                if on_path(path, n) {
                    let k = choose|k: int| 0 <= k < path.len() && (#[trigger] path[k]).0 == n;
                    assert(k < path.len() - 1);
                    assert(front[k] == path[k]);
                    assert(on_path(front, n));
                }
            }
        }
    }
}

/// A path that lists no node twice has room wherever each of its nodes has
/// room for one simulation.
pub proof fn lemma_room_for_distinct(t: Seq<NodeView>, path: Seq<NodeId>, result: Outcome)
    requires
        forall|k: int| 0 <= k < path.len() ==> (#[trigger] path[k]).0 < t.len(),
        forall|k: int|
            0 <= k < path.len() ==> t[(#[trigger] path[k]).0 as int].simulations < MAX_SIMULATIONS,
        forall|j: int, k: int| 0 <= j < k < path.len() ==> path[j] != path[k],
    ensures
        has_room(t, path, result),
    decreases path.len(),
{
    if path.len() > 0 {
        let front = path.drop_last();
        let last = path.last().0 as int;
        assert forall|k: int| 0 <= k < front.len() implies (#[trigger] front[k]).0 < t.len()
            && t[front[k].0 as int].simulations < MAX_SIMULATIONS by {
            assert(front[k] == path[k]);
        }
        assert forall|j: int, k: int| 0 <= j < k < front.len() implies front[j] != front[k] by {
            assert(front[j] == path[j]);
            assert(front[k] == path[k]);
        }
        lemma_room_for_distinct(t, front, result);
        lemma_backpropagated_once(t, front, result);
        assert(!on_path(front, last)) by {
            if on_path(front, last) {
                let k = choose|k: int| 0 <= k < front.len() && (#[trigger] front[k]).0 == last;
                assert(front[k] == path[k]);
                assert(path[k] != path[path.len() - 1]);
            }
        }
        assert(path[path.len() - 1].0 == last);
        assert(backpropagated(t, front, result)[last] == t[last]);
    }
}

/// Where one listed node gains a simulation and the others keep theirs, the
/// sum grows by one.
pub proof fn lemma_sum_one_more(t: Seq<NodeView>, u: Seq<NodeView>, kids: Seq<NodeId>, a: int)
    requires
        0 <= a < kids.len(),
        u[kids[a].0 as int].simulations == t[kids[a].0 as int].simulations + 1,
        forall|i: int|
            0 <= i < kids.len() && i != a ==> u[(#[trigger] kids[i]).0 as int].simulations
                == t[kids[i].0 as int].simulations,
    ensures
        sum_simulations(u, kids) == sum_simulations(t, kids) + 1,
    decreases kids.len(),
{
    let front = kids.drop_last();
    if a == kids.len() - 1 {
        assert forall|i: int| 0 <= i < front.len() implies t[(#[trigger] front[i]).0 as int].simulations
            == u[front[i].0 as int].simulations by {
            assert(front[i] == kids[i]);
        }
        lemma_sum_agrees(t, u, front);
    } else {
        assert(front[a] == kids[a]);
        assert forall|i: int| 0 <= i < front.len() && i != a implies u[(
        #[trigger] front[i]).0 as int].simulations == t[front[i].0 as int].simulations by {
            assert(front[i] == kids[i]);
        }
        lemma_sum_one_more(t, u, front, a);
        assert(kids[kids.len() - 1] == kids.last());
    }
}

/// Noting a node other than the root as the start of a playout keeps the
/// tree well-formed.
pub proof fn lemma_marked_well_formed(t: Seq<NodeView>, c: int)
    requires
        well_formed(t),
        0 < c < t.len(),
    ensures
        well_formed(marked(t, c)),
{
    let u = marked(t, c);
    assert forall|i: int| 0 <= i < u.len() implies #[trigger] node_ok(u, i) by {
        assert(node_ok(t, i));
        assert forall|a: int| 0 <= a < u[i].children.len() implies #[trigger] edge_ok(u, i, a) by {
            assert(edge_ok(t, i, a));
        }
    }
}

/// The heart of an iteration. In a balanced tree, take a descent that ends
/// in a node without simulations and without children, note that node as the
/// start of a playout and record a simulation along the descent: the path
/// has room, and the tree is well-formed and balanced again.
pub proof fn lemma_settled(t: Seq<NodeView>, path: Seq<NodeId>, result: Outcome)
    requires
        well_formed(t),
        balanced(t),
        is_descent(t, path),
        path.len() >= 2,
        t[path.last().0 as int].children.len() == 0,
        t[path.last().0 as int].simulations == 0,
        t[0].simulations < MAX_SIMULATIONS,
    ensures
        well_formed(marked(t, path.last().0 as int)),
        has_room(marked(t, path.last().0 as int), path, result),
        well_formed(backpropagated(marked(t, path.last().0 as int), path, result)),
        balanced(backpropagated(marked(t, path.last().0 as int), path, result)),
        backpropagated(marked(t, path.last().0 as int), path, result).len() == t.len(),
{
    let c = path.last().0 as int;
    let m = marked(t, c);
    let u = backpropagated(m, path, result);
    lemma_descent_increasing(t, path, 0, path.len() - 1);
    lemma_marked_well_formed(t, c);
    assert forall|j: int, k: int| 0 <= j < k < path.len() implies path[j] != path[k] by {
        lemma_descent_increasing(t, path, j, k);
    }
    assert forall|k: int| 0 <= k < path.len() implies m[(#[trigger] path[k]).0 as int].simulations
        < MAX_SIMULATIONS by {
        lemma_descent_bounded(t, path, k);
    }
    lemma_room_for_distinct(m, path, result);
    lemma_backpropagated_well_formed(m, path, result);
    lemma_backpropagated_once(m, path, result);
    assert(node_balanced(t, c));
    assert(!t[c].sampled) by {
        lemma_sum_of_none(t, t[c].children);
    }
    assert forall|n: int| 0 <= n < u.len() implies #[trigger] node_balanced(u, n) by {
        assert(node_balanced(t, n));
        assert(node_ok(t, n));
        let kids = t[n].children;
        assert(u[n].children == kids);
        assert forall|i: int| 0 <= i < kids.len() implies t[(
        #[trigger] kids[i]).0 as int].simulations == m[kids[i].0 as int].simulations by {
            assert(edge_ok(t, n, i));
        }
        if n == c {
            assert(on_path(path, c)) by {
                assert(path[path.len() - 1].0 == c);
            }
            assert(u[n] == credited_node(m[n], result));
            lemma_sum_of_none(u, kids);
        } else if on_path(path, n) {
            let k = choose|k: int| 0 <= k < path.len() && (#[trigger] path[k]).0 == n;
            assert(k < path.len() - 1);
            assert(is_child(t, path[k], path[k + 1]));
            let a = choose|a: int|
                0 <= a < t[path[k].0 as int].children.len() && #[trigger] t[path[k].0 as int].children[a]
                    == path[k + 1];
            assert(kids[a] == path[k + 1]);
            assert(on_path(path, kids[a].0 as int));
            assert(edge_ok(t, n, a));
            assert forall|i: int| 0 <= i < kids.len() && i != a implies u[(
            #[trigger] kids[i]).0 as int].simulations == m[kids[i].0 as int].simulations by {
                assert(edge_ok(t, n, i));
                if on_path(path, kids[i].0 as int) {
                    lemma_parent_on_path(t, path, n, i);
                }
            }
            lemma_sum_one_more(m, u, kids, a);
            lemma_sum_agrees(t, m, kids);
        } else {
            assert forall|i: int| 0 <= i < kids.len() implies m[(
            #[trigger] kids[i]).0 as int].simulations == u[kids[i].0 as int].simulations by {
                assert(edge_ok(t, n, i));
                if on_path(path, kids[i].0 as int) {
                    lemma_parent_on_path(t, path, n, i);
                }
            }
            lemma_sum_agrees(m, u, kids);
            lemma_sum_agrees(t, m, kids);
        }
    }
}

/// An empty list adds up to nothing.
pub proof fn lemma_sum_of_none(t: Seq<NodeView>, kids: Seq<NodeId>)
    requires
        kids.len() == 0,
    ensures
        sum_simulations(t, kids) == 0,
{
}

/// A child that is on a descent follows its parent there: the parent is on
/// the descent too, and the child is the next node after it.
pub proof fn lemma_parent_on_path(t: Seq<NodeView>, path: Seq<NodeId>, n: int, i: int)
    requires
        well_formed(t),
        is_descent(t, path),
        0 <= n < t.len(),
        0 <= i < t[n].children.len(),
        on_path(path, t[n].children[i].0 as int),
    ensures
        exists|k: int|
            0 <= k < path.len() - 1 && (#[trigger] path[k]).0 == n && path[k + 1]
                == t[n].children[i],
{
    let kid = t[n].children[i];
    let j = choose|j: int| 0 <= j < path.len() && (#[trigger] path[j]).0 == kid.0 as int;
    assert(path[j] == kid);
    assert(node_ok(t, n));
    assert(edge_ok(t, n, i));
    assert(j > 0);
    assert(is_child(t, path[j - 1], path[j - 1 + 1]));
    let parent = path[j - 1];
    let b = choose|b: int|
        0 <= b < t[parent.0 as int].children.len() && #[trigger] t[parent.0 as int].children[b]
            == path[j];
    assert(t[parent.0 as int].children[b] == t[n].children[i]);
    assert(parent.0 == n && b == i);
    assert(path[j - 1].0 == n && path[j - 1 + 1] == t[n].children[i]);
}

/// After the last node of a selected branch is expanded, the branch and
/// any one of the new children form a descent that ends in a node without
/// simulations and without children. The expanded tree is well-formed and,
/// like the tree before, balanced.
pub proof fn lemma_grown_descent<F: Fn(u64, u64, u64) -> u64>(
    score: &F,
    t: Seq<NodeView>,
    branch: Seq<NodeId>,
    pick: int,
)
    requires
        well_formed(t),
        balanced(t),
        is_selected_branch(score, t, 0, branch),
        replayable(t[branch.last().0 as int].position),
        0 <= pick < legal_moves_of(t[branch.last().0 as int].position).len(),
        t.len() + legal_moves_of(t[branch.last().0 as int].position).len() <= usize::MAX,
    ensures
        ({
            let g = expanded(t, branch.last().0 as int);
            let c = NodeId((t.len() + pick) as usize);
            &&& well_formed(g)
            &&& balanced(g)
            &&& is_descent(g, branch.push(c))
            &&& g[branch.last().0 as int].children[pick] == c
            &&& g[c.0 as int] == fresh_child(t, branch.last().0 as int, pick)
            &&& g[0].simulations == t[0].simulations
        }),
{
    let leaf = branch.last().0 as int;
    let g = expanded(t, leaf);
    let c = NodeId((t.len() + pick) as usize);
    let path = branch.push(c);
    lemma_expanded_well_formed(t, leaf);
    lemma_expanded_balanced(t, leaf);
    assert(branch[branch.len() - 1] == branch.last());
    assert forall|k: int| 0 <= k < path.len() implies (#[trigger] path[k]).0 < g.len() by {
        if k < branch.len() {
            assert(path[k] == branch[k]);
        }
    }
    assert forall|k: int| 0 <= k < path.len() - 1 implies is_child(
        g,
        #[trigger] path[k],
        path[k + 1],
    ) by {
        assert(path[k] == branch[k]);
        if k < branch.len() - 1 {
            assert(path[k + 1] == branch[k + 1]);
            assert(is_uct_step(score, t, branch[k], branch[k + 1]));
            let a = choose|a: int|
                is_uct_choice(score, t, branch[k].0 as int, a) && branch[k + 1]
                    == t[branch[k].0 as int].children[a];
            assert(g[branch[k].0 as int] == t[branch[k].0 as int]);
            assert(g[branch[k].0 as int].children[a] == path[k + 1]);
        } else {
            assert(path[k + 1] == c);
            assert(g[leaf].children[pick] == c);
        }
    }
    assert(path[0] == branch[0]);
}

/// Recording a simulation along a descent as in `lemma_settled` continues
/// the tree, and adds one simulation at the root.
pub proof fn lemma_settled_extends(t: Seq<NodeView>, path: Seq<NodeId>, result: Outcome)
    requires
        well_formed(t),
        balanced(t),
        is_descent(t, path),
        path.len() >= 2,
        t[path.last().0 as int].children.len() == 0,
        t[path.last().0 as int].simulations == 0,
        t[0].simulations < MAX_SIMULATIONS,
    ensures
        extends(t, backpropagated(marked(t, path.last().0 as int), path, result)),
        backpropagated(marked(t, path.last().0 as int), path, result)[0].simulations
            == t[0].simulations + 1,
        forall|n: int|
            0 <= n < t.len() ==> (#[trigger] backpropagated(
                marked(t, path.last().0 as int),
                path,
                result,
            )[n]).children == t[n].children,
{
    let c = path.last().0 as int;
    let m = marked(t, c);
    let u = backpropagated(m, path, result);
    assert forall|j: int, k: int| 0 <= j < k < path.len() implies path[j] != path[k] by {
        lemma_descent_increasing(t, path, j, k);
    }
    lemma_backpropagated_once(m, path, result);
    assert(on_path(path, 0)) by {
        assert(path[0].0 == 0);
    }
    assert forall|n: int| 0 <= n < t.len() implies {
        &&& (#[trigger] u[n]).side_that_moved == t[n].side_that_moved
        &&& u[n].last_move == t[n].last_move
        &&& u[n].position == t[n].position
        &&& u[n].simulations >= t[n].simulations
        &&& u[n].half_wins >= t[n].half_wins
        &&& u[n].children == t[n].children
        &&& on_path(path, n) ==> u[n].simulations == t[n].simulations + 1
    } by {
        assert(node_ok(t, n));
        if on_path(path, n) {
            let k = choose|k: int| 0 <= k < path.len() && (#[trigger] path[k]).0 == n;
            lemma_descent_bounded(t, path, k);
        }
    }
}

/// Expanding a childless node continues the tree.
pub proof fn lemma_expanded_extends(t: Seq<NodeView>, leaf: int)
    requires
        0 <= leaf < t.len(),
        t[leaf].children.len() == 0,
    ensures
        extends(t, expanded(t, leaf)),
        forall|n: int|
            0 <= n < t.len() ==> (#[trigger] expanded(t, leaf)[n]).simulations
                == t[n].simulations,
{
}

/// What continues a continuation of a tree continues the tree.
pub proof fn lemma_extends_transitive(t: Seq<NodeView>, u: Seq<NodeView>, v: Seq<NodeView>)
    requires
        extends(t, u),
        extends(u, v),
    ensures
        extends(t, v),
{
    assert forall|n: int| 0 <= n < t.len() implies {
        &&& (#[trigger] v[n]).side_that_moved == t[n].side_that_moved
        &&& v[n].last_move == t[n].last_move
        &&& v[n].position == t[n].position
        &&& v[n].simulations >= t[n].simulations
        &&& v[n].half_wins >= t[n].half_wins
        &&& t[n].children.len() > 0 ==> v[n].children == t[n].children
    } by {
        assert(u[n].position == t[n].position);
    }
}

} // verus!
