//! The mathematical model of the search tree: a sequence of node views with
//! the root at index 0, and the invariants that every tree of a search
//! meets.

use crate::position::{admitted, legal_moves_of, successor_of, turn_of, Side};
use vstd::prelude::*;

verus! {

/// Handle of a node: its index in the arena.
#[derive(Clone, Copy, Debug, PartialEq, Eq, Structural)]
pub struct NodeId(pub usize);

/// The largest number of simulations a node can record.
pub const MAX_SIMULATIONS: u64 = 0x7fff_ffff_ffff_ffff;

/// What a node holds.
pub struct NodeView {
    /// The player whose move produced this node's position.
    pub side_that_moved: Side,
    /// The move that produced this node; `None` for the root.
    pub last_move: Option<shakmaty::Move>,
    /// The position after that move.
    pub position: shakmaty::Chess,
    /// Twice the wins credited to `side_that_moved`: 2 for a win, 1 for a
    /// draw, 0 for a loss, summed over the simulations.
    pub half_wins: u64,
    /// The number of simulations that passed through this node.
    pub simulations: u64,
    /// The children, in the order of the position's legal moves.
    pub children: Seq<NodeId>,
    /// Whether a playout was started from this node when it was created.
    pub sampled: bool,
}

/// The index of the `a`-th child of node `n`.
pub open spec fn child(t: Seq<NodeView>, n: int, a: int) -> int {
    t[n].children[a].0 as int
}

/// The `a`-th child of `n` is what expanding `n` creates for the `a`-th legal
/// move of its position.
pub open spec fn edge_ok(t: Seq<NodeView>, n: int, a: int) -> bool {
    let m = legal_moves_of(t[n].position)[a];
    let c = t[child(t, n, a)];
    &&& n < child(t, n, a) < t.len()
    &&& c.side_that_moved == t[n].side_that_moved.other()
    &&& c.last_move == Some(m)
    &&& successor_of(t[n].position, m) == Some(c.position)
}

/// Node `n` is sound by itself: its position is one that the rules accept,
/// its wins do not exceed its simulations, and its children, if it has any,
/// are those of its position's legal moves.
pub open spec fn node_ok(t: Seq<NodeView>, n: int) -> bool {
    &&& admitted(t[n].position)
    &&& t[n].half_wins <= 2 * t[n].simulations
    &&& t[n].children.len() > 0 ==> t[n].children.len() == legal_moves_of(t[n].position).len()
    &&& forall|a: int| 0 <= a < t[n].children.len() ==> #[trigger] edge_ok(t, n, a)
}

/// No node is listed twice as a child, neither by two parents nor by one.
pub open spec fn single_parent(t: Seq<NodeView>) -> bool {
    forall|n: int, a: int, m: int, b: int|
        0 <= n < t.len() && 0 <= a < t[n].children.len() && 0 <= m < t.len() && 0 <= b
            < t[m].children.len() && #[trigger] t[n].children[a] == #[trigger] t[m].children[b]
            ==> n == m && a == b
}

/// The structural invariant of a tree: a root without a move, children that
/// come after their parent in the arena, one parent per node, and sound
/// nodes.
pub open spec fn well_formed(t: Seq<NodeView>) -> bool {
    &&& t.len() >= 1
    &&& t[0].last_move is None
    &&& !t[0].sampled
    &&& forall|n: int| 0 <= n < t.len() ==> #[trigger] node_ok(t, n)
    &&& single_parent(t)
}

/// The simulations of the listed nodes, added up.
pub open spec fn sum_simulations(t: Seq<NodeView>, kids: Seq<NodeId>) -> int
    decreases kids.len(),
{
    if kids.len() == 0 {
        0
    } else {
        sum_simulations(t, kids.drop_last()) + t[kids.last().0 as int].simulations
    }
}

/// The playout that a node was created with, counted: 1 or 0.
pub open spec fn own_playout(node: NodeView) -> int {
    if node.sampled {
        1
    } else {
        0
    }
}

/// Node `n` has as many simulations as its children together, and one more
/// if a playout was started from it when it was created.
pub open spec fn node_balanced(t: Seq<NodeView>, n: int) -> bool {
    t[n].simulations == sum_simulations(t, t[n].children) + own_playout(t[n])
}

/// The counting invariant of a tree between iterations.
pub open spec fn balanced(t: Seq<NodeView>) -> bool {
    forall|n: int| 0 <= n < t.len() ==> #[trigger] node_balanced(t, n)
}

/// The root of a fresh tree over `position`.
pub open spec fn root_view(position: shakmaty::Chess) -> NodeView {
    NodeView {
        side_that_moved: turn_of(position).other(),
        last_move: None,
        position,
        half_wins: 0,
        simulations: 0,
        children: Seq::empty(),
        sampled: false,
    }
}

/// The root has been expanded: it has one child per legal move of its
/// position.
pub open spec fn root_expanded(t: Seq<NodeView>) -> bool {
    t[0].children.len() == legal_moves_of(t[0].position).len()
}

/// `u` continues `t`: every node of `t` is still there, with its side, move
/// and position, with no fewer simulations and wins, and with the children
/// it had, if it had any.
pub open spec fn extends(t: Seq<NodeView>, u: Seq<NodeView>) -> bool {
    &&& t.len() <= u.len()
    &&& forall|n: int|
        0 <= n < t.len() ==> {
            &&& (#[trigger] u[n]).side_that_moved == t[n].side_that_moved
            &&& u[n].last_move == t[n].last_move
            &&& u[n].position == t[n].position
            &&& u[n].simulations >= t[n].simulations
            &&& u[n].half_wins >= t[n].half_wins
            &&& t[n].children.len() > 0 ==> u[n].children == t[n].children
        }
}

} // verus!
