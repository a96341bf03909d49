//! The search tree: an append-only arena of nodes addressed by index, with
//! the root at index 0.

use crate::chance::pick_one;
use crate::descent::{lemma_grown_descent, lemma_settled};
use crate::model::{
    balanced, child, edge_ok, node_balanced, node_ok, root_view, well_formed, NodeId, NodeView,
    MAX_SIMULATIONS,
};
use crate::position::{
    admitted, clone_move, has_kings, legal_moves, legal_moves_of, play, playout, resetup_of,
    successor_of, turn, vet, Fault, Outcome, SetupError, Side, MAX_PLIES,
};
use crate::steps::{
    abort_along, abort_draws, accepts_statistics, all_visited, backpropagated, child_simulations,
    credited, expanded, fresh_child, fresh_ids, has_room, is_aborted, is_best_move, is_descent,
    is_first_max, is_first_unvisited, is_iteration, is_replay_fault, is_scripted, replay_fault, is_selected_branch, is_uct_choice,
    is_uct_step, iteration_along, iteration_draws, marked, replayable, scored_by, scripted_along,
};
use crate::tree_lemmas::{
    lemma_credited_well_formed, lemma_expanded_balanced, lemma_expanded_nothing,
    lemma_expanded_well_formed, lemma_room_for_prefix,
};
use vstd::prelude::*;

verus! {

/// One vertex of the search tree.
struct Node {
    side_that_moved: Side,
    last_move: Option<shakmaty::Move>,
    position: shakmaty::Chess,
    half_wins: u64,
    simulations: u64,
    children: Vec<NodeId>,
    sampled: Ghost<bool>,
}

impl View for Node {
    type V = NodeView;

    closed spec fn view(&self) -> NodeView {
        NodeView {
            side_that_moved: self.side_that_moved,
            last_move: self.last_move,
            position: self.position,
            half_wins: self.half_wins,
            simulations: self.simulations,
            children: self.children@,
            sampled: self.sampled@,
        }
    }
}

/// The arena that owns every node of a search.
pub struct Tree {
    nodes: Vec<Node>,
}

impl View for Tree {
    type V = Seq<NodeView>;

    closed spec fn view(&self) -> Seq<NodeView> {
        Seq::new(self.nodes@.len(), |i: int| self.nodes@[i]@)
    }
}

impl Tree {
    /// A tree that holds only the root, for the given position. The position
    /// is tested first: one that the rules do not accept builds no tree.
    pub fn new(position: shakmaty::Chess) -> (r: Result<Tree, SetupError>)
        ensures
            r is Ok <==> admitted(position),
            r is Ok ==> (r->Ok_0)@ == seq![root_view(position)],
            r is Ok ==> well_formed((r->Ok_0)@) && balanced((r->Ok_0)@),
            !has_kings(position) ==> r is Err && r->Err_0 is MissingKing,
            has_kings(position) && resetup_of(position) is Err ==> r is Err && r->Err_0
                == SetupError::IllegalPosition(resetup_of(position)->Err_0),
    {
        match vet(&position) {
            Ok(()) => {},
            Err(error) => {
                return Err(error);
            },
        }
        let side = turn(&position).opponent();
        let root = Node {
            side_that_moved: side,
            last_move: None,
            position,
            half_wins: 0,
            simulations: 0,
            children: Vec::new(),
            sampled: Ghost(false),
        };
        let mut nodes: Vec<Node> = Vec::new();
        nodes.push(root);
        let tree = Tree { nodes };
        proof {
            assert(tree@ =~= seq![root_view(position)]);
            assert(node_ok(tree@, 0));
            assert(tree@[0].children.len() == 0);
            assert(node_balanced(tree@, 0));
        }
        Ok(tree)
    }

    /// The handle of the root.
    pub fn root(&self) -> (id: NodeId)
        ensures
            id == NodeId(0),
    {
        NodeId(0)
    }

    /// The number of nodes.
    pub fn len(&self) -> (n: usize)
        ensures
            n == self@.len(),
    {
        self.nodes.len()
    }

    /// The number of simulations recorded at a node.
    pub fn simulations(&self, id: NodeId) -> (n: u64)
        requires
            id.0 < self@.len(),
        ensures
            n == self@[id.0 as int].simulations,
    {
        self.nodes[id.0].simulations
    }

    /// Twice the wins recorded at a node.
    pub fn half_wins(&self, id: NodeId) -> (n: u64)
        requires
            id.0 < self@.len(),
        ensures
            n == self@[id.0 as int].half_wins,
    {
        self.nodes[id.0].half_wins
    }

    /// The player whose move produced a node.
    pub fn side_that_moved(&self, id: NodeId) -> (side: Side)
        requires
            id.0 < self@.len(),
        ensures
            side == self@[id.0 as int].side_that_moved,
    {
        self.nodes[id.0].side_that_moved
    }

    /// The number of children of a node.
    pub fn child_count(&self, id: NodeId) -> (n: usize)
        requires
            id.0 < self@.len(),
        ensures
            n == self@[id.0 as int].children.len(),
    {
        self.nodes[id.0].children.len()
    }

    /// The `a`-th child of a node.
    pub fn child_at(&self, id: NodeId, a: usize) -> (c: NodeId)
        requires
            id.0 < self@.len(),
            a < self@[id.0 as int].children.len(),
        ensures
            c == self@[id.0 as int].children[a as int],
    {
        self.nodes[id.0].children[a]
    }

    /// The move that produced a node; `None` for the root.
    pub fn last_move(&self, id: NodeId) -> (m: Option<shakmaty::Move>)
        requires
            id.0 < self@.len(),
        ensures
            m == self@[id.0 as int].last_move,
    {
        match &self.nodes[id.0].last_move {
            Some(m) => Some(clone_move(m)),
            None => None,
        }
    }

    /// The position of a node.
    pub fn position(&self, id: NodeId) -> (position: &shakmaty::Chess)
        requires
            id.0 < self@.len(),
        ensures
            *position == self@[id.0 as int].position,
    {
        &self.nodes[id.0].position
    }

    /// Selection at one node: the child to descend into, or `None` at a
    /// node without children. A child without a simulation is taken before
    /// any child that has one; among visited children the highest score wins,
    /// and of equal scores the earlier child.
    pub fn select_next<F: Fn(u64, u64, u64) -> u64>(&self, node_id: NodeId, score: &F) -> (r:
        Option<NodeId>)
        requires
            well_formed(self@),
            node_id.0 < self@.len(),
            accepts_statistics(score),
        ensures
            r is None <==> self@[node_id.0 as int].children.len() == 0,
            r is Some ==> is_uct_step(score, self@, node_id, r->Some_0),
            r is Some ==> node_id.0 < (r->Some_0).0 < self@.len(),
            forall|b: int|
                0 <= b < self@[node_id.0 as int].children.len() && self@[child(
                    self@,
                    node_id.0 as int,
                    b,
                )].simulations == 0 ==> r is Some && self@[(r->Some_0).0 as int].simulations == 0,
    {
        let ghost t = self@;
        let ghost n = node_id.0 as int;
        let node = &self.nodes[node_id.0];
        let count = node.children.len();
        let mut best: Option<usize> = None;
        let mut best_key: u64 = 0;
        let mut unvisited: bool = false;
        let ghost mut keys: Seq<u64> = Seq::empty();
        let mut a: usize = 0;
        assert(node_ok(t, n));
        while a < count
            invariant
                t == self@,
                n == node_id.0,
                0 <= n < t.len(),
                well_formed(t),
                accepts_statistics(score),
                *node == self.nodes@[n],
                count == t[n].children.len(),
                a <= count,
                keys.len() == a,
                forall|b: int|
                    0 <= b < a && t[child(t, n, b)].simulations > 0 ==> score.ensures(
                        (
                            t[child(t, n, b)].half_wins,
                            t[child(t, n, b)].simulations,
                            t[n].simulations,
                        ),
                        #[trigger] keys[b],
                    ),
                a == 0 ==> best is None,
                a > 0 ==> best is Some,
                best is Some ==> best->Some_0 < a,
                unvisited ==> best is Some && is_first_unvisited(t, n, best->Some_0 as int),
                !unvisited ==> forall|b: int| 0 <= b < a ==> t[child(t, n, b)].simulations > 0,
                !unvisited && best is Some ==> is_first_max(keys, best->Some_0 as int)
                    && best_key == keys[best->Some_0 as int],
            decreases count - a,
        {
            assert(node_ok(t, n));
            assert(edge_ok(t, n, a as int));
            let child_id = node.children[a];
            let kid = &self.nodes[child_id.0];
            assert(node_ok(t, child_id.0 as int));
            if kid.simulations == 0 {
                if !unvisited {
                    best = Some(a);
                    unvisited = true;
                }
                proof {
                    keys = keys.push(0);
                }
            } else {
                let key = score(kid.half_wins, kid.simulations, node.simulations);
                if !unvisited {
                    let better = match best {
                        None => true,
                        Some(_) => key > best_key,
                    };
                    if better {
                        best = Some(a);
                        best_key = key;
                    }
                }
                proof {
                    keys = keys.push(key);
                }
            }
            a = a + 1;
        }
        match best {
            None => None,
            Some(i) => {
                proof {
                    assert(node_ok(t, n));
                    assert(edge_ok(t, n, i as int));
                    if !unvisited {
                        assert(all_visited(t, n));
                        assert(scored_by(score, t, n, keys));
                    }
                    assert(is_uct_choice(score, t, n, i as int));
                }
                Some(node.children[i])
            },
        }
    }

    /// Selection from `root` down to a node without children. The path,
    /// both ends included, is returned; handles grow along it, so it is no
    /// longer than the tree.
    pub fn select_branch<F: Fn(u64, u64, u64) -> u64>(&self, root: NodeId, score: &F) -> (branch:
        Vec<NodeId>)
        requires
            well_formed(self@),
            root.0 < self@.len(),
            accepts_statistics(score),
        ensures
            is_selected_branch(score, self@, root.0 as int, branch@),
    {
        let mut branch: Vec<NodeId> = Vec::new();
        branch.push(root);
        let mut current = root;
        loop
            invariant
                well_formed(self@),
                accepts_statistics(score),
                current.0 < self@.len(),
                branch@.len() >= 1,
                branch@[0] == root,
                branch@.last() == current,
                forall|k: int| 0 <= k < branch@.len() ==> (#[trigger] branch@[k]).0 < self@.len(),
                forall|k: int|
                    0 <= k < branch@.len() - 1 ==> is_uct_step(
                        score,
                        self@,
                        #[trigger] branch@[k],
                        branch@[k + 1],
                    ),
            ensures
                is_selected_branch(score, self@, root.0 as int, branch@),
            decreases self@.len() - current.0,
        {
            match self.select_next(current, score) {
                None => {
                    break ;
                },
                Some(next) => {
                    let ghost before = branch@;
                    branch.push(next);
                    proof {
                        assert forall|k: int| 0 <= k < branch@.len() - 1 implies is_uct_step(
                            score,
                            self@,
                            #[trigger] branch@[k],
                            branch@[k + 1],
                        ) by {
                            if k < before.len() - 1 {
                                assert(branch@[k] == before[k]);
                                assert(branch@[k + 1] == before[k + 1]);
                            } else {
                                assert(branch@[k] == current);
                                assert(branch@[k + 1] == next);
                            }
                        }
                    }
                    current = next;
                },
            }
        }
        branch
    }

    /// Expansion of a node without children: one child per legal move of its
    /// position, appended to the arena in the order of the moves. A position
    /// without legal moves gets no children. The moves are played in their
    /// order, and each position they lead to is tested. Where the rules
    /// reject one of their own legal moves, or do not accept the position it
    /// leads to, nothing is changed and the fault of the first such move is
    /// returned.
    pub fn expand_tree(&mut self, leaf_id: NodeId) -> (r: Result<(), Fault>)
        requires
            well_formed(old(self)@),
            leaf_id.0 < old(self)@.len(),
            old(self)@[leaf_id.0 as int].children.len() == 0,
        ensures
            r is Ok <==> replayable(old(self)@[leaf_id.0 as int].position),
            r is Ok ==> final(self)@ == expanded(old(self)@, leaf_id.0 as int),
            r is Err ==> final(self)@ == old(self)@ && is_replay_fault(
                old(self)@[leaf_id.0 as int].position,
                r->Err_0,
            ),
            well_formed(final(self)@),
            balanced(old(self)@) ==> balanced(final(self)@),
    {
        let ghost t = self@;
        let ghost leaf = leaf_id.0 as int;
        assert(node_ok(t, leaf));
        let old_len = self.nodes.len();
        let moves = legal_moves(&self.nodes[leaf_id.0].position);
        let side = self.nodes[leaf_id.0].side_that_moved.opponent();
        let count = moves.len();
        let mut fresh: Vec<Node> = Vec::new();
        let mut a: usize = 0;
        while a < count
            invariant
                t == self@,
                well_formed(t),
                leaf == leaf_id.0,
                0 <= leaf < t.len(),
                moves@ == legal_moves_of(t[leaf].position),
                side == t[leaf].side_that_moved.other(),
                count == moves@.len(),
                a <= count,
                fresh@.len() == a,
                forall|b: int| 0 <= b < a ==> (#[trigger] fresh@[b])@ == fresh_child(t, leaf, b),
                forall|b: int|
                    0 <= b < a ==> successor_of(t[leaf].position, #[trigger] moves@[b]) is Some
                        && admitted(successor_of(t[leaf].position, moves@[b])->Some_0),
                forall|b: int| 0 <= b < a ==> (#[trigger] replay_fault(t[leaf].position, b)) is None,
            decreases count - a,
        {
            assert(node_ok(t, leaf));
            match play(&self.nodes[leaf_id.0].position, &moves[a]) {
                Err(_) => {
                    assert(replay_fault(t[leaf].position, a as int) == Some(Fault::IllegalReplay));
                    return Err(Fault::IllegalReplay);
                },
                Ok(position) => {
                    if vet(&position).is_err() {
                        assert(replay_fault(t[leaf].position, a as int) == Some(
                            Fault::UnsoundPosition,
                        ));
                        return Err(Fault::UnsoundPosition);
                    }
                    assert(replay_fault(t[leaf].position, a as int) is None);
                    fresh.push(
                        Node {
                            side_that_moved: side,
                            last_move: Some(clone_move(&moves[a])),
                            position,
                            half_wins: 0,
                            simulations: 0,
                            children: Vec::new(),
                            sampled: Ghost(false),
                        },
                    );
                },
            }
            a = a + 1;
        }
        self.nodes.append(&mut fresh);
        let new_len = self.nodes.len();
        let mut ids: Vec<NodeId> = Vec::new();
        let mut a: usize = 0;
        while a < count
            invariant
                a <= count,
                old_len + count == new_len,
                ids@.len() == a,
                forall|b: int| 0 <= b < a ==> #[trigger] ids@[b] == NodeId((old_len + b) as usize),
            decreases count - a,
        {
            ids.push(NodeId(old_len + a));
            a = a + 1;
        }
        self.nodes[leaf_id.0].children = ids;
        proof {
            assert(ids@ =~= fresh_ids(t.len() as int, count as nat));
            assert(self@ =~= expanded(t, leaf));
            lemma_expanded_well_formed(t, leaf);
            if balanced(t) {
                lemma_expanded_balanced(t, leaf);
            }
        }
        Ok(())
    }

    /// The move to recommend: that of the root's child with the most
    /// simulations, the earliest of them where several have the most; `None`
    /// where the root has no children.
    pub fn best_move(&self) -> (r: Option<shakmaty::Move>)
        requires
            well_formed(self@),
        ensures
            is_best_move(self@, r),
            r is Some <==> self@[0].children.len() > 0,
            r is Some ==> legal_moves_of(self@[0].position).contains(r->Some_0),
    {
        let ghost t = self@;
        let root = &self.nodes[0];
        let count = root.children.len();
        if count == 0 {
            return None;
        }
        let ghost sims = child_simulations(t, 0);
        assert(node_ok(t, 0));
        assert(edge_ok(t, 0, 0));
        let mut best: usize = 0;
        let mut most: u64 = self.nodes[root.children[0].0].simulations;
        let mut a: usize = 1;
        while a < count
            invariant
                t == self@,
                well_formed(t),
                *root == self.nodes@[0],
                sims == child_simulations(t, 0),
                count == t[0].children.len(),
                1 <= a <= count,
                best < a,
                most == sims[best as int],
                forall|b: int| 0 <= b < best ==> sims[b] < most,
                forall|b: int| best <= b < a ==> sims[b] <= most,
            decreases count - a,
        {
            assert(node_ok(t, 0));
            assert(edge_ok(t, 0, a as int));
            let visits = self.nodes[root.children[a].0].simulations;
            if visits > most {
                best = a;
                most = visits;
            }
            a = a + 1;
        }
        proof {
            assert(node_ok(t, 0));
            assert(edge_ok(t, 0, best as int));
            assert(is_first_max(sims, best as int));
        }
        match &self.nodes[root.children[best].0].last_move {
            Some(m) => Some(clone_move(m)),
            None => None,
        }
    }

    /// Backpropagation: one simulation with the given result is recorded at
    /// each node of the path, in the order of the path. A node gains 2 in
    /// doubled wins where the side that moved into it won, 1 for a draw and
    /// nothing where it lost. The wins of every node stay within its
    /// simulations. The counts of the tree are balanced again only where the
    /// path is the branch of an iteration and its drawn child, as in
    /// `execute_mcts`.
    pub fn backpropagate(&mut self, path: Vec<NodeId>, result: Outcome)
        requires
            well_formed(old(self)@),
            has_room(old(self)@, path@, result),
        ensures
            final(self)@ == backpropagated(old(self)@, path@, result),
            well_formed(final(self)@),
            forall|n: int|
                0 <= n < final(self)@.len() ==> 0 <= (#[trigger] final(self)@[n]).half_wins <= 2
                    * final(self)@[n].simulations,
    {
        let ghost t = self@;
        let mut i: usize = 0;
        assert(path@.take(0) =~= Seq::<NodeId>::empty());
        while i < path.len()
            invariant
                i <= path@.len(),
                well_formed(t),
                has_room(t, path@, result),
                has_room(t, path@.take(i as int), result),
                self@ == backpropagated(t, path@.take(i as int), result),
                self@.len() == t.len(),
                well_formed(self@),
            decreases path@.len() - i,
        {
            let ghost before = self@;
            let ghost done = path@.take(i as int);
            let ghost next = path@.take(i + 1);
            proof {
                assert(next.drop_last() =~= done);
                assert(next.last() == path@[i as int]);
                lemma_room_for_prefix(t, path@, result, i + 1);
                assert(node_ok(before, path@[i as int].0 as int));
            }
            let id = path[i];
            let node = &mut self.nodes[id.0];
            let gain: u64 = match result {
                Outcome::Decisive { winner } => if winner == node.side_that_moved {
                    2
                } else {
                    0
                },
                Outcome::Draw => 1,
            };
            node.half_wins = node.half_wins + gain;
            node.simulations = node.simulations + 1;
            proof {
                assert(self@ =~= credited(before, id.0 as int, result));
                lemma_credited_well_formed(before, id.0 as int, result);
            }
            i = i + 1;
        }
        proof {
            assert(path@.take(path@.len() as int) =~= path@);
            assert forall|n: int| 0 <= n < self@.len() implies 0 <= (#[trigger] self@[n]).half_wins
                <= 2 * self@[n].simulations by {
                assert(node_ok(self@, n));
            }
        }
    }

    /// Selection from the root, then expansion of the node it ends in. The
    /// selected branch is returned.
    fn grow<F: Fn(u64, u64, u64) -> u64>(&mut self, score: &F) -> (r: Result<Vec<NodeId>, Fault>)
        requires
            well_formed(old(self)@),
            balanced(old(self)@),
            accepts_statistics(score),
        ensures
            well_formed(final(self)@),
            balanced(final(self)@),
            r is Ok ==> {
                &&& is_selected_branch(score, old(self)@, 0, (r->Ok_0)@)
                &&& replayable(old(self)@[(r->Ok_0)@.last().0 as int].position)
                &&& final(self)@ == expanded(old(self)@, (r->Ok_0)@.last().0 as int)
            },
            r is Err ==> {
                &&& final(self)@ == old(self)@
                &&& is_aborted(score, old(self)@, old(self)@, r->Err_0)
            },
    {
        let branch = self.select_branch(NodeId(0), score);
        let leaf = branch[branch.len() - 1];
        match self.expand_tree(leaf) {
            Ok(()) => Ok(branch),
            Err(fault) => {
                proof {
                    assert(abort_along(old(self)@, branch@, old(self)@, fault));
                }
                Err(fault)
            },
        }
    }

    /// The end of an iteration: the drawn child is noted as the start of a
    /// playout, and the result is recorded along the branch and at the child.
    fn settle(&mut self, branch: Vec<NodeId>, drawn: NodeId, result: Outcome)
        requires
            well_formed(old(self)@),
            balanced(old(self)@),
            is_descent(old(self)@, branch@.push(drawn)),
            branch@.len() >= 1,
            old(self)@[drawn.0 as int].children.len() == 0,
            old(self)@[drawn.0 as int].simulations == 0,
            old(self)@[0].simulations < MAX_SIMULATIONS,
        ensures
            final(self)@ == backpropagated(
                marked(old(self)@, drawn.0 as int),
                branch@.push(drawn),
                result,
            ),
            well_formed(final(self)@),
            balanced(final(self)@),
    {
        let ghost t = self@;
        let ghost end = branch@.push(drawn);
        proof {
            assert(end.last() == drawn);
            lemma_settled(t, end, result);
        }
        let node = &mut self.nodes[drawn.0];
        proof {
            node.sampled = Ghost(true);
        }
        assert(self@ =~= marked(t, drawn.0 as int));
        let mut path = branch;
        path.push(drawn);
        self.backpropagate(path, result);
    }

    /// One iteration of the search: selection from the root, expansion of
    /// the node it ends in, a random draw among the new children, a random
    /// playout from the drawn child, and backpropagation of its result along
    /// the branch and the child. Where the selected node's position has no
    /// legal move, the tree stays as it is.
    ///
    /// The scorer ranks the visited children of a node: it is called with a
    /// child's doubled wins, the child's simulations and the parent's
    /// simulations, and a higher result is preferred.
    pub fn execute_mcts<F: Fn(u64, u64, u64) -> u64>(&mut self, score: &F) -> (r: Result<(), Fault>)
        requires
            well_formed(old(self)@),
            balanced(old(self)@),
            accepts_statistics(score),
            old(self)@[0].simulations < MAX_SIMULATIONS,
        ensures
            well_formed(final(self)@),
            balanced(final(self)@),
            r is Ok ==> is_iteration(score, old(self)@, final(self)@),
            r is Err ==> is_aborted(score, old(self)@, final(self)@, r->Err_0),
    {
        let ghost t = self@;
        let branch = match self.grow(score) {
            Ok(branch) => branch,
            Err(fault) => {
                return Err(fault);
            },
        };
        let ghost leaf = branch@.last().0 as int;
        let leaf_id = branch[branch.len() - 1];
        let total = self.nodes.len();
        assert(total == t.len() + legal_moves_of(t[leaf].position).len());
        let drawn = match pick_one(&self.nodes[leaf_id.0].children) {
            None => {
                proof {
                    lemma_expanded_nothing(t, leaf);
                    assert(iteration_along(t, branch@, self@));
                }
                return Ok(());
            },
            Some(drawn) => *drawn,
        };
        let ghost pick = self@[leaf].children.index_of(drawn);
        proof {
            assert(0 <= pick < self@[leaf].children.len() && self@[leaf].children[pick] == drawn);
            lemma_grown_descent(score, t, branch@, pick);
        }
        match Tree::simulate(&self.nodes[drawn.0].position) {
            Err(fault) => {
                proof {
                    let start = self@[drawn.0 as int].position;
                    let picks = choose|picks: Seq<usize>|
                        picks.len() <= MAX_PLIES && #[trigger] playout(start, picks) == Err::<
                            Outcome,
                            Fault,
                        >(fault) && (fault == Fault::Unfinished ==> picks.len() == MAX_PLIES);
                    assert(abort_draws(t, branch@, pick, picks, fault));
                    assert(abort_along(t, branch@, self@, fault));
                }
                Err(fault)
            },
            Ok(result) => {
                proof {
                    let start = self@[drawn.0 as int].position;
                    let picks = choose|picks: Seq<usize>|
                        picks.len() <= MAX_PLIES && #[trigger] playout(start, picks) == Ok::<
                            Outcome,
                            Fault,
                        >(result);
                    assert(playout(start, picks)->Ok_0 == result);
                }
                self.settle(branch, drawn, result);
                proof {
                    let start = expanded(t, leaf)[drawn.0 as int].position;
                    let picks = choose|picks: Seq<usize>|
                        picks.len() <= MAX_PLIES && #[trigger] playout(start, picks) == Ok::<
                            Outcome,
                            Fault,
                        >(result);
                    assert(iteration_draws(t, branch@, pick, picks, self@));
                    assert(iteration_along(t, branch@, self@));
                }
                Ok(())
            },
        }
    }

    /// One iteration of the search with a scripted draw and a scripted
    /// playout result in place of the random ones: after selection and
    /// expansion the child number `pick`, reduced modulo the number of new
    /// children, is taken, and `result` is recorded along the branch and at
    /// that child.
    pub fn execute_scripted<F: Fn(u64, u64, u64) -> u64>(
        &mut self,
        score: &F,
        pick: usize,
        result: Outcome,
    ) -> (r: Result<(), Fault>)
        requires
            well_formed(old(self)@),
            balanced(old(self)@),
            accepts_statistics(score),
            old(self)@[0].simulations < MAX_SIMULATIONS,
        ensures
            well_formed(final(self)@),
            balanced(final(self)@),
            r is Ok ==> is_scripted(score, old(self)@, pick, result, final(self)@),
            r is Err ==> final(self)@ == old(self)@ && is_aborted(
                score,
                old(self)@,
                final(self)@,
                r->Err_0,
            ),
    {
        let ghost t = self@;
        let branch = match self.grow(score) {
            Ok(branch) => branch,
            Err(fault) => {
                return Err(fault);
            },
        };
        let ghost leaf = branch@.last().0 as int;
        let leaf_id = branch[branch.len() - 1];
        let total = self.nodes.len();
        assert(total == t.len() + legal_moves_of(t[leaf].position).len());
        let count = self.nodes[leaf_id.0].children.len();
        assert(count == legal_moves_of(t[leaf].position).len()) by {
            assert(leaf_id == branch@[branch@.len() - 1]);
            assert(0 <= leaf < t.len());
            assert(expanded(t, leaf)[leaf].children == fresh_ids(
                t.len() as int,
                legal_moves_of(t[leaf].position).len(),
            ));
        }
        if count == 0 {
            proof {
                lemma_expanded_nothing(t, leaf);
                assert(scripted_along(t, branch@, pick, result, self@));
            }
            return Ok(());
        }
        let index = pick % count;
        let drawn = self.nodes[leaf_id.0].children[index];
        proof {
            lemma_grown_descent(score, t, branch@, index as int);
        }
        self.settle(branch, drawn, result);
        proof {
            assert(scripted_along(t, branch@, pick, result, self@));
        }
        Ok(())
    }
}

} // verus!
