use mcts_engine::model::NodeId;
use mcts_engine::position::{Outcome, Side};
use mcts_engine::tree::Tree;
use shakmaty::fen::Fen;
use shakmaty::{CastlingMode, Chess, FromSetup, Position};

fn uct(half_wins: u64, simulations: u64, parent: u64) -> u64 {
    let n = simulations as f32;
    let score = (half_wins as f32 / 2.0) / n + 1.414 * ((parent as f32).ln() / n).sqrt();
    if score >= 0.0 {
        u64::from(score.to_bits()) + 1
    } else {
        0
    }
}

fn flat(_half_wins: u64, _simulations: u64, _parent: u64) -> u64 {
    5
}

fn fewest_wins(half_wins: u64, _simulations: u64, _parent: u64) -> u64 {
    1000 - half_wins
}

fn position(fen: &str) -> Chess {
    let fen: Fen = fen.parse().expect("a FEN");
    Chess::from_setup(&fen, CastlingMode::Standard).expect("a legal position")
}

// Only the pawns on the e-file (and, in the second position, the g-file) can
// move; every game ends in a stalemate after a few moves.
const TWO_MOVES: &str = "kb6/p1p1p3/P1P5/8/8/p1p5/P1P1P3/KB6 w - - 0 1";
const FOUR_MOVES: &str = "kb6/p1p1p1p1/P1P5/8/8/p1p5/P1P1P1P1/KB6 w - - 0 1";
const START: &str = "rnbqkbnr/pppppppp/8/8/8/8/PPPPPPPP/RNBQKBNR w KQkq - 0 1";

#[test]
fn childless_node_selects_nothing() {
    let tree = Tree::new(position(START)).expect("a position that the rules accept");
    assert_eq!(tree.select_next(NodeId(0), &uct), None);
    assert_eq!(tree.select_branch(NodeId(0), &uct), vec![NodeId(0)]);
}

#[test]
fn unvisited_children_go_first_in_order() {
    let mut tree = Tree::new(position(START)).expect("a position that the rules accept");
    let win = Outcome::Decisive { winner: Side::White };
    // The root is expanded; child number 3 takes the first simulation.
    tree.execute_scripted(&uct, 3, win).expect("no fault");
    for expected in [0usize, 1, 2, 4, 5] {
        let root = tree.root();
        let next = tree.select_next(root, &uct).expect("a child");
        assert_eq!(next, tree.child_at(root, expected));
        assert_eq!(tree.simulations(next), 0);
        assert_eq!(tree.select_branch(root, &uct), vec![root, next]);
        tree.execute_scripted(&uct, 0, win).expect("no fault");
        assert_eq!(tree.simulations(next), 1);
    }
}

#[test]
fn every_child_is_visited_once_before_any_is_visited_again() {
    let mut tree = Tree::new(position(FOUR_MOVES)).expect("a position that the rules accept");
    let root = tree.root();
    for round in 0..4usize {
        tree.execute_scripted(&uct, 2, Outcome::Draw).expect("no fault");
        let visited = (0..4).filter(|a| tree.simulations(tree.child_at(root, *a)) == 1).count();
        let unvisited = (0..4).filter(|a| tree.simulations(tree.child_at(root, *a)) == 0).count();
        assert_eq!((visited, unvisited), (round + 1, 3 - round));
    }
    assert_eq!(tree.simulations(root), 4);
    // All have one simulation: the earliest is recommended.
    assert_eq!(tree.best_move(), tree.last_move(tree.child_at(root, 0)));
}

#[test]
fn equal_scores_select_the_first_child() {
    let mut tree = Tree::new(position(TWO_MOVES)).expect("a position that the rules accept");
    tree.execute_scripted(&flat, 1, Outcome::Draw).expect("no fault");
    tree.execute_scripted(&flat, 0, Outcome::Draw).expect("no fault");
    let root = tree.root();
    assert_eq!(tree.simulations(tree.child_at(root, 0)), 1);
    assert_eq!(tree.simulations(tree.child_at(root, 1)), 1);
    assert_eq!(tree.select_next(root, &flat), Some(tree.child_at(root, 0)));
}

#[test]
fn highest_score_is_selected() {
    let mut tree = Tree::new(position(TWO_MOVES)).expect("a position that the rules accept");
    let root = tree.root();
    tree.execute_scripted(&uct, 0, Outcome::Decisive { winner: Side::White }).expect("no fault");
    tree.execute_scripted(&uct, 0, Outcome::Decisive { winner: Side::Black }).expect("no fault");
    let first = tree.child_at(root, 0);
    let second = tree.child_at(root, 1);
    // White moved into both children: the first has won, the second lost.
    assert_eq!((tree.half_wins(first), tree.half_wins(second)), (2, 0));
    assert_eq!(tree.select_next(root, &uct), Some(first));
    assert_eq!(tree.select_next(root, &fewest_wins), Some(second));
}

#[test]
fn branch_ends_in_a_childless_node() {
    let mut tree = Tree::new(position(TWO_MOVES)).expect("a position that the rules accept");
    for round in 0..12usize {
        tree.execute_scripted(&uct, round, Outcome::Draw).expect("no fault");
        let branch = tree.select_branch(tree.root(), &uct);
        assert_eq!(branch[0], tree.root());
        for pair in branch.windows(2) {
            assert!(pair[0].0 < pair[1].0);
            let listed = (0..tree.child_count(pair[0])).any(|a| tree.child_at(pair[0], a) == pair[1]);
            assert!(listed);
        }
        assert_eq!(tree.child_count(branch[branch.len() - 1]), 0);
        assert!(branch.len() <= tree.len());
    }
}

#[test]
fn most_visited_child_is_recommended() {
    let start = position(FOUR_MOVES);
    let moves = start.legal_moves();
    assert_eq!(moves.len(), 4);
    let white = Outcome::Decisive { winner: Side::White };
    let black = Outcome::Decisive { winner: Side::Black };
    let mut tree = Tree::new(start).expect("a position that the rules accept");
    let root = tree.root();
    // The first child is drawn at the root's expansion and wins.
    tree.execute_scripted(&fewest_wins, 0, white).expect("no fault");
    assert_eq!(tree.best_move(), Some(moves[0].clone()));
    // The second child, the first without a simulation, follows: a tie.
    tree.execute_scripted(&fewest_wins, 0, white).expect("no fault");
    assert_eq!(tree.simulations(tree.child_at(root, 0)), 1);
    assert_eq!(tree.simulations(tree.child_at(root, 1)), 1);
    assert_eq!(tree.best_move(), Some(moves[0].clone()));
    // The third child loses, the fourth wins.
    tree.execute_scripted(&fewest_wins, 0, black).expect("no fault");
    tree.execute_scripted(&fewest_wins, 0, white).expect("no fault");
    let simulations: Vec<u64> = (0..4).map(|a| tree.simulations(tree.child_at(root, a))).collect();
    assert_eq!(simulations, vec![1, 1, 1, 1]);
    assert_eq!(tree.best_move(), Some(moves[0].clone()));
    // This scorer descends into the child with the fewest wins, the third.
    tree.execute_scripted(&fewest_wins, 0, white).expect("no fault");
    let simulations: Vec<u64> = (0..4).map(|a| tree.simulations(tree.child_at(root, a))).collect();
    assert_eq!(simulations, vec![1, 1, 2, 1]);
    assert_eq!(tree.best_move(), Some(moves[2].clone()));
}

#[test]
fn expansion_and_backpropagation_step_by_step() {
    let start = position(TWO_MOVES);
    let mut tree = Tree::new(start.clone()).expect("a position that the rules accept");
    let root = tree.root();
    tree.expand_tree(root).expect("no fault");
    assert_eq!(tree.len(), 3);
    let first = tree.child_at(root, 0);
    let second = tree.child_at(root, 1);
    assert_eq!((first, second), (NodeId(1), NodeId(2)));
    // Black moved into the root, White into its children.
    tree.backpropagate(vec![root, first], Outcome::Decisive { winner: Side::White });
    assert_eq!((tree.simulations(root), tree.half_wins(root)), (1, 0));
    assert_eq!((tree.simulations(first), tree.half_wins(first)), (1, 2));
    assert_eq!((tree.simulations(second), tree.half_wins(second)), (0, 0));
    tree.backpropagate(vec![root, second], Outcome::Draw);
    assert_eq!((tree.simulations(root), tree.half_wins(root)), (2, 1));
    assert_eq!((tree.simulations(second), tree.half_wins(second)), (1, 1));
    tree.backpropagate(vec![root, first], Outcome::Decisive { winner: Side::Black });
    assert_eq!((tree.simulations(root), tree.half_wins(root)), (3, 3));
    assert_eq!((tree.simulations(first), tree.half_wins(first)), (2, 2));
    // A node listed twice is credited twice; an empty path changes nothing.
    tree.backpropagate(vec![second, second], Outcome::Decisive { winner: Side::White });
    assert_eq!((tree.simulations(second), tree.half_wins(second)), (3, 5));
    tree.backpropagate(Vec::new(), Outcome::Draw);
    assert_eq!((tree.simulations(root), tree.half_wins(root)), (3, 3));
    for n in 0..tree.len() {
        assert!(tree.half_wins(NodeId(n)) <= 2 * tree.simulations(NodeId(n)));
    }
    // Expansion gives a node one child per legal move of its position.
    tree.expand_tree(first).expect("no fault");
    let moves_after_first = start
        .clone()
        .play(&start.legal_moves()[0])
        .expect("legal")
        .legal_moves()
        .len();
    assert_eq!(tree.child_count(first), moves_after_first);
}
