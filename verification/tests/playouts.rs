use mcts_engine::engine::{Engine, Until};
use mcts_engine::model::NodeId;
use mcts_engine::position::{Fault, Outcome, Side};
use mcts_engine::tree::Tree;
use shakmaty::fen::Fen;
use shakmaty::{CastlingMode, Chess, FromSetup, Move, Position, Role, Square};

fn uct(half_wins: u64, simulations: u64, parent: u64) -> u64 {
    let n = simulations as f32;
    let score = (half_wins as f32 / 2.0) / n + 1.414 * ((parent as f32).ln() / n).sqrt();
    if score >= 0.0 {
        u64::from(score.to_bits()) + 1
    } else {
        0
    }
}

fn position(fen: &str) -> Chess {
    let fen: Fen = fen.parse().expect("a FEN");
    Chess::from_setup(&fen, CastlingMode::Standard).expect("a legal position")
}

// Both kings and bishops are walled in by pawns that cannot move. Only the
// pawns on the e-file and the g-file can move, each towards the other on its
// file, so every game from these positions ends in a stalemate after a few
// moves.
const ONE_MOVE: &str = "kb6/p1p1p3/P1P5/8/8/p1p1P3/P1P5/KB6 w - - 0 1";
const FOUR_MOVES: &str = "kb6/p1p1p1p1/P1P5/8/8/p1p5/P1P1P1P1/KB6 w - - 0 1";
const STALEMATE: &str = "7k/5Q2/6K1/8/8/8/8/8 b - - 0 1";
const CHECKMATE: &str = "R6k/6pp/8/8/8/8/8/7K b - - 0 1";
const MATE_IN_ONE: &str = "6k1/5ppp/8/8/8/8/8/R6K w - - 0 1";
const BARE_KINGS: &str = "8/8/8/8/8/5k2/8/7K w - - 0 1";

#[test]
fn finished_games_need_no_picks() {
    let none: Vec<usize> = Vec::new();
    assert_eq!(
        Tree::simulate_scripted(&position(CHECKMATE), &none),
        Ok(Outcome::Decisive { winner: Side::White })
    );
    assert_eq!(Tree::simulate_scripted(&position(STALEMATE), &none), Ok(Outcome::Draw));
    assert_eq!(
        Tree::simulate(&position(CHECKMATE)),
        Ok(Outcome::Decisive { winner: Side::White })
    );
    assert_eq!(Tree::simulate(&position(STALEMATE)), Ok(Outcome::Draw));
}

#[test]
fn playout_goes_on_while_a_move_is_left() {
    // The rules call bare kings a draw, but the kings can still move.
    let start = position(BARE_KINGS);
    assert_eq!(start.outcome(), Some(shakmaty::Outcome::Draw));
    assert_eq!(start.legal_moves().len(), 2);
    let none: Vec<usize> = Vec::new();
    assert_eq!(Tree::simulate_scripted(&start, &none), Err(Fault::Unfinished));
    assert_eq!(Tree::simulate_scripted(&start, &vec![0]), Err(Fault::Unfinished));
    assert_eq!(Tree::simulate_scripted(&start, &vec![1, 0, 1, 0, 1, 0]), Err(Fault::Unfinished));
}

#[test]
fn scripted_playout_follows_its_picks() {
    let start = position(MATE_IN_ONE);
    let moves = start.legal_moves();
    let mate = Move::Normal {
        role: Role::Rook,
        from: Square::A1,
        capture: None,
        to: Square::A8,
        promotion: None,
    };
    let index = moves.iter().position(|m| *m == mate).expect("the mating move");
    assert_eq!(
        Tree::simulate_scripted(&start, &vec![index]),
        Ok(Outcome::Decisive { winner: Side::White })
    );
    // Picks are taken modulo the number of legal moves.
    assert_eq!(
        Tree::simulate_scripted(&start, &vec![index + 3 * moves.len()]),
        Ok(Outcome::Decisive { winner: Side::White })
    );
    // Picks beyond the end of the game are not used.
    assert_eq!(
        Tree::simulate_scripted(&start, &vec![index, 0, 0]),
        Ok(Outcome::Decisive { winner: Side::White })
    );
}

#[test]
fn scripted_playout_ends_where_no_move_is_left() {
    // The pawn steps forward; a black pawn answers; then either White is
    // blocked, or it steps again and Black is.
    let start = position(ONE_MOVE);
    assert_eq!(Tree::simulate_scripted(&start, &vec![0]), Err(Fault::Unfinished));
    assert_eq!(Tree::simulate_scripted(&start, &vec![0, 0, 0]), Ok(Outcome::Draw));
    assert_eq!(Tree::simulate_scripted(&start, &vec![0, 1, 0]), Ok(Outcome::Draw));
}

#[test]
fn playout_without_enough_picks_is_unfinished() {
    let start = position(MATE_IN_ONE);
    let none: Vec<usize> = Vec::new();
    assert_eq!(Tree::simulate_scripted(&start, &none), Err(Fault::Unfinished));
    let quiet = Move::Normal {
        role: Role::King,
        from: Square::H1,
        capture: None,
        to: Square::H2,
        promotion: None,
    };
    let index = start.legal_moves().iter().position(|m| *m == quiet).expect("a king move");
    assert_eq!(Tree::simulate_scripted(&start, &vec![index]), Err(Fault::Unfinished));
}

#[test]
fn random_playout_ends_the_game() {
    for _ in 0..50 {
        assert_eq!(Tree::simulate(&position(FOUR_MOVES)), Ok(Outcome::Draw));
        assert_eq!(Tree::simulate(&position(ONE_MOVE)), Ok(Outcome::Draw));
    }
}

#[test]
fn random_iteration_visits_one_new_child() {
    let mut tree = Tree::new(position(FOUR_MOVES)).expect("a position that the rules accept");
    tree.execute_mcts(&uct).expect("no fault");
    let root = tree.root();
    let count = tree.child_count(root);
    assert_eq!(count, 4);
    assert_eq!(tree.len(), 1 + count);
    assert_eq!((tree.simulations(root), tree.half_wins(root)), (1, 1));
    let visited = (0..count).filter(|a| tree.simulations(tree.child_at(root, *a)) == 1).count();
    let unvisited = (0..count).filter(|a| tree.simulations(tree.child_at(root, *a)) == 0).count();
    assert_eq!((visited, unvisited), (1, count - 1));
}

#[test]
fn counts_stay_balanced_and_wins_bounded() {
    let mut engine = Engine::from_position(position(FOUR_MOVES)).expect("a position that the rules accept");
    let report = engine.go(Until::Iterations(40), &uct).expect("no fault");
    assert_eq!(report.iterations, 40);
    let tree = engine.tree();
    let mut expanded_below_root = 0u64;
    for n in 0..tree.len() {
        let id = NodeId(n);
        assert!(tree.half_wins(id) <= 2 * tree.simulations(id));
        let count = tree.child_count(id);
        let sum: u64 = (0..count).map(|a| tree.simulations(tree.child_at(id, a))).sum();
        if n == 0 {
            assert_eq!(tree.simulations(id), sum);
            assert!(tree.simulations(id) <= 40);
        } else if count > 0 {
            assert!(tree.simulations(id) == sum || tree.simulations(id) == sum + 1);
            expanded_below_root += 1;
        } else {
            assert!(tree.simulations(id) <= 1);
        }
    }
    assert!(expanded_below_root > 0);
    let root = tree.root();
    let most = (0..tree.child_count(root))
        .map(|a| tree.simulations(tree.child_at(root, a)))
        .max()
        .expect("children");
    let first_most = (0..tree.child_count(root))
        .find(|a| tree.simulations(tree.child_at(root, *a)) == most)
        .expect("a child");
    assert_eq!(report.best_move, tree.last_move(tree.child_at(root, first_most)));
}

#[test]
fn deadline_search_stops() {
    let mut engine = Engine::from_position(position(FOUR_MOVES)).expect("a position that the rules accept");
    let report = engine.go(Until::Milliseconds(30), &uct).expect("no fault");
    // An iteration that ends in a position without legal moves records
    // nothing.
    assert!(engine.tree().simulations(NodeId(0)) <= report.iterations as u64);
    assert_eq!(report.best_move.is_some(), report.iterations > 0);
    if let Some(best) = report.best_move {
        assert!(position(FOUR_MOVES).legal_moves().contains(&best));
    }
}
