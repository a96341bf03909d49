use mcts_engine::engine::{Engine, Until};
use mcts_engine::model::NodeId;
use mcts_engine::position::{Fault, Outcome, SetupError, Side};
use mcts_engine::tree::Tree;
use shakmaty::fen::Fen;
use shakmaty::{
    CastlingMode, Chess, FromSetup, Move, Position, PositionErrorKinds, Role, Setup, Square,
};

fn uct(half_wins: u64, simulations: u64, parent: u64) -> u64 {
    let n = simulations as f32;
    let score = (half_wins as f32 / 2.0) / n + 1.414 * ((parent as f32).ln() / n).sqrt();
    if score >= 0.0 {
        u64::from(score.to_bits()) + 1
    } else {
        0
    }
}

fn position(fen: &str) -> Chess {
    let fen: Fen = fen.parse().expect("a FEN");
    Chess::from_setup(&fen, CastlingMode::Standard).expect("a legal position")
}

fn engine(fen: &str) -> Engine {
    let fen: Fen = fen.parse().expect("a FEN");
    match Engine::new(&fen) {
        Ok(engine) => engine,
        Err(_) => panic!("a legal position"),
    }
}

// Both kings and bishops are walled in by pawns that cannot move. Only the
// pawns on the e-file and the g-file can move, each towards the other on its
// file, so every game from these positions ends in a stalemate after a few
// moves.
const ONE_MOVE: &str = "kb6/p1p1p3/P1P5/8/8/p1p1P3/P1P5/KB6 w - - 0 1";
const TWO_MOVES: &str = "kb6/p1p1p3/P1P5/8/8/p1p5/P1P1P3/KB6 w - - 0 1";
const FOUR_MOVES: &str = "kb6/p1p1p1p1/P1P5/8/8/p1p5/P1P1P1P1/KB6 w - - 0 1";
const STALEMATE: &str = "7k/5Q2/6K1/8/8/8/8/8 b - - 0 1";
const CHECKMATE: &str = "R6k/6pp/8/8/8/8/8/7K b - - 0 1";
const START: &str = "rnbqkbnr/pppppppp/8/8/8/8/PPPPPPPP/RNBQKBNR w KQkq - 0 1";

#[test]
fn single_legal_move_is_returned_for_any_budget() {
    let expected = Move::Normal {
        role: Role::Pawn,
        from: Square::E3,
        capture: None,
        to: Square::E4,
        promotion: None,
    };
    assert_eq!(position(ONE_MOVE).legal_moves().len(), 1);
    for budget in [1usize, 2, 5] {
        let mut engine = engine(ONE_MOVE);
        let report = engine.go(Until::Iterations(budget), &uct).expect("no fault");
        assert_eq!(report.iterations, budget);
        assert_eq!(report.best_move, Some(expected.clone()));
    }
    let mut engine = engine(ONE_MOVE);
    let report = engine.go_scripted(Until::Milliseconds(5), &vec![0, 1], &uct).expect("no fault");
    assert_eq!(report.best_move, Some(expected));
}

#[test]
fn terminal_root_returns_no_move() {
    for fen in [STALEMATE, CHECKMATE] {
        assert_eq!(position(fen).legal_moves().len(), 0);
        for until in [Until::Iterations(0), Until::Iterations(7), Until::Milliseconds(3)] {
            let mut engine = engine(fen);
            let report = engine.go(until, &uct).expect("no fault");
            assert_eq!(report.best_move, None);
            assert_eq!(engine.tree().len(), 1);
            assert_eq!(engine.tree().simulations(NodeId(0)), 0);
        }
    }
}

#[test]
fn zero_budget_runs_nothing() {
    let mut engine = engine(START);
    let report = engine.go(Until::Iterations(0), &uct).expect("no fault");
    assert_eq!(report.iterations, 0);
    assert_eq!(report.best_move, None);
    assert_eq!(engine.tree().len(), 1);
    assert_eq!(engine.tree().simulations(NodeId(0)), 0);
    let report = engine.go(Until::Milliseconds(0), &uct).expect("no fault");
    assert_eq!(report.iterations, 0);
    assert_eq!(report.best_move, None);
    assert_eq!(engine.tree().len(), 1);
}

#[test]
fn searches_accumulate_on_one_engine() {
    let mut engine = engine(FOUR_MOVES);
    let first = engine.go(Until::Iterations(3), &uct).expect("no fault");
    assert_eq!(first.iterations, 3);
    assert_eq!(engine.tree().simulations(NodeId(0)), 3);
    let nodes_after_first = engine.tree().len();
    let second = engine.go(Until::Iterations(4), &uct).expect("no fault");
    assert_eq!(second.iterations, 4);
    // No game from this position is over within four moves, so none of the
    // seven iterations ended in a position without legal moves.
    assert_eq!(engine.tree().simulations(NodeId(0)), 7);
    assert!(engine.tree().len() > nodes_after_first);
}

#[test]
fn first_round_visits_every_child_once() {
    let start = position(FOUR_MOVES);
    let moves = start.legal_moves();
    for round in 0..10 {
        let mut engine = Engine::from_position(start.clone()).expect("a position that the rules accept");
        let budget = 1 + round % 4;
        let report = engine.go(Until::Iterations(budget), &uct).expect("no fault");
        let tree = engine.tree();
        let root = tree.root();
        assert_eq!(tree.simulations(root), budget as u64);
        let visited = (0..4).filter(|a| tree.simulations(tree.child_at(root, *a)) == 1).count();
        let unvisited = (0..4).filter(|a| tree.simulations(tree.child_at(root, *a)) == 0).count();
        assert_eq!((visited, unvisited), (budget, 4 - budget));
        if budget == 4 {
            assert_eq!(report.best_move, Some(moves[0].clone()));
        }
    }
}

#[test]
fn scripted_three_iterations_on_two_moves() {
    let start = position(TWO_MOVES);
    let moves = start.legal_moves();
    assert_eq!(moves.len(), 2);
    let after_first = start.clone().play(&moves[0]).expect("legal");
    let after_second = start.clone().play(&moves[1]).expect("legal");
    let replies_first = after_first.legal_moves().len();
    let replies_second = after_second.legal_moves().len();
    assert!(replies_first > 0 && replies_second > 1);

    let mut tree = Tree::new(start).expect("a position that the rules accept");
    let root = tree.root();
    assert_eq!(tree.side_that_moved(root), Side::Black);

    // The root is expanded, its first child takes a win for White.
    tree.execute_scripted(&uct, 0, Outcome::Decisive { winner: Side::White }).expect("no fault");
    assert_eq!(tree.len(), 3);
    let first = tree.child_at(root, 0);
    let second = tree.child_at(root, 1);
    assert_eq!((tree.simulations(root), tree.half_wins(root)), (1, 0));
    assert_eq!((tree.simulations(first), tree.half_wins(first)), (1, 2));
    assert_eq!((tree.simulations(second), tree.half_wins(second)), (0, 0));

    // The unvisited second child is selected and expanded; a draw.
    tree.execute_scripted(&uct, 1, Outcome::Draw).expect("no fault");
    assert_eq!(tree.len(), 3 + replies_second);
    assert_eq!(tree.child_count(second), replies_second);
    assert_eq!(tree.child_count(first), 0);
    let grandchild = tree.child_at(second, 1);
    assert_eq!((tree.simulations(root), tree.half_wins(root)), (2, 1));
    assert_eq!((tree.simulations(first), tree.half_wins(first)), (1, 2));
    assert_eq!((tree.simulations(second), tree.half_wins(second)), (1, 1));
    assert_eq!((tree.simulations(grandchild), tree.half_wins(grandchild)), (1, 1));
    assert_eq!(tree.side_that_moved(grandchild), Side::Black);

    // Both children are visited: the first has the higher score. A win for
    // Black.
    tree.execute_scripted(&uct, 0, Outcome::Decisive { winner: Side::Black }).expect("no fault");
    assert_eq!(tree.len(), 3 + replies_second + replies_first);
    assert_eq!(tree.child_count(first), replies_first);
    let other_grandchild = tree.child_at(first, 0);
    assert_eq!((tree.simulations(root), tree.half_wins(root)), (3, 3));
    assert_eq!((tree.simulations(first), tree.half_wins(first)), (2, 2));
    assert_eq!((tree.simulations(second), tree.half_wins(second)), (1, 1));
    assert_eq!((tree.simulations(other_grandchild), tree.half_wins(other_grandchild)), (1, 2));

    // In wins: 1.5 of 3 at the root, 1 of 2 and 0.5 of 1 at its children.
    assert_eq!(tree.half_wins(root) as f32 / 2.0, 1.5);
    assert_eq!(tree.half_wins(first) as f32 / 2.0, 1.0);
    assert_eq!(tree.half_wins(second) as f32 / 2.0, 0.5);
    assert_eq!(tree.best_move(), Some(moves[0].clone()));
}

#[test]
fn illegal_setup_hands_on_the_error_of_the_rules() {
    let fen: Fen = "8/8/8/8/8/8/8/8 w - - 0 1".parse().expect("a FEN");
    match Engine::new(&fen) {
        Err(SetupError::IllegalPosition(error)) => {
            assert!(error.kinds().contains(PositionErrorKinds::EMPTY_BOARD));
            assert!(error.kinds().contains(PositionErrorKinds::MISSING_KING));
            assert!(!error.kinds().contains(PositionErrorKinds::OPPOSITE_CHECK));
        }
        _ => panic!("an empty board is no position"),
    }
    // White is to move while Black is in check.
    let fen: Fen = "7k/8/8/8/8/8/8/K6R w - - 0 1".parse().expect("a FEN");
    match Engine::new(&fen) {
        Err(SetupError::IllegalPosition(error)) => {
            assert_eq!(error.kinds(), PositionErrorKinds::OPPOSITE_CHECK);
        }
        _ => panic!("the side that moved cannot be in check"),
    }
    let fen: Fen = START.parse().expect("a FEN");
    assert!(Engine::new(&fen).is_ok());
}

// Queens and bishops all round the board: more than any game can bring
// about. The rules refuse the setup for its material alone, and hand the
// position out where that error is waived.
const TOO_MUCH_MATERIAL: &str = "QQQQQQBk/Q6B/Q6Q/Q6Q/Q6Q/Q6Q/Q6Q/KQQQQQQQ w - - 0 1";

fn waived(fen: &str) -> Chess {
    let fen: Fen = fen.parse().expect("a FEN");
    match Chess::from_setup(&fen, CastlingMode::Standard) {
        Ok(_) => panic!("the setup is refused"),
        Err(error) => {
            assert_eq!(error.kinds(), PositionErrorKinds::IMPOSSIBLE_MATERIAL);
            error.ignore_impossible_material().expect("no other error")
        }
    }
}

fn without_the_black_king() -> Chess {
    // The rook takes the king through the pawn: no legal move, played
    // without a test.
    let mut damaged = position("7k/7p/8/8/8/8/8/K6R w - - 0 1");
    damaged.play_unchecked(&Move::Normal {
        role: Role::Rook,
        from: Square::H1,
        capture: Some(Role::King),
        to: Square::H8,
        promotion: None,
    });
    assert_eq!(damaged.board().king_of(shakmaty::Color::Black), None);
    damaged
}

#[test]
fn position_with_impossible_material_builds_nothing() {
    match Engine::from_position(waived(TOO_MUCH_MATERIAL)) {
        Err(SetupError::IllegalPosition(error)) => {
            assert_eq!(error.kinds(), PositionErrorKinds::IMPOSSIBLE_MATERIAL);
        }
        Err(SetupError::MissingKing) => panic!("both kings are there"),
        Ok(_) => panic!("the rules refuse this position"),
    }
    assert!(matches!(
        Tree::new(waived(TOO_MUCH_MATERIAL)),
        Err(SetupError::IllegalPosition(_))
    ));
    let fen: Fen = TOO_MUCH_MATERIAL.parse().expect("a FEN");
    assert!(matches!(Engine::new(&fen), Err(SetupError::IllegalPosition(_))));
}

#[test]
fn position_without_a_king_builds_nothing() {
    assert!(matches!(
        Engine::from_position(without_the_black_king()),
        Err(SetupError::MissingKing)
    ));
    assert!(matches!(Tree::new(without_the_black_king()), Err(SetupError::MissingKing)));
}

#[test]
fn playout_refuses_a_position_that_the_rules_do_not_accept() {
    let none: Vec<usize> = Vec::new();
    assert_eq!(Tree::simulate(&waived(TOO_MUCH_MATERIAL)), Err(Fault::UnsoundPosition));
    assert_eq!(
        Tree::simulate_scripted(&waived(TOO_MUCH_MATERIAL), &none),
        Err(Fault::UnsoundPosition)
    );
    assert_eq!(
        Tree::simulate_scripted(&waived(TOO_MUCH_MATERIAL), &vec![0, 1, 2]),
        Err(Fault::UnsoundPosition)
    );
    assert_eq!(Tree::simulate(&without_the_black_king()), Err(Fault::UnsoundPosition));
    assert_eq!(
        Tree::simulate_scripted(&without_the_black_king(), &vec![0]),
        Err(Fault::UnsoundPosition)
    );
}

#[test]
fn fresh_engine_holds_the_root_alone() {
    let engine = engine(STALEMATE);
    let tree = engine.tree();
    assert_eq!(tree.len(), 1);
    assert_eq!(tree.root(), NodeId(0));
    assert_eq!(tree.side_that_moved(NodeId(0)), Side::White);
    assert_eq!(tree.last_move(NodeId(0)), None);
    assert_eq!(tree.child_count(NodeId(0)), 0);
    assert_eq!(tree.simulations(NodeId(0)), 0);
    assert_eq!(tree.half_wins(NodeId(0)), 0);
    assert_eq!(tree.position(NodeId(0)), &position(STALEMATE));
    assert_eq!(tree.best_move(), None);
}

#[test]
fn engine_from_a_position_holds_the_root_alone() {
    let mut engine = Engine::from_position(position(TWO_MOVES)).expect("a position that the rules accept");
    assert_eq!(engine.tree().len(), 1);
    assert_eq!(engine.tree().position(NodeId(0)), &position(TWO_MOVES));
    assert_eq!(engine.tree().side_that_moved(NodeId(0)), Side::Black);
    assert_eq!(engine.tree().simulations(NodeId(0)), 0);
    let report = engine.go(Until::Iterations(1), &uct).expect("no fault");
    assert_eq!(report.iterations, 1);
    assert_eq!(engine.tree().len(), 3);
}

#[test]
fn expansion_follows_the_legal_moves() {
    let start = position(START);
    let moves = start.legal_moves();
    assert_eq!(moves.len(), 20);
    let mut tree = Tree::new(start.clone()).expect("a position that the rules accept");
    tree.execute_scripted(&uct, 7, Outcome::Draw).expect("no fault");
    let root = tree.root();
    assert_eq!(tree.len(), 21);
    assert_eq!(tree.child_count(root), 20);
    for a in 0..20 {
        let child = tree.child_at(root, a);
        assert_eq!(child, NodeId(1 + a));
        assert_eq!(tree.last_move(child), Some(moves[a].clone()));
        assert_eq!(tree.position(child), &start.clone().play(&moves[a]).expect("legal"));
        assert_eq!(tree.side_that_moved(child), Side::White);
        assert_eq!(tree.child_count(child), 0);
        assert_eq!(tree.simulations(child), if a == 7 { 1 } else { 0 });
        assert_eq!(tree.half_wins(child), if a == 7 { 1 } else { 0 });
    }
}

#[test]
fn scripted_draw_wraps_around() {
    let mut tree = Tree::new(position(TWO_MOVES)).expect("a position that the rules accept");
    tree.execute_scripted(&uct, 5, Outcome::Draw).expect("no fault");
    let root = tree.root();
    assert_eq!(tree.simulations(tree.child_at(root, 0)), 0);
    assert_eq!(tree.simulations(tree.child_at(root, 1)), 1);
}

#[test]
fn terminal_leaf_wastes_the_iteration() {
    let mut tree = Tree::new(position(CHECKMATE)).expect("a position that the rules accept");
    tree.execute_scripted(&uct, 0, Outcome::Draw).expect("no fault");
    assert_eq!(tree.len(), 1);
    assert_eq!(tree.simulations(NodeId(0)), 0);
    tree.execute_mcts(&uct).expect("no fault");
    assert_eq!(tree.len(), 1);
    assert_eq!(tree.simulations(NodeId(0)), 0);
}

#[test]
fn deadline_allows_while_time_is_left() {
    let deadline = Until::Milliseconds(10);
    assert!(deadline.allows(0, 0));
    assert!(deadline.allows(1_000_000, 9));
    assert!(!deadline.allows(0, 10));
    assert!(!deadline.allows(0, 11));
    assert!(!Until::Milliseconds(0).allows(0, 0));
    assert!(Until::Milliseconds(u64::MAX).allows(0, u128::from(u64::MAX) - 1));
    assert!(!Until::Milliseconds(u64::MAX).allows(0, u128::from(u64::MAX)));
}

#[test]
fn count_allows_while_iterations_are_left() {
    let count = Until::Iterations(3);
    assert!(count.allows(0, 0));
    assert!(count.allows(2, u128::MAX));
    assert!(!count.allows(3, 0));
    assert!(!count.allows(4, 0));
    assert!(!Until::Iterations(0).allows(0, 0));
}

#[test]
fn scripted_clock_ends_the_search_at_the_deadline() {
    // The fourth reading is the first at the deadline: three iterations.
    let mut first = engine(FOUR_MOVES);
    let report = first
        .go_scripted(Until::Milliseconds(10), &vec![0, 3, 9, 10, 2, 2], &uct)
        .expect("no fault");
    assert_eq!(report.iterations, 3);
    assert_eq!(first.tree().simulations(NodeId(0)), 3);

    // The first reading is past the deadline: nothing is run.
    let mut second = engine(FOUR_MOVES);
    let report = second.go_scripted(Until::Milliseconds(10), &vec![11, 0, 0], &uct).expect("no fault");
    assert_eq!(report.iterations, 0);
    assert_eq!(report.best_move, None);
    assert_eq!(second.tree().len(), 1);

    // The readings run out before the deadline: one iteration each.
    let mut third = engine(FOUR_MOVES);
    let report = third.go_scripted(Until::Milliseconds(10), &vec![0, 1], &uct).expect("no fault");
    assert_eq!(report.iterations, 2);
    assert_eq!(third.tree().simulations(NodeId(0)), 2);

    // No reading, no iteration.
    let mut fourth = engine(FOUR_MOVES);
    let report = fourth.go_scripted(Until::Milliseconds(10), &Vec::new(), &uct).expect("no fault");
    assert_eq!(report.iterations, 0);

    // A count goes by the iterations, whatever the readings say.
    let mut fifth = engine(FOUR_MOVES);
    let report = fifth
        .go_scripted(Until::Iterations(2), &vec![50, 50, 50, 50], &uct)
        .expect("no fault");
    assert_eq!(report.iterations, 2);
    assert_eq!(fifth.tree().simulations(NodeId(0)), 2);
}

#[test]
fn sides_are_opponents_of_each_other() {
    assert_eq!(Side::White.opponent(), Side::Black);
    assert_eq!(Side::Black.opponent(), Side::White);
}

#[test]
fn root_records_the_side_that_moved() {
    let white_to_move = Tree::new(position(TWO_MOVES)).expect("a position that the rules accept");
    assert_eq!(white_to_move.side_that_moved(NodeId(0)), Side::Black);
    let black_to_move = Tree::new(position(CHECKMATE)).expect("a position that the rules accept");
    assert_eq!(black_to_move.side_that_moved(NodeId(0)), Side::White);
}
