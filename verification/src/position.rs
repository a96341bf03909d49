//! The game rules, as far as the search needs them: legal moves, playing a
//! move, the outcome of a finished game and the side to move.
//!
//! Positions and moves are `shakmaty` values that the search carries around
//! without looking inside. What `shakmaty` computes from them is named by the
//! uninterpreted functions below; nothing in this crate proves anything about
//! those names beyond what the wrappers state.

use vstd::prelude::*;

verus! {

/// `shakmaty::Chess`, a position of standard chess. Carried through as it
/// is.
#[verifier::external_type_specification]
#[verifier::external_body]
pub struct ExChess(shakmaty::Chess);

/// `shakmaty::Move`, a move. Carried through as it is.
#[verifier::external_type_specification]
#[verifier::external_body]
pub struct ExMove(shakmaty::Move);

/// `shakmaty::fen::Fen`, a parsed FEN. Carried through as it is.
#[verifier::external_type_specification]
#[verifier::external_body]
pub struct ExFen(shakmaty::fen::Fen);

/// `shakmaty::PositionError`, the error of setting up a position. Carried
/// through as it is.
#[verifier::external_type_specification]
#[verifier::external_body]
#[verifier::reject_recursive_types(P)]
pub struct ExPositionError<P>(shakmaty::PositionError<P>);

/// `shakmaty::PlayError`, the error of playing a move. Only its presence is
/// looked at.
#[verifier::external_type_specification]
#[verifier::external_body]
#[verifier::reject_recursive_types(P)]
pub struct ExPlayError<P>(shakmaty::PlayError<P>);

/// One of the two players.
#[derive(Clone, Copy, Debug, PartialEq, Eq, Structural)]
pub enum Side {
    White,
    Black,
}

impl Side {
    /// The opponent of `self`.
    pub open spec fn other(self) -> Side {
        match self {
            Side::White => Side::Black,
            Side::Black => Side::White,
        }
    }

    /// The opponent of `self`.
    pub fn opponent(self) -> (r: Side)
        ensures
            r == self.other(),
    {
        match self {
            Side::White => Side::Black,
            Side::Black => Side::White,
        }
    }
}

/// How a finished game ended.
#[derive(Clone, Copy, Debug, PartialEq, Eq, Structural)]
pub enum Outcome {
    Decisive { winner: Side },
    Draw,
}

/// Why a search stopped short.
#[derive(Clone, Copy, Debug, PartialEq, Eq, Structural)]
pub enum Fault {
    /// A move taken from a position's own list of legal moves was rejected
    /// when played.
    IllegalReplay,
    /// A position has neither a legal move nor an outcome.
    MissingOutcome,
    /// A playout ran out of plies while legal moves were left.
    Unfinished,
    /// A position is not one that the rules accept: a side lacks its king, or
    /// the rules refuse the position as a setup.
    UnsoundPosition,
}

/// Why no tree or engine was built.
#[derive(Debug)]
pub enum SetupError {
    /// A side does not have exactly one king.
    MissingKing,
    /// The setup is not a position that a game can be in. The error of the
    /// rules is handed on: it says what is wrong.
    IllegalPosition(shakmaty::PositionError<shakmaty::Chess>),
}

/// The legal moves of a position, in the order `shakmaty` generates them.
pub uninterp spec fn legal_moves_of(position: shakmaty::Chess) -> Seq<shakmaty::Move>;

/// The position reached by playing a move, or `None` where `shakmaty`
/// rejects the move.
pub uninterp spec fn successor_of(position: shakmaty::Chess, m: shakmaty::Move) -> Option<
    shakmaty::Chess,
>;

/// The outcome `shakmaty` reports for a position, or `None` where it reports
/// none.
pub uninterp spec fn outcome_of(position: shakmaty::Chess) -> Option<Outcome>;

/// The side to move in a position.
pub uninterp spec fn turn_of(position: shakmaty::Chess) -> Side;

/// What `shakmaty` makes of a parsed FEN under standard castling rules: the
/// position it sets up, or the error that says what is wrong with it.
pub uninterp spec fn setup_of(fen: shakmaty::fen::Fen) -> Result<
    shakmaty::Chess,
    shakmaty::PositionError<shakmaty::Chess>,
>;

/// Whether `shakmaty` finds exactly one king of a side on the board.
pub uninterp spec fn has_king_of(position: shakmaty::Chess, side: Side) -> bool;

/// What `shakmaty` makes of a position when it is handed back as a setup,
/// under the castling rules the position was made with: the position it
/// sets up, or the error that says what is wrong with it.
pub uninterp spec fn resetup_of(position: shakmaty::Chess) -> Result<
    shakmaty::Chess,
    shakmaty::PositionError<shakmaty::Chess>,
>;

/// Each side has its king.
pub open spec fn has_kings(position: shakmaty::Chess) -> bool {
    has_king_of(position, Side::White) && has_king_of(position, Side::Black)
}

/// The position is one that the rules accept: each side has its king, and
/// the rules do not refuse the position as a setup. The rules are asked for
/// moves and outcomes of such positions only. A position can fail this if it
/// was made past the checks of the rules: with a setup error ignored, or by
/// a move played without a test.
pub open spec fn admitted(position: shakmaty::Chess) -> bool {
    has_kings(position) && resetup_of(position) is Ok
}

/// The longest playout that is followed to its end, in plies.
pub const MAX_PLIES: u64 = 0xffff_ffff_ffff_ffff;

/// Where a playout from `position` ends if, ply by ply, the move is taken
/// that `picks` names: each pick is an index into the legal moves, reduced
/// modulo their number. A position that the rules do not accept is a fault.
/// While a position has a legal move the playout goes on, whatever outcome
/// the rules report for it; a legal move that is rejected when played is a
/// fault, and picks that run out leave the playout unfinished. A position
/// without legal moves ends the playout with its outcome; the lack of one
/// is a fault.
pub open spec fn playout(position: shakmaty::Chess, picks: Seq<usize>) -> Result<Outcome, Fault>
    decreases picks.len(),
{
    let moves = legal_moves_of(position);
    if !admitted(position) {
        Err(Fault::UnsoundPosition)
    } else if moves.len() > 0 {
        if picks.len() == 0 {
            Err(Fault::Unfinished)
        } else {
            match successor_of(position, moves[picks[0] as int % moves.len() as int]) {
                None => Err(Fault::IllegalReplay),
                Some(next) => playout(next, picks.drop_first()),
            }
        }
    } else {
        match outcome_of(position) {
            Some(result) => Ok(result),
            None => Err(Fault::MissingOutcome),
        }
    }
}

/// Calls `shakmaty::Board::king_of` on the board that `shakmaty::Setup::board`
/// hands out. Trusted: whether the side has exactly one king is a function
/// of the position alone.
#[verifier::external_body]
pub(crate) fn has_king(position: &shakmaty::Chess, side: Side) -> (r: bool)
    ensures
        r == has_king_of(*position, side),
{
    let color = match side {
        Side::White => shakmaty::Color::White,
        Side::Black => shakmaty::Color::Black,
    };
    shakmaty::Setup::board(position).king_of(color).is_some()
}

/// Calls `shakmaty::FromSetup::from_setup` for `Chess` with the position
/// itself as the setup and with the castling mode of the position
/// (`shakmaty::Position::castles`, `shakmaty::Castles::mode`). Trusted: the
/// answer is a function of the position alone. The kings are required
/// because the position looks for its own king when it is asked for its
/// en passant square.
#[verifier::external_body]
pub(crate) fn resetup(position: &shakmaty::Chess) -> (r: Result<
    shakmaty::Chess,
    shakmaty::PositionError<shakmaty::Chess>,
>)
    requires
        has_kings(*position),
    ensures
        r == resetup_of(*position),
{
    shakmaty::FromSetup::from_setup(position, shakmaty::Position::castles(position).mode())
}

/// Tests whether the rules accept a position: first the kings, then the
/// position as a setup.
pub fn vet(position: &shakmaty::Chess) -> (r: Result<(), SetupError>)
    ensures
        r is Ok <==> admitted(*position),
        !has_kings(*position) ==> r is Err && r->Err_0 is MissingKing,
        has_kings(*position) && resetup_of(*position) is Err ==> r is Err && r->Err_0
            == SetupError::IllegalPosition(resetup_of(*position)->Err_0),
{
    if !has_king(position, Side::White) {
        return Err(SetupError::MissingKing);
    }
    if !has_king(position, Side::Black) {
        return Err(SetupError::MissingKing);
    }
    match resetup(position) {
        Ok(_) => Ok(()),
        Err(error) => Err(SetupError::IllegalPosition(error)),
    }
}

/// Calls `shakmaty::Position::legal_moves` and copies the list into a `Vec`.
/// Trusted: the list is a function of the position alone. Only a position
/// that the rules accept is handed over: the call looks for the king, and
/// its list has room for the moves of such positions.
#[verifier::external_body]
pub(crate) fn legal_moves(position: &shakmaty::Chess) -> (r: Vec<shakmaty::Move>)
    requires
        admitted(*position),
    ensures
        r@ == legal_moves_of(*position),
{
    shakmaty::Position::legal_moves(position).into_iter().collect()
}

/// Calls `shakmaty::Position::play` on a copy of the position. Trusted: whether
/// the move is accepted, and the position it leads to, are functions of the
/// position and the move alone. Only a position that the rules accept is
/// handed over: the call lists legal moves to test the move. Nothing is
/// stated of whether the rules accept the position that comes back.
#[verifier::external_body]
pub(crate) fn play(position: &shakmaty::Chess, m: &shakmaty::Move) -> (r: Result<
    shakmaty::Chess,
    shakmaty::PlayError<shakmaty::Chess>,
>)
    requires
        admitted(*position),
    ensures
        r is Ok <==> successor_of(*position, *m) is Some,
        r is Ok ==> successor_of(*position, *m) == Some(r->Ok_0),
{
    shakmaty::Position::play(position.clone(), m)
}

/// Calls `shakmaty::Position::outcome` and renders the answer in this crate's
/// own types. Trusted: the answer is a function of the position alone. Only
/// a position that the rules accept is handed over: the call lists legal
/// moves to tell a mate from a stalemate.
#[verifier::external_body]
pub(crate) fn outcome(position: &shakmaty::Chess) -> (r: Option<Outcome>)
    requires
        admitted(*position),
    ensures
        r == outcome_of(*position),
{
    match shakmaty::Position::outcome(position) {
        None => None,
        Some(shakmaty::Outcome::Draw) => Some(Outcome::Draw),
        Some(shakmaty::Outcome::Decisive { winner: shakmaty::Color::White }) => Some(
            Outcome::Decisive { winner: Side::White },
        ),
        Some(shakmaty::Outcome::Decisive { winner: shakmaty::Color::Black }) => Some(
            Outcome::Decisive { winner: Side::Black },
        ),
    }
}

/// Calls `shakmaty::Setup::turn`, which reads a field. Trusted: the side to
/// move is a function of the position alone.
#[verifier::external_body]
pub(crate) fn turn(position: &shakmaty::Chess) -> (r: Side)
    ensures
        r == turn_of(*position),
{
    match shakmaty::Setup::turn(position) {
        shakmaty::Color::White => Side::White,
        shakmaty::Color::Black => Side::Black,
    }
}

/// Calls `shakmaty::FromSetup::from_setup` for `Chess` with
/// `CastlingMode::Standard`. Trusted: the position, or the error in its
/// place, is a function of the FEN alone.
#[verifier::external_body]
pub(crate) fn position_from(fen: &shakmaty::fen::Fen) -> (r: Result<
    shakmaty::Chess,
    shakmaty::PositionError<shakmaty::Chess>,
>)
    ensures
        r == setup_of(*fen),
{
    shakmaty::FromSetup::from_setup(fen, shakmaty::CastlingMode::Standard)
}

/// Calls `Clone::clone` of `shakmaty::Move`. Trusted: the copy is the same
/// move.
#[verifier::external_body]
pub(crate) fn clone_move(m: &shakmaty::Move) -> (r: shakmaty::Move)
    ensures
        r == *m,
{
    m.clone()
}

/// Calls `Clone::clone` of `shakmaty::Chess`. Trusted: the copy is the same
/// position.
#[verifier::external_body]
pub(crate) fn clone_position(position: &shakmaty::Chess) -> (r: shakmaty::Chess)
    ensures
        r == *position,
{
    position.clone()
}

} // verus!
