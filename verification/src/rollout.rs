//! Playouts: a position is played on, one legal move after another, until
//! no legal move is left.

use crate::chance::pick_one;
use crate::position::{
    admitted, clone_position, legal_moves, legal_moves_of, outcome, play, playout, successor_of,
    vet, Fault, Outcome, MAX_PLIES,
};
use crate::tree::Tree;
use vstd::prelude::*;

verus! {

/// A playout that follows `done` from `start` to `current` and goes on from
/// there ends where the rest of it ends.
proof fn lemma_playout_extends(
    start: shakmaty::Chess,
    done: Seq<usize>,
    current: shakmaty::Chess,
    pick: usize,
    next: shakmaty::Chess,
)
    requires
        forall|rest: Seq<usize>| #[trigger] playout(start, done + rest) == playout(current, rest),
        admitted(current),
        legal_moves_of(current).len() > 0,
        successor_of(
            current,
            legal_moves_of(current)[pick as int % legal_moves_of(current).len() as int],
        ) == Some(next),
    ensures
        forall|rest: Seq<usize>| #[trigger]
            playout(start, done.push(pick) + rest) == playout(next, rest),
{
    assert forall|rest: Seq<usize>| #[trigger]
        playout(start, done.push(pick) + rest) == playout(next, rest) by {
        let tail = seq![pick] + rest;
        assert(done.push(pick) + rest =~= done + tail);
        assert(playout(start, done + tail) == playout(current, tail));
        assert(tail.drop_first() =~= rest);
        assert(tail[0] == pick);
    }
}

impl Tree {
    /// A playout with the given picks in place of random draws: at each
    /// ply the legal move is played that the next pick names, reduced modulo
    /// the number of legal moves, until a position has none; its outcome is
    /// the result. Each position, the first too, is tested before the rules
    /// are asked for its moves.
    pub fn simulate_scripted(position: &shakmaty::Chess, picks: &Vec<usize>) -> (r: Result<
        Outcome,
        Fault,
    >)
        ensures
            r == playout(*position, picks@),
    {
        let mut board = clone_position(position);
        let mut i: usize = 0;
        assert(picks@.skip(0) =~= picks@);
        loop
            invariant
                i <= picks@.len(),
                playout(*position, picks@) == playout(board, picks@.skip(i as int)),
            decreases picks@.len() - i,
        {
            if vet(&board).is_err() {
                return Err(Fault::UnsoundPosition);
            }
            let moves = legal_moves(&board);
            if moves.len() == 0 {
                return match outcome(&board) {
                    Some(result) => Ok(result),
                    None => Err(Fault::MissingOutcome),
                };
            }
            if i == picks.len() {
                return Err(Fault::Unfinished);
            }
            let pick = picks[i] % moves.len();
            proof {
                let rest = picks@.skip(i as int);
                assert(rest[0] == picks@[i as int]);
                assert(rest.drop_first() =~= picks@.skip(i + 1));
            }
            match play(&board, &moves[pick]) {
                Err(_) => {
                    return Err(Fault::IllegalReplay);
                },
                Ok(next) => {
                    board = next;
                },
            }
            i = i + 1;
        }
    }

    /// A random playout: at each ply one of the legal moves is drawn and
    /// played, until a position has none; its outcome is the result. Each
    /// position, the first too, is tested before the rules are asked for its
    /// moves. Whatever is drawn, the result is that of the playout for some
    /// sequence of picks; it is left unfinished only after `MAX_PLIES` plies.
    pub fn simulate(position: &shakmaty::Chess) -> (r: Result<Outcome, Fault>)
        ensures
            exists|picks: Seq<usize>|
                picks.len() <= MAX_PLIES && #[trigger] playout(*position, picks) == r && (r
                    == Err::<Outcome, Fault>(Fault::Unfinished) ==> picks.len() == MAX_PLIES),
    {
        let mut board = clone_position(position);
        let mut plies: u64 = 0;
        let ghost mut done: Seq<usize> = Seq::empty();
        proof {
            assert forall|rest: Seq<usize>| #[trigger]
                playout(*position, done + rest) == playout(board, rest) by {
                assert(done + rest =~= rest);
            }
        }
        loop
            invariant
                plies <= MAX_PLIES,
                done.len() == plies,
                forall|rest: Seq<usize>| #[trigger]
                    playout(*position, done + rest) == playout(board, rest),
            decreases MAX_PLIES - plies,
        {
            proof {
                assert(done + Seq::<usize>::empty() =~= done);
                assert(playout(*position, done + Seq::<usize>::empty()) == playout(
                    board,
                    Seq::<usize>::empty(),
                ));
            }
            if vet(&board).is_err() {
                assert(playout(*position, done) == Err::<Outcome, Fault>(
                    Fault::UnsoundPosition,
                ));
                return Err(Fault::UnsoundPosition);
            }
            let moves = legal_moves(&board);
            match pick_one(&moves) {
                None => {
                    let result = match outcome(&board) {
                        Some(result) => Ok(result),
                        None => Err(Fault::MissingOutcome),
                    };
                    assert(playout(*position, done) == result);
                    return result;
                },
                Some(m) => {
                    if plies == MAX_PLIES {
                        assert(playout(*position, done) == Err::<Outcome, Fault>(
                            Fault::Unfinished,
                        ));
                        return Err(Fault::Unfinished);
                    }
                    let ghost index = moves@.index_of(*m);
                    let ghost pick = index as usize;
                    assert(moves@[index] == *m && 0 <= index < moves@.len());
                    assert(pick as int % moves@.len() as int == index) by {
                        vstd::arithmetic::div_mod::lemma_small_mod(
                            index as nat,
                            moves@.len() as nat,
                        );
                    }
                    match play(&board, m) {
                        Err(_) => {
                            proof {
                                let tail = seq![pick];
                                assert(done + tail =~= done.push(pick));
                                assert(playout(*position, done + tail) == playout(board, tail));
                                assert(tail[0] == pick);
                                assert(playout(board, tail) == Err::<Outcome, Fault>(
                                    Fault::IllegalReplay,
                                ));
                                assert(playout(*position, done.push(pick)) == Err::<
                                    Outcome,
                                    Fault,
                                >(Fault::IllegalReplay));
                            }
                            return Err(Fault::IllegalReplay);
                        },
                        Ok(next) => {
                            proof {
                                lemma_playout_extends(*position, done, board, pick, next);
                                done = done.push(pick);
                            }
                            board = next;
                        },
                    }
                    plies = plies + 1;
                },
            }
        }
    }
}

} // verus!
