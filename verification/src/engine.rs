//! The search loop: iterations are run until the budget is spent, and the
//! most simulated move of the root is recommended.

use crate::clock::{elapsed, now, whole_millis};
use crate::descent::lemma_extends_transitive;
use crate::laws::{abort_extends, iteration_extends};
use crate::model::{
    balanced, extends, root_expanded, root_view, well_formed, NodeId, NodeView, MAX_SIMULATIONS,
};
use crate::position::{
    admitted, has_kings, position_from, resetup_of, setup_of, Fault, SetupError,
};
use crate::steps::{accepts_statistics, is_aborted, is_best_move, reaches};
use crate::tree::Tree;
use vstd::prelude::*;

verus! {

/// The budget of one search.
#[derive(Clone, Copy, Debug)]
pub enum Until {
    /// Search until this many milliseconds have passed.
    Milliseconds(u64),
    /// Search for this many iterations.
    Iterations(usize),
}

impl Until {
    /// The budget allows another iteration after `iterations` of them, with
    /// `elapsed_millis` whole milliseconds gone since the search began.
    pub open spec fn allows_more(self, iterations: usize, elapsed_millis: u128) -> bool {
        match self {
            Until::Milliseconds(limit) => elapsed_millis < limit,
            Until::Iterations(limit) => iterations < limit,
        }
    }

    /// The budget can allow an iteration after `iterations` of them, at
    /// some time: a count that is not reached yet, or a deadline other than
    /// zero.
    pub open spec fn can_allow(self, iterations: nat) -> bool {
        match self {
            Until::Milliseconds(limit) => limit > 0,
            Until::Iterations(limit) => iterations < limit,
        }
    }

    /// The stopping policy, asked once before each iteration: a deadline
    /// allows another iteration while fewer whole milliseconds have passed
    /// than it names, a count while fewer iterations are done.
    pub fn allows(&self, iterations: usize, elapsed_millis: u128) -> (more: bool)
        ensures
            more == self.allows_more(iterations, elapsed_millis),
    {
        match self {
            Until::Milliseconds(limit) => elapsed_millis < *limit as u128,
            Until::Iterations(limit) => iterations < *limit,
        }
    }
}

/// What a search found.
#[derive(Debug)]
pub struct Report {
    /// The number of iterations that were run.
    pub iterations: usize,
    /// The recommended move; `None` where the root has no children.
    pub best_move: Option<shakmaty::Move>,
}

/// A search engine: one tree, rooted at the position it was built for.
/// Searches on one engine add to the same tree.
pub struct Engine {
    tree: Tree,
}

impl View for Engine {
    type V = Seq<NodeView>;

    closed spec fn view(&self) -> Seq<NodeView> {
        self.tree@
    }
}

/// The budget `until` allows no further iteration after `iterations` of
/// them, or the root's simulations have reached `MAX_SIMULATIONS`. Of a
/// deadline this says little, for want of the clock's readings: only a
/// deadline of zero milliseconds is known to have passed.
pub open spec fn budget_spent(until: Until, iterations: usize, u: Seq<NodeView>) -> bool {
    match until {
        Until::Iterations(n) => iterations == n || (iterations < n && u[0].simulations
            >= MAX_SIMULATIONS),
        Until::Milliseconds(ms) => ms == 0 ==> iterations == 0,
    }
}

/// The budget allowed each of the first `k` iterations, going by the clock
/// readings `readings`: the reading before iteration number `i` is
/// `readings[i]`.
pub open spec fn ran_within(until: Until, readings: Seq<u128>, k: int) -> bool {
    &&& 0 <= k <= readings.len()
    &&& forall|i: int| 0 <= i < k ==> until.allows_more(i as usize, #[trigger] readings[i])
}

/// Going by the clock readings, a search ends after `k` iterations: the
/// budget allowed each of them, and it allows no further one at the next
/// reading, or there is no further reading.
pub open spec fn stops_at(until: Until, readings: Seq<u128>, k: int) -> bool {
    &&& ran_within(until, readings, k)
    &&& k < readings.len() ==> !until.allows_more(k as usize, readings[k])
}

/// How a search with `iterations` iterations has spent its budget. With
/// scripted readings it ended where they say, or earlier because the root's
/// simulations have reached `MAX_SIMULATIONS`. With the clock, see
/// `budget_spent`.
pub open spec fn search_ended(
    until: Until,
    script: Option<&Vec<u128>>,
    iterations: usize,
    u: Seq<NodeView>,
) -> bool {
    match script {
        Some(readings) => stops_at(until, readings@, iterations as int) || (ran_within(
            until,
            readings@,
            iterations as int,
        ) && u[0].simulations >= MAX_SIMULATIONS),
        None => budget_spent(until, iterations, u),
    }
}

/// The budget allowed the iteration that came after `k` others: by the
/// scripted readings where there are any, else at some time.
pub open spec fn fault_in_budget(until: Until, script: Option<&Vec<u128>>, k: nat) -> bool {
    match script {
        Some(readings) => ran_within(until, readings@, k as int + 1),
        None => until.can_allow(k),
    }
}

impl Engine {
    /// An engine for the position that a parsed FEN sets up under standard
    /// castling rules. The tree holds the root alone: the side that moved
    /// into it is the opponent of the side to move. A setup that the rules
    /// refuse builds no engine, and their error is handed on.
    pub fn new(fen: &shakmaty::fen::Fen) -> (r: Result<Engine, SetupError>)
        ensures
            r is Ok <==> setup_of(*fen) is Ok && admitted(setup_of(*fen)->Ok_0),
            r is Ok ==> (r->Ok_0)@ == seq![root_view(setup_of(*fen)->Ok_0)],
            r is Ok ==> well_formed((r->Ok_0)@) && balanced((r->Ok_0)@),
            setup_of(*fen) is Err ==> r is Err && r->Err_0 == SetupError::IllegalPosition(
                setup_of(*fen)->Err_0,
            ),
            setup_of(*fen) is Ok && !has_kings(setup_of(*fen)->Ok_0) ==> r is Err
                && r->Err_0 is MissingKing,
            setup_of(*fen) is Ok && has_kings(setup_of(*fen)->Ok_0) && resetup_of(
                setup_of(*fen)->Ok_0,
            ) is Err ==> r is Err && r->Err_0 == SetupError::IllegalPosition(
                resetup_of(setup_of(*fen)->Ok_0)->Err_0,
            ),
    {
        match position_from(fen) {
            Ok(position) => Engine::from_position(position),
            Err(error) => Err(SetupError::IllegalPosition(error)),
        }
    }

    /// An engine for a position. The tree holds the root alone: the side
    /// that moved into it is the opponent of the side to move. The position
    /// is tested first: one that the rules do not accept builds no engine.
    pub fn from_position(position: shakmaty::Chess) -> (r: Result<Engine, SetupError>)
        ensures
            r is Ok <==> admitted(position),
            r is Ok ==> (r->Ok_0)@ == seq![root_view(position)],
            r is Ok ==> well_formed((r->Ok_0)@) && balanced((r->Ok_0)@),
            !has_kings(position) ==> r is Err && r->Err_0 is MissingKing,
            has_kings(position) && resetup_of(position) is Err ==> r is Err && r->Err_0
                == SetupError::IllegalPosition(resetup_of(position)->Err_0),
    {
        match Tree::new(position) {
            Ok(tree) => Ok(Engine { tree }),
            Err(error) => Err(error),
        }
    }

    /// The tree of this engine.
    pub fn tree(&self) -> (tree: &Tree)
        ensures
            tree@ == self@,
    {
        &self.tree
    }

    /// The loop of a search. Before each iteration the time gone is taken:
    /// from the script where there is one, else from the clock where the
    /// budget is a deadline. The search ends when the script has no further
    /// reading, when the budget allows no more, after `usize::MAX`
    /// iterations, or when the root has `MAX_SIMULATIONS` simulations.
    fn search<F: Fn(u64, u64, u64) -> u64>(
        &mut self,
        until: Until,
        script: Option<&Vec<u128>>,
        score: &F,
    ) -> (r: Result<Report, Fault>)
        requires
            well_formed(old(self)@),
            balanced(old(self)@),
            accepts_statistics(score),
        ensures
            well_formed(final(self)@),
            balanced(final(self)@),
            extends(old(self)@, final(self)@),
            r is Ok ==> {
                &&& reaches(score, old(self)@, final(self)@, (r->Ok_0).iterations as nat)
                &&& final(self)@[0].simulations <= old(self)@[0].simulations + (
                r->Ok_0).iterations
                &&& search_ended(until, script, (r->Ok_0).iterations, final(self)@)
                &&& is_best_move(final(self)@, (r->Ok_0).best_move)
                &&& (r->Ok_0).iterations > 0 ==> root_expanded(final(self)@)
                &&& (r->Ok_0).iterations == 0 ==> final(self)@ == old(self)@
            },
            r is Err ==> exists|k: nat, mid: Seq<NodeView>|
                #[trigger] reaches(score, old(self)@, mid, k) && is_aborted(
                    score,
                    mid,
                    final(self)@,
                    r->Err_0,
                ) && fault_in_budget(until, script, k),
    {
        let ghost t = self@;
        let start = match script {
            Some(_) => None,
            None => Some(now()),
        };
        let mut iterations: usize = 0;
        loop
            invariant
                t == old(self)@,
                script is None ==> (until matches Until::Iterations(n) ==> iterations <= n),
                script is None ==> (until matches Until::Milliseconds(ms) ==> ms == 0
                    ==> iterations == 0),
                script is Some ==> ran_within(until, (script->Some_0)@, iterations as int),
                well_formed(t),
                balanced(t),
                well_formed(self@),
                balanced(self@),
                accepts_statistics(score),
                extends(t, self@),
                reaches(score, t, self@, iterations as nat),
                self@[0].simulations <= t[0].simulations + iterations,
                iterations > 0 ==> root_expanded(self@),
                iterations == 0 ==> self@ == t,
            ensures
                well_formed(self@),
                balanced(self@),
                extends(t, self@),
                reaches(score, t, self@, iterations as nat),
                self@[0].simulations <= t[0].simulations + iterations,
                iterations > 0 ==> root_expanded(self@),
                iterations == 0 ==> self@ == t,
                search_ended(until, script, iterations, self@),
            decreases usize::MAX - iterations,
        {
            if let Some(readings) = script {
                if iterations == readings.len() {
                    break ;
                }
            }
            let passed: u128 = match (script, &start, until) {
                (Some(readings), _, _) => readings[iterations],
                (None, Some(begin), Until::Milliseconds(_)) => whole_millis(&elapsed(begin)),
                _ => 0,
            };
            if !until.allows(iterations, passed) {
                break ;
            }
            if iterations == usize::MAX {
                break ;
            }
            if self.tree.simulations(NodeId(0)) >= MAX_SIMULATIONS {
                break ;
            }
            let ghost before = self@;
            match self.tree.execute_mcts(score) {
                Err(fault) => {
                    proof {
                        abort_extends(score, before, self@, fault);
                        lemma_extends_transitive(t, before, self@);
                        assert(reaches(score, t, before, iterations as nat));
                        assert(fault_in_budget(until, script, iterations as nat));
                    }
                    return Err(fault);
                },
                Ok(()) => {
                    proof {
                        iteration_extends(score, before, self@);
                        lemma_extends_transitive(t, before, self@);
                    }
                },
            }
            iterations = iterations + 1;
        }
        let best_move = self.tree.best_move();
        Ok(Report { iterations, best_move })
    }

    /// A search. Iterations are run while the budget allows: until the
    /// deadline has passed, or until the given number of them is done. Then
    /// the move of the root's most simulated child is recommended, the
    /// earliest of them where several are; `None` where the root has no
    /// children. The tree is kept from search to search.
    ///
    /// A search also ends when the root has `MAX_SIMULATIONS` simulations, or
    /// after `usize::MAX` iterations. A fault of the rules ends it at once,
    /// in the middle of an iteration; there is none where the budget allows
    /// no iteration.
    pub fn go<F: Fn(u64, u64, u64) -> u64>(&mut self, until: Until, score: &F) -> (r: Result<
        Report,
        Fault,
    >)
        requires
            well_formed(old(self)@),
            balanced(old(self)@),
            accepts_statistics(score),
        ensures
            well_formed(final(self)@),
            balanced(final(self)@),
            extends(old(self)@, final(self)@),
            r is Ok ==> {
                &&& reaches(score, old(self)@, final(self)@, (r->Ok_0).iterations as nat)
                &&& final(self)@[0].simulations <= old(self)@[0].simulations + (
                r->Ok_0).iterations
                &&& budget_spent(until, (r->Ok_0).iterations, final(self)@)
                &&& is_best_move(final(self)@, (r->Ok_0).best_move)
                &&& (r->Ok_0).iterations > 0 ==> root_expanded(final(self)@)
                &&& (r->Ok_0).iterations == 0 ==> final(self)@ == old(self)@
            },
            r is Err ==> exists|k: nat, mid: Seq<NodeView>|
                #[trigger] reaches(score, old(self)@, mid, k) && is_aborted(
                    score,
                    mid,
                    final(self)@,
                    r->Err_0,
                ) && until.can_allow(k),
    {
        self.search(until, None, score)
    }

    /// A search with scripted clock readings in place of the clock: before
    /// iteration number `i`, counted from zero, `readings[i]` is taken as the
    /// whole milliseconds gone. The search runs as many iterations as the
    /// budget allows by these readings: it ends at the first reading at which
    /// the budget allows no more, or when the readings run out. Only the
    /// root's reaching `MAX_SIMULATIONS` simulations ends it earlier.
    pub fn go_scripted<F: Fn(u64, u64, u64) -> u64>(
        &mut self,
        until: Until,
        readings: &Vec<u128>,
        score: &F,
    ) -> (r: Result<Report, Fault>)
        requires
            well_formed(old(self)@),
            balanced(old(self)@),
            accepts_statistics(score),
        ensures
            well_formed(final(self)@),
            balanced(final(self)@),
            extends(old(self)@, final(self)@),
            r is Ok ==> {
                &&& reaches(score, old(self)@, final(self)@, (r->Ok_0).iterations as nat)
                &&& final(self)@[0].simulations <= old(self)@[0].simulations + (
                r->Ok_0).iterations
                &&& stops_at(until, readings@, (r->Ok_0).iterations as int) || (ran_within(
                    until,
                    readings@,
                    (r->Ok_0).iterations as int,
                ) && final(self)@[0].simulations >= MAX_SIMULATIONS)
                &&& is_best_move(final(self)@, (r->Ok_0).best_move)
                &&& (r->Ok_0).iterations > 0 ==> root_expanded(final(self)@)
                &&& (r->Ok_0).iterations == 0 ==> final(self)@ == old(self)@
            },
            r is Err ==> exists|k: nat, mid: Seq<NodeView>|
                #[trigger] reaches(score, old(self)@, mid, k) && is_aborted(
                    score,
                    mid,
                    final(self)@,
                    r->Err_0,
                ) && ran_within(until, readings@, k as int + 1),
    {
        self.search(until, Some(readings), score)
    }
}

} // verus!
