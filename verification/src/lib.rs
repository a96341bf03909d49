//! Monte Carlo tree search over chess positions.
//!
//! The search tree, its four phases (selection, expansion, playout,
//! backpropagation) and the search loop are verified. The rules of the game
//! come from `shakmaty`, random draws from `rand`, and the score by which
//! the visited children of a node are ranked is supplied by the caller.
//!
//! - `position`: the rules of the game, as far as the search needs them. The
//!   rules are asked only about positions that they accept themselves.
//! - `chance`, `clock`: random draws and wall-clock time.
//! - `model`, `steps`: the tree and the steps of a search, as mathematics.
//! - `tree`, `rollout`, `engine`: the executable search.
//! - `laws`, `first_round`: what holds of every tree that a search builds.
//! - `tree_lemmas`, `descent`: the proofs behind them.

pub mod chance;
pub mod clock;
pub mod descent;
pub mod engine;
pub mod first_round;
pub mod laws;
pub mod model;
pub mod position;
pub mod rollout;
pub mod steps;
pub mod tree;
pub mod tree_lemmas;
