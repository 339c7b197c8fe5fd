//! A fixed-depth minimax search engine with alpha-beta cutoffs and a memo of searched
//! positions, for two-player, perfect-information, zero-sum games, with two games
//! behind its position contract: four-in-a-row and checkers with chained, mandatory
//! captures.
use vstd::prelude::*;

pub mod game;
pub mod checkers;
pub mod four;
pub mod minmax;

verus! {

} // verus!
