//! Crossword layout: finds where a list of words cross one another and packs them into a
//! small rectangular board by backtracking search.
//!
//! - `word`: words split around a crossing character, and their placement data.
//! - `grid`: the board, its sizing and filling, and the rules a placement must pass.
//! - `search`: pruning and ordering of the input, the backtracking search, `generate`.
//! - `invariants`: what the search keeps true of the boards it builds.
//! - `error`: the error kinds.

pub mod error;
pub mod grid;
pub mod invariants;
pub mod search;
pub mod word;

pub use grid::{Grid, Neighbor};
pub use search::{PossibleWord, backtrack, eliminate_words, generate};
