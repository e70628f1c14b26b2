//! A verified engine for the 2048 tile-merging puzzle.
//!
//! The library models a 4x4 board of tile exponents, the deterministic
//! move rule (slide and merge), the probabilistic tile-spawn model, and
//! an expectimax search with memoization that picks the best move.

pub mod board;
pub mod eval;
mod rng;
pub mod search;

pub use board::Action;
pub use board::Board;
pub use board::N;
pub use board::PlayableBoard;
pub use board::RandableBoard;
