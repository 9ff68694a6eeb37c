//! A verified solver toolkit for generalized R x C sliding-tile puzzles.
//!
//! A board holds the tiles `0..rows*cols` in some arrangement, where the
//! value `0` marks the empty slot. A move slides the empty slot one cell
//! up, down, left or right, swapping it with the adjacent tile. The goal
//! arrangement places every value at the index equal to itself.
//!
//! The crate models board states, legal moves and the Manhattan-distance
//! heuristic, and builds on them a best-first search engine, a random
//! solvable-instance generator and a move-sequence validator.

pub mod direction;
pub mod state;
pub mod search;
pub mod scramble;
pub mod validate;

pub use direction::Direction;
pub use state::State;
