//! Rules engine and computer opponent for a dots-and-boxes game.
//!
//! The board lives on an integer pixel lattice: grid generation, line and
//! square representation with orientation-invariant equality, completion
//! detection, pointer-to-move resolution, and a depth-limited minimax search
//! with alpha-beta pruning and the "extra turn on completion" rule.

pub mod board;
pub mod geometry;
pub mod search;
