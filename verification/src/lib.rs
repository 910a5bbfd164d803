//! A verified Minesweeper field engine.
//!
//! The grid of squares, mine placement with exact danger counts, the
//! hidden/visible/flagged state transitions, the flood reveal of
//! zero-danger regions, and the win/loss rules all live here with
//! machine-checked contracts.  Reading commands and printing the board
//! are left to the surrounding binary.

pub mod engine;
pub mod field;
pub mod laws;
