//! A draughts (checkers) engine: board representation, move generation,
//! position evaluation and a depth-limited game-tree search.

pub mod field;
pub mod solve;
pub mod ai;
pub mod ui;
pub mod laws;
pub mod reading;
pub mod symmetry;
