//! A Sudoku board engine: a 9x9 grid of cells with a linear-index coordinate
//! system, a duplicate-conflict detector over rows, columns and 3x3 blocks,
//! a mutation protocol that applies or rejects a player move, and a loader
//! for the fixed 81-character puzzle description format.

pub mod board;
pub mod cell;
pub mod check;
pub mod coords;
pub mod load;
pub mod render;
