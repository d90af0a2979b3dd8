//! Sudoku puzzles on the 9 by 9 grid, plain and with sum-constrained cages:
//! conflict checking, backtracking search and randomized generation, with
//! machine-checked contracts.

pub mod field;
pub mod tally;
pub mod digits;
pub mod regions;
pub mod rng;
pub mod conflict;
pub mod completion;
pub mod solver;
pub mod seed;
pub mod generator;
pub mod text;
pub mod settings;
pub mod session;
