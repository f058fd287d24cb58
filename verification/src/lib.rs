//! A 9x9 Sudoku library: a grid model, symmetry-preserving random
//! permutations of a board, a constraint evaluator, and a backtracking
//! solver, each with a proved contract.

pub mod board;
pub mod moves;
pub mod perm;
pub mod rules;
pub mod solver;
