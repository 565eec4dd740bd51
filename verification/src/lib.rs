//! A Sudoku engine for square grids whose side is a perfect square.
//!
//! A grid is a `Vec<Vec<i8>>`; `0` marks an empty cell, and the digits are
//! `1`, ..., side. The engine checks cells against the rule that a digit
//! stands once in a row, a column and a block; it solves grids by exhaustive
//! search and by reduction to satisfiability; and it seeds grids with random
//! digits. Every function states what it computes over the grid model of
//! [`grid`], and the laws that tie the functions together are in [`laws`].

pub mod backtracking;
pub mod constraints;
pub mod dimacs;
pub mod encoding;
pub mod engine;
pub mod generate;
pub mod grid;
pub mod laws;
pub mod random;
pub mod sat;
pub mod semantics;
pub mod solved;

pub use backtracking::solve_backtracking;
pub use constraints::{is_matrix_valid, is_value_valid};
pub use dimacs::get_sat_decode;
pub use encoding::{lit_from_indx, sudoku_to_sat};
pub use generate::generate_random_matrix;
pub use sat::{formula_to_grid, solve_sat};
