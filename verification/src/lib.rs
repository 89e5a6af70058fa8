//! A solver for standard 9 x 9 Sudoku puzzles.
//!
//! The grid model ([`board`]) defines cell coordinates, the grouping of cells
//! into rows, columns and 3 x 3 boxes, an immutable board value store, and the
//! duplicate checks; its backtracking search fills the empty cells in canonical
//! row-major order and returns the first complete, constraint-satisfying board.
//! The textual front end ([`parser`]) turns a byte sequence of digits separated
//! by single spaces into a board.

pub mod board;
pub mod parser;
