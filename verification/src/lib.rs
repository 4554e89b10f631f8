//! A verified solver for 9x9 Sudoku puzzles.
//!
//! A puzzle arrives as an 81-character string; each cell of the grid keeps
//! the set of digits still possible for it. The solver narrows those sets
//! by constraint propagation and, when propagation stalls, branches over
//! the candidates of the least-ambiguous cell with backtracking.

pub mod board;
pub mod field;
pub mod model;
pub mod solver;
