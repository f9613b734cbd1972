//! A constraint-satisfaction solver for 9×9 Sudoku grids: bit-encoded
//! candidate domains, the row/column/block topology, a scheduler of empty
//! cells, plain backtracking and forward checking with snapshot rollback.

pub mod bitset;
pub mod cell;
pub mod heuristic;
pub mod board;
