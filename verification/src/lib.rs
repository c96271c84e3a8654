//! A backtracking solver for 9×9 Sudoku puzzles, with its text codec.

pub mod bits;
pub mod codec;
pub mod grid;
pub mod render;
pub mod search;
pub mod sudoku;
