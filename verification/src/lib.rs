//! A 9x9 Sudoku library: a board model with row, column, and box
//! validity checking, a text parser, and a backtracking solver over digit
//! assignments that runs either as a one-shot search or one move at a
//! time, so a driver can interleave individual search moves with other
//! work such as rendering a frame.

pub mod board;
pub mod graphics;
pub mod solver;
