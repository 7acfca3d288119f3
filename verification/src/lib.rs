//! A solver for the calendar puzzle: eight pieces on a framed 8x8 board, with
//! the cells of one month and one day left uncovered.

pub mod game;
pub mod mask;
pub mod piece;
pub mod tiling;
