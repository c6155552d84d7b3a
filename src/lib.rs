//! Rule engine of a minesweeper-style puzzle: cells, the grid that holds them,
//! and the board that places mines lazily and reveals safe regions.

pub mod args;
pub mod board;
pub mod counting;
pub mod error;
pub mod field;
pub mod grid_cells;
