//! A minesweeper engine: a rectangular field of cells, lazy mine placement
//! that keeps the first opened cell safe, flood reveal over zero-count
//! regions, chord opening and flag toggling, with win and loss detection.

pub mod grid;
pub mod msweeper;
pub mod point;
