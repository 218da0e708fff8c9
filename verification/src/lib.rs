//! A verified solver for nonogram picture puzzles.
//!
//! Given one clue sequence per row and per column of a rectangular grid,
//! the solver finds a colouring of the cells (filled / empty) that realises
//! every clue at once, or reports that none exists.

pub mod board;
pub mod generate;
pub mod model;
pub mod reduce;
pub mod solver;
