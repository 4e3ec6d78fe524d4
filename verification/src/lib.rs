//! Solvers for two board puzzles: the nine-tile rotation puzzle and the eight queens.

pub mod board;
pub mod error;
pub mod graph;
pub mod moves;
pub mod queens;
pub mod route;
pub mod solver;
