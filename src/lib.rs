//! A perfect rectangular maze: generation by randomized depth-first carving
//! and validation of a candidate solution path against the maze's walls.

pub mod grid;
pub mod maze;
pub mod generate;
pub mod check;
