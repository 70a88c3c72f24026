//! A Life-like cellular automaton on a toroidal grid, with a decaying
//! "heat" trail behind every cell that dies and pointer-drawn editing.

pub mod cell;
pub mod grid;
pub mod line;
pub mod random;
