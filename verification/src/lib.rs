//! A solver for the "Rush Hour" sliding-block puzzle.
//!
//! Vehicles occupy contiguous runs of cells on a fixed 6x6 grid and may only
//! slide one cell at a time along their own orientation. The goal is to bring
//! the designated exit vehicle (identifier 0) flush against the right edge of
//! the grid. The solver is a bounded, heuristic-first search over board
//! configurations with a visited-configuration memo.

pub mod frontier;
pub mod laws;
pub mod model;
pub mod parse;
pub mod search;
pub mod state;
