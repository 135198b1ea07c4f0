//! Grid puzzles and a constrained shortest-path search.
//!
//! The centrepiece is a Dijkstra-style search over a weighted grid in which a
//! path may not take more than a maximum number of consecutive steps in one
//! direction, and in a second variant must also take a minimum number of steps
//! before it may turn or stop.  The remaining modules hold the smaller grid,
//! sequence and counting puzzles that share the same utilities.

pub mod calibration;
pub mod cube_game;
pub mod cycle;
pub mod direction;
pub mod grid;
pub mod lens_hash;
pub mod numeric;
pub mod race;
pub mod scratchcards;
pub mod search;
pub mod sequences;
pub mod text;
