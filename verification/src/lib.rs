//! Wave Function Collapse tile-grid generation.
//!
//! The solver narrows, for every cell of a 2D grid, the set of tile
//! identifiers still consistent with all previously made choices, until
//! every cell holds exactly one tile or the search reaches a dead end
//! and restarts.

pub mod cell;
pub mod engine;
pub mod map;
pub mod relation;
pub mod rng;
