//! Solvers for a collection of small combinatorial puzzles.
//!
//! The heart of the crate is the pair of exact linear-system solvers for
//! button-press machines: one over the two-element field for indicator
//! lights, one over the rationals for integer counters.

pub mod banks;
pub mod beams;
pub mod bigint;
pub mod circuits;
pub mod counters;
pub mod devices;
pub mod dial;
pub mod fillings;
pub mod fresh;
pub mod lights;
pub mod machine;
pub mod packing;
pub mod paper;
pub mod patterns;
pub mod ranges;
pub mod ratio;
pub mod ratio_laws;
pub mod rational;
pub mod text;
pub mod tiles;
pub mod vectors;
pub mod worksheet;
