//! A toroidal two-state cellular automaton (Conway's Game of Life, rules
//! B3/S23) with an incremental step algorithm and a packed RGBA renderer.
//!
//! Each cell is a single byte holding both its life state and its current
//! live-neighbor count; [`Grid::step`] advances one generation while keeping
//! every stored count equal to the true number of live toroidal neighbors,
//! propagating count deltas instead of recomputing neighbor sums.

pub mod cell;
pub mod grid;
pub mod laws;

pub use cell::Cell;
pub use grid::Grid;
