//! A sparse Conway's Game of Life on the unbounded integer grid.
//!
//! Live cells are kept in a hash-indexed table keyed by integer coordinates.
//! `AutomatonGrid::step` computes the next generation from the current one
//! alone and reports which cells died (with the caller's handles) and which
//! were born, so that a caller can keep its own presentation in sync.

pub mod coord;
pub mod field;
pub mod grid;
pub mod laws;
pub mod rules;
pub mod session;

pub use coord::Coordinate;
pub use grid::{AlreadyAlive, AutomatonGrid, StepResult};
pub use session::{Mode, Simulation};
