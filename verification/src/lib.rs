//! One generation of Conway's Game of Life on a sparse, unbounded grid.
//!
//! The live cells are the source of truth: a step takes the records of an
//! entity store, each an entity and the cell it occupies, tallies the live
//! neighbours of every position next to one of them, and answers with the
//! entities to destroy and the cells to create.

pub mod cell;
pub mod model;
pub mod rules;
pub mod tally;
pub mod theorems;

pub use cell::{Action, Cell, LiveCell};
pub use rules::{decide, decide_all, step, within_limits};
pub use tally::{tally, CellState, Entry, NeighborTally};
