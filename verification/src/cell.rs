//! The values that go in and out of a step: cells, the records of live
//! cells, and actions.

use bevy::prelude::Entity;
use vstd::prelude::*;

verus! {

/// `bevy::prelude::Entity`, the handle by which the entity store knows a live
/// cell. Nothing is read from it: a step carries it from the record of a live
/// cell to the action that destroys it.
#[verifier::external_type_specification]
#[verifier::external_body]
pub struct ExEntity(Entity);

/// The position of a live cell on the grid.
#[derive(Clone, Copy, Debug, Default, PartialEq, Eq, Hash, Structural)]
pub struct Cell {
    pub x: i32,
    pub y: i32,
}

/// A record of the entity store: a live entity and the cell it occupies.
pub type LiveCell = (Entity, Cell);

impl Cell {
    /// The point of the grid where the cell lies.
    pub open spec fn point(self) -> (int, int) {
        (self.x as int, self.y as int)
    }

    /// Whether the cell lies at `point`.
    pub open spec fn at(self, point: (int, int)) -> bool {
        self.x == point.0 && self.y == point.1
    }

    /// Whether all eight positions around the cell have `i32` coordinates.
    pub open spec fn has_room(self) -> bool {
        &&& i32::MIN < self.x < i32::MAX
        &&& i32::MIN < self.y < i32::MAX
    }

    /// Whether `point` is one of the eight positions around the cell. The
    /// cell's own position is not.
    pub open spec fn touches(self, point: (int, int)) -> bool {
        &&& self.x - 1 <= point.0 <= self.x + 1
        &&& self.y - 1 <= point.1 <= self.y + 1
        &&& !self.at(point)
    }
}

/// What a step asks of the entity store.
#[derive(Clone, Copy, Debug, PartialEq, Eq)]
pub enum Action {
    /// Allocate an entity for a cell that is born.
    Create(Cell),
    /// Remove the entity of a cell that dies.
    Destroy(Entity),
}

} // verus!
