//! A single position of the grid.

use vstd::prelude::*;
use crate::direction::Direction;

verus! {

/// One cell of the grid: where it lies, which policy class it belongs to,
/// which of its four edges have been recorded, and whether a path has
/// entered it.
#[derive(Clone, Copy, Debug, PartialEq, Eq, PartialOrd, Ord, Hash)]
pub struct Cell {
    /// The policy class of the cell, fixed when the grid is built.
    pub cell_type: u8,
    /// The column of the cell, counted from the left.
    pub x: u32,
    /// The row of the cell, counted from the bottom.
    pub y: u32,
    /// One flag per direction, in the order north, east, south, west: the
    /// flag is set when a path has stepped from this cell to the neighbour
    /// in that direction.
    pub edges: [bool; 4],
    /// Whether a path has entered this cell.
    pub visited: bool,
    /// Whether the cell lies in the reserved zone around the start.
    pub start_area: bool,
    /// Whether the cell lies in the reserved zone around the finish.
    pub finish_area: bool,
}

impl Cell {
    /// Whether the edge of this cell towards `direction` has been recorded.
    pub open spec fn spec_has_edge(&self, direction: &Direction) -> bool {
        self.edges[direction.to_usize() as int]
    }

    /// This cell with the edge towards `direction` recorded.
    pub open spec fn with_edge(self, direction: Direction) -> Cell {
        Cell {
            edges: vstd::array::spec_array_update(self.edges, direction.to_usize() as int, true),
            ..self
        }
    }

    /// This cell marked as visited.
    pub open spec fn with_visit(self) -> Cell {
        Cell { visited: true, ..self }
    }

    /// Recording an edge sets that edge and leaves the other three as they were.
    pub proof fn lemma_with_edge(self, direction: Direction, other: Direction)
        ensures
            self.with_edge(direction).spec_has_edge(&other) == (other == direction
                || self.spec_has_edge(&other)),
    {
    }

    /// Records the edge of this cell towards `direction`.
    pub fn draw_edge(&mut self, direction: &Direction)
        ensures
            *final(self) == old(self).with_edge(*direction),
    {
        self.edges[direction.to_usize()] = true;
    }

    /// Marks this cell as visited.
    pub fn mark_as_visited(&mut self)
        ensures
            *final(self) == old(self).with_visit(),
    {
        self.visited = true;
    }

    /// Tells whether the edge of this cell towards `direction` has been recorded.
    #[verifier::when_used_as_spec(spec_has_edge)]
    pub fn has_edge(&self, direction: &Direction) -> (b: bool)
        ensures
            b == self.spec_has_edge(direction),
    {
        self.edges[direction.to_usize()]
    }
}

} // verus!
