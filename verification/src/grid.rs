//! The mathematical model of a maze: a rectangular grid of cells, the
//! geometry of its moves, and the edges that paths have recorded on it.

use vstd::prelude::*;
use crate::cell::Cell;
use crate::direction::Direction;
use crate::strategy::MeanderStrategy;

verus! {

/// The column reached from column `x` by one step towards `direction`.
pub open spec fn step_x(x: int, direction: Direction) -> int {
    match direction {
        Direction::East => x + 1,
        Direction::West => x - 1,
        _ => x,
    }
}

/// The row reached from row `y` by one step towards `direction`.
pub open spec fn step_y(y: int, direction: Direction) -> int {
    match direction {
        Direction::North => y + 1,
        Direction::South => y - 1,
        _ => y,
    }
}

/// The policy class of the cell at `(x, y)` in a grid of the given size:
/// class 0 inside the disc around the centre of the grid whose radius is
/// the square root of 0.15 times the width, class 1 outside it.  Distances
/// are taken from the point `(x_size / 2, y_size / 2)`, both scaled by the
/// width, so the test is
/// `((x - x_size/2) / x_size)^2 + ((y - y_size/2) / x_size)^2 < 0.15`,
/// written here without fractions.
pub open spec fn class_of(x: int, y: int, x_size: int, y_size: int) -> u8 {
    if 5 * ((2 * x - x_size) * (2 * x - x_size) + (2 * y - y_size) * (2 * y - y_size)) < 3
        * (x_size * x_size) {
        0u8
    } else {
        1u8
    }
}

/// The number of cells of a column that no path has entered.
pub open spec fn column_unvisited(column: Seq<Cell>) -> nat
    decreases column.len(),
{
    if column.len() == 0 {
        0
    } else {
        column_unvisited(column.drop_last()) + if column.last().visited {
            0nat
        } else {
            1nat
        }
    }
}

/// The number of cells of a grid that no path has entered.
pub open spec fn grid_unvisited(cells: Seq<Seq<Cell>>) -> nat
    decreases cells.len(),
{
    if cells.len() == 0 {
        0
    } else {
        grid_unvisited(cells.drop_last()) + column_unvisited(cells.last())
    }
}

/// A maze as a mathematical value.
pub struct MazeView {
    /// The number of columns.
    pub x_size: nat,
    /// The number of rows.
    pub y_size: nat,
    /// The side of the square zones reserved around the start and the finish.
    pub zone: nat,
    /// The cells, column by column: `cells[x][y]` is the cell at `(x, y)`.
    pub cells: Seq<Seq<Cell>>,
    /// The strategy of each cell class.
    pub strategies: Seq<MeanderStrategy>,
    /// Whether a path has entered the finish zone.
    pub goal_reached: bool,
    /// The column of the cell by which the finish zone was entered.
    pub finish_x: int,
    /// The row of the cell by which the finish zone was entered.
    pub finish_y: int,
    /// The column of the start cell.
    pub start_x: int,
    /// The row of the start cell.
    pub start_y: int,
}

impl MazeView {
    /// Whether `(x, y)` is a position of the grid.
    pub open spec fn in_bounds(self, x: int, y: int) -> bool {
        0 <= x < self.x_size && 0 <= y < self.y_size
    }

    /// The cell at `(x, y)`.
    pub open spec fn at(self, x: int, y: int) -> Cell {
        self.cells[x][y]
    }

    /// Whether `(x, y)` is the start cell.
    pub open spec fn is_start(self, x: int, y: int) -> bool {
        x == self.start_x && y == self.start_y
    }

    /// Whether `(x, y)` lies in the zone reserved around the start.
    pub open spec fn in_start_zone(self, x: int, y: int) -> bool {
        x < self.zone && y < self.zone
    }

    /// Whether `(x, y)` lies in the zone reserved around the finish.
    pub open spec fn in_finish_zone(self, x: int, y: int) -> bool {
        x >= self.x_size - self.zone && y >= self.y_size - self.zone
    }

    /// Whether the cell at `(x, y)` carries its own coordinates, its class
    /// and its zone flags.
    pub open spec fn cell_shaped(self, x: int, y: int) -> bool {
        let c = self.at(x, y);
        &&& c.x == x
        &&& c.y == y
        &&& c.cell_type == class_of(x, y, self.x_size as int, self.y_size as int)
        &&& c.start_area == self.in_start_zone(x, y)
        &&& c.finish_area == self.in_finish_zone(x, y)
    }

    /// The fixed part of a maze: a grid of positive size in which the two
    /// zones are not empty, each spans less than half of either side, the
    /// start cell is the top left-hand cell of the start zone, and every cell
    /// carries its coordinates, class and zone flags.
    pub open spec fn shaped(self) -> bool {
        &&& 0 < self.zone
        &&& self.start_x == 0
        &&& self.start_y == self.zone - 1
        &&& 2 * self.zone < self.x_size <= u32::MAX
        &&& 2 * self.zone < self.y_size <= u32::MAX
        &&& self.cells.len() == self.x_size
        &&& forall|x: int| 0 <= x < self.x_size ==> (#[trigger] self.cells[x]).len() == self.y_size
        &&& forall|x: int, y: int| self.in_bounds(x, y) ==> #[trigger] self.cell_shaped(x, y)
        &&& self.strategies.len() == 2
    }

    /// The neighbour of `(x, y)` towards `direction`, if the grid has one.
    pub open spec fn adjacent(self, x: int, y: int, direction: Direction) -> Option<(int, int)> {
        let nx = step_x(x, direction);
        let ny = step_y(y, direction);
        if self.in_bounds(nx, ny) {
            Some((nx, ny))
        } else {
            None
        }
    }

    /// Whether a path at `(x, y)` may step towards `direction`: the
    /// neighbour exists, no path has entered it, it is outside the start
    /// zone, and it is outside the finish zone once the goal is reached.
    pub open spec fn valid_move(self, x: int, y: int, direction: Direction) -> bool {
        let nx = step_x(x, direction);
        let ny = step_y(y, direction);
        &&& self.in_bounds(nx, ny)
        &&& !self.at(nx, ny).visited
        &&& !self.at(nx, ny).start_area
        &&& !(self.at(nx, ny).finish_area && self.goal_reached)
    }

    /// Whether `(x, y)` has an edge towards `direction`.
    pub open spec fn has_edge(self, x: int, y: int, direction: Direction) -> bool {
        self.in_bounds(x, y) && self.at(x, y).spec_has_edge(&direction)
    }

    /// Whether an edge that runs towards `direction` ends at `(x, y)`.
    pub open spec fn arrives(self, x: int, y: int, direction: Direction) -> bool {
        self.has_edge(
            step_x(x, direction.opposite()),
            step_y(y, direction.opposite()),
            direction,
        )
    }

    /// The number of edges that end at `(x, y)`.
    pub open spec fn in_degree(self, x: int, y: int) -> nat {
        (if self.arrives(x, y, Direction::North) { 1nat } else { 0nat })
        + (if self.arrives(x, y, Direction::East) { 1nat } else { 0nat })
        + (if self.arrives(x, y, Direction::South) { 1nat } else { 0nat })
        + (if self.arrives(x, y, Direction::West) { 1nat } else { 0nat })
    }

    /// The direction of an edge that ends at `(x, y)`, if there is one.  The
    /// neighbours are looked at in the order north, east, south, west, so an
    /// edge from the northern neighbour, which runs south, is found first.
    pub open spec fn previous_direction(self, x: int, y: int) -> Option<Direction> {
        if self.arrives(x, y, Direction::South) {
            Some(Direction::South)
        } else if self.arrives(x, y, Direction::West) {
            Some(Direction::West)
        } else if self.arrives(x, y, Direction::North) {
            Some(Direction::North)
        } else if self.arrives(x, y, Direction::East) {
            Some(Direction::East)
        } else {
            None
        }
    }

    /// The cell from which the edge into `(x, y)` comes; `(x, y)` itself if
    /// no edge ends there.
    pub open spec fn parent(self, x: int, y: int) -> (int, int) {
        match self.previous_direction(x, y) {
            Some(d) => (step_x(x, d.opposite()), step_y(y, d.opposite())),
            None => (x, y),
        }
    }

    /// Whether a path can stand at `(x, y)`: the start cell, and every cell
    /// outside the finish zone that a path has entered.
    pub open spec fn waypoint(self, x: int, y: int) -> bool {
        &&& self.in_bounds(x, y)
        &&& self.is_start(x, y) || (self.at(x, y).visited && !self.at(x, y).finish_area)
    }

    /// Whether no path has entered any cell.
    pub open spec fn untouched(self) -> bool {
        forall|x: int, y: int| self.in_bounds(x, y) ==> !(#[trigger] self.at(x, y)).visited
    }

    /// The number of cells that no path has entered.
    pub open spec fn unvisited(self) -> nat {
        grid_unvisited(self.cells)
    }

    /// This maze with `cell` in the place of the cell at `(x, y)`.
    pub open spec fn set_cell(self, x: int, y: int, cell: Cell) -> MazeView {
        MazeView { cells: self.cells.update(x, self.cells[x].update(y, cell)), ..self }
    }

    /// This maze with the edge from `(x, y)` towards `direction` recorded.
    pub open spec fn draw_edge(self, x: int, y: int, direction: Direction) -> MazeView {
        self.set_cell(x, y, self.at(x, y).with_edge(direction))
    }

    /// This maze with the cell at `(x, y)` marked as visited.
    pub open spec fn mark_as_visited(self, x: int, y: int) -> MazeView {
        self.set_cell(x, y, self.at(x, y).with_visit())
    }

    /// This maze after a path has stepped from `(x, y)` towards `direction`:
    /// the edge is recorded on `(x, y)` and the neighbour is marked as
    /// visited; if the neighbour lies in the finish zone, the goal is
    /// reached there.
    pub open spec fn record_edge(self, x: int, y: int, direction: Direction) -> MazeView {
        let nx = step_x(x, direction);
        let ny = step_y(y, direction);
        let moved = self.draw_edge(x, y, direction).mark_as_visited(nx, ny);
        if self.at(nx, ny).finish_area {
            MazeView { goal_reached: true, finish_x: nx, finish_y: ny, ..moved }
        } else {
            moved
        }
    }
}

} // verus!
