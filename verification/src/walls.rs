//! Where the walls of a maze stand: what a drawing of it has to show.

use vstd::prelude::*;
use crate::direction::Direction;
use crate::grid::MazeView;
use crate::maze::Maze;

verus! {

impl MazeView {
    /// Whether the way is open between the cell at `(x, y)` and its
    /// neighbour towards `direction`: an edge joins the two, one way or the
    /// other, or both lie in the start zone, or both in the finish zone.
    pub open spec fn open_towards(self, x: int, y: int, direction: Direction) -> bool {
        let nx = crate::grid::step_x(x, direction);
        let ny = crate::grid::step_y(y, direction);
        ||| self.has_edge(x, y, direction)
        ||| self.has_edge(nx, ny, direction.opposite())
        ||| self.at(x, y).start_area && self.at(nx, ny).start_area
        ||| self.at(x, y).finish_area && self.at(nx, ny).finish_area
    }

    /// Whether a wall stands on the upper side of the position `(x, y)`.
    /// The row below the grid, `y == -1`, has the bottom border as its
    /// upper side; the top row has the top border; between two rows a wall
    /// stands where the way is not open.  Beside the grid no wall stands.
    pub open spec fn wall_above(self, x: int, y: int) -> bool {
        &&& 0 <= x < self.x_size
        &&& -1 <= y < self.y_size
        &&& y == -1 || y == self.y_size - 1 || !self.open_towards(x, y, Direction::North)
    }

    /// Whether a wall stands on the right-hand side of the position
    /// `(x, y)`.  The column left of the grid, `x == -1`, has the left
    /// border as its right-hand side; the last column has the right border;
    /// between two columns a wall stands where the way is not open.  Above
    /// and below the grid no wall stands.
    pub open spec fn wall_right(self, x: int, y: int) -> bool {
        &&& 0 <= y < self.y_size
        &&& -1 <= x < self.x_size
        &&& x == -1 || x == self.x_size - 1 || !self.open_towards(x, y, Direction::East)
    }
}

impl Maze {
    /// Whether a wall stands on the upper side of the position `(x, y)`,
    /// which may lie one row below the grid.
    pub fn wall_above(&self, x: i64, y: i64) -> (wall: bool)
        requires
            self@.shaped(),
        ensures
            wall == self@.wall_above(x as int, y as int),
    {
        let width: i64 = self.x_size() as i64;
        let height: i64 = self.y_size() as i64;
        if x < 0 || x >= width || y < -1 || y >= height {
            false
        } else if y == -1 || y == height - 1 {
            true
        } else {
            let cell = self.get_cell(x as u32, y as u32);
            let above = self.get_cell(x as u32, (y + 1) as u32);
            !(above.has_edge(&Direction::South) || cell.has_edge(&Direction::North)
                || cell.start_area && above.start_area || cell.finish_area && above.finish_area)
        }
    }

    /// Whether a wall stands on the right-hand side of the position
    /// `(x, y)`, which may lie one column left of the grid.
    pub fn wall_right(&self, x: i64, y: i64) -> (wall: bool)
        requires
            self@.shaped(),
        ensures
            wall == self@.wall_right(x as int, y as int),
    {
        let width: i64 = self.x_size() as i64;
        let height: i64 = self.y_size() as i64;
        if y < 0 || y >= height || x < -1 || x >= width {
            false
        } else if x == -1 || x == width - 1 {
            true
        } else {
            let cell = self.get_cell(x as u32, y as u32);
            let right = self.get_cell((x + 1) as u32, y as u32);
            !(right.has_edge(&Direction::West) || cell.has_edge(&Direction::East)
                || cell.start_area && right.start_area || cell.finish_area && right.finish_area)
        }
    }
}

} // verus!
