//! The maze itself: the grid of cells, and the questions a path asks of it.

use vstd::prelude::*;
use vstd::arithmetic::power::lemma_square_is_pow2;
use crate::cell::Cell;
use crate::direction::Direction;
use crate::external::pow_u64;
use crate::grid::{class_of, step_x, step_y, MazeView};
use crate::strategy::MeanderStrategy;

verus! {

/// Why a maze of the requested size cannot be built.
#[derive(Clone, Copy, Debug, PartialEq, Eq, Structural)]
pub enum ConfigError {
    /// The grid has no columns or no rows.
    EmptyGrid,
    /// The zones around the start and the finish have side zero.
    EmptyZone,
    /// The zones span half of the shorter side of the grid or more.
    ZoneTooLarge,
}

/// A rectangular grid of cells with the edges that paths have recorded on
/// it.  The bottom left-hand cell is `(0, 0)`, the top right-hand cell is
/// `(x_size - 1, y_size - 1)`.
#[derive(Debug)]
pub struct Maze {
    cells: Vec<Vec<Cell>>,
    strategies: Vec<MeanderStrategy>,
    x_size: u32,
    y_size: u32,
    goal_reached: bool,
    start_finish_size: u32,
    finish_x: u32,
    finish_y: u32,
    start_x: u32,
    start_y: u32,
}

impl View for Maze {
    type V = MazeView;

    closed spec fn view(&self) -> MazeView {
        MazeView {
            x_size: self.x_size as nat,
            y_size: self.y_size as nat,
            zone: self.start_finish_size as nat,
            cells: self.cells@.map_values(|column: Vec<Cell>| column@),
            strategies: self.strategies@,
            goal_reached: self.goal_reached,
            finish_x: self.finish_x as int,
            finish_y: self.finish_y as int,
            start_x: self.start_x as int,
            start_y: self.start_y as int,
        }
    }
}

/// The cell that a new grid of the given size holds at `(x, y)`.
pub open spec fn fresh_cell(x: int, y: int, x_size: int, y_size: int, zone: int) -> Cell {
    Cell {
        cell_type: class_of(x, y, x_size, y_size),
        x: x as u32,
        y: y as u32,
        edges: [false, false, false, false],
        visited: false,
        start_area: x < zone && y < zone,
        finish_area: x >= x_size - zone && y >= y_size - zone,
    }
}

/// The maze of the given size on which no path has moved yet.
pub open spec fn fresh_maze(
    x_size: nat,
    y_size: nat,
    zone: nat,
    strategies: Seq<MeanderStrategy>,
) -> MazeView {
    MazeView {
        x_size,
        y_size,
        zone,
        cells: Seq::new(
            x_size,
            |x: int| Seq::new(y_size, |y: int| fresh_cell(x, y, x_size as int, y_size as int, zone as int)),
        ),
        strategies,
        goal_reached: false,
        finish_x: 0,
        finish_y: 0,
        start_x: 0,
        start_y: zone - 1,
    }
}

/// The error, if any, with which a grid of the given size is refused.
pub open spec fn config_error(x_size: u32, y_size: u32, zone: u32) -> Option<ConfigError> {
    if x_size == 0 || y_size == 0 {
        Some(ConfigError::EmptyGrid)
    } else if zone == 0 {
        Some(ConfigError::EmptyZone)
    } else if 2 * zone >= x_size || 2 * zone >= y_size {
        Some(ConfigError::ZoneTooLarge)
    } else {
        None
    }
}

/// The position one step from `(x, y)` towards `direction`.
pub fn step(x: u32, y: u32, direction: &Direction) -> (p: (u32, u32))
    requires
        0 <= step_x(x as int, *direction) <= u32::MAX,
        0 <= step_y(y as int, *direction) <= u32::MAX,
    ensures
        p.0 == step_x(x as int, *direction),
        p.1 == step_y(y as int, *direction),
{
    match direction {
        Direction::North => (x, y + 1),
        Direction::East => (x + 1, y),
        Direction::South => (x, y - 1),
        Direction::West => (x - 1, y),
    }
}

/// The policy class of the cell at `(x, y)` in a grid of the given size.
pub fn cell_class(x: u32, y: u32, x_size: u32, y_size: u32) -> (class: u8)
    requires
        x < x_size,
        y < y_size,
    ensures
        class == class_of(x as int, y as int, x_size as int, y_size as int),
{
    let twice_x: u64 = 2 * (x as u64);
    let twice_y: u64 = 2 * (y as u64);
    let width: u64 = x_size as u64;
    let height: u64 = y_size as u64;
    let dx: u64 = if twice_x >= width { twice_x - width } else { width - twice_x };
    let dy: u64 = if twice_y >= height { twice_y - height } else { height - twice_y };
    proof {
        lemma_square_is_pow2(dx as int);
        lemma_square_is_pow2(dy as int);
        lemma_square_is_pow2(width as int);
        assert(dx * dx <= 0xffff_ffff * 0xffff_ffff) by (nonlinear_arith)
            requires 0 <= dx <= 0xffff_ffff;
        assert(dy * dy <= 0xffff_ffff * 0xffff_ffff) by (nonlinear_arith)
            requires 0 <= dy <= 0xffff_ffff;
        assert(width * width <= 0xffff_ffff * 0xffff_ffff) by (nonlinear_arith)
            requires 0 <= width <= 0xffff_ffff;
        assert(dx * dx == (2 * x - x_size) * (2 * x - x_size)) by (nonlinear_arith)
            requires dx == 2 * x - x_size || dx == x_size - 2 * x;
        assert(dy * dy == (2 * y - y_size) * (2 * y - y_size)) by (nonlinear_arith)
            requires dy == 2 * y - y_size || dy == y_size - 2 * y;
    }
    let dx2: u128 = pow_u64(dx, 2) as u128;
    let dy2: u128 = pow_u64(dy, 2) as u128;
    let width2: u128 = pow_u64(width, 2) as u128;
    if 5 * (dx2 + dy2) < 3 * width2 {
        0
    } else {
        1
    }
}

impl Maze {
    /// Builds a maze of `x_size` columns and `y_size` rows whose start and
    /// finish zones have side `start_finish_size`, with the usual two
    /// strategies: inside the central disc paths run long and straight from
    /// east to west, outside it they wander evenly.
    ///
    /// The grid is refused if it has no cell, if the zones are empty, or if
    /// twice the side of a zone is not less than both sides of the grid.
    pub fn new(x_size: u32, y_size: u32, start_finish_size: u32) -> (r: Result<Maze, ConfigError>)
        ensures
            match config_error(x_size, y_size, start_finish_size) {
                Some(e) => r == Err::<Maze, ConfigError>(e),
                None => r matches Ok(maze) && maze@ == fresh_maze(
                    x_size as nat,
                    y_size as nat,
                    start_finish_size as nat,
                    default_strategies(),
                ) && maze@.wf() && maze@.untouched(),
            },
    {
        let inside = MeanderStrategy::new(1, 100, 1, 1, 1, 1);
        let outside = MeanderStrategy::new(1, 1, 1, 1, 1, 1);
        Maze::with_strategies(x_size, y_size, start_finish_size, inside, outside)
    }

    /// Builds a maze as `new` does, with `inside` as the strategy of the
    /// cells in the central disc and `outside` as the strategy of the others.
    pub fn with_strategies(
        x_size: u32,
        y_size: u32,
        start_finish_size: u32,
        inside: MeanderStrategy,
        outside: MeanderStrategy,
    ) -> (r: Result<Maze, ConfigError>)
        ensures
            match config_error(x_size, y_size, start_finish_size) {
                Some(e) => r == Err::<Maze, ConfigError>(e),
                None => r matches Ok(maze) && maze@ == fresh_maze(
                    x_size as nat,
                    y_size as nat,
                    start_finish_size as nat,
                    seq![inside, outside],
                ) && maze@.wf() && maze@.untouched(),
            },
    {
        if x_size == 0 || y_size == 0 {
            return Err(ConfigError::EmptyGrid);
        }
        if start_finish_size == 0 {
            return Err(ConfigError::EmptyZone);
        }
        let twice: u64 = 2 * (start_finish_size as u64);
        if twice >= x_size as u64 || twice >= y_size as u64 {
            return Err(ConfigError::ZoneTooLarge);
        }
        let mut cells: Vec<Vec<Cell>> = Vec::new();
        let mut x: u32 = 0;
        while x < x_size
            invariant
                x <= x_size,
                2 * start_finish_size < x_size,
                2 * start_finish_size < y_size,
                cells@.len() == x,
                forall|i: int| 0 <= i < x ==> (#[trigger] cells@[i])@.len() == y_size,
                forall|i: int, j: int|
                    0 <= i < x && 0 <= j < y_size ==> (#[trigger] cells@[i]@[j]) == fresh_cell(
                        i,
                        j,
                        x_size as int,
                        y_size as int,
                        start_finish_size as int,
                    ),
            decreases x_size - x,
        {
            let mut column: Vec<Cell> = Vec::new();
            let mut y: u32 = 0;
            while y < y_size
                invariant
                    x < x_size,
                    y <= y_size,
                    2 * start_finish_size < x_size,
                    2 * start_finish_size < y_size,
                    column@.len() == y,
                    forall|j: int|
                        0 <= j < y ==> (#[trigger] column@[j]) == fresh_cell(
                            x as int,
                            j,
                            x_size as int,
                            y_size as int,
                            start_finish_size as int,
                        ),
                decreases y_size - y,
            {
                let cell = Cell {
                    cell_type: cell_class(x, y, x_size, y_size),
                    x,
                    y,
                    edges: [false, false, false, false],
                    visited: false,
                    start_area: x < start_finish_size && y < start_finish_size,
                    finish_area: x >= x_size - start_finish_size && y >= y_size
                        - start_finish_size,
                };
                column.push(cell);
                y = y + 1;
            }
            cells.push(column);
            x = x + 1;
        }
        let mut strategies: Vec<MeanderStrategy> = Vec::new();
        strategies.push(inside);
        strategies.push(outside);
        let maze = Maze {
            cells,
            strategies,
            x_size,
            y_size,
            goal_reached: false,
            start_finish_size,
            finish_x: 0,
            finish_y: 0,
            start_x: 0,
            start_y: start_finish_size - 1,
        };
        proof {
            let fresh = fresh_maze(
                x_size as nat,
                y_size as nat,
                start_finish_size as nat,
                seq![inside, outside],
            );
            assert(maze@.strategies =~= fresh.strategies);
            assert(maze@.cells =~~= fresh.cells);
            fresh.lemma_fresh_wf(x_size as nat, y_size as nat, start_finish_size as nat, seq![inside, outside]);
        }
        Ok(maze)
    }

    /// The number of columns.
    pub fn x_size(&self) -> (n: u32)
        ensures
            n == self@.x_size,
    {
        self.x_size
    }

    /// The number of rows.
    pub fn y_size(&self) -> (n: u32)
        ensures
            n == self@.y_size,
    {
        self.y_size
    }

    /// The side of the zones around the start and the finish.
    pub fn start_finish_size(&self) -> (n: u32)
        ensures
            n == self@.zone,
    {
        self.start_finish_size
    }

    /// Whether a path has entered the finish zone.
    pub fn goal_reached(&self) -> (b: bool)
        ensures
            b == self@.goal_reached,
    {
        self.goal_reached
    }

    /// The position of the start cell.
    pub fn start(&self) -> (p: (u32, u32))
        ensures
            p.0 == self@.start_x,
            p.1 == self@.start_y,
    {
        (self.start_x, self.start_y)
    }

    /// The position of the cell by which the finish zone was entered, once
    /// the goal is reached.
    pub fn finish(&self) -> (p: Option<(u32, u32)>)
        ensures
            p is Some <==> self@.goal_reached,
            p matches Some(f) ==> f.0 == self@.finish_x && f.1 == self@.finish_y,
    {
        if self.goal_reached {
            Some((self.finish_x, self.finish_y))
        } else {
            None
        }
    }

    /// The strategy of the cell at `(x, y)`.
    pub fn strategy_of(&self, x: u32, y: u32) -> (strategy: MeanderStrategy)
        requires
            self@.shaped(),
            self@.in_bounds(x as int, y as int),
        ensures
            strategy == self@.strategy_at(x as int, y as int),
    {
        let cell = self.get_cell(x, y);
        assert(self@.cell_shaped(x as int, y as int));
        self.strategies[cell.cell_type as usize]
    }

    /// The cell at `(x, y)`.
    pub fn get_cell(&self, x: u32, y: u32) -> (cell: Cell)
        requires
            self@.shaped(),
            self@.in_bounds(x as int, y as int),
        ensures
            cell == self@.at(x as int, y as int),
            cell.x == x,
            cell.y == y,
    {
        assert(self@.cells[x as int] == self.cells@[x as int]@);
        assert(self@.cell_shaped(x as int, y as int));
        self.cells[x as usize][y as usize]
    }

    /// The neighbour of `(x, y)` towards `direction`, or `None` where the
    /// grid ends.
    pub fn get_adjacent(&self, x: u32, y: u32, direction: &Direction) -> (cell: Option<Cell>)
        requires
            self@.shaped(),
            self@.in_bounds(x as int, y as int),
        ensures
            match self@.adjacent(x as int, y as int, *direction) {
                Some((nx, ny)) => cell == Some(self@.at(nx, ny)) && cell.unwrap().x == nx
                    && cell.unwrap().y == ny,
                None => cell is None,
            },
    {
        match direction {
            Direction::North => {
                if y == self.y_size - 1 {
                    None
                } else {
                    Some(self.get_cell(x, y + 1))
                }
            },
            Direction::South => {
                if y == 0 {
                    None
                } else {
                    Some(self.get_cell(x, y - 1))
                }
            },
            Direction::East => {
                if x == self.x_size - 1 {
                    None
                } else {
                    Some(self.get_cell(x + 1, y))
                }
            },
            Direction::West => {
                if x == 0 {
                    None
                } else {
                    Some(self.get_cell(x - 1, y))
                }
            },
        }
    }

    /// Whether a path at `(x, y)` may step towards `direction`: the
    /// neighbour exists, no path has entered it, it lies outside the start
    /// zone, and it lies outside the finish zone once the goal is reached.
    pub fn is_valid(&self, x: u32, y: u32, direction: &Direction) -> (valid: bool)
        requires
            self@.shaped(),
            self@.in_bounds(x as int, y as int),
        ensures
            valid == self@.valid_move(x as int, y as int, *direction),
    {
        match self.get_adjacent(x, y, direction) {
            None => false,
            Some(target) => !(target.visited || target.start_area || target.finish_area
                && self.goal_reached),
        }
    }

    /// The direction of the edge that ends at `(x, y)`, or `None` if no edge
    /// ends there, as at the start cell and at a cell that no path has
    /// entered.  The four neighbours are looked at in the order north, east,
    /// south, west.
    pub fn get_previous_direction(&self, x: u32, y: u32) -> (previous: Option<Direction>)
        requires
            self@.shaped(),
            self@.in_bounds(x as int, y as int),
        ensures
            previous == self@.previous_direction(x as int, y as int),
            self@.wf() ==> (previous is Some <==> self@.at(x as int, y as int).visited),
            self@.wf() && self@.is_start(x as int, y as int) ==> previous is None,
    {
        proof {
            if self@.wf() {
                self@.lemma_one_incoming_edge(x as int, y as int);
            }
        }
        let mut direction = Direction::North;
        let mut seen: u8 = 0;
        while seen < 4
            invariant
                self@.shaped(),
                self@.in_bounds(x as int, y as int),
                self@.wf() ==> self@.in_degree(x as int, y as int) == if self@.at(
                    x as int,
                    y as int,
                ).visited {
                    1nat
                } else {
                    0nat
                },
                self@.wf() && self@.is_start(x as int, y as int) ==> self@.in_degree(
                    x as int,
                    y as int,
                ) == 0,
                seen <= 4,
                direction == match seen {
                    0 => Direction::North,
                    1 => Direction::East,
                    2 => Direction::South,
                    3 => Direction::West,
                    _ => Direction::North,
                },
                seen >= 1 ==> !self@.arrives(x as int, y as int, Direction::South),
                seen >= 2 ==> !self@.arrives(x as int, y as int, Direction::West),
                seen >= 3 ==> !self@.arrives(x as int, y as int, Direction::North),
                seen >= 4 ==> !self@.arrives(x as int, y as int, Direction::East),
            decreases 4 - seen,
        {
            match self.get_adjacent(x, y, &direction) {
                Some(adjacent) => {
                    if adjacent.has_edge(&direction.opposite()) {
                        return Some(direction.opposite());
                    }
                },
                None => {},
            }
            direction = direction.right();
            seen = seen + 1;
        }
        None
    }

    /// The cell from which the edge into `(x, y)` comes.
    pub fn get_previous_cell(&self, x: u32, y: u32) -> (cell: Cell)
        requires
            self@.shaped(),
            self@.in_bounds(x as int, y as int),
            self@.previous_direction(x as int, y as int) is Some,
        ensures
            cell == self@.at(
                self@.parent(x as int, y as int).0,
                self@.parent(x as int, y as int).1,
            ),
            self@.in_bounds(cell.x as int, cell.y as int),
            (cell.x as int, cell.y as int) == self@.parent(x as int, y as int),
    {
        let backward = match self.get_previous_direction(x, y) {
            Some(direction) => direction.opposite(),
            None => Direction::North,
        };
        match self.get_adjacent(x, y, &backward) {
            Some(previous) => {
                proof {
                    let p = self@.parent(x as int, y as int);
                    assert(self@.cell_shaped(p.0, p.1));
                }
                previous
            },
            None => self.get_cell(x, y),
        }
    }

    /// Records a step from `(x, y)` towards `direction`: sets the edge on
    /// `(x, y)` and marks the neighbour as visited.  A step into the finish
    /// zone reaches the goal, and the neighbour becomes the finish cell.
    ///
    /// The caller has checked the move with `is_valid`, and `(x, y)` is a
    /// cell where a path can stand.
    pub fn record_edge(&mut self, x: u32, y: u32, direction: &Direction)
        requires
            old(self)@.wf(),
            old(self)@.waypoint(x as int, y as int),
            old(self)@.valid_move(x as int, y as int, *direction),
        ensures
            final(self)@ == old(self)@.record_edge(x as int, y as int, *direction),
            final(self)@.wf(),
            old(self)@.grows_to(final(self)@),
    {
        let (nx, ny) = step(x, y, direction);
        proof {
            self@.lemma_record_edge_wf(x as int, y as int, *direction);
            self@.lemma_set_cell(x as int, y as int, self@.at(x as int, y as int).with_edge(*direction));
        }
        let finish = self.get_cell(nx, ny).finish_area;
        self.draw_edge(x, y, direction);
        self.mark_as_visited(nx, ny);
        if finish {
            self.finish_x = nx;
            self.finish_y = ny;
            self.goal_reached = true;
        }
    }

    fn draw_edge(&mut self, x: u32, y: u32, direction: &Direction)
        requires
            old(self)@.shaped(),
            old(self)@.in_bounds(x as int, y as int),
        ensures
            final(self)@ == old(self)@.draw_edge(x as int, y as int, *direction),
    {
        assert(self@.cells[x as int] == self.cells@[x as int]@);
        self.cells[x as usize][y as usize].draw_edge(direction);
        assert(self@.cells =~~= old(self)@.draw_edge(x as int, y as int, *direction).cells);
    }

    fn mark_as_visited(&mut self, x: u32, y: u32)
        requires
            old(self)@.cells.len() == old(self)@.x_size,
            forall|i: int|
                0 <= i < old(self)@.x_size ==> (#[trigger] old(self)@.cells[i]).len() == old(
                    self,
                )@.y_size,
            old(self)@.in_bounds(x as int, y as int),
        ensures
            final(self)@ == old(self)@.mark_as_visited(x as int, y as int),
    {
        assert(self@.cells[x as int] == self.cells@[x as int]@);
        self.cells[x as usize][y as usize].mark_as_visited();
        assert(self@.cells =~~= old(self)@.mark_as_visited(x as int, y as int).cells);
    }
}

/// The strategies of a maze built by `Maze::new`.
pub open spec fn default_strategies() -> Seq<MeanderStrategy> {
    seq![
        MeanderStrategy {
            weight_north_south: 1,
            weight_east_west: 100,
            weight_forward: 1,
            weight_turn_left: 1,
            weight_turn_right: 1,
            weight_same_cell_type: 1,
        },
        MeanderStrategy {
            weight_north_south: 1,
            weight_east_west: 1,
            weight_forward: 1,
            weight_turn_left: 1,
            weight_turn_right: 1,
            weight_same_cell_type: 1,
        },
    ]
}

} // verus!
