//! What a step of a path does to a maze, and why it keeps the invariant.

use vstd::prelude::*;
use crate::cell::Cell;
use crate::direction::Direction;
use crate::grid::{column_unvisited, grid_unvisited, step_x, step_y, MazeView};

verus! {

impl MazeView {
    /// Whether `after` is this maze after a step from `(x, y)` towards `d`,
    /// said cell by cell.
    pub open spec fn steps_to(self, after: MazeView, x: int, y: int, d: Direction) -> bool {
        let nx = step_x(x, d);
        let ny = step_y(y, d);
        let goal = self.at(nx, ny).finish_area;
        &&& after.shaped()
        &&& after.x_size == self.x_size
        &&& after.y_size == self.y_size
        &&& after.zone == self.zone
        &&& after.strategies == self.strategies
        &&& after.start_x == self.start_x
        &&& after.start_y == self.start_y
        &&& after.goal_reached == (self.goal_reached || goal)
        &&& after.finish_x == if goal { nx } else { self.finish_x }
        &&& after.finish_y == if goal { ny } else { self.finish_y }
        &&& after.unvisited() + 1 == self.unvisited()
        &&& forall|a: int, b: int|
            self.in_bounds(a, b) ==> #[trigger] after.at(a, b) == if a == x && b == y {
                self.at(a, b).with_edge(d)
            } else if a == nx && b == ny {
                self.at(a, b).with_visit()
            } else {
                self.at(a, b)
            }
    }

    /// Whether `after` holds this maze and more: the same grid, with every
    /// edge and every visit of this maze, and with its finish cell if the
    /// goal is reached here.
    pub open spec fn grows_to(self, after: MazeView) -> bool {
        &&& after.x_size == self.x_size
        &&& after.y_size == self.y_size
        &&& after.zone == self.zone
        &&& after.strategies == self.strategies
        &&& after.start_x == self.start_x
        &&& after.start_y == self.start_y
        &&& self.goal_reached ==> after.goal_reached && after.finish_x == self.finish_x
            && after.finish_y == self.finish_y
        &&& forall|x: int, y: int|
            self.in_bounds(x, y) && (#[trigger] self.at(x, y)).visited ==> after.at(x, y).visited
        &&& forall|x: int, y: int, d: Direction| #[trigger]
            self.has_edge(x, y, d) ==> after.has_edge(x, y, d)
    }
}

/// Replacing one cell of a column changes the count of its unvisited cells
/// by what the two cells differ in.
proof fn lemma_column_update(column: Seq<Cell>, i: int, cell: Cell)
    requires
        0 <= i < column.len(),
    ensures
        column_unvisited(column.update(i, cell)) + (if column[i].visited { 0nat } else { 1nat })
            == column_unvisited(column) + (if cell.visited { 0nat } else { 1nat }),
    decreases column.len(),
{
    let updated = column.update(i, cell);
    if i == column.len() - 1 {
        assert(updated.drop_last() =~= column.drop_last());
    } else {
        assert(updated.drop_last() =~= column.drop_last().update(i, cell));
        lemma_column_update(column.drop_last(), i, cell);
    }
}

/// Replacing one cell of a grid changes the count of its unvisited cells by
/// what the two cells differ in.
proof fn lemma_grid_update(cells: Seq<Seq<Cell>>, x: int, y: int, cell: Cell)
    requires
        0 <= x < cells.len(),
        0 <= y < cells[x].len(),
    ensures
        grid_unvisited(cells.update(x, cells[x].update(y, cell))) + (if cells[x][y].visited {
            0nat
        } else {
            1nat
        }) == grid_unvisited(cells) + (if cell.visited { 0nat } else { 1nat }),
    decreases cells.len(),
{
    let updated = cells.update(x, cells[x].update(y, cell));
    if x == cells.len() - 1 {
        assert(updated.drop_last() =~= cells.drop_last());
        lemma_column_update(cells[x], y, cell);
    } else {
        assert(updated.drop_last() =~= cells.drop_last().update(x, cells[x].update(y, cell)));
        lemma_grid_update(cells.drop_last(), x, y, cell);
    }
}

/// A column has no more unvisited cells than cells.
proof fn lemma_column_bound(column: Seq<Cell>)
    ensures
        column_unvisited(column) <= column.len(),
    decreases column.len(),
{
    if column.len() > 0 {
        lemma_column_bound(column.drop_last());
    }
}

/// A grid whose columns have `height` cells each has no more unvisited
/// cells than cells.
proof fn lemma_grid_bound(cells: Seq<Seq<Cell>>, height: nat)
    requires
        forall|x: int| 0 <= x < cells.len() ==> (#[trigger] cells[x]).len() == height,
    ensures
        grid_unvisited(cells) <= cells.len() * height,
    decreases cells.len(),
{
    if cells.len() > 0 {
        lemma_grid_bound(cells.drop_last(), height);
        lemma_column_bound(cells.last());
        assert(cells.len() * height == (cells.len() - 1) * height + height) by (nonlinear_arith);
    } else {
        assert(cells.len() * height == 0) by (nonlinear_arith)
            requires
                cells.len() == 0,
        ;
    }
}

impl MazeView {
    /// What `set_cell` changes: the cell at `(x, y)` and nothing else.
    pub(crate) proof fn lemma_set_cell(self, x: int, y: int, cell: Cell)
        requires
            self.cells.len() == self.x_size,
            forall|i: int| 0 <= i < self.x_size ==> (#[trigger] self.cells[i]).len() == self.y_size,
            self.in_bounds(x, y),
        ensures
            self.set_cell(x, y, cell).cells.len() == self.x_size,
            forall|i: int|
                0 <= i < self.x_size ==> (#[trigger] self.set_cell(x, y, cell).cells[i]).len()
                    == self.y_size,
            forall|a: int, b: int|
                self.in_bounds(a, b) ==> #[trigger] self.set_cell(x, y, cell).at(a, b) == if a == x
                    && b == y {
                    cell
                } else {
                    self.at(a, b)
                },
            self.set_cell(x, y, cell).unvisited() + (if self.at(x, y).visited {
                0nat
            } else {
                1nat
            }) == self.unvisited() + (if cell.visited { 0nat } else { 1nat }),
    {
        lemma_grid_update(self.cells, x, y, cell);
    }

    /// What `record_edge` changes: the source gains an edge, the
    /// destination becomes visited, and one cell fewer is unvisited.
    proof fn lemma_record_edge(self, x: int, y: int, d: Direction)
        requires
            self.shaped(),
            self.in_bounds(x, y),
            self.in_bounds(step_x(x, d), step_y(y, d)),
            !self.at(step_x(x, d), step_y(y, d)).visited,
        ensures
            self.record_edge(x, y, d).shaped(),
            self.record_edge(x, y, d).x_size == self.x_size,
            self.record_edge(x, y, d).y_size == self.y_size,
            self.record_edge(x, y, d).zone == self.zone,
            self.record_edge(x, y, d).strategies == self.strategies,
            self.record_edge(x, y, d).start_x == self.start_x,
            self.record_edge(x, y, d).start_y == self.start_y,
            forall|a: int, b: int|
                self.in_bounds(a, b) ==> #[trigger] self.record_edge(x, y, d).at(a, b) == if a == x
                    && b == y {
                    self.at(a, b).with_edge(d)
                } else if a == step_x(x, d) && b == step_y(y, d) {
                    self.at(a, b).with_visit()
                } else {
                    self.at(a, b)
                },
            self.record_edge(x, y, d).unvisited() + 1 == self.unvisited(),
    {
        let nx = step_x(x, d);
        let ny = step_y(y, d);
        let drawn = self.draw_edge(x, y, d);
        self.lemma_set_cell(x, y, self.at(x, y).with_edge(d));
        drawn.lemma_set_cell(nx, ny, drawn.at(nx, ny).with_visit());
        let after = self.record_edge(x, y, d);
        assert forall|a: int, b: int| after.in_bounds(a, b) implies #[trigger] after.cell_shaped(
            a,
            b,
        ) by {
            assert(self.cell_shaped(a, b));
            assert(after.at(a, b) == drawn.mark_as_visited(nx, ny).at(a, b));
        }
        assert forall|a: int, b: int| self.in_bounds(a, b) implies #[trigger] after.at(a, b) == if a
            == x && b == y {
            self.at(a, b).with_edge(d)
        } else if a == nx && b == ny {
            self.at(a, b).with_visit()
        } else {
            self.at(a, b)
        } by {
            assert(after.at(a, b) == drawn.mark_as_visited(nx, ny).at(a, b));
        }
    }

    /// `record_edge` makes a step.
    pub(crate) proof fn lemma_record_edge_steps(self, x: int, y: int, d: Direction)
        requires
            self.shaped(),
            self.in_bounds(x, y),
            self.in_bounds(step_x(x, d), step_y(y, d)),
            !self.at(step_x(x, d), step_y(y, d)).visited,
        ensures
            self.steps_to(self.record_edge(x, y, d), x, y, d),
    {
        self.lemma_record_edge(x, y, d);
    }

    /// The edges of a cell after a step: those before it, and the one that
    /// was taken.
    proof fn lemma_step_has_edge(
        self,
        after: MazeView,
        x: int,
        y: int,
        d: Direction,
        a: int,
        b: int,
        e: Direction,
    )
        requires
            self.steps_to(after, x, y, d),
        ensures
            after.has_edge(a, b, e) == (self.has_edge(a, b, e) || (self.in_bounds(a, b) && a == x
                && b == y && e == d)),
    {
        if self.in_bounds(a, b) {
            self.at(a, b).lemma_with_edge(d, e);
            assert(after.at(a, b) == if a == x && b == y {
                self.at(a, b).with_edge(d)
            } else if a == step_x(x, d) && b == step_y(y, d) {
                self.at(a, b).with_visit()
            } else {
                self.at(a, b)
            });
        }
    }

    /// The edges that end at a cell after a step: those before it, and the
    /// one that was taken.
    proof fn lemma_step_arrives(
        self,
        after: MazeView,
        x: int,
        y: int,
        d: Direction,
        a: int,
        b: int,
        e: Direction,
    )
        requires
            self.steps_to(after, x, y, d),
            self.in_bounds(x, y),
        ensures
            after.arrives(a, b, e) == (self.arrives(a, b, e) || (a == step_x(x, d) && b == step_y(
                y,
                d,
            ) && e == d)),
    {
        self.lemma_step_has_edge(
            after,
            x,
            y,
            d,
            step_x(a, e.opposite()),
            step_y(b, e.opposite()),
            e,
        );
    }

    /// The edges that end at a cell after a step, direction by direction.
    pub(crate) proof fn lemma_step_arrivals(self, after: MazeView, x: int, y: int, d: Direction, a: int, b: int)
        requires
            self.steps_to(after, x, y, d),
            self.in_bounds(x, y),
        ensures
            forall|e: Direction|
                after.arrives(a, b, e) == (self.arrives(a, b, e) || (a == step_x(x, d) && b
                    == step_y(y, d) && e == d)),
    {
        self.lemma_step_arrives(after, x, y, d, a, b, Direction::North);
        self.lemma_step_arrives(after, x, y, d, a, b, Direction::East);
        self.lemma_step_arrives(after, x, y, d, a, b, Direction::South);
        self.lemma_step_arrives(after, x, y, d, a, b, Direction::West);
        assert forall|e: Direction|
            after.arrives(a, b, e) == (self.arrives(a, b, e) || (a == step_x(x, d) && b == step_y(
                y,
                d,
            ) && e == d)) by {
            match e {
                Direction::North => {},
                Direction::East => {},
                Direction::South => {},
                Direction::West => {},
            }
        }
    }

    /// What holds around a cell before a valid step holds around it after.
    proof fn lemma_step_node_inv(self, after: MazeView, x: int, y: int, d: Direction, a: int, b: int)
        requires
            self.wf(),
            self.waypoint(x, y),
            self.valid_move(x, y, d),
            self.steps_to(after, x, y, d),
            self.in_bounds(a, b),
        ensures
            after.node_inv(a, b),
    {
        let nx = step_x(x, d);
        let ny = step_y(y, d);
        self.lemma_step_arrivals(after, x, y, d, a, b);
        assert(self.node_inv(a, b));
        assert(self.node_inv(nx, ny));
        assert(self.cell_shaped(a, b));
        assert(self.cell_shaped(nx, ny));
        assert(self.cell_shaped(self.start_x, self.start_y));
        assert(after.at(a, b) == if a == x && b == y {
            self.at(a, b).with_edge(d)
        } else if a == nx && b == ny {
            self.at(a, b).with_visit()
        } else {
            self.at(a, b)
        });
        assert(after.in_degree(a, b) == if after.at(a, b).visited { 1nat } else { 0nat });
        assert forall|e: Direction| #[trigger] after.has_edge(a, b, e) implies {
            &&& after.waypoint(a, b)
            &&& after.in_bounds(step_x(a, e), step_y(b, e))
            &&& after.at(step_x(a, e), step_y(b, e)).visited
        } by {
            self.lemma_step_has_edge(after, x, y, d, a, b, e);
            let ta = step_x(a, e);
            let tb = step_y(b, e);
            if self.has_edge(a, b, e) {
                assert(self.in_bounds(ta, tb));
            }
            assert(after.at(ta, tb) == if ta == x && tb == y {
                self.at(ta, tb).with_edge(d)
            } else if ta == nx && tb == ny {
                self.at(ta, tb).with_visit()
            } else {
                self.at(ta, tb)
            });
        }
    }

    /// The ranks after a valid step: every cell keeps its rank, and the cell
    /// that was entered ranks one above the cell that was left.
    pub(crate) proof fn lemma_step_ranked(
        self,
        after: MazeView,
        x: int,
        y: int,
        d: Direction,
        rank: spec_fn(int, int) -> nat,
    )
        requires
            self.wf(),
            self.waypoint(x, y),
            self.valid_move(x, y, d),
            self.steps_to(after, x, y, d),
            self.ranked(rank),
        ensures
            after.ranked(
                |a: int, b: int|
                    if a == step_x(x, d) && b == step_y(y, d) {
                        (rank(x, y) + 1) as nat
                    } else {
                        rank(a, b)
                    },
            ),
    {
        let nx = step_x(x, d);
        let ny = step_y(y, d);
        let above = |a: int, b: int|
            if a == step_x(x, d) && b == step_y(y, d) {
                (rank(x, y) + 1) as nat
            } else {
                rank(a, b)
            };
        lemma_grid_bound(self.cells, self.y_size);
        assert(self.cell_shaped(nx, ny));
        assert(self.cell_shaped(self.start_x, self.start_y));
        assert(self.node_inv(nx, ny));
        assert forall|a: int, b: int|
            after.in_bounds(a, b) && (#[trigger] after.at(a, b)).visited implies {
            &&& above(a, b) == above(after.parent(a, b).0, after.parent(a, b).1) + 1
            &&& above(a, b) + after.unvisited() <= after.x_size * after.y_size
        } by {
            self.lemma_step_arrivals(after, x, y, d, a, b);
            assert(after.at(a, b) == if a == x && b == y {
                self.at(a, b).with_edge(d)
            } else if a == nx && b == ny {
                self.at(a, b).with_visit()
            } else {
                self.at(a, b)
            });
            if a == nx && b == ny {
                assert(after.previous_direction(a, b) == Some(d));
                assert(after.parent(a, b) == (x, y));
                if self.at(x, y).visited {
                    assert(rank(x, y) + self.unvisited() <= self.x_size * self.y_size);
                }
            } else {
                assert(self.at(a, b).visited);
                assert(self.node_inv(a, b));
                assert(after.previous_direction(a, b) == self.previous_direction(a, b));
                self.lemma_parent_waypoint(a, b);
            }
        }
    }

    /// A step from a cell where a path can stand, along a valid move, keeps
    /// the invariant.
    pub(crate) proof fn lemma_step_wf(self, after: MazeView, x: int, y: int, d: Direction)
        requires
            self.wf(),
            self.waypoint(x, y),
            self.valid_move(x, y, d),
            self.steps_to(after, x, y, d),
        ensures
            after.wf(),
    {
        assert forall|a: int, b: int| after.in_bounds(a, b) implies #[trigger] after.node_inv(
            a,
            b,
        ) by {
            self.lemma_step_node_inv(after, x, y, d, a, b);
        }
        let nx = step_x(x, d);
        let ny = step_y(y, d);
        assert(after.at(nx, ny) == self.at(nx, ny).with_visit());
        if self.goal_reached {
            assert(self.cell_shaped(self.finish_x, self.finish_y));
            assert(after.at(self.finish_x, self.finish_y).visited);
        }
        let rank = choose|rank: spec_fn(int, int) -> nat| self.ranked(rank);
        self.lemma_step_ranked(after, x, y, d, rank);
    }

    /// A valid step makes the maze grow.
    pub(crate) proof fn lemma_step_grows(self, after: MazeView, x: int, y: int, d: Direction)
        requires
            self.wf(),
            self.waypoint(x, y),
            self.valid_move(x, y, d),
            self.steps_to(after, x, y, d),
        ensures
            self.grows_to(after),
    {
        let nx = step_x(x, d);
        let ny = step_y(y, d);
        assert forall|a: int, b: int|
            self.in_bounds(a, b) && (#[trigger] self.at(a, b)).visited implies after.at(
            a,
            b,
        ).visited by {
            assert(after.at(a, b) == if a == x && b == y {
                self.at(a, b).with_edge(d)
            } else if a == nx && b == ny {
                self.at(a, b).with_visit()
            } else {
                self.at(a, b)
            });
        }
        assert forall|a: int, b: int, e: Direction| #[trigger]
            self.has_edge(a, b, e) implies after.has_edge(a, b, e) by {
            self.lemma_step_has_edge(after, x, y, d, a, b, e);
        }
        if self.goal_reached {
            assert(self.cell_shaped(nx, ny));
        }
    }

    /// Growth goes on: what has grown out of a maze that has grown out of
    /// this one has grown out of this one.
    pub proof fn lemma_grows_on(self, middle: MazeView, after: MazeView)
        requires
            self.grows_to(middle),
            middle.grows_to(after),
        ensures
            self.grows_to(after),
    {
        assert forall|x: int, y: int|
            self.in_bounds(x, y) && (#[trigger] self.at(x, y)).visited implies after.at(
            x,
            y,
        ).visited by {
            assert(middle.at(x, y).visited);
        }
        assert forall|x: int, y: int, d: Direction| #[trigger]
            self.has_edge(x, y, d) implies after.has_edge(x, y, d) by {
            assert(middle.has_edge(x, y, d));
        }
    }

    /// A move that is valid after the maze has grown was valid before, so a
    /// dead end stays one.
    pub proof fn lemma_grows_dead_end(self, after: MazeView, x: int, y: int)
        requires
            self.shaped(),
            after.shaped(),
            self.grows_to(after),
            self.dead_end(x, y),
        ensures
            after.dead_end(x, y),
    {
        assert forall|d: Direction| !after.valid_move(x, y, d) by {
            let nx = step_x(x, d);
            let ny = step_y(y, d);
            assert(!self.valid_move(x, y, d));
            if after.in_bounds(nx, ny) {
                assert(self.cell_shaped(nx, ny));
                assert(after.cell_shaped(nx, ny));
                if self.at(nx, ny).visited {
                    assert(after.at(nx, ny).visited);
                }
            }
        }
    }

    /// Where a path can stand before a valid step, it can stand after it.
    pub(crate) proof fn lemma_step_waypoint(self, after: MazeView, x: int, y: int, d: Direction, a: int, b: int)
        requires
            self.wf(),
            self.steps_to(after, x, y, d),
            self.waypoint(a, b),
        ensures
            after.waypoint(a, b),
    {
        assert(self.cell_shaped(a, b));
        assert(after.cell_shaped(a, b));
        assert(after.at(a, b) == if a == x && b == y {
            self.at(a, b).with_edge(d)
        } else if a == step_x(x, d) && b == step_y(y, d) {
            self.at(a, b).with_visit()
        } else {
            self.at(a, b)
        });
    }
}

impl MazeView {
    /// A step from a cell where a path can stand, along a valid move, keeps
    /// the invariant, makes the maze grow, and leaves one cell fewer
    /// unvisited.
    pub proof fn lemma_record_edge_wf(self, x: int, y: int, d: Direction)
        requires
            self.wf(),
            self.waypoint(x, y),
            self.valid_move(x, y, d),
        ensures
            self.record_edge(x, y, d).wf(),
            self.grows_to(self.record_edge(x, y, d)),
            self.record_edge(x, y, d).unvisited() + 1 == self.unvisited(),
    {
        let after = self.record_edge(x, y, d);
        self.lemma_record_edge_steps(x, y, d);
        self.lemma_step_wf(after, x, y, d);
        self.lemma_step_grows(after, x, y, d);
    }
}

} // verus!
