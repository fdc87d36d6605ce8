//! What the active paths still have to explore: every cell from which a
//! move is left lies on the way back of some path, so no such cell is
//! forgotten, and when the last path has retired every cell outside the
//! two zones has been entered.

use vstd::prelude::*;
use crate::direction::Direction;
use crate::engine::EngineState;
use crate::grid::{step_x, step_y, MazeView};

verus! {

impl MazeView {
    /// Whether the way back from the cell of some path to the start cell
    /// leads through `(x, y)`.
    pub open spec fn on_way_back(self, paths: Seq<(u32, u32)>, x: int, y: int) -> bool {
        exists|i: int, steps: nat|
            0 <= i < paths.len() && #[trigger] self.ancestor(
                paths[i].0 as int,
                paths[i].1 as int,
                steps,
            ) == (x, y)
    }

    /// Whether the paths watch over the maze: every cell where a path can
    /// stand and has a valid move lies on the way back of some path.
    pub open spec fn watched(self, paths: Seq<(u32, u32)>) -> bool {
        forall|x: int, y: int|
            self.waypoint(x, y) && !self.dead_end(x, y) ==> #[trigger] self.on_way_back(paths, x, y)
    }

    /// Whether nothing is left to explore: no cell where a path can stand
    /// has a valid move.
    pub open spec fn exhausted(self) -> bool {
        forall|x: int, y: int| #[trigger] self.waypoint(x, y) ==> self.dead_end(x, y)
    }

    /// Whether `(x, y)` is a cell of the grid outside both zones.
    pub open spec fn outside_zones(self, x: int, y: int) -> bool {
        self.in_bounds(x, y) && !self.in_start_zone(x, y) && !self.in_finish_zone(x, y)
    }

    /// Whether a path has entered every cell outside both zones.
    pub open spec fn explored(self) -> bool {
        forall|x: int, y: int| self.outside_zones(x, y) ==> (#[trigger] self.at(x, y)).visited
    }

    /// Whether `route` leads from the start cell over cells outside both
    /// zones, each next to the one before it.
    pub open spec fn leads(self, route: Seq<(int, int)>) -> bool {
        &&& route.len() > 0
        &&& route[0] == (self.start_x, self.start_y)
        &&& forall|i: int|
            0 < i < route.len() ==> self.outside_zones((#[trigger] route[i]).0, route[i].1)
                && neighbours(route[i - 1], route[i])
    }

    /// The cell before a reached cell is reached, and is the start cell
    /// itself at the start cell.
    proof fn lemma_parent_reached(self, x: int, y: int)
        requires
            self.wf(),
            self.reached(x, y),
        ensures
            self.reached(self.parent(x, y).0, self.parent(x, y).1),
    {
        if self.at(x, y).visited {
            self.lemma_parent_waypoint(x, y);
        } else {
            assert(self.node_inv(x, y));
        }
    }

    /// A valid step leaves the cell before every reached cell as it was.
    proof fn lemma_step_parent(self, after: MazeView, x: int, y: int, d: Direction, a: int, b: int)
        requires
            self.wf(),
            self.waypoint(x, y),
            self.valid_move(x, y, d),
            self.steps_to(after, x, y, d),
            self.reached(a, b),
        ensures
            after.parent(a, b) == self.parent(a, b),
    {
        self.lemma_step_arrivals(after, x, y, d, a, b);
        assert(self.cell_shaped(self.start_x, self.start_y));
        assert(self.cell_shaped(step_x(x, d), step_y(y, d)));
    }

    /// A valid step leaves the way back from every reached cell as it was.
    proof fn lemma_step_ancestor(
        self,
        after: MazeView,
        x: int,
        y: int,
        d: Direction,
        a: int,
        b: int,
        steps: nat,
    )
        requires
            self.wf(),
            self.waypoint(x, y),
            self.valid_move(x, y, d),
            self.steps_to(after, x, y, d),
            self.reached(a, b),
        ensures
            after.ancestor(a, b, steps) == self.ancestor(a, b, steps),
        decreases steps,
    {
        if steps > 0 {
            self.lemma_step_parent(after, x, y, d, a, b);
            self.lemma_parent_reached(a, b);
            let p = self.parent(a, b);
            self.lemma_step_ancestor(after, x, y, d, p.0, p.1, (steps - 1) as nat);
        }
    }

    /// The way back from the start cell stays at the start cell.
    proof fn lemma_ancestor_of_start(self, steps: nat)
        requires
            self.wf(),
        ensures
            self.ancestor(self.start_x, self.start_y, steps) == (self.start_x, self.start_y),
        decreases steps,
    {
        if steps > 0 {
            assert(self.node_inv(self.start_x, self.start_y));
            assert(self.cell_shaped(self.start_x, self.start_y));
            self.lemma_ancestor_of_start((steps - 1) as nat);
        }
    }
}

impl EngineState {
    /// A path that records a step keeps watch over what it watched before,
    /// and over the cell it enters.
    proof fn lemma_watch_forward(self, direction: Direction, branch: bool)
        requires
            self.wf(),
            self.index < self.paths.len(),
            self.maze.valid_move(
                self.paths[self.index].0 as int,
                self.paths[self.index].1 as int,
                direction,
            ),
            self.maze.watched(self.paths),
        ensures
            self.advance(Some(direction), branch).maze.watched(
                self.advance(Some(direction), branch).paths,
            ),
    {
        let here = self.paths[self.index];
        let x = here.0 as int;
        let y = here.1 as int;
        let nx = step_x(x, direction);
        let ny = step_y(y, direction);
        let end = self.advance(Some(direction), branch);
        let after = end.maze;
        let finish = self.maze.at(nx, ny).finish_area;
        assert(self.maze.waypoint(x, y));
        self.maze.lemma_record_edge_steps(x, y, direction);
        self.maze.lemma_step_wf(after, x, y, direction);
        self.maze.lemma_step_grows(after, x, y, direction);
        assert(self.maze.cell_shaped(nx, ny));
        assert(after.cell_shaped(nx, ny));
        assert(self.maze.cell_shaped(self.maze.start_x, self.maze.start_y));
        assert(after.at(nx, ny) == self.maze.at(nx, ny).with_visit());
        assert forall|a: int, b: int|
            after.waypoint(a, b) && !after.dead_end(a, b) implies #[trigger] after.on_way_back(
            end.paths,
            a,
            b,
        ) by {
            if a == nx && b == ny {
                assert(!finish);
                assert(end.paths[self.index] == (nx as u32, ny as u32));
                assert(after.ancestor(
                    end.paths[self.index].0 as int,
                    end.paths[self.index].1 as int,
                    0,
                ) == (a, b));
            } else {
                assert(after.at(a, b) == if a == x && b == y {
                    self.maze.at(a, b).with_edge(direction)
                } else {
                    self.maze.at(a, b)
                });
                assert(self.maze.waypoint(a, b));
                if self.maze.dead_end(a, b) {
                    self.maze.lemma_grows_dead_end(after, a, b);
                }
                assert(self.maze.on_way_back(self.paths, a, b));
                let (i, steps) = choose|i: int, steps: nat|
                    0 <= i < self.paths.len() && #[trigger] self.maze.ancestor(
                        self.paths[i].0 as int,
                        self.paths[i].1 as int,
                        steps,
                    ) == (a, b);
                if i == self.index && !finish {
                    self.maze.lemma_step_ancestor(after, x, y, direction, x, y, steps);
                    assert(after.previous_direction(nx, ny) == Some(direction)) by {
                        self.maze.lemma_step_arrivals(after, x, y, direction, nx, ny);
                        assert(self.maze.node_inv(nx, ny));
                    }
                    assert(after.parent(nx, ny) == (x, y));
                    assert(after.ancestor(nx, ny, steps + 1) == after.ancestor(x, y, steps));
                    assert(end.paths[i] == (nx as u32, ny as u32));
                    assert(after.ancestor(
                        end.paths[i].0 as int,
                        end.paths[i].1 as int,
                        steps + 1,
                    ) == (a, b));
                } else {
                    let there = self.paths[i];
                    assert(end.paths[i] == there);
                    assert(self.maze.waypoint(there.0 as int, there.1 as int));
                    self.maze.lemma_step_ancestor(
                        after,
                        x,
                        y,
                        direction,
                        there.0 as int,
                        there.1 as int,
                        steps,
                    );
                    assert(after.ancestor(end.paths[i].0 as int, end.paths[i].1 as int, steps)
                        == (a, b));
                }
            }
        }
    }

    /// A path that steps back from a dead end, or retires at the start
    /// cell, gives up the watch over a dead end only.
    proof fn lemma_watch_backward(self)
        requires
            self.wf(),
            self.index < self.paths.len(),
            self.maze.dead_end(self.paths[self.index].0 as int, self.paths[self.index].1 as int),
            self.maze.watched(self.paths),
        ensures
            self.advance(None, false).maze.watched(self.advance(None, false).paths),
    {
        let here = self.paths[self.index];
        let x = here.0 as int;
        let y = here.1 as int;
        let end = self.advance(None, false);
        assert forall|a: int, b: int|
            self.maze.waypoint(a, b) && !self.maze.dead_end(a, b) implies #[trigger] self.maze.on_way_back(
            end.paths,
            a,
            b,
        ) by {
            assert(self.maze.on_way_back(self.paths, a, b));
            let (i, steps) = choose|i: int, steps: nat|
                0 <= i < self.paths.len() && #[trigger] self.maze.ancestor(
                    self.paths[i].0 as int,
                    self.paths[i].1 as int,
                    steps,
                ) == (a, b);
            if i == self.index {
                if self.maze.is_start(x, y) {
                    self.maze.lemma_ancestor_of_start(steps);
                } else {
                    assert(steps > 0);
                    let back = self.maze.parent(x, y);
                    self.maze.lemma_parent_waypoint(x, y);
                    assert(end.paths[i] == (back.0 as u32, back.1 as u32));
                    assert(self.maze.ancestor(
                        end.paths[i].0 as int,
                        end.paths[i].1 as int,
                        (steps - 1) as nat,
                    ) == (a, b));
                }
            } else if self.maze.is_start(x, y) {
                let j = if i < self.index {
                    i
                } else {
                    i - 1
                };
                assert(end.paths[j] == self.paths[i]);
                assert(self.maze.ancestor(end.paths[j].0 as int, end.paths[j].1 as int, steps) == (
                    a,
                    b,
                ));
            } else {
                assert(end.paths[i] == self.paths[i]);
                assert(self.maze.ancestor(end.paths[i].0 as int, end.paths[i].1 as int, steps) == (
                    a,
                    b,
                ));
            }
        }
    }

    /// A move of one path, which steps back at dead ends only, keeps the
    /// watch over the maze.
    pub(crate) proof fn lemma_watch_advance(self, choice: Option<Direction>, branch: bool)
        requires
            self.wf(),
            self.index < self.paths.len(),
            choice matches Some(direction) ==> self.maze.valid_move(
                self.paths[self.index].0 as int,
                self.paths[self.index].1 as int,
                direction,
            ),
            choice is None ==> self.maze.dead_end(
                self.paths[self.index].0 as int,
                self.paths[self.index].1 as int,
            ),
            self.maze.watched(self.paths),
        ensures
            self.advance(choice, branch).maze.watched(self.advance(choice, branch).paths),
    {
        match choice {
            Some(direction) => {
                self.lemma_watch_forward(direction, branch);
            },
            None => {
                self.lemma_watch_backward();
                assert(self.advance(None, branch) == self.advance(None, false));
            },
        }
    }
}

/// Whether the cell at `to` lies one step from the cell at `from`.
pub open spec fn neighbours(from: (int, int), to: (int, int)) -> bool {
    exists|d: Direction| #[trigger] step_x(from.0, d) == to.0 && step_y(from.1, d) == to.1
}

/// One path on the start cell watches over a maze on which a path can
/// stand at the start cell only: a new maze above all.
pub(crate) proof fn lemma_watch_begins(maze: MazeView)
    requires
        maze.wf(),
        forall|x: int, y: int| #[trigger] maze.waypoint(x, y) ==> maze.is_start(x, y),
    ensures
        maze.watched(seq![(maze.start_x as u32, maze.start_y as u32)]),
{
    let paths = seq![(maze.start_x as u32, maze.start_y as u32)];
    assert forall|x: int, y: int|
        maze.waypoint(x, y) && !maze.dead_end(x, y) implies #[trigger] maze.on_way_back(
        paths,
        x,
        y,
    ) by {
        assert(maze.ancestor(paths[0].0 as int, paths[0].1 as int, 0) == (x, y));
    }
}

/// When no path is left to watch, nothing is left to explore.
pub(crate) proof fn lemma_watch_ends(maze: MazeView, paths: Seq<(u32, u32)>)
    requires
        maze.watched(paths),
        paths.len() == 0,
    ensures
        maze.exhausted(),
{
    assert forall|x: int, y: int| #[trigger] maze.waypoint(x, y) implies maze.dead_end(x, y) by {
        if !maze.dead_end(x, y) {
            assert(maze.on_way_back(paths, x, y));
        }
    }
}

impl MazeView {
    /// When nothing is left to explore, a cell outside both zones next to a
    /// cell where a path can stand has been entered, and a path can stand
    /// there too.
    proof fn lemma_next_explored(self, x: int, y: int, d: Direction)
        requires
            self.wf(),
            self.exhausted(),
            self.waypoint(x, y),
            self.outside_zones(step_x(x, d), step_y(y, d)),
        ensures
            self.at(step_x(x, d), step_y(y, d)).visited,
            self.waypoint(step_x(x, d), step_y(y, d)),
    {
        assert(self.dead_end(x, y));
        assert(!self.valid_move(x, y, d));
        assert(self.cell_shaped(step_x(x, d), step_y(y, d)));
    }

    /// When nothing is left to explore, every cell that the start cell
    /// leads to over cells outside both zones has been entered.
    pub proof fn lemma_exhausted_route(self, route: Seq<(int, int)>, i: int)
        requires
            self.wf(),
            self.exhausted(),
            self.leads(route),
            0 <= i < route.len(),
        ensures
            self.waypoint(route[i].0, route[i].1),
            i > 0 ==> self.at(route[i].0, route[i].1).visited,
        decreases i,
    {
        if i > 0 {
            self.lemma_exhausted_route(route, i - 1);
            assert(self.outside_zones(route[i].0, route[i].1));
            assert(neighbours(route[i - 1], route[i]));
            let d = choose|d: Direction| #[trigger]
                step_x(route[i - 1].0, d) == route[i].0 && step_y(route[i - 1].1, d) == route[i].1;
            self.lemma_next_explored(route[i - 1].0, route[i - 1].1, d);
        } else {
            assert(self.cell_shaped(self.start_x, self.start_y));
        }
    }

    /// When nothing is left to explore, a path can stand at the upper end
    /// of a stretch of column `x` whose cells lie outside both zones, if
    /// one can stand at its lower end.
    proof fn lemma_northwards(self, x: int, from: int, to: int)
        requires
            self.wf(),
            self.exhausted(),
            self.waypoint(x, from),
            from <= to,
            forall|j: int| from < j <= to ==> #[trigger] self.outside_zones(x, j),
        ensures
            self.waypoint(x, to),
        decreases to - from,
    {
        if from < to {
            self.lemma_northwards(x, from, to - 1);
            assert(self.outside_zones(x, to));
            self.lemma_next_explored(x, to - 1, Direction::North);
        }
    }

    /// When nothing is left to explore, a path can stand at the lower end
    /// of a stretch of column `x` whose cells lie outside both zones, if
    /// one can stand at its upper end.
    proof fn lemma_southwards(self, x: int, from: int, to: int)
        requires
            self.wf(),
            self.exhausted(),
            self.waypoint(x, from),
            to <= from,
            forall|j: int| to <= j < from ==> #[trigger] self.outside_zones(x, j),
        ensures
            self.waypoint(x, to),
        decreases from - to,
    {
        if to < from {
            self.lemma_southwards(x, from, to + 1);
            assert(self.outside_zones(x, to));
            self.lemma_next_explored(x, to + 1, Direction::South);
        }
    }

    /// When nothing is left to explore, a path can stand at the right-hand
    /// end of a stretch of row `y` whose cells lie outside both zones, if
    /// one can stand at its left-hand end.
    proof fn lemma_eastwards(self, from: int, to: int, y: int)
        requires
            self.wf(),
            self.exhausted(),
            self.waypoint(from, y),
            from <= to,
            forall|i: int| from < i <= to ==> #[trigger] self.outside_zones(i, y),
        ensures
            self.waypoint(to, y),
        decreases to - from,
    {
        if from < to {
            self.lemma_eastwards(from, to - 1, y);
            assert(self.outside_zones(to, y));
            self.lemma_next_explored(to - 1, y, Direction::East);
        }
    }

    /// When nothing is left to explore, a path has entered every cell
    /// outside both zones: the start cell leads to each of them, up the
    /// first column and along a row, and for the cells beside the start
    /// zone down a column from the row above that zone.
    pub proof fn lemma_exhausted_explored(self)
        requires
            self.wf(),
            self.exhausted(),
        ensures
            self.explored(),
    {
        assert(self.cell_shaped(self.start_x, self.start_y));
        assert(self.waypoint(0, self.start_y));
        assert forall|x: int, y: int| self.outside_zones(x, y) implies (#[trigger] self.at(
            x,
            y,
        )).visited by {
            let row = if y >= self.zone {
                y
            } else {
                self.zone as int
            };
            self.lemma_northwards(0, self.start_y, row);
            self.lemma_eastwards(0, x, row);
            self.lemma_southwards(x, row, y);
            assert(self.cell_shaped(x, y));
        }
    }

    /// A maze in which nothing is left to explore has reached its goal:
    /// the cell left of the finish zone in the top row has been entered,
    /// and the step from it into the finish zone is no longer valid.
    pub proof fn lemma_exhausted_goal(self)
        requires
            self.wf(),
            self.exhausted(),
        ensures
            self.goal_reached,
    {
        let x = self.x_size - self.zone - 1;
        let y = self.y_size - 1;
        self.lemma_exhausted_explored();
        assert(self.outside_zones(x, y));
        assert(self.at(x, y).visited);
        assert(self.cell_shaped(x, y));
        assert(self.waypoint(x, y));
        assert(self.dead_end(x, y));
        assert(!self.valid_move(x, y, Direction::East));
        assert(self.cell_shaped(x + 1, y));
        assert(self.node_inv(x + 1, y));
    }
}

} // verus!
