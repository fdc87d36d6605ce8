//! The moves of the generation engine: a frontier path advances through
//! the grid, branches, steps back at a dead end, or retires at the start
//! cell.

use vstd::prelude::*;
use crate::direction::Direction;
use crate::grid::{step_x, step_y, MazeView};
use crate::maze::{step, Maze};

verus! {

/// A maze under generation: the grid, the positions of the active frontier
/// paths, and the path whose turn it is.
pub struct EngineState {
    /// The grid with the edges recorded so far.
    pub maze: MazeView,
    /// The current cell of each active path.
    pub paths: Seq<(u32, u32)>,
    /// The index of the path that moves next; the number of paths when
    /// every path has moved in this round.
    pub index: int,
}

/// The sum, over the paths, of the depth of each path's cell plus one:
/// the number of backward steps after which every path has retired.
pub open spec fn load(maze: MazeView, paths: Seq<(u32, u32)>) -> nat
    decreases paths.len(),
{
    if paths.len() == 0 {
        0
    } else {
        load(maze, paths.drop_last()) + maze.depth(paths.last().0 as int, paths.last().1 as int)
            + 1
    }
}

/// Whether every path stands on a cell where a path can stand.
pub open spec fn on_waypoints(maze: MazeView, paths: Seq<(u32, u32)>) -> bool {
    forall|i: int|
        0 <= i < paths.len() ==> maze.waypoint((#[trigger] paths[i]).0 as int, paths[i].1 as int)
}

impl EngineState {
    /// The invariant of the engine: the maze meets its own, every path
    /// stands on a cell where a path can stand, and the index is in range.
    pub open spec fn wf(self) -> bool {
        &&& self.maze.wf()
        &&& on_waypoints(self.maze, self.paths)
        &&& 0 <= self.index <= self.paths.len()
    }

    /// The state after the path at `index` has moved.
    ///
    /// With a direction, the edge that way is recorded; if `branch` is set,
    /// a new path is first added at the cell of the path.  The path moves
    /// on to the neighbour, unless the neighbour lies in the finish zone:
    /// then the goal is reached there and the path stays where it is, to
    /// go on from its cell in the next round.  Without a direction the
    /// path steps back to the cell it came from, and retires if it stands
    /// on the start cell.  A path that retires leaves the list, so the
    /// index then stays.
    pub open spec fn advance(self, choice: Option<Direction>, branch: bool) -> EngineState {
        let here = self.paths[self.index];
        let x = here.0 as int;
        let y = here.1 as int;
        match choice {
            Some(direction) => {
                let nx = step_x(x, direction);
                let ny = step_y(y, direction);
                let spawned = if branch {
                    self.paths.push(here)
                } else {
                    self.paths
                };
                let maze = self.maze.record_edge(x, y, direction);
                if self.maze.at(nx, ny).finish_area {
                    EngineState { maze, paths: spawned, index: self.index + 1 }
                } else {
                    EngineState {
                        maze,
                        paths: spawned.update(self.index, (nx as u32, ny as u32)),
                        index: self.index + 1,
                    }
                }
            },
            None => {
                if self.maze.is_start(x, y) {
                    EngineState { paths: self.paths.remove(self.index), ..self }
                } else {
                    let back = self.maze.parent(x, y);
                    EngineState {
                        paths: self.paths.update(self.index, (back.0 as u32, back.1 as u32)),
                        index: self.index + 1,
                        ..self
                    }
                }
            },
        }
    }

    /// Whether this state is nearer to the end of generation than
    /// `before`: fewer cells are unvisited, or as many and the paths have
    /// fewer backward steps left.
    pub open spec fn nearer_than(self, before: EngineState) -> bool {
        self.maze.unvisited() < before.maze.unvisited() || (self.maze.unvisited()
            == before.maze.unvisited() && load(self.maze, self.paths) < load(
            before.maze,
            before.paths,
        ))
    }
}

/// A path that moves changes the load by the difference of the depths.
proof fn lemma_load_update(maze: MazeView, paths: Seq<(u32, u32)>, i: int, moved: (u32, u32))
    requires
        0 <= i < paths.len(),
    ensures
        load(maze, paths.update(i, moved)) + maze.depth(paths[i].0 as int, paths[i].1 as int)
            == load(maze, paths) + maze.depth(moved.0 as int, moved.1 as int),
    decreases paths.len(),
{
    if i == paths.len() - 1 {
        assert(paths.update(i, moved).drop_last() =~= paths.drop_last());
    } else {
        assert(paths.update(i, moved).drop_last() =~= paths.drop_last().update(i, moved));
        lemma_load_update(maze, paths.drop_last(), i, moved);
    }
}

/// A path that retires takes its depth and one off the load.
proof fn lemma_load_remove(maze: MazeView, paths: Seq<(u32, u32)>, i: int)
    requires
        0 <= i < paths.len(),
    ensures
        load(maze, paths.remove(i)) + maze.depth(paths[i].0 as int, paths[i].1 as int) + 1 == load(
            maze,
            paths,
        ),
    decreases paths.len(),
{
    if i == paths.len() - 1 {
        assert(paths.remove(i) =~= paths.drop_last());
    } else {
        assert(paths.remove(i).drop_last() =~= paths.drop_last().remove(i));
        assert(paths.remove(i).last() == paths.last());
        lemma_load_remove(maze, paths.drop_last(), i);
    }
}

/// A step of one path leaves the load of paths that stand still as it was.
proof fn lemma_load_step(
    maze: MazeView,
    after: MazeView,
    x: int,
    y: int,
    d: Direction,
    paths: Seq<(u32, u32)>,
)
    requires
        maze.wf(),
        maze.waypoint(x, y),
        maze.valid_move(x, y, d),
        maze.steps_to(after, x, y, d),
        on_waypoints(maze, paths),
    ensures
        load(after, paths) == load(maze, paths),
        on_waypoints(after, paths),
    decreases paths.len(),
{
    maze.lemma_step_depth(after, x, y, d);
    assert forall|i: int| 0 <= i < paths.len() implies after.waypoint(
        (#[trigger] paths[i]).0 as int,
        paths[i].1 as int,
    ) by {
        maze.lemma_step_waypoint(after, x, y, d, paths[i].0 as int, paths[i].1 as int);
    }
    if paths.len() > 0 {
        assert(on_waypoints(maze, paths.drop_last())) by {
            assert forall|i: int| 0 <= i < paths.drop_last().len() implies maze.waypoint(
                (#[trigger] paths.drop_last()[i]).0 as int,
                paths.drop_last()[i].1 as int,
            ) by {
                assert(paths.drop_last()[i] == paths[i]);
            }
        }
        lemma_load_step(maze, after, x, y, d, paths.drop_last());
        let last = paths.last();
        assert(maze.waypoint(last.0 as int, last.1 as int));
        assert(maze.reached(last.0 as int, last.1 as int));
    }
}

impl EngineState {
    /// A move of one path keeps the invariant of the engine, makes the maze
    /// grow, and brings the end of generation nearer.
    pub proof fn lemma_advance(self, choice: Option<Direction>, branch: bool)
        requires
            self.wf(),
            self.index < self.paths.len(),
            choice matches Some(direction) ==> self.maze.valid_move(
                self.paths[self.index].0 as int,
                self.paths[self.index].1 as int,
                direction,
            ),
        ensures
            self.advance(choice, branch).wf(),
            self.advance(choice, branch).nearer_than(self),
            self.maze.grows_to(self.advance(choice, branch).maze),
            choice is None ==> self.advance(choice, branch).maze == self.maze,
    {
        let here = self.paths[self.index];
        let x = here.0 as int;
        let y = here.1 as int;
        let after = self.advance(choice, branch);
        assert(self.maze.waypoint(x, y));
        match choice {
            Some(direction) => {
                let nx = step_x(x, direction);
                let ny = step_y(y, direction);
                let spawned = if branch {
                    self.paths.push(here)
                } else {
                    self.paths
                };
                assert(on_waypoints(self.maze, spawned));
                self.maze.lemma_record_edge_steps(x, y, direction);
                self.maze.lemma_step_wf(after.maze, x, y, direction);
                self.maze.lemma_step_grows(after.maze, x, y, direction);
                lemma_load_step(self.maze, after.maze, x, y, direction, spawned);
                assert(after.maze.at(nx, ny) == self.maze.at(nx, ny).with_visit());
                assert(after.maze.cell_shaped(nx, ny));
                assert(self.maze.cell_shaped(nx, ny));
            },
            None => {
                if self.maze.is_start(x, y) {
                    lemma_load_remove(self.maze, self.paths, self.index);
                } else {
                    let back = self.maze.parent(x, y);
                    self.maze.lemma_parent_waypoint(x, y);
                    self.maze.lemma_depth_parent(x, y);
                    lemma_load_update(
                        self.maze,
                        self.paths,
                        self.index,
                        (back.0 as u32, back.1 as u32),
                    );
                }
            },
        }
    }
}

impl Maze {
    /// Moves the path at `index` one step.
    ///
    /// With a direction, which must be a valid move, the edge that way is
    /// recorded; if `branch` is set, a new path is first added at the cell
    /// of the path.  The path moves on to the neighbour, unless the
    /// neighbour lies in the finish zone: then the goal is reached there
    /// and the path stays where it is.  Without a direction the path steps
    /// back to the cell it came from, and retires if it stands on the start
    /// cell.  The result is the index of the path that moves next.
    pub fn advance(
        &mut self,
        paths: &mut Vec<(u32, u32)>,
        index: usize,
        choice: Option<Direction>,
        branch: bool,
    ) -> (next: usize)
        requires
            (EngineState { maze: old(self)@, paths: old(paths)@, index: index as int }).wf(),
            index < old(paths)@.len(),
            choice matches Some(direction) ==> old(self)@.valid_move(
                old(paths)@[index as int].0 as int,
                old(paths)@[index as int].1 as int,
                direction,
            ),
        ensures
            (EngineState { maze: final(self)@, paths: final(paths)@, index: next as int }) == (
            EngineState { maze: old(self)@, paths: old(paths)@, index: index as int }).advance(
                choice,
                branch,
            ),
            (EngineState { maze: final(self)@, paths: final(paths)@, index: next as int }).wf(),
            (EngineState {
                maze: final(self)@,
                paths: final(paths)@,
                index: next as int,
            }).nearer_than(
                EngineState { maze: old(self)@, paths: old(paths)@, index: index as int },
            ),
            old(self)@.grows_to(final(self)@),
    {
        let ghost before = EngineState { maze: self@, paths: paths@, index: index as int };
        proof {
            before.lemma_advance(choice, branch);
        }
        let count: usize = paths.len();
        assert(index < count);
        let (x, y) = paths[index];
        match choice {
            Some(direction) => {
                if branch {
                    paths.push((x, y));
                }
                let (nx, ny) = step(x, y, &direction);
                let finish = self.get_cell(nx, ny).finish_area;
                self.record_edge(x, y, &direction);
                if !finish {
                    paths[index] = (nx, ny);
                }
                index + 1
            },
            None => {
                let (start_x, start_y) = self.start();
                if x == start_x && y == start_y {
                    paths.remove(index);
                    index
                } else {
                    proof {
                        self@.lemma_parent_waypoint(x as int, y as int);
                    }
                    let previous = self.get_previous_cell(x, y);
                    paths[index] = (previous.x, previous.y);
                    index + 1
                }
            },
        }
    }
}

impl EngineState {
    /// When the last path retires, it has found no move at the start cell.
    pub(crate) proof fn lemma_retired(self, choice: Option<Direction>, branch: bool)
        requires
            self.wf(),
            self.index < self.paths.len(),
            choice matches Some(direction) ==> self.maze.valid_move(
                self.paths[self.index].0 as int,
                self.paths[self.index].1 as int,
                direction,
            ),
            choice is None ==> self.maze.dead_end(
                self.paths[self.index].0 as int,
                self.paths[self.index].1 as int,
            ),
            self.advance(choice, branch).paths.len() == 0,
        ensures
            choice is None,
            self.maze.dead_end(self.maze.start_x, self.maze.start_y),
    {
    }
}

} // verus!
