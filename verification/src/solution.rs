//! The way through a finished maze, from the start cell to the finish cell.

use vstd::prelude::*;
use crate::cell::Cell;
use crate::direction::Direction;
use crate::grid::{step_x, step_y, MazeView};
use crate::maze::Maze;

verus! {

impl MazeView {
    /// The cells met on the way back from `(x, y)` along incoming edges,
    /// `steps` edges long, written from its far end to `(x, y)`.
    pub open spec fn trail(self, x: int, y: int, steps: nat) -> Seq<(int, int)>
        decreases steps,
    {
        if steps == 0 {
            seq![(x, y)]
        } else {
            self.trail(self.parent(x, y).0, self.parent(x, y).1, (steps - 1) as nat).push((x, y))
        }
    }

    /// The positions on the way from the start cell to the finish cell.
    pub open spec fn solution(self) -> Seq<(int, int)> {
        self.trail(self.finish_x, self.finish_y, self.depth(self.finish_x, self.finish_y))
    }

    /// The cells on the way from the start cell to the finish cell.
    pub open spec fn solution_cells(self) -> Seq<Cell> {
        Seq::new(self.solution().len(), |i: int| self.at(self.solution()[i].0, self.solution()[i].1))
    }

    /// One more step back leads to the cell before the one reached so far.
    proof fn lemma_ancestor_next(self, x: int, y: int, steps: nat)
        ensures
            self.ancestor(x, y, steps + 1) == self.parent(
                self.ancestor(x, y, steps).0,
                self.ancestor(x, y, steps).1,
            ),
        decreases steps,
    {
        if steps > 0 {
            self.lemma_ancestor_next(self.parent(x, y).0, self.parent(x, y).1, (steps - 1) as nat);
            assert(self.ancestor(x, y, steps + 1) == self.ancestor(
                self.parent(x, y).0,
                self.parent(x, y).1,
                steps,
            ));
        } else {
            assert(self.ancestor(x, y, 1) == self.ancestor(
                self.parent(x, y).0,
                self.parent(x, y).1,
                0,
            ));
        }
    }

    /// A trail of `steps` edges holds `steps + 1` cells, and its cell at
    /// `i` lies `steps - i` edges back from `(x, y)`.
    proof fn lemma_trail(self, x: int, y: int, steps: nat)
        ensures
            self.trail(x, y, steps).len() == steps + 1,
            forall|i: int|
                0 <= i <= steps ==> #[trigger] self.trail(x, y, steps)[i] == self.ancestor(
                    x,
                    y,
                    (steps - i) as nat,
                ),
        decreases steps,
    {
        if steps > 0 {
            let p = self.parent(x, y);
            self.lemma_trail(p.0, p.1, (steps - 1) as nat);
            assert forall|i: int| 0 <= i <= steps implies #[trigger] self.trail(x, y, steps)[i]
                == self.ancestor(x, y, (steps - i) as nat) by {
                if i < steps {
                    assert(self.trail(x, y, steps)[i] == self.trail(p.0, p.1, (steps - 1) as nat)[i]);
                    assert(self.ancestor(x, y, (steps - i) as nat) == self.ancestor(
                        p.0,
                        p.1,
                        (steps - 1 - i) as nat,
                    ));
                }
            }
        }
    }

    /// The cell `steps` edges back from a reached cell is reached, and lies
    /// that much less deep.
    proof fn lemma_ancestor_depth(self, x: int, y: int, steps: nat)
        requires
            self.wf(),
            self.reached(x, y),
            steps <= self.depth(x, y),
        ensures
            self.reached(self.ancestor(x, y, steps).0, self.ancestor(x, y, steps).1),
            self.depth(self.ancestor(x, y, steps).0, self.ancestor(x, y, steps).1) + steps
                == self.depth(x, y),
        decreases steps,
    {
        if steps > 0 {
            if self.at(x, y).visited {
                self.lemma_parent_waypoint(x, y);
                self.lemma_depth_parent(x, y);
                self.lemma_ancestor_depth(
                    self.parent(x, y).0,
                    self.parent(x, y).1,
                    (steps - 1) as nat,
                );
            } else {
                self.lemma_depth_start();
            }
        }
    }

    /// The solution of a maze whose goal is reached is a way through it:
    /// it begins at the start cell and ends at the finish cell, each of its
    /// cells has an edge to the next, no cell comes twice, and it is no
    /// longer than the grid has cells.
    pub proof fn lemma_solution(self)
        requires
            self.wf(),
            self.goal_reached,
        ensures
            self.solution().len() == self.depth(self.finish_x, self.finish_y) + 1,
            2 <= self.solution().len() <= self.x_size * self.y_size + 1,
            self.solution()[0] == (self.start_x, self.start_y),
            self.solution().last() == (self.finish_x, self.finish_y),
            forall|i: int|
                0 <= i < self.solution().len() ==> self.reached(
                    (#[trigger] self.solution()[i]).0,
                    self.solution()[i].1,
                ) && self.depth(self.solution()[i].0, self.solution()[i].1) == i,
            forall|i: int|
                0 <= i < self.solution().len() - 1 ==> self.follows(
                    #[trigger] self.solution()[i],
                    self.solution()[i + 1],
                ),
            self.solution().no_duplicates(),
    {
        let fx = self.finish_x;
        let fy = self.finish_y;
        let deep = self.depth(fx, fy);
        let way = self.solution();
        self.lemma_trail(fx, fy, deep);
        self.lemma_depth_parent(fx, fy);
        self.lemma_ancestor_at_depth(fx, fy);
        assert forall|i: int| 0 <= i < way.len() implies self.reached(
            (#[trigger] way[i]).0,
            way[i].1,
        ) && self.depth(way[i].0, way[i].1) == i by {
            self.lemma_ancestor_depth(fx, fy, (deep - i) as nat);
        }
        assert forall|i: int| 0 <= i < way.len() - 1 implies self.follows(
            #[trigger] way[i],
            way[i + 1],
        ) by {
            self.lemma_ancestor_depth(fx, fy, (deep - i - 1) as nat);
            self.lemma_ancestor_next(fx, fy, (deep - i - 1) as nat);
            let next = way[i + 1];
            assert(self.depth(next.0, next.1) == i + 1);
            assert(self.reached(next.0, next.1));
            self.lemma_depth_start();
            self.lemma_parent_waypoint(next.0, next.1);
        }
        assert forall|i: int, j: int| 0 <= i < way.len() && 0 <= j < way.len() && i != j implies way[i]
            != way[j] by {
            assert(self.depth(way[i].0, way[i].1) == i);
            assert(self.depth(way[j].0, way[j].1) == j);
        }
    }

    /// Whether an edge leads from the cell at `from` to the cell at `to`.
    pub open spec fn joined(self, from: (int, int), to: (int, int)) -> bool {
        exists|d: Direction| #[trigger]
            self.has_edge(from.0, from.1, d) && to.0 == step_x(from.0, d) && to.1 == step_y(
                from.1,
                d,
            )
    }

    /// An edge into a cell is the edge by which the cell was entered: it
    /// comes from the cell before it.
    proof fn lemma_joined_follows(self, from: (int, int), to: (int, int))
        requires
            self.wf(),
            self.joined(from, to),
        ensures
            self.follows(from, to),
            self.in_bounds(to.0, to.1),
            self.at(to.0, to.1).visited,
    {
        let d = choose|d: Direction| #[trigger]
            self.has_edge(from.0, from.1, d) && to.0 == step_x(from.0, d) && to.1 == step_y(
                from.1,
                d,
            );
        assert(self.node_inv(from.0, from.1));
        assert(self.node_inv(to.0, to.1));
        assert(self.arrives(to.0, to.1, d));
    }

    /// On a way along edges from a reached cell, every cell is reached,
    /// lies one edge deeper than the cell before it, and was entered from
    /// that cell.
    proof fn lemma_way_depth(self, way: Seq<(int, int)>, i: int)
        requires
            self.wf(),
            way.len() > 0,
            self.reached(way[0].0, way[0].1),
            forall|k: int| 0 <= k < way.len() - 1 ==> self.joined(#[trigger] way[k], way[k + 1]),
            0 <= i < way.len(),
        ensures
            self.reached(way[i].0, way[i].1),
            self.depth(way[i].0, way[i].1) == self.depth(way[0].0, way[0].1) + i,
            i > 0 ==> way[i - 1] == self.parent(way[i].0, way[i].1),
        decreases i,
    {
        if i > 0 {
            self.lemma_way_depth(way, i - 1);
            assert(self.joined(way[i - 1], way[i - 1 + 1]));
            self.lemma_joined_follows(way[i - 1], way[i]);
            self.lemma_depth_parent(way[i].0, way[i].1);
        }
    }

    /// On a way along edges, the cell `back` places before the end lies
    /// `back` edges back from the end.
    proof fn lemma_way_back(self, way: Seq<(int, int)>, back: nat)
        requires
            self.wf(),
            way.len() > 0,
            self.reached(way[0].0, way[0].1),
            forall|k: int| 0 <= k < way.len() - 1 ==> self.joined(#[trigger] way[k], way[k + 1]),
            back < way.len(),
        ensures
            way[way.len() - 1 - back] == self.ancestor(way.last().0, way.last().1, back),
        decreases back,
    {
        if back > 0 {
            self.lemma_way_back(way, (back - 1) as nat);
            self.lemma_ancestor_next(way.last().0, way.last().1, (back - 1) as nat);
            self.lemma_way_depth(way, way.len() - back);
        }
    }

    /// The solution is the only way through the maze: every way from the
    /// start cell to the finish cell along edges is the solution.
    pub proof fn lemma_solution_unique(self, way: Seq<(int, int)>)
        requires
            self.wf(),
            self.goal_reached,
            way.len() > 0,
            way[0] == (self.start_x, self.start_y),
            way.last() == (self.finish_x, self.finish_y),
            forall|k: int| 0 <= k < way.len() - 1 ==> self.joined(#[trigger] way[k], way[k + 1]),
        ensures
            way == self.solution(),
    {
        let deep = self.depth(self.finish_x, self.finish_y);
        assert(self.cell_shaped(self.start_x, self.start_y));
        self.lemma_depth_start();
        self.lemma_way_depth(way, way.len() - 1);
        self.lemma_trail(self.finish_x, self.finish_y, deep);
        assert forall|i: int| 0 <= i < way.len() implies way[i] == self.solution()[i] by {
            self.lemma_way_back(way, (way.len() - 1 - i) as nat);
        }
        assert(way =~= self.solution());
    }

    /// Whether an edge leads from the cell at `from` to the neighbouring
    /// cell at `to`, and is the edge by which `to` was entered.
    pub open spec fn follows(self, from: (int, int), to: (int, int)) -> bool {
        &&& self.previous_direction(to.0, to.1) matches Some(d) && self.has_edge(from.0, from.1, d)
            && to.0 == step_x(from.0, d) && to.1 == step_y(from.1, d)
        &&& from == self.parent(to.0, to.1)
    }
}

impl Maze {
    /// The cells on the way from the start cell to the finish cell, in
    /// that order, or `None` as long as the goal is not reached.
    pub fn solution_path(&self) -> (path: Option<Vec<Cell>>)
        requires
            self@.wf(),
        ensures
            match path {
                Some(cells) => {
                    &&& self@.goal_reached
                    &&& cells@ == self@.solution_cells()
                    &&& 2 <= cells@.len() <= self@.x_size * self@.y_size + 1
                    &&& cells@[0].x == self@.start_x && cells@[0].y == self@.start_y
                    &&& cells@.last().x == self@.finish_x && cells@.last().y == self@.finish_y
                    &&& forall|i: int|
                        0 <= i < cells@.len() ==> #[trigger] cells@[i] == self@.at(
                            cells@[i].x as int,
                            cells@[i].y as int,
                        )
                    &&& forall|i: int|
                        0 <= i < cells@.len() - 1 ==> self@.follows(
                            ((#[trigger] cells@[i]).x as int, cells@[i].y as int),
                            (cells@[i + 1].x as int, cells@[i + 1].y as int),
                        )
                    &&& forall|i: int, j: int|
                        0 <= i < j < cells@.len() ==> !((#[trigger] cells@[i]).x == (
                        #[trigger] cells@[j]).x && cells@[i].y == cells@[j].y)
                },
                None => !self@.goal_reached,
            },
    {
        let (finish_x, finish_y) = match self.finish() {
            Some(finish) => finish,
            None => {
                return None;
            },
        };
        let (start_x, start_y) = self.start();
        let ghost deep = self@.depth(finish_x as int, finish_y as int);
        let ghost mut back: nat = 0;
        let mut reversed: Vec<Cell> = Vec::new();
        let mut x: u32 = finish_x;
        let mut y: u32 = finish_y;
        proof {
            self@.lemma_depth_start();
        }
        while !(x == start_x && y == start_y)
            invariant
                self@.wf(),
                self@.goal_reached,
                start_x == self@.start_x,
                start_y == self@.start_y,
                finish_x == self@.finish_x,
                finish_y == self@.finish_y,
                deep == self@.depth(finish_x as int, finish_y as int),
                self@.reached(x as int, y as int),
                (x as int, y as int) == self@.ancestor(finish_x as int, finish_y as int, back),
                self@.depth(x as int, y as int) + back == deep,
                reversed@.len() == back,
                forall|j: int|
                    0 <= j < back ==> #[trigger] reversed@[j] == self@.at(
                        self@.ancestor(finish_x as int, finish_y as int, j as nat).0,
                        self@.ancestor(finish_x as int, finish_y as int, j as nat).1,
                    ),
            decreases self@.depth(x as int, y as int),
        {
            proof {
                self@.lemma_parent_waypoint(x as int, y as int);
                self@.lemma_depth_parent(x as int, y as int);
                self@.lemma_ancestor_next(finish_x as int, finish_y as int, back);
            }
            reversed.push(self.get_cell(x, y));
            let previous = self.get_previous_cell(x, y);
            x = previous.x;
            y = previous.y;
            proof {
                back = back + 1;
            }
        }
        reversed.push(self.get_cell(x, y));
        let mut cells: Vec<Cell> = Vec::new();
        let mut left: usize = reversed.len();
        proof {
            self@.lemma_trail(finish_x as int, finish_y as int, deep);
        }
        while left > 0
            invariant
                left <= reversed@.len(),
                reversed@.len() == deep + 1,
                cells@.len() == reversed@.len() - left,
                forall|i: int|
                    0 <= i < cells@.len() ==> #[trigger] cells@[i] == reversed@[deep - i],
            decreases left,
        {
            left = left - 1;
            cells.push(reversed[left]);
        }
        proof {
            assert(cells@ =~= self@.solution_cells());
            self@.lemma_solution();
            let way = self@.solution();
            assert forall|i: int| 0 <= i < cells@.len() implies (#[trigger] cells@[i]).x == way[i].0
                && cells@[i].y == way[i].1 by {
                assert(self@.reached(way[i].0, way[i].1));
                assert(self@.cell_shaped(way[i].0, way[i].1));
            }
            assert forall|i: int| 0 <= i < cells@.len() - 1 implies self@.follows(
                ((#[trigger] cells@[i]).x as int, cells@[i].y as int),
                (cells@[i + 1].x as int, cells@[i + 1].y as int),
            ) by {
                assert(self@.follows(way[i], way[i + 1]));
            }
        }
        Some(cells)
    }
}

} // verus!
