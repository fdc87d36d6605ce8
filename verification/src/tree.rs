//! What holds of every maze: the recorded edges form a tree rooted at the
//! start cell, and the finish zone is entered at most once.

use vstd::prelude::*;
use crate::direction::Direction;
use crate::grid::{step_x, step_y, MazeView};
use crate::maze::{fresh_cell, fresh_maze};
use crate::strategy::MeanderStrategy;

verus! {

impl MazeView {
    /// What holds of the cell at `(x, y)` and the edges around it.
    pub open spec fn node_inv(self, x: int, y: int) -> bool {
        let c = self.at(x, y);
        &&& self.in_degree(x, y) == if c.visited { 1nat } else { 0nat }
        &&& c.visited ==> !c.start_area
        &&& c.visited && c.finish_area ==> self.goal_reached && x == self.finish_x && y
            == self.finish_y
        &&& forall|d: Direction| #[trigger]
            self.has_edge(x, y, d) ==> {
                &&& self.waypoint(x, y)
                &&& self.in_bounds(step_x(x, d), step_y(y, d))
                &&& self.at(step_x(x, d), step_y(y, d)).visited
            }
    }

    /// Whether `rank` counts, for every visited cell, the edges on the way
    /// from the start cell to it.  A rank never exceeds the number of
    /// visited cells.
    pub open spec fn ranked(self, rank: spec_fn(int, int) -> nat) -> bool {
        &&& rank(self.start_x, self.start_y) == 0
        &&& forall|x: int, y: int|
            self.in_bounds(x, y) && (#[trigger] self.at(x, y)).visited ==> {
                &&& rank(x, y) == rank(self.parent(x, y).0, self.parent(x, y).1) + 1
                &&& rank(x, y) + self.unvisited() <= self.x_size * self.y_size
            }
    }

    /// The invariant of a maze.  Its shape is fixed.  A cell has one
    /// incoming edge if a path has entered it and none otherwise; no path
    /// enters the start zone; every edge starts at a cell where a path can
    /// stand and ends at a visited cell; the finish zone holds at most one
    /// visited cell, the one where the goal was reached; and the visited
    /// cells can be ranked by their distance from the start cell, so the
    /// edges hold no cycle.
    pub open spec fn wf(self) -> bool {
        &&& self.shaped()
        &&& forall|x: int, y: int| self.in_bounds(x, y) ==> #[trigger] self.node_inv(x, y)
        &&& self.goal_reached ==> {
            &&& self.in_bounds(self.finish_x, self.finish_y)
            &&& self.at(self.finish_x, self.finish_y).finish_area
            &&& self.at(self.finish_x, self.finish_y).visited
        }
        &&& exists|rank: spec_fn(int, int) -> nat| self.ranked(rank)
    }

    /// Whether `(x, y)` is the start cell or a cell that a path has entered.
    pub open spec fn reached(self, x: int, y: int) -> bool {
        self.in_bounds(x, y) && (self.is_start(x, y) || self.at(x, y).visited)
    }

    /// The number of edges on the way from the start cell to `(x, y)`.
    pub closed spec fn depth(self, x: int, y: int) -> nat {
        (choose|rank: spec_fn(int, int) -> nat| self.ranked(rank))(x, y)
    }

    /// The cell reached from `(x, y)` by following incoming edges backwards
    /// `steps` times.
    pub open spec fn ancestor(self, x: int, y: int, steps: nat) -> (int, int)
        decreases steps,
    {
        if steps == 0 {
            (x, y)
        } else {
            self.ancestor(self.parent(x, y).0, self.parent(x, y).1, (steps - 1) as nat)
        }
    }
}

impl MazeView {
    /// Following incoming edges backwards from a reached cell, as many
    /// times as the cell is deep, ends at the start cell.
    pub proof fn lemma_ancestor_at_depth(self, x: int, y: int)
        requires
            self.wf(),
            self.reached(x, y),
        ensures
            self.ancestor(x, y, self.depth(x, y)) == (self.start_x, self.start_y),
        decreases self.depth(x, y),
    {
        if self.at(x, y).visited {
            self.lemma_parent_waypoint(x, y);
            self.lemma_depth_parent(x, y);
            let p = self.parent(x, y);
            self.lemma_ancestor_at_depth(p.0, p.1);
        } else {
            self.lemma_depth_start();
        }
    }

    /// Every visited cell has exactly one incoming edge, and every other
    /// cell, the start cell among them, has none.
    pub proof fn lemma_one_incoming_edge(self, x: int, y: int)
        requires
            self.wf(),
            self.in_bounds(x, y),
        ensures
            self.at(x, y).visited ==> self.in_degree(x, y) == 1,
            !self.at(x, y).visited ==> self.in_degree(x, y) == 0,
            self.is_start(x, y) ==> self.in_degree(x, y) == 0,
    {
        assert(self.node_inv(x, y));
        assert(self.cell_shaped(x, y));
    }

    /// The edges hold no cycle: from every visited cell the incoming edges
    /// lead back to the start cell in no more steps than the grid has cells.
    pub proof fn lemma_reaches_start(self, x: int, y: int)
        requires
            self.wf(),
            self.in_bounds(x, y),
            self.at(x, y).visited,
        ensures
            exists|steps: nat|
                steps <= self.x_size * self.y_size && #[trigger] self.ancestor(x, y, steps) == (
                    self.start_x,
                    self.start_y,
                ),
    {
        self.lemma_ancestor_at_depth(x, y);
        self.lemma_depth_parent(x, y);
        assert(self.ancestor(x, y, self.depth(x, y)) == (self.start_x, self.start_y));
    }

    /// The goal is reached if and only if a cell of the finish zone is
    /// visited, and no two cells of the finish zone are.
    pub proof fn lemma_goal_iff_finish_visited(self)
        requires
            self.wf(),
        ensures
            self.goal_reached <==> exists|x: int, y: int|
                self.in_bounds(x, y) && (#[trigger] self.at(x, y)).visited && self.at(
                    x,
                    y,
                ).finish_area,
            forall|x1: int, y1: int, x2: int, y2: int|
                self.in_bounds(x1, y1) && (#[trigger] self.at(x1, y1)).visited && self.at(
                    x1,
                    y1,
                ).finish_area && self.in_bounds(x2, y2) && (#[trigger] self.at(x2, y2)).visited
                    && self.at(x2, y2).finish_area ==> x1 == x2 && y1 == y2,
    {
        if self.goal_reached {
            assert(self.at(self.finish_x, self.finish_y).visited);
        }
        assert forall|x: int, y: int|
            self.in_bounds(x, y) && (#[trigger] self.at(x, y)).visited && self.at(
                x,
                y,
            ).finish_area implies self.goal_reached && x == self.finish_x && y
            == self.finish_y by {
            assert(self.node_inv(x, y));
        }
    }

    /// The edge into a visited cell comes from a cell where a path can stand.
    pub(crate) proof fn lemma_parent_waypoint(self, x: int, y: int)
        requires
            self.wf(),
            self.in_bounds(x, y),
            self.at(x, y).visited,
        ensures
            self.previous_direction(x, y) is Some,
            self.waypoint(self.parent(x, y).0, self.parent(x, y).1),
            self.has_edge(
                self.parent(x, y).0,
                self.parent(x, y).1,
                self.previous_direction(x, y).unwrap(),
            ),
            !(self.parent(x, y).0 == x && self.parent(x, y).1 == y),
    {
        assert(self.node_inv(x, y));
        let p = self.parent(x, y);
        let e = self.previous_direction(x, y).unwrap();
        assert(self.has_edge(p.0, p.1, e));
        assert(self.node_inv(p.0, p.1));
    }

    /// Two rankings of a maze agree on every cell that was reached.
    proof fn lemma_rank_unique(
        self,
        first: spec_fn(int, int) -> nat,
        second: spec_fn(int, int) -> nat,
        x: int,
        y: int,
    )
        requires
            self.wf(),
            self.ranked(first),
            self.ranked(second),
            self.reached(x, y),
        ensures
            first(x, y) == second(x, y),
        decreases first(x, y),
    {
        if self.at(x, y).visited {
            self.lemma_parent_waypoint(x, y);
            let p = self.parent(x, y);
            self.lemma_rank_unique(first, second, p.0, p.1);
        } else {
            assert(self.is_start(x, y));
        }
    }

    /// The depth of a reached cell is its rank in any ranking.
    proof fn lemma_depth_is_rank(self, rank: spec_fn(int, int) -> nat, x: int, y: int)
        requires
            self.wf(),
            self.ranked(rank),
            self.reached(x, y),
        ensures
            self.depth(x, y) == rank(x, y),
    {
        let chosen = choose|rank: spec_fn(int, int) -> nat| self.ranked(rank);
        self.lemma_rank_unique(chosen, rank, x, y);
    }

    /// The start cell has depth 0.
    pub proof fn lemma_depth_start(self)
        requires
            self.wf(),
        ensures
            self.depth(self.start_x, self.start_y) == 0,
    {
    }

    /// A visited cell lies one edge deeper than the cell its incoming edge
    /// comes from, and no deeper than there are visited cells.
    pub proof fn lemma_depth_parent(self, x: int, y: int)
        requires
            self.wf(),
            self.in_bounds(x, y),
            self.at(x, y).visited,
        ensures
            self.depth(x, y) == self.depth(self.parent(x, y).0, self.parent(x, y).1) + 1,
            self.depth(x, y) + self.unvisited() <= self.x_size * self.y_size,
    {
    }
}

impl MazeView {
    /// After a valid step every cell reached before keeps its depth, and the
    /// cell that was entered lies one edge deeper than the cell that was left.
    pub(crate) proof fn lemma_step_depth(self, after: MazeView, x: int, y: int, d: Direction)
        requires
            self.wf(),
            self.waypoint(x, y),
            self.valid_move(x, y, d),
            self.steps_to(after, x, y, d),
        ensures
            after.wf(),
            after.depth(step_x(x, d), step_y(y, d)) == self.depth(x, y) + 1,
            forall|a: int, b: int|
                self.reached(a, b) ==> #[trigger] after.depth(a, b) == self.depth(a, b),
    {
        let nx = step_x(x, d);
        let ny = step_y(y, d);
        self.lemma_step_wf(after, x, y, d);
        let rank = choose|rank: spec_fn(int, int) -> nat| self.ranked(rank);
        let above = |a: int, b: int|
            if a == step_x(x, d) && b == step_y(y, d) {
                (rank(x, y) + 1) as nat
            } else {
                rank(a, b)
            };
        self.lemma_step_ranked(after, x, y, d, rank);
        assert(after.at(nx, ny) == self.at(nx, ny).with_visit());
        after.lemma_depth_is_rank(above, nx, ny);
        assert(self.cell_shaped(self.start_x, self.start_y));
        assert(self.cell_shaped(nx, ny));
        assert forall|a: int, b: int| self.reached(a, b) implies #[trigger] after.depth(a, b)
            == self.depth(a, b) by {
            assert(after.at(a, b) == if a == x && b == y {
                self.at(a, b).with_edge(d)
            } else if a == nx && b == ny {
                self.at(a, b).with_visit()
            } else {
                self.at(a, b)
            });
            after.lemma_depth_is_rank(above, a, b);
        }
    }
}

impl MazeView {
    /// A maze on which no path has moved meets the invariant.
    pub proof fn lemma_fresh_wf(
        self,
        x_size: nat,
        y_size: nat,
        zone: nat,
        strategies: Seq<MeanderStrategy>,
    )
        requires
            self == fresh_maze(x_size, y_size, zone, strategies),
            0 < zone,
            2 * zone < x_size <= u32::MAX,
            2 * zone < y_size <= u32::MAX,
            strategies.len() == 2,
        ensures
            self.wf(),
            self.untouched(),
    {
        assert forall|x: int, y: int| self.in_bounds(x, y) implies #[trigger] self.cell_shaped(
            x,
            y,
        ) by {}
        assert forall|x: int, y: int, d: Direction| !self.has_edge(x, y, d) by {
            if self.in_bounds(x, y) {
                assert(self.at(x, y) == fresh_cell(x, y, x_size as int, y_size as int, zone as int));
            }
        }
        assert forall|x: int, y: int| self.in_bounds(x, y) implies #[trigger] self.node_inv(
            x,
            y,
        ) by {
            assert(self.at(x, y) == fresh_cell(x, y, x_size as int, y_size as int, zone as int));
        }
        let rank = |x: int, y: int| 0nat;
        assert(self.ranked(rank));
    }
}

} // verus!
