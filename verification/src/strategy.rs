//! The weighted policy by which a path picks its next direction.

use vstd::prelude::*;
use rand::rngs::ThreadRng;
use crate::direction::Direction;
use crate::grid::{step_x, step_y, MazeView};
use crate::maze::Maze;
use crate::sampling::{eligible, lemma_pick_reaches, pick, sample, select, total};

verus! {

/// The weights by which a path decides whether to go on, to turn left or to
/// turn right.  Each cell class of the grid has a strategy of its own.
#[derive(Clone, Copy, Debug, PartialEq, Eq)]
pub struct MeanderStrategy {
    /// Added for a move to the north or to the south.
    pub weight_north_south: u32,
    /// Added for a move to the east or to the west.
    pub weight_east_west: u32,
    /// Added for a move that keeps the direction of arrival.
    pub weight_forward: u32,
    /// Added for a move that turns left from the direction of arrival.
    pub weight_turn_left: u32,
    /// Added for a move that turns right from the direction of arrival.
    pub weight_turn_right: u32,
    /// Added for a move into a cell of the same class as the current one.
    pub weight_same_cell_type: u32,
}

impl MeanderStrategy {
    /// A strategy with the given weights, in the order north-south,
    /// east-west, forward, left turn, right turn, same cell class.
    pub fn new(i: u32, j: u32, k: u32, l: u32, m: u32, n: u32) -> (s: MeanderStrategy)
        ensures
            s == (MeanderStrategy {
                weight_north_south: i,
                weight_east_west: j,
                weight_forward: k,
                weight_turn_left: l,
                weight_turn_right: m,
                weight_same_cell_type: n,
            }),
    {
        MeanderStrategy {
            weight_north_south: i,
            weight_east_west: j,
            weight_forward: k,
            weight_turn_left: l,
            weight_turn_right: m,
            weight_same_cell_type: n,
        }
    }
}

/// The direction reached from `direction` by the given number of quarter
/// turns clockwise.
pub open spec fn turned(direction: Direction, quarter_turns: nat) -> Direction
    decreases quarter_turns,
{
    if quarter_turns == 0 {
        direction
    } else {
        turned(direction, (quarter_turns - 1) as nat).right()
    }
}

impl MazeView {
    /// The direction in which a path came to `(x, y)`: that of the incoming
    /// edge, and north where there is none.
    pub open spec fn arrival(self, x: int, y: int) -> Direction {
        match self.previous_direction(x, y) {
            Some(direction) => direction,
            None => Direction::North,
        }
    }

    /// The valid moves from `(x, y)` among the first `turns` directions
    /// looked at.  The first is a quarter turn clockwise from the direction
    /// of arrival, and each further one a quarter turn from the one before.
    pub open spec fn candidates_among(self, x: int, y: int, turns: nat) -> Seq<Direction>
        decreases turns,
    {
        if turns == 0 {
            Seq::empty()
        } else {
            let before = self.candidates_among(x, y, (turns - 1) as nat);
            let direction = turned(self.arrival(x, y), turns);
            if self.valid_move(x, y, direction) {
                before.push(direction)
            } else {
                before
            }
        }
    }

    /// The valid moves from `(x, y)`, in the order right turn, turning back,
    /// left turn, straight on.
    pub open spec fn candidates(self, x: int, y: int) -> Seq<Direction> {
        self.candidates_among(x, y, 4)
    }

    /// Whether no move from `(x, y)` is valid.
    pub open spec fn dead_end(self, x: int, y: int) -> bool {
        forall|direction: Direction| !self.valid_move(x, y, direction)
    }

    /// The strategy of the cell at `(x, y)`.
    pub open spec fn strategy_at(self, x: int, y: int) -> MeanderStrategy {
        self.strategies[self.at(x, y).cell_type as int]
    }

    /// The valid moves among the first `turns` directions looked at, each
    /// once.
    proof fn lemma_candidates_among(self, x: int, y: int, turns: nat)
        requires
            turns <= 4,
        ensures
            forall|direction: Direction|
                #![trigger self.candidates_among(x, y, turns).contains(direction)]
                self.candidates_among(x, y, turns).contains(direction) <==> self.valid_move(
                    x,
                    y,
                    direction,
                ) && turns_to(self.arrival(x, y), direction) <= turns,
            self.candidates_among(x, y, turns).no_duplicates(),
            self.candidates_among(x, y, turns).len() <= turns,
        decreases turns,
    {
        let found = self.candidates_among(x, y, turns);
        if turns > 0 {
            let before = self.candidates_among(x, y, (turns - 1) as nat);
            let last = turned(self.arrival(x, y), turns);
            self.lemma_candidates_among(x, y, (turns - 1) as nat);
            lemma_turned(self.arrival(x, y));
            assert(turns_to(self.arrival(x, y), last) == turns);
            assert(!before.contains(last));
            assert forall|direction: Direction| #![trigger found.contains(direction)]
                found.contains(direction) <==> self.valid_move(x, y, direction) && turns_to(
                    self.arrival(x, y),
                    direction,
                ) <= turns by {
                lemma_push_contains(before, last, direction);
                let needed = turns_to(self.arrival(x, y), direction);
                assert(before.contains(direction) <==> self.valid_move(x, y, direction) && needed
                    <= turns - 1);
                assert(needed == turns <==> direction == last);
                if self.valid_move(x, y, last) {
                    assert(found == before.push(last));
                } else {
                    assert(found == before);
                }
            }
            if self.valid_move(x, y, last) {
                assert forall|i: int, j: int|
                    0 <= i < found.len() && 0 <= j < found.len() && i != j implies found[i]
                    != found[j] by {
                    if i < before.len() {
                        assert(before.contains(found[i]));
                    }
                    if j < before.len() {
                        assert(before.contains(found[j]));
                    }
                }
            }
        }
    }

    /// The candidates are the valid moves, each once.
    pub proof fn lemma_candidates(self, x: int, y: int)
        ensures
            forall|direction: Direction|
                #![trigger self.candidates(x, y).contains(direction)]
                #![trigger self.valid_move(x, y, direction)]
                self.valid_move(x, y, direction) <==> self.candidates(x, y).contains(direction),
            self.candidates(x, y).no_duplicates(),
            self.candidates(x, y).len() <= 4,
            self.dead_end(x, y) <==> self.candidates(x, y).len() == 0,
    {
        let found = self.candidates(x, y);
        self.lemma_candidates_among(x, y, 4);
        assert forall|direction: Direction| #![trigger found.contains(direction)]
            self.valid_move(x, y, direction) <==> found.contains(direction) by {
            assert(1 <= turns_to(self.arrival(x, y), direction) <= 4);
        }
        if !self.dead_end(x, y) {
            let direction = choose|direction: Direction| self.valid_move(x, y, direction);
            assert(found.contains(direction));
        }
        if found.len() > 0 {
            assert(found.contains(found[0]));
            assert(self.valid_move(x, y, found[0]));
        }
    }
}

/// The number of quarter turns clockwise, from one to four, that lead from
/// `from` to `to`.
pub open spec fn turns_to(from: Direction, to: Direction) -> nat {
    if to == from.right() {
        1
    } else if to == from.opposite() {
        2
    } else if to == from.left() {
        3
    } else {
        4
    }
}

/// One quarter turn clockwise is a right turn, two turn back, three are a
/// left turn, and four lead round.
proof fn lemma_turned(direction: Direction)
    ensures
        turned(direction, 1) == direction.right(),
        turned(direction, 2) == direction.opposite(),
        turned(direction, 3) == direction.left(),
        turned(direction, 4) == direction,
{
    reveal_with_fuel(turned, 5);
}

/// What a sequence holds after a push: what it held, and the new element.
proof fn lemma_push_contains<T>(s: Seq<T>, pushed: T, sought: T)
    ensures
        s.push(pushed).contains(sought) <==> s.contains(sought) || sought == pushed,
{
    if s.contains(sought) {
        let i = choose|i: int| 0 <= i < s.len() && s[i] == sought;
        assert(s.push(pushed)[i] == sought);
    }
    if sought == pushed {
        assert(s.push(pushed)[s.len() as int] == sought);
    }
}

impl MeanderStrategy {
    /// The weight of a move from `(x, y)` towards `direction` for a path
    /// that came to `(x, y)` in the direction `previous`: the weight of the
    /// axis of the move, the weight for staying in the same cell class if
    /// the neighbour has the class of `(x, y)`, and the weight for going
    /// straight on, for a left turn or for a right turn if the move is one.
    pub open spec fn weight(
        &self,
        maze: MazeView,
        x: int,
        y: int,
        direction: Direction,
        previous: Direction,
    ) -> int {
        let next = maze.at(step_x(x, direction), step_y(y, direction));
        (if direction == Direction::North || direction == Direction::South {
            self.weight_north_south as int
        } else {
            self.weight_east_west as int
        }) + (if maze.at(x, y).cell_type == next.cell_type {
            self.weight_same_cell_type as int
        } else {
            0
        }) + (if direction == previous {
            self.weight_forward as int
        } else {
            0
        }) + (if direction == previous.left() {
            self.weight_turn_left as int
        } else {
            0
        }) + (if direction == previous.right() {
            self.weight_turn_right as int
        } else {
            0
        })
    }

    /// The weights of the candidates at `(x, y)`, in their order.
    pub open spec fn candidate_weights(&self, maze: MazeView, x: int, y: int) -> Seq<u64> {
        Seq::new(
            maze.candidates(x, y).len(),
            |i: int| self.weight(maze, x, y, maze.candidates(x, y)[i], maze.arrival(x, y)) as u64,
        )
    }

    /// The move that the number `draw` selects at `(x, y)`: none at a dead
    /// end, and else the candidate that `draw` picks by the weights.
    pub open spec fn direction_for(&self, maze: MazeView, x: int, y: int, draw: u64) -> Option<
        Direction,
    > {
        if maze.candidates(x, y).len() == 0 {
            None
        } else {
            Some(maze.candidates(x, y)[pick(self.candidate_weights(maze, x, y), draw)])
        }
    }

    /// The weight of a move from `(x, y)` towards `direction` for a path
    /// that came to `(x, y)` in the direction `previous_direction`.  The
    /// grid has a cell in that direction.
    pub fn get_weight(
        &self,
        maze: &Maze,
        x: u32,
        y: u32,
        direction: &Direction,
        previous_direction: &Direction,
    ) -> (weight: u64)
        requires
            maze@.shaped(),
            maze@.in_bounds(x as int, y as int),
            maze@.adjacent(x as int, y as int, *direction) is Some,
        ensures
            weight == self.weight(maze@, x as int, y as int, *direction, *previous_direction),
            weight <= 3 * u32::MAX,
    {
        let mut weight: u64 = 0;
        let current = maze.get_cell(x, y);
        let next = match maze.get_adjacent(x, y, direction) {
            Some(cell) => cell,
            None => current,
        };
        if *direction == Direction::North || *direction == Direction::South {
            weight = weight + self.weight_north_south as u64;
        } else {
            weight = weight + self.weight_east_west as u64;
        }
        if current.cell_type == next.cell_type {
            weight = weight + self.weight_same_cell_type as u64;
        }
        if *direction == *previous_direction {
            weight = weight + self.weight_forward as u64;
        }
        if *direction == previous_direction.left() {
            weight = weight + self.weight_turn_left as u64;
        }
        if *direction == previous_direction.right() {
            weight = weight + self.weight_turn_right as u64;
        }
        weight
    }

    /// The valid moves from `(x, y)` with their weights.  The directions
    /// are looked at clockwise, from a quarter turn right of the direction
    /// of arrival round to that direction itself.
    pub fn candidates(&self, maze: &Maze, x: u32, y: u32) -> (found: (Vec<Direction>, Vec<u64>))
        requires
            maze@.shaped(),
            maze@.in_bounds(x as int, y as int),
        ensures
            found.0@ == maze@.candidates(x as int, y as int),
            found.1@ == self.candidate_weights(maze@, x as int, y as int),
            total(found.1@) <= u64::MAX,
    {
        let previous_direction = match maze.get_previous_direction(x, y) {
            Some(direction) => direction,
            None => Direction::North,
        };
        let mut direction = previous_direction;
        let mut directions: Vec<Direction> = Vec::new();
        let mut weights: Vec<u64> = Vec::new();
        let mut turns: u8 = 0;
        while turns < 4
            invariant
                maze@.shaped(),
                maze@.in_bounds(x as int, y as int),
                turns <= 4,
                previous_direction == maze@.arrival(x as int, y as int),
                direction == turned(previous_direction, turns as nat),
                directions@ == maze@.candidates_among(x as int, y as int, turns as nat),
                weights@.len() == directions@.len(),
                directions@.len() <= turns,
                forall|i: int|
                    0 <= i < weights@.len() ==> #[trigger] weights@[i] == self.weight(
                        maze@,
                        x as int,
                        y as int,
                        directions@[i],
                        previous_direction,
                    ),
                total(weights@) <= directions@.len() * (3 * u32::MAX),
            decreases 4 - turns,
        {
            direction = direction.right();
            if maze.is_valid(x, y, &direction) {
                let weight = self.get_weight(maze, x, y, &direction, &previous_direction);
                let ghost before = weights@;
                directions.push(direction);
                weights.push(weight);
                assert(weights@.drop_last() =~= before);
            }
            turns = turns + 1;
        }
        assert(weights@ =~= self.candidate_weights(maze@, x as int, y as int));
        (directions, weights)
    }

    /// Picks the next move of a path at `(x, y)` by chance: `None` at a
    /// dead end, and else one of the valid moves, each with a chance in
    /// proportion to its weight.  If all weights are zero, every valid move
    /// has the same chance.
    pub fn get_direction(&self, maze: &Maze, x: u32, y: u32, rng: &mut ThreadRng) -> (chosen: Option<
        Direction,
    >)
        requires
            maze@.shaped(),
            maze@.in_bounds(x as int, y as int),
        ensures
            chosen is None <==> maze@.dead_end(x as int, y as int),
            chosen matches Some(direction) ==> {
                &&& maze@.valid_move(x as int, y as int, direction)
                &&& exists|i: int|
                    eligible(self.candidate_weights(maze@, x as int, y as int), i)
                        && #[trigger] maze@.candidates(x as int, y as int)[i] == direction
            },
            exists|draw: u64| #[trigger] self.direction_for(maze@, x as int, y as int, draw) == chosen,
    {
        let (directions, weights) = self.candidates(maze, x, y);
        proof {
            maze@.lemma_candidates(x as int, y as int);
        }
        if directions.len() > 0 {
            let index = sample(rng, &weights);
            proof {
                assert(maze@.candidates(x as int, y as int).contains(directions@[index as int]));
                let draw = lemma_pick_reaches(weights@, index as int);
                assert(self.direction_for(maze@, x as int, y as int, draw) == Some(
                    directions@[index as int],
                ));
            }
            Some(directions[index])
        } else {
            assert(self.direction_for(maze@, x as int, y as int, 0) == None::<Direction>);
            None
        }
    }

    /// Picks the next move of a path at `(x, y)` by the number `draw`:
    /// `None` at a dead end, and else the valid move that `draw` selects by
    /// the weights.
    pub fn get_direction_with(&self, maze: &Maze, x: u32, y: u32, draw: u64) -> (chosen: Option<
        Direction,
    >)
        requires
            maze@.shaped(),
            maze@.in_bounds(x as int, y as int),
        ensures
            chosen == self.direction_for(maze@, x as int, y as int, draw),
            chosen is None <==> maze@.dead_end(x as int, y as int),
            chosen matches Some(direction) ==> maze@.valid_move(x as int, y as int, direction),
    {
        let (directions, weights) = self.candidates(maze, x, y);
        proof {
            maze@.lemma_candidates(x as int, y as int);
        }
        if directions.len() > 0 {
            let index = select(&weights, draw);
            assert(maze@.candidates(x as int, y as int).contains(directions@[index as int]));
            Some(directions[index])
        } else {
            None
        }
    }
}

} // verus!
