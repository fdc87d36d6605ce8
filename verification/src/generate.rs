//! The generation of a maze: rounds of moves until no path is left, by
//! chance or by a script.

use vstd::prelude::*;
use rand::rngs::ThreadRng;
use crate::direction::Direction;
use crate::engine::{load, EngineState};
use crate::external::chance;
use crate::frontier::{lemma_watch_begins, lemma_watch_ends};
use crate::grid::MazeView;
use crate::maze::Maze;

verus! {

/// A path that moves on branches once in this many times, on average.
pub const BRANCH_ONE_IN: u32 = 20;

/// The numbers that decide one move of a path in place of chance.
#[derive(Clone, Copy, Debug, PartialEq, Eq)]
pub struct Draw {
    /// Selects the direction among the valid moves, by their weights.
    pub pick: u64,
    /// Whether the path branches before it moves.
    pub branch: bool,
}

/// A scripted generation under way: the state of the engine, and how many
/// entries of the script have been used.
pub struct Run {
    /// The state of the engine.
    pub engine: EngineState,
    /// The number of script entries used so far.
    pub used: nat,
}

/// The entry of the script at `position`; past the end of the script,
/// the entry that picks by the number 0 and does not branch.
pub open spec fn draw_at(script: Seq<Draw>, position: nat) -> Draw {
    if position < script.len() {
        script[position as int]
    } else {
        Draw { pick: 0, branch: false }
    }
}

/// A generation about to begin: one path, on the start cell.
pub open spec fn begin(maze: MazeView) -> Run {
    Run {
        engine: EngineState {
            maze,
            paths: seq![(maze.start_x as u32, maze.start_y as u32)],
            index: 0,
        },
        used: 0,
    }
}

impl Run {
    /// Whether generation has ended: no path is left.
    pub open spec fn finished(self) -> bool {
        self.engine.paths.len() == 0
    }

    /// The run one move later.  When every path has moved, a new round
    /// begins with the first path.  Else the path whose turn it is moves:
    /// at a dead end it steps back and uses no entry of the script; where
    /// it has a valid move, the next entry selects the move and decides
    /// whether the path branches.  A finished run stays as it is.
    pub open spec fn step(self, script: Seq<Draw>) -> Run {
        let engine = self.engine;
        if engine.paths.len() == 0 {
            self
        } else if engine.index >= engine.paths.len() {
            Run { engine: EngineState { index: 0, ..engine }, ..self }
        } else {
            let x = engine.paths[engine.index].0 as int;
            let y = engine.paths[engine.index].1 as int;
            let draw = draw_at(script, self.used);
            let choice = engine.maze.strategy_at(x, y).direction_for(engine.maze, x, y, draw.pick);
            match choice {
                Some(_) => Run { engine: engine.advance(choice, draw.branch), used: self.used + 1 },
                None => Run { engine: engine.advance(None, false), ..self },
            }
        }
    }

    /// The run `moves` moves later.
    pub open spec fn after(self, script: Seq<Draw>, moves: nat) -> Run
        decreases moves,
    {
        if moves == 0 {
            self
        } else {
            self.after(script, (moves - 1) as nat).step(script)
        }
    }

    /// A finished run stays as it is, however many moves follow.
    pub proof fn lemma_finished_stays(self, script: Seq<Draw>, moves: nat, more: nat)
        requires
            self.after(script, moves).finished(),
        ensures
            self.after(script, moves + more) == self.after(script, moves),
        decreases more,
    {
        if more > 0 {
            self.lemma_finished_stays(script, moves, (more - 1) as nat);
        }
    }

    /// A run reads its script only as far as it has used it: a script that
    /// agrees with this one that far gives the same run.
    pub proof fn lemma_script_prefix(self, short: Seq<Draw>, long: Seq<Draw>, moves: nat)
        requires
            short.len() <= long.len(),
            forall|i: int| 0 <= i < short.len() ==> short[i] == long[i],
            self.after(short, moves).used <= short.len(),
        ensures
            self.after(long, moves) == self.after(short, moves),
            self.used <= self.after(short, moves).used,
        decreases moves,
    {
        if moves > 0 {
            let before = self.after(short, (moves - 1) as nat);
            assert(before.used <= before.step(short).used);
            self.lemma_script_prefix(short, long, (moves - 1) as nat);
            if before.used < short.len() {
                assert(draw_at(short, before.used) == draw_at(long, before.used));
            }
        }
    }

    /// Generation by a script is deterministic: the same maze and the same
    /// script end in the same maze, with the same edges and the same way
    /// from the start to the finish, after however many moves the end is
    /// looked at.
    pub proof fn lemma_deterministic(self, script: Seq<Draw>, first: nat, second: nat)
        requires
            self.after(script, first).finished(),
            self.after(script, second).finished(),
        ensures
            self.after(script, first) == self.after(script, second),
            self.after(script, first).engine.maze.solution_cells() == self.after(
                script,
                second,
            ).engine.maze.solution_cells(),
    {
        if first <= second {
            self.lemma_finished_stays(script, first, (second - first) as nat);
        } else {
            self.lemma_finished_stays(script, second, (first - second) as nat);
        }
    }
}

impl Maze {
    /// Picks the next move of a path at `(x, y)` by chance, under the
    /// strategy of the cell: `None` at a dead end, and else a valid move.
    pub fn meander(&self, x: u32, y: u32, rng: &mut ThreadRng) -> (chosen: Option<Direction>)
        requires
            self@.shaped(),
            self@.in_bounds(x as int, y as int),
        ensures
            chosen is None <==> self@.dead_end(x as int, y as int),
            chosen matches Some(direction) ==> self@.valid_move(x as int, y as int, direction),
            exists|draw: u64| #[trigger]
                self@.strategy_at(x as int, y as int).direction_for(self@, x as int, y as int, draw)
                    == chosen,
    {
        let strategy = self.strategy_of(x, y);
        strategy.get_direction(self, x, y, rng)
    }

    /// Picks the next move of a path at `(x, y)` by the number `draw`,
    /// under the strategy of the cell: `None` at a dead end, and else the
    /// valid move that `draw` selects.
    pub fn meander_with(&self, x: u32, y: u32, draw: u64) -> (chosen: Option<Direction>)
        requires
            self@.shaped(),
            self@.in_bounds(x as int, y as int),
        ensures
            chosen == self@.strategy_at(x as int, y as int).direction_for(
                self@,
                x as int,
                y as int,
                draw,
            ),
            chosen is None <==> self@.dead_end(x as int, y as int),
            chosen matches Some(direction) ==> self@.valid_move(x as int, y as int, direction),
    {
        let strategy = self.strategy_of(x, y);
        strategy.get_direction_with(self, x, y, draw)
    }

    /// Grows the maze by chance.  One path starts on the start cell.  In
    /// rounds, every path moves once: it steps to a neighbour chosen by the
    /// strategy of its cell, and one time in twenty it first leaves a new
    /// path behind; at a dead end it steps back.  The first step into the
    /// finish zone reaches the goal; the path that takes it stays on its
    /// cell and goes on from there.  A path retires when it has stepped
    /// back to the start cell and finds a dead end there.  Generation ends
    /// when no path is left.
    ///
    /// Whatever chance decides, generation ends, the maze keeps its
    /// invariant and loses no edge and no visit, and at the end no move
    /// from the start cell is valid.  On a maze that no path had entered,
    /// nothing is left to explore at the end: no cell where a path can
    /// stand has a valid move, every cell outside the two zones has been
    /// entered, and the goal is reached.  The maze at the end is one that a
    /// run by some script ends in.
    pub fn generate(&mut self, rng: &mut ThreadRng)
        requires
            old(self)@.wf(),
        ensures
            final(self)@.wf(),
            old(self)@.grows_to(final(self)@),
            final(self)@.dead_end(final(self)@.start_x, final(self)@.start_y),
            old(self)@.untouched() ==> final(self)@.exhausted() && final(self)@.explored()
                && final(self)@.goal_reached,
            exists|script: Seq<Draw>, moves: nat|
                (#[trigger] begin(old(self)@).after(script, moves)).finished() && begin(
                    old(self)@,
                ).after(script, moves).engine.maze == final(self)@,
    {
        let ghost origin = begin(self@);
        let ghost mut script: Seq<Draw> = Seq::empty();
        let ghost mut moves: nat = 0;
        let ghost mut at: int = 0;
        let mut paths: Vec<(u32, u32)> = Vec::new();
        paths.push(self.start());
        proof {
            assert(self@.cell_shaped(self@.start_x, self@.start_y));
            self@.lemma_grows_on(self@, self@);
            assert(paths@ =~= origin.engine.paths);
            if self@.untouched() {
                lemma_watch_begins(self@);
            }
        }
        while paths.len() > 0
            invariant
                (EngineState { maze: self@, paths: paths@, index: 0 }).wf(),
                old(self)@.grows_to(self@),
                old(self)@.untouched() ==> self@.watched(paths@),
                paths@.len() == 0 ==> self@.dead_end(self@.start_x, self@.start_y),
                origin == begin(old(self)@),
                at == 0 || at == paths@.len(),
                origin.after(script, moves) == (Run {
                    engine: EngineState { maze: self@, paths: paths@, index: at },
                    used: script.len(),
                }),
            decreases self@.unvisited(), load(self@, paths@),
        {
            let ghost round = EngineState { maze: self@, paths: paths@, index: 0 };
            let ghost mut moved = false;
            let mut index: usize = 0;
            proof {
                if at != 0 {
                    moves = moves + 1;
                    at = 0;
                }
            }
            while index < paths.len()
                invariant
                    (EngineState { maze: self@, paths: paths@, index: index as int }).wf(),
                    old(self)@.grows_to(self@),
                    old(self)@.untouched() ==> self@.watched(paths@),
                    paths@.len() == 0 ==> self@.dead_end(self@.start_x, self@.start_y),
                    moved ==> (EngineState {
                        maze: self@,
                        paths: paths@,
                        index: index as int,
                    }).nearer_than(round),
                    !moved ==> index == 0 && self@ == round.maze && paths@ == round.paths,
                    origin.after(script, moves) == (Run {
                        engine: EngineState { maze: self@, paths: paths@, index: index as int },
                        used: script.len(),
                    }),
                decreases self@.unvisited(), load(self@, paths@),
            {
                let ghost before = EngineState { maze: self@, paths: paths@, index: index as int };
                let (x, y) = paths[index];
                let choice = self.meander(x, y, rng);
                let branch = match choice {
                    Some(_) => chance(rng, 1, BRANCH_ONE_IN),
                    None => false,
                };
                index = self.advance(&mut paths, index, choice, branch);
                proof {
                    let strategy = before.maze.strategy_at(x as int, y as int);
                    let pick = choose|draw: u64| #[trigger]
                        strategy.direction_for(before.maze, x as int, y as int, draw) == choice;
                    if choice is Some {
                        let longer = script.push(Draw { pick, branch });
                        origin.lemma_script_prefix(script, longer, moves);
                        script = longer;
                    }
                    if old(self)@.untouched() {
                        before.lemma_watch_advance(choice, branch);
                    }
                    moved = true;
                    moves = moves + 1;
                    before.maze.lemma_grows_on(before.maze, self@);
                    old(self)@.lemma_grows_on(before.maze, self@);
                    if paths@.len() == 0 {
                        before.lemma_retired(choice, branch);
                    }
                }
            }
            proof {
                at = index as int;
            }
        }
        proof {
            if old(self)@.untouched() {
                lemma_watch_ends(self@, paths@);
                self@.lemma_exhausted_explored();
                self@.lemma_exhausted_goal();
            }
        }
    }
}

impl Maze {
    /// Grows the maze as `generate` does, with the entries of `script` in
    /// the place of chance: each move of a path that has a valid move uses
    /// the next entry, to select the move and to decide whether the path
    /// branches.  When the script has run out, every further move picks by
    /// the number 0 and does not branch.
    ///
    /// The maze at the end is the one that the run of the script ends in.
    /// What `generate` promises of every outcome holds of it too.
    pub fn generate_with(&mut self, script: &Vec<Draw>)
        requires
            old(self)@.wf(),
        ensures
            final(self)@.wf(),
            old(self)@.grows_to(final(self)@),
            final(self)@.dead_end(final(self)@.start_x, final(self)@.start_y),
            old(self)@.untouched() ==> final(self)@.exhausted() && final(self)@.explored()
                && final(self)@.goal_reached,
            exists|moves: nat|
                (#[trigger] begin(old(self)@).after(script@, moves)).finished() && begin(
                    old(self)@,
                ).after(script@, moves).engine.maze == final(self)@,
    {
        let ghost origin = begin(self@);
        let ghost mut moves: nat = 0;
        let ghost mut drawn: nat = 0;
        let ghost mut at: int = 0;
        let mut used: usize = 0;
        let mut paths: Vec<(u32, u32)> = Vec::new();
        paths.push(self.start());
        proof {
            assert(self@.cell_shaped(self@.start_x, self@.start_y));
            self@.lemma_grows_on(self@, self@);
            assert(paths@ =~= origin.engine.paths);
            if self@.untouched() {
                lemma_watch_begins(self@);
            }
        }
        while paths.len() > 0
            invariant
                (EngineState { maze: self@, paths: paths@, index: 0 }).wf(),
                old(self)@.grows_to(self@),
                old(self)@.untouched() ==> self@.watched(paths@),
                paths@.len() == 0 ==> self@.dead_end(self@.start_x, self@.start_y),
                origin == begin(old(self)@),
                at == 0 || at == paths@.len(),
                used <= script@.len(),
                used == if drawn < script@.len() { drawn } else { script@.len() },
                origin.after(script@, moves) == (Run {
                    engine: EngineState { maze: self@, paths: paths@, index: at },
                    used: drawn,
                }),
            decreases self@.unvisited(), load(self@, paths@),
        {
            let ghost round = EngineState { maze: self@, paths: paths@, index: 0 };
            let ghost mut moved = false;
            let mut index: usize = 0;
            proof {
                if at != 0 {
                    moves = moves + 1;
                    at = 0;
                }
            }
            while index < paths.len()
                invariant
                    (EngineState { maze: self@, paths: paths@, index: index as int }).wf(),
                    old(self)@.grows_to(self@),
                    old(self)@.untouched() ==> self@.watched(paths@),
                    paths@.len() == 0 ==> self@.dead_end(self@.start_x, self@.start_y),
                    moved ==> (EngineState {
                        maze: self@,
                        paths: paths@,
                        index: index as int,
                    }).nearer_than(round),
                    !moved ==> index == 0 && self@ == round.maze && paths@ == round.paths,
                    used <= script@.len(),
                    used == if drawn < script@.len() { drawn } else { script@.len() },
                    origin.after(script@, moves) == (Run {
                        engine: EngineState { maze: self@, paths: paths@, index: index as int },
                        used: drawn,
                    }),
                decreases self@.unvisited(), load(self@, paths@),
            {
                let ghost before = EngineState { maze: self@, paths: paths@, index: index as int };
                let (x, y) = paths[index];
                let draw = if used < script.len() {
                    script[used]
                } else {
                    Draw { pick: 0, branch: false }
                };
                let choice = self.meander_with(x, y, draw.pick);
                let branch = match choice {
                    Some(_) => draw.branch,
                    None => false,
                };
                if choice.is_some() && used < script.len() {
                    used = used + 1;
                }
                index = self.advance(&mut paths, index, choice, branch);
                proof {
                    if old(self)@.untouched() {
                        before.lemma_watch_advance(choice, branch);
                    }
                    moved = true;
                    moves = moves + 1;
                    if choice is Some {
                        drawn = drawn + 1;
                    }
                    before.maze.lemma_grows_on(before.maze, self@);
                    old(self)@.lemma_grows_on(before.maze, self@);
                    if paths@.len() == 0 {
                        before.lemma_retired(choice, branch);
                    }
                }
            }
            proof {
                at = index as int;
            }
        }
        proof {
            if old(self)@.untouched() {
                lemma_watch_ends(self@, paths@);
                self@.lemma_exhausted_explored();
                self@.lemma_exhausted_goal();
            }
        }
    }
}

} // verus!
