//! A maze generator with machine-checked guarantees.
//!
//! A maze is grown on a rectangular grid from a single start cell by one or
//! more frontier paths that wander under a weighted random policy, step
//! back at dead ends and retire when they are back at the start cell with
//! nothing left to do.  The first step into the finish zone reaches the
//! goal; after it the zone is closed, and the paths go on until the grid
//! is filled.
//!
//! Every function is verified with Verus.  Whatever chance decides, the
//! recorded edges form a tree rooted at the start cell, the finish zone is
//! entered at most once, and generation ends.  On a new maze it ends with
//! every cell outside the two zones entered and with the goal reached, so
//! that there is exactly one way from the start to the finish along the
//! edges.  Generation by a script in place of chance is a function of the
//! script.
//!
//! - [`maze`] holds the grid and what a path asks of it; [`grid`] is its
//!   mathematical model, [`tree`] the invariant, [`growth`] what a step does.
//! - [`strategy`] and [`sampling`] choose the next move.
//! - [`engine`] moves one path, [`generate`] runs the rounds, [`frontier`]
//!   shows that no cell is left unexplored.
//! - [`solution`] finds the way through, [`walls`] says where walls stand.
//! - [`external`] holds the calls into other crates, which are trusted.

pub mod alphabet;
pub mod cell;
pub mod direction;
pub mod engine;
pub mod external;
pub mod frontier;
pub mod generate;
pub mod grid;
pub mod growth;
pub mod maze;
pub mod sampling;
pub mod solution;
pub mod strategy;
pub mod tree;
pub mod walls;

pub use cell::Cell;
pub use direction::Direction;
pub use generate::Draw;
pub use maze::{ConfigError, Maze};
pub use strategy::MeanderStrategy;
