//! The four compass directions and their rotations.

use vstd::prelude::*;

verus! {

/// One of the four directions in which a path can leave a cell.
#[derive(Clone, Copy, Debug, PartialEq, Eq, Structural, Hash)]
pub enum Direction {
    North,
    East,
    South,
    West,
}

impl Direction {
    /// The direction a quarter turn clockwise from this one.
    pub open spec fn spec_right(&self) -> Direction {
        match self {
            Direction::North => Direction::East,
            Direction::East => Direction::South,
            Direction::South => Direction::West,
            Direction::West => Direction::North,
        }
    }

    /// The direction a quarter turn counter-clockwise from this one.
    pub open spec fn spec_left(&self) -> Direction {
        match self {
            Direction::North => Direction::West,
            Direction::West => Direction::South,
            Direction::South => Direction::East,
            Direction::East => Direction::North,
        }
    }

    /// The direction that points the other way.
    pub open spec fn spec_opposite(&self) -> Direction {
        match self {
            Direction::North => Direction::South,
            Direction::West => Direction::East,
            Direction::South => Direction::North,
            Direction::East => Direction::West,
        }
    }

    /// The position of this direction in the order north, east, south, west.
    pub open spec fn spec_to_usize(&self) -> usize {
        match self {
            Direction::North => 0,
            Direction::East => 1,
            Direction::South => 2,
            Direction::West => 3,
        }
    }

    /// The name of this direction.
    pub open spec fn name(&self) -> Seq<char> {
        match self {
            Direction::North => "North"@,
            Direction::East => "East"@,
            Direction::South => "South"@,
            Direction::West => "West"@,
        }
    }

    /// The name of this direction as a string: `North`, `East`, `South`
    /// or `West`.
    pub fn to_string(&self) -> (s: String)
        ensures
            s@ == self.name(),
    {
        match self {
            Direction::North => "North".to_owned(),
            Direction::East => "East".to_owned(),
            Direction::South => "South".to_owned(),
            Direction::West => "West".to_owned(),
        }
    }

    /// Turns a quarter turn clockwise: north, east, south, west, north.
    #[verifier::when_used_as_spec(spec_right)]
    pub fn right(&self) -> (r: Direction)
        ensures
            r == self.spec_right(),
    {
        match self {
            Direction::North => Direction::East,
            Direction::East => Direction::South,
            Direction::South => Direction::West,
            Direction::West => Direction::North,
        }
    }

    /// Turns a quarter turn counter-clockwise: north, west, south, east, north.
    #[verifier::when_used_as_spec(spec_left)]
    pub fn left(&self) -> (r: Direction)
        ensures
            r == self.spec_left(),
    {
        match self {
            Direction::North => Direction::West,
            Direction::West => Direction::South,
            Direction::South => Direction::East,
            Direction::East => Direction::North,
        }
    }

    /// Turns around.
    #[verifier::when_used_as_spec(spec_opposite)]
    pub fn opposite(&self) -> (r: Direction)
        ensures
            r == self.spec_opposite(),
    {
        match self {
            Direction::North => Direction::South,
            Direction::West => Direction::East,
            Direction::South => Direction::North,
            Direction::East => Direction::West,
        }
    }

    /// The index of this direction in a cell's edge flags.
    #[verifier::when_used_as_spec(spec_to_usize)]
    pub fn to_usize(&self) -> (i: usize)
        ensures
            i == self.spec_to_usize(),
            i < 4,
    {
        match self {
            Direction::North => 0,
            Direction::East => 1,
            Direction::South => 2,
            Direction::West => 3,
        }
    }
}

/// The rotations undo and compose as turns do: a left turn undoes a right
/// turn, two quarter turns either way make a half turn, two half turns
/// and four quarter turns lead round, and a turn changes the direction.
pub proof fn lemma_rotations(d: Direction)
    ensures
        d.right().left() == d,
        d.left().right() == d,
        d.right().right() == d.opposite(),
        d.left().left() == d.opposite(),
        d.opposite().opposite() == d,
        d.right().right().right().right() == d,
        d.right() != d,
        d.left() != d,
        d.opposite() != d,
        d.right() != d.left(),
{
}

/// Each rotation is a permutation of the four directions: it leads to
/// different directions from different ones, and to every direction from
/// some.
pub proof fn lemma_rotations_permute(a: Direction, b: Direction)
    ensures
        a.right() == b.right() ==> a == b,
        a.left() == b.left() ==> a == b,
        a.opposite() == b.opposite() ==> a == b,
        a.to_usize() == b.to_usize() ==> a == b,
        b.left().right() == b,
        b.right().left() == b,
        b.opposite().opposite() == b,
{
}

} // verus!
