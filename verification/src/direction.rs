//! The four cardinal headings and the rotation operations on them.

use vstd::prelude::*;

verus! {

/// A cardinal heading. Left turns follow the cycle
/// `Up -> Left -> Down -> Right -> Up`; right turns follow the reverse
/// cycle. Applying either turn twice yields the 180-degree opposite.
#[derive(Copy, Clone, PartialEq, Eq, Structural, Debug)]
pub enum Direction {
    Up,
    Right,
    Down,
    Left,
}

impl Direction {
    /// One step counterclockwise: `Up -> Left -> Down -> Right -> Up`.
    pub open spec fn spec_turn_left(self) -> Direction {
        match self {
            Direction::Up => Direction::Left,
            Direction::Left => Direction::Down,
            Direction::Down => Direction::Right,
            Direction::Right => Direction::Up,
        }
    }

    /// One step clockwise: `Up -> Right -> Down -> Left -> Up`.
    pub open spec fn spec_turn_right(self) -> Direction {
        match self {
            Direction::Up => Direction::Right,
            Direction::Right => Direction::Down,
            Direction::Down => Direction::Left,
            Direction::Left => Direction::Up,
        }
    }

    /// The 180-degree opposite heading.
    pub open spec fn spec_reverse(self) -> Direction {
        match self {
            Direction::Up => Direction::Down,
            Direction::Down => Direction::Up,
            Direction::Left => Direction::Right,
            Direction::Right => Direction::Left,
        }
    }

    #[verifier::when_used_as_spec(spec_turn_left)]
    pub fn turn_left(self) -> (r: Direction)
        ensures
            r == self.spec_turn_left(),
    {
        match self {
            Direction::Up => Direction::Left,
            Direction::Left => Direction::Down,
            Direction::Down => Direction::Right,
            Direction::Right => Direction::Up,
        }
    }

    #[verifier::when_used_as_spec(spec_turn_right)]
    pub fn turn_right(self) -> (r: Direction)
        ensures
            r == self.spec_turn_right(),
    {
        match self {
            Direction::Up => Direction::Right,
            Direction::Right => Direction::Down,
            Direction::Down => Direction::Left,
            Direction::Left => Direction::Up,
        }
    }
}

/// Turning left twice, or right twice, reverses the heading, and the two
/// single turns undo one another.
pub proof fn lemma_turns_are_rotations(d: Direction)
    ensures
        d.spec_turn_left().spec_turn_left() == d.spec_reverse(),
        d.spec_turn_right().spec_turn_right() == d.spec_reverse(),
        d.spec_turn_left().spec_turn_right() == d,
        d.spec_turn_right().spec_turn_left() == d,
{
}

} // verus!
