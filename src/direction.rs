use vstd::prelude::*;

verus! {

/// One of the four headings of the snake.
#[derive(PartialEq, Eq, Structural, Clone, Copy, Debug)]
pub enum Direction {
    Left,
    Up,
    Right,
    Down,
}

/// The reverse heading: Left and Right, Up and Down.
pub open spec fn opposite_of(d: Direction) -> Direction {
    match d {
        Direction::Left => Direction::Right,
        Direction::Up => Direction::Down,
        Direction::Right => Direction::Left,
        Direction::Down => Direction::Up,
    }
}

impl Direction {
    pub fn opposite(self) -> (r: Direction)
        ensures
            r == opposite_of(self),
            r != self,
    {
        match self {
            Direction::Left => Direction::Right,
            Direction::Up => Direction::Down,
            Direction::Right => Direction::Left,
            Direction::Down => Direction::Up,
        }
    }
}

impl Default for Direction {
    fn default() -> (r: Direction)
        ensures
            r == Direction::Left,
    {
        Direction::Left
    }
}

/// Reversing a heading twice gives the heading back.
pub proof fn lemma_opposite_involution(d: Direction)
    ensures
        opposite_of(opposite_of(d)) == d,
{
}

} // verus!
