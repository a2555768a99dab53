use vstd::prelude::*;
use crate::direction::Direction;

verus! {

/// Number of columns of the board.
pub const WIDTH_IN_TILE: i32 = 10;

/// Number of rows of the board.
pub const HEIGHT_IN_TILE: i32 = 10;

/// A cell of the integer lattice. Cells outside the board are only ever
/// seen transiently, as the head position that triggers a wall collision.
#[derive(PartialEq, Eq, Structural, Clone, Copy, Debug)]
pub struct Position {
    pub x: i32,
    pub y: i32,
}

/// The cell lies on the board.
pub open spec fn on_board(p: Position) -> bool {
    0 <= p.x < WIDTH_IN_TILE && 0 <= p.y < HEIGHT_IN_TILE
}

/// The cell one unit away from `p` in direction `d`; the vertical axis grows upwards.
pub open spec fn stepped(p: Position, d: Direction) -> Position {
    match d {
        Direction::Left => Position { x: (p.x - 1) as i32, y: p.y },
        Direction::Right => Position { x: (p.x + 1) as i32, y: p.y },
        Direction::Up => Position { x: p.x, y: (p.y + 1) as i32 },
        Direction::Down => Position { x: p.x, y: (p.y - 1) as i32 },
    }
}

impl Position {
    pub fn new(x: i32, y: i32) -> (r: Position)
        ensures
            r.x == x,
            r.y == y,
    {
        Position { x, y }
    }
}

/// Bounds check: true iff `0 <= x < WIDTH_IN_TILE` and `0 <= y < HEIGHT_IN_TILE`.
pub fn in_bounds(p: Position) -> (r: bool)
    ensures
        r == on_board(p),
{
    0 <= p.x && p.x < WIDTH_IN_TILE && 0 <= p.y && p.y < HEIGHT_IN_TILE
}

/// Moves one unit from a cell of the board; the result may leave the board.
pub fn step(p: Position, d: Direction) -> (r: Position)
    requires
        on_board(p),
    ensures
        r == stepped(p, d),
        r != p,
{
    match d {
        Direction::Left => Position { x: p.x - 1, y: p.y },
        Direction::Right => Position { x: p.x + 1, y: p.y },
        Direction::Up => Position { x: p.x, y: p.y + 1 },
        Direction::Down => Position { x: p.x, y: p.y - 1 },
    }
}

/// Membership of a cell in a list of cells.
pub fn contains_cell(cells: &Vec<Position>, p: Position) -> (r: bool)
    ensures
        r == cells@.contains(p),
{
    let mut i: usize = 0;
    while i < cells.len()
        invariant
            0 <= i <= cells@.len(),
            forall|j: int| 0 <= j < i ==> cells@[j] != p,
        decreases cells@.len() - i,
    {
        if cells[i] == p {
            return true;
        }
        i += 1;
    }
    false
}

} // verus!
