use vstd::prelude::*;

use crate::point::Point;

verus! {

/// One of the four ways the snake can move.
#[derive(Clone, Copy, Debug, PartialEq, Eq, Structural)]
pub enum Direction {
    Up,
    Down,
    Left,
    Right,
}

/// What one square of the board holds. A snake segment carries the direction
/// in which that segment moves next, so that the body forms a chain from the
/// tail to the head.
#[derive(Clone, Copy, Debug, PartialEq, Eq, Structural)]
pub enum Cell {
    Snake(Direction),
    Food,
    Empty,
}

impl Direction {
    /// Horizontal displacement of one move.
    pub open spec fn dx(self) -> int {
        match self {
            Direction::Left => -1,
            Direction::Right => 1,
            _ => 0,
        }
    }

    /// Vertical displacement of one move; rows grow downwards.
    pub open spec fn dy(self) -> int {
        match self {
            Direction::Up => -1,
            Direction::Down => 1,
            _ => 0,
        }
    }

    pub open spec fn reversed(self) -> Direction {
        match self {
            Direction::Up => Direction::Down,
            Direction::Down => Direction::Up,
            Direction::Left => Direction::Right,
            Direction::Right => Direction::Left,
        }
    }

    /// The point one square away in this direction, before any wrapping.
    pub fn advance(&self, point: Point) -> (r: Point)
        requires
            isize::MIN <= point.x + self.dx() <= isize::MAX,
            isize::MIN <= point.y + self.dy() <= isize::MAX,
        ensures
            r.x == point.x + self.dx(),
            r.y == point.y + self.dy(),
    {
        match *self {
            Direction::Up => Point { y: point.y - 1, ..point },
            Direction::Down => Point { y: point.y + 1, ..point },
            Direction::Left => Point { x: point.x - 1, ..point },
            Direction::Right => Point { x: point.x + 1, ..point },
        }
    }

    pub fn opposite(&self) -> (r: Direction)
        ensures
            r == self.reversed(),
    {
        match *self {
            Direction::Up => Direction::Down,
            Direction::Down => Direction::Up,
            Direction::Left => Direction::Right,
            Direction::Right => Direction::Left,
        }
    }

    pub open spec fn glyph(self) -> char {
        match self {
            Direction::Up => '▲',
            Direction::Down => '▼',
            Direction::Left => '◀',
            Direction::Right => '▶',
        }
    }

    /// The arrow drawn for a segment that moves this way.
    pub fn symbol(&self) -> (r: char)
        ensures
            r == self.glyph(),
    {
        match *self {
            Direction::Up => '▲',
            Direction::Down => '▼',
            Direction::Left => '◀',
            Direction::Right => '▶',
        }
    }
}

/// Turning around twice faces the original way again.
pub proof fn lemma_opposite_involutive(d: Direction)
    ensures
        d.reversed().reversed() == d,
        d.reversed() != d,
{
}


impl Cell {
    pub open spec fn direction_of(self) -> Option<Direction> {
        match self {
            Cell::Snake(d) => Some(d),
            _ => None,
        }
    }

    /// The direction of a snake segment; `None` for food and empty squares.
    pub fn snake_direction(&self) -> (r: Option<Direction>)
        ensures
            r == self.direction_of(),
    {
        match *self {
            Cell::Snake(d) => Some(d),
            _ => None,
        }
    }

    pub open spec fn glyph(self) -> char {
        match self {
            Cell::Snake(d) => d.glyph(),
            Cell::Food => '*',
            Cell::Empty => ' ',
        }
    }

    /// The character that shows this square on a text board.
    pub fn symbol(&self) -> (r: char)
        ensures
            r == self.glyph(),
    {
        match *self {
            Cell::Snake(d) => d.symbol(),
            Cell::Food => '*',
            Cell::Empty => ' ',
        }
    }
}

} // verus!
