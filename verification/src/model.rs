//! The basic vocabulary of the game: directions, colors, cell contents and
//! coordinates on the playing field.

use vstd::prelude::*;

verus! {

/// A movement direction on the playing field.
#[derive(Clone, Copy, Debug, PartialEq, Eq, PartialOrd, Ord, Structural)]
pub enum Direction {
    Up,
    Down,
    Left,
    Right,
}

impl Default for Direction {
    /// The direction a newly joined player moves in first.
    fn default() -> (r: Direction)
        ensures
            r == Direction::Right,
    {
        Direction::Right
    }
}

impl Direction {
    /// The (row, col) displacement of one step in this direction.
    pub open spec fn offset_spec(self) -> (int, int) {
        match self {
            Direction::Up => (-1, 0),
            Direction::Down => (1, 0),
            Direction::Left => (0, -1),
            Direction::Right => (0, 1),
        }
    }

    /// The (row, col) displacement of one step in this direction.
    pub fn offset(&self) -> (r: (isize, isize))
        ensures
            (r.0 as int, r.1 as int) == self.offset_spec(),
    {
        match self {
            Direction::Up => (-1, 0),
            Direction::Down => (1, 0),
            Direction::Left => (0, -1),
            Direction::Right => (0, 1),
        }
    }

    /// The direction pointing the opposite way.
    pub open spec fn opposite_spec(self) -> Direction {
        match self {
            Direction::Up => Direction::Down,
            Direction::Down => Direction::Up,
            Direction::Left => Direction::Right,
            Direction::Right => Direction::Left,
        }
    }

    /// The direction pointing the opposite way.
    pub fn opposite(&self) -> (r: Direction)
        ensures
            r == self.opposite_spec(),
    {
        match self {
            Direction::Up => Direction::Down,
            Direction::Down => Direction::Up,
            Direction::Left => Direction::Right,
            Direction::Right => Direction::Left,
        }
    }
}

/// A snake's color, shown to clients so they can tell snakes apart.
#[derive(Clone, Copy, Debug, PartialEq, Eq, Structural)]
pub enum Color {
    Blue,
    Cyan,
    Green,
    Magenta,
    Red,
    Yellow,
}

/// How many distinct colors a snake can have.
pub const COLOR_COUNT: usize = 6;

impl Color {
    /// The color picked for each index below `COLOR_COUNT`.
    pub open spec fn from_index_spec(i: int) -> Color {
        if i == 0 {
            Color::Blue
        } else if i == 1 {
            Color::Cyan
        } else if i == 2 {
            Color::Green
        } else if i == 3 {
            Color::Magenta
        } else if i == 4 {
            Color::Red
        } else {
            Color::Yellow
        }
    }

    /// Maps an index below `COLOR_COUNT` to a color; used to turn a random
    /// draw into a color.
    pub fn from_index(i: usize) -> (r: Color)
        requires
            i < COLOR_COUNT,
        ensures
            r == Color::from_index_spec(i as int),
    {
        match i {
            0 => Color::Blue,
            1 => Color::Cyan,
            2 => Color::Green,
            3 => Color::Magenta,
            4 => Color::Red,
            _ => Color::Yellow,
        }
    }
}

/// What one grid cell holds.
///
/// A cell is empty, a permanent border wall, a piece of food, or one segment
/// of some snake's body, told apart by that snake's color.
#[derive(Clone, Copy, Debug, PartialEq, Eq, Structural)]
pub enum Field {
    Empty,
    Wall,
    Food,
    Snake(Color),
}

impl Field {
    /// Whether this cell holds food.
    pub fn food(&self) -> (r: bool)
        ensures
            r <==> (*self is Food),
    {
        match self {
            Field::Food => true,
            _ => false,
        }
    }
}

/// A position on the game field, as (row, col).
#[derive(Clone, Copy, PartialEq, Eq, Debug, PartialOrd, Ord, Structural)]
pub struct Coordinate {
    pub row: usize,
    pub col: usize,
}

impl Coordinate {
    /// Builds the coordinate (row, col).
    pub fn new(row: usize, col: usize) -> (r: Coordinate)
        ensures
            r.row == row,
            r.col == col,
    {
        Coordinate { row, col }
    }
}

impl Default for Coordinate {
    /// The origin, (0, 0).
    fn default() -> (r: Coordinate)
        ensures
            r.row == 0,
            r.col == 0,
    {
        Coordinate { row: 0, col: 0 }
    }
}

} // verus!
