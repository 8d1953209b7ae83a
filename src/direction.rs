//! The nine grid offsets: staying put and the eight compass neighbours.

use vstd::prelude::*;

verus! {

/// A step on the grid; `Up` is towards smaller `y`.
#[derive(PartialEq, Eq, Structural, Clone, Copy, Debug, Hash)]
pub enum Direction {
    Stay,
    Up,
    Left,
    Down,
    Right,
    UpLeft,
    UpRight,
    DownLeft,
    DownRight,
}

/// The column step of a direction.
pub open spec fn dx(d: Direction) -> int {
    match d {
        Direction::Left | Direction::UpLeft | Direction::DownLeft => -1,
        Direction::Right | Direction::UpRight | Direction::DownRight => 1,
        _ => 0,
    }
}

/// The row step of a direction.
pub open spec fn dy(d: Direction) -> int {
    match d {
        Direction::Up | Direction::UpLeft | Direction::UpRight => -1,
        Direction::Down | Direction::DownLeft | Direction::DownRight => 1,
        _ => 0,
    }
}

/// The direction that undoes `d`.
pub open spec fn opposite_of(d: Direction) -> Direction {
    match d {
        Direction::Stay => Direction::Stay,
        Direction::Up => Direction::Down,
        Direction::Left => Direction::Right,
        Direction::Down => Direction::Up,
        Direction::Right => Direction::Left,
        Direction::UpLeft => Direction::DownRight,
        Direction::UpRight => Direction::DownLeft,
        Direction::DownLeft => Direction::UpRight,
        Direction::DownRight => Direction::UpLeft,
    }
}

/// The position of a direction in `all_directions`.
pub open spec fn index_of(d: Direction) -> nat {
    match d {
        Direction::Stay => 0,
        Direction::Up => 1,
        Direction::Left => 2,
        Direction::Down => 3,
        Direction::Right => 4,
        Direction::UpLeft => 5,
        Direction::UpRight => 6,
        Direction::DownLeft => 7,
        Direction::DownRight => 8,
    }
}

/// Every direction, in declaration order.
pub open spec fn direction_seq() -> Seq<Direction> {
    seq![
        Direction::Stay,
        Direction::Up,
        Direction::Left,
        Direction::Down,
        Direction::Right,
        Direction::UpLeft,
        Direction::UpRight,
        Direction::DownLeft,
        Direction::DownRight,
    ]
}

/// The number of directions.
pub const DIRECTION_COUNT: usize = 9;

/// Directions are told apart by their steps, and the opposite one negates them.
pub proof fn lemma_direction_steps(d: Direction, e: Direction)
    ensures
        dx(opposite_of(d)) == -dx(d),
        dy(opposite_of(d)) == -dy(d),
        opposite_of(opposite_of(d)) == d,
        (dx(d) == dx(e) && dy(d) == dy(e)) ==> d == e,
        index_of(d) < DIRECTION_COUNT,
        direction_seq()[index_of(d) as int] == d,
{
}

impl Direction {
    /// The `(dx, dy)` step of this direction.
    pub fn offset(self) -> (r: (i32, i32))
        ensures
            r.0 == dx(self),
            r.1 == dy(self),
    {
        match self {
            Direction::Stay => (0, 0),
            Direction::Up => (0, -1),
            Direction::Left => (-1, 0),
            Direction::Down => (0, 1),
            Direction::Right => (1, 0),
            Direction::UpLeft => (-1, -1),
            Direction::UpRight => (1, -1),
            Direction::DownLeft => (-1, 1),
            Direction::DownRight => (1, 1),
        }
    }

    /// The direction with step `(x, y)`, if there is one.
    pub fn from_offset(x: i32, y: i32) -> (r: Option<Direction>)
        ensures
            r.is_some() <==> (-1 <= x <= 1 && -1 <= y <= 1),
            r.is_some() ==> dx(r.unwrap()) == x && dy(r.unwrap()) == y,
    {
        match (x, y) {
            (0, 0) => Some(Direction::Stay),
            (0, -1) => Some(Direction::Up),
            (-1, 0) => Some(Direction::Left),
            (0, 1) => Some(Direction::Down),
            (1, 0) => Some(Direction::Right),
            (-1, -1) => Some(Direction::UpLeft),
            (1, -1) => Some(Direction::UpRight),
            (-1, 1) => Some(Direction::DownLeft),
            (1, 1) => Some(Direction::DownRight),
            _ => None,
        }
    }

    /// The direction that undoes this one.
    pub fn opposite(self) -> (r: Direction)
        ensures
            r == opposite_of(self),
    {
        let (x, y) = self.offset();
        match Direction::from_offset(-x, -y) {
            Some(d) => d,
            None => self,
        }
    }

    /// This direction's position in `all_directions`.
    pub fn index(self) -> (r: usize)
        ensures
            r == index_of(self),
    {
        match self {
            Direction::Stay => 0,
            Direction::Up => 1,
            Direction::Left => 2,
            Direction::Down => 3,
            Direction::Right => 4,
            Direction::UpLeft => 5,
            Direction::UpRight => 6,
            Direction::DownLeft => 7,
            Direction::DownRight => 8,
        }
    }
}

/// Every direction, in declaration order.
pub fn all_directions() -> (r: Vec<Direction>)
    ensures
        r@ == direction_seq(),
{
    let r = vec![
        Direction::Stay,
        Direction::Up,
        Direction::Left,
        Direction::Down,
        Direction::Right,
        Direction::UpLeft,
        Direction::UpRight,
        Direction::DownLeft,
        Direction::DownRight,
    ];
    assert(r@ =~= direction_seq());
    r
}

} // verus!
