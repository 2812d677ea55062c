use vstd::prelude::*;

verus! {

/// One of the four cardinal moves a snake can make.
#[derive(Clone, Copy, PartialEq, Eq, Structural)]
pub enum Direction {
    Up,
    Down,
    Left,
    Right,
}

/// The lowercase wire name of a direction.
pub open spec fn direction_name(d: Direction) -> Seq<char> {
    match d {
        Direction::Down => "down"@,
        Direction::Left => "left"@,
        Direction::Right => "right"@,
        Direction::Up => "up"@,
    }
}

impl Direction {
    /// The lowercase name of this direction, as the game protocol spells it.
    pub fn name(&self) -> (r: &'static str)
        ensures
            r@ == direction_name(*self),
    {
        match self {
            Direction::Down => "down",
            Direction::Left => "left",
            Direction::Right => "right",
            Direction::Up => "up",
        }
    }
}

/// Whether a candidate move leaves the snake alive.
#[derive(Clone, Copy, PartialEq, Eq, Structural)]
pub enum Outcome {
    Dead,
    Alive,
}

/// The evaluation of one candidate direction: the direction itself, whether it
/// is survivable, and a score used to rank survivable moves.
#[derive(Clone, Copy)]
pub struct DirectionResult {
    pub direction: Direction,
    pub outcome: Outcome,
    pub other_data: i32,
}

} // verus!
