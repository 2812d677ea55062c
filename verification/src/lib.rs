#![verifier::loop_isolation(false)]
use vstd::prelude::*;

pub mod board_functions;
pub mod logic;
pub mod models;
pub mod reachable_cells;

verus! {

/// A board cell position. `x` grows rightward, `y` grows upward; the origin is
/// a corner of the board. Validity is relative to a board's dimensions.
#[derive(Clone, Copy, Debug, PartialEq, Eq, Structural)]
pub struct Coord {
    pub x: i32,
    pub y: i32,
}

/// One snake on the board: `body` runs from the head (index 0) to the tail
/// (last index). `length` is the logical body length, which may transiently
/// exceed `body.len()`.
#[derive(Clone, Debug)]
pub struct Battlesnake {
    pub id: String,
    pub name: String,
    pub health: i32,
    pub body: Vec<Coord>,
    pub head: Coord,
    pub length: i32,
    pub latency: String,
    pub shout: Option<String>,
}

/// An immutable per-turn snapshot of the board: its dimensions, all snake
/// bodies, and the food and hazard cells.
#[derive(Clone, Debug)]
pub struct Board {
    pub height: u32,
    pub width: i32,
    pub food: Vec<Coord>,
    pub snakes: Vec<Battlesnake>,
    pub hazards: Vec<Coord>,
}

/// The move chosen for one turn: a direction name ("up", "down", "left" or
/// "right") and an optional shout.
#[derive(Clone, Debug)]
pub struct MoveResponse {
    pub direction: String,
    pub shout: Option<String>,
}

} // verus!
