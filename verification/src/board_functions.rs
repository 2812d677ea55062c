use vstd::prelude::*;

use crate::models::Direction;
use crate::{Board, Coord};

verus! {

/// A coordinate lies outside the board when either component is negative or
/// reaches the board's width or height. The height is compared as a signed
/// value, so an oversized height rejects every coordinate.
pub open spec fn spec_is_outside(coord: Coord, board: Board) -> bool {
    coord.y < 0 || coord.x < 0 || coord.x >= board.width || coord.y >= board.height as i32
}

pub fn is_outside(coord: &Coord, board: &Board) -> (r: bool)
    ensures
        r == spec_is_outside(*coord, *board),
{
    let signed_height = board.height as i32;
    coord.y < 0 || coord.x < 0 || coord.x >= board.width || coord.y >= signed_height
}

/// The cell one unit step away in the given direction.
pub open spec fn spec_coord_in_direction(start: Coord, direction: Direction) -> Coord {
    match direction {
        Direction::Up => Coord { x: start.x, y: (start.y + 1) as i32 },
        Direction::Right => Coord { x: (start.x + 1) as i32, y: start.y },
        Direction::Down => Coord { x: start.x, y: (start.y - 1) as i32 },
        Direction::Left => Coord { x: (start.x - 1) as i32, y: start.y },
    }
}

pub fn coord_in_direction(start: &Coord, direction: &Direction) -> (r: Coord)
    requires
        match *direction {
            Direction::Up => start.y < i32::MAX,
            Direction::Down => start.y > i32::MIN,
            Direction::Left => start.x > i32::MIN,
            Direction::Right => start.x < i32::MAX,
        },
    ensures
        r == spec_coord_in_direction(*start, *direction),
{
    match direction {
        Direction::Up => Coord { x: start.x, y: start.y + 1 },
        Direction::Right => Coord { x: start.x + 1, y: start.y },
        Direction::Down => Coord { x: start.x, y: start.y - 1 },
        Direction::Left => Coord { x: start.x - 1, y: start.y },
    }
}

/// Some snake's body holds a cell equal to this coordinate.
pub open spec fn spec_is_snake_part(coord: Coord, board: Board) -> bool {
    exists|s: int, i: int|
        0 <= s < board.snakes@.len() && 0 <= i < board.snakes@[s].body@.len()
            && board.snakes@[s].body@[i] == coord
}

pub fn is_snake_part(coord: &Coord, board: &Board) -> (r: bool)
    ensures
        r == spec_is_snake_part(*coord, *board),
{
    let mut s: usize = 0;
    while s < board.snakes.len()
        invariant
            0 <= s <= board.snakes@.len(),
            forall|sp: int, ip: int|
                0 <= sp < s && 0 <= ip < board.snakes@[sp].body@.len()
                    ==> board.snakes@[sp].body@[ip] != *coord,
        decreases board.snakes@.len() - s,
    {
        let snake = &board.snakes[s];
        let mut i: usize = 0;
        while i < snake.body.len()
            invariant
                0 <= i <= snake.body@.len(),
                forall|ip: int| 0 <= ip < i ==> snake.body@[ip] != *coord,
            decreases snake.body@.len() - i,
        {
            if same_coord(&snake.body[i], coord) {
                proof {
                    assert(board.snakes@[s as int].body@[i as int] == *coord);
                }
                return true;
            }
            i = i + 1;
        }
        s = s + 1;
    }
    false
}

/// Two coordinates are the same when both components agree.
pub open spec fn spec_same_coord(coord1: Coord, coord2: Coord) -> bool {
    coord1.x == coord2.x && coord1.y == coord2.y
}

pub fn same_coord(coord1: &Coord, coord2: &Coord) -> (r: bool)
    ensures
        r == spec_same_coord(*coord1, *coord2),
        r == (*coord1 == *coord2),
{
    coord1.x == coord2.x && coord1.y == coord2.y
}

pub open spec fn abs_int(v: int) -> int {
    if v < 0 {
        -v
    } else {
        v
    }
}

/// Manhattan distance between two cells. The y term subtracts in the opposite
/// order from the x term; the absolute value makes the two orders agree, so
/// this is ordinary Manhattan distance.
pub open spec fn spec_distance(coord1: Coord, coord2: Coord) -> int {
    abs_int(coord1.x - coord2.x) + abs_int(coord2.y - coord1.y)
}

/// The differences and their sum stay within the machine's signed range, so
/// the distance can be computed without overflow.
pub open spec fn distance_fits(coord1: Coord, coord2: Coord) -> bool {
    &&& -i32::MAX <= coord1.x - coord2.x <= i32::MAX
    &&& -i32::MAX <= coord2.y - coord1.y <= i32::MAX
    &&& spec_distance(coord1, coord2) <= i32::MAX
}

pub fn distance(coord1: &Coord, coord2: &Coord) -> (r: i32)
    requires
        distance_fits(*coord1, *coord2),
    ensures
        r == spec_distance(*coord1, *coord2),
{
    let dx = coord1.x - coord2.x;
    let dy = coord2.y - coord1.y;
    let adx = if dx < 0 { -dx } else { dx };
    let ady = if dy < 0 { -dy } else { dy };
    adx + ady
}

/// The food cell nearest to `head`: no cell is strictly nearer, and every
/// earlier cell in the food list is strictly farther, so the first minimum in
/// list order is returned.
pub fn closest_food(head: &Coord, board: &Board) -> (r: Option<Coord>)
    requires
        forall|i: int| 0 <= i < board.food@.len() ==> distance_fits(board.food@[i], *head),
    ensures
        (r is None) <==> board.food@.len() == 0,
        r is Some ==> exists|i: int|
            {
                &&& 0 <= i < board.food@.len()
                &&& board.food@[i] == r->Some_0
                &&& forall|j: int|
                    0 <= j < board.food@.len() ==> spec_distance(board.food@[i], *head)
                        <= spec_distance(#[trigger] board.food@[j], *head)
                &&& forall|j: int|
                    0 <= j < i ==> spec_distance(#[trigger] board.food@[j], *head)
                        > spec_distance(board.food@[i], *head)
            },
{
    if board.food.len() == 0 {
        return None;
    }
    let mut best: usize = 0;
    let mut best_dist: i32 = distance(&board.food[0], head);
    let mut j: usize = 1;
    while j < board.food.len()
        invariant
            0 <= best < j <= board.food@.len(),
            forall|i: int| 0 <= i < board.food@.len() ==> distance_fits(board.food@[i], *head),
            best_dist == spec_distance(board.food@[best as int], *head),
            forall|i: int|
                0 <= i < j ==> best_dist <= spec_distance(#[trigger] board.food@[i], *head),
            forall|i: int|
                0 <= i < best ==> spec_distance(#[trigger] board.food@[i], *head) > best_dist,
        decreases board.food@.len() - j,
    {
        let d = distance(&board.food[j], head);
        if d < best_dist {
            best = j;
            best_dist = d;
        }
        j = j + 1;
    }
    Some(board.food[best].clone())
}

} // verus!
