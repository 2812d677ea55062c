use vstd::prelude::*;
use vstd::string::StringExecFns;

use rand::rngs::SmallRng;
use rand::{Rng, SeedableRng};

use crate::board_functions::{coord_in_direction, is_outside};
use crate::board_functions::{spec_coord_in_direction, spec_is_outside};
use crate::models::{direction_name, Direction, DirectionResult, Outcome};
use crate::{Battlesnake, Board, Coord, MoveResponse};

verus! {

/// Relies on rand's `SeedableRng::from_entropy` and `Rng::gen_range`: a value
/// sampled from the range `0..n`, which is nonempty, so the call cannot panic
/// and the result is below `n`.
#[verifier::external_body]
fn random_below(n: usize) -> (r: usize)
    requires
        n > 0,
    ensures
        r < n,
{
    let mut small_rng = SmallRng::from_entropy();
    small_rng.gen_range(0..n)
}

/// A head can step this way without leaving the machine's integer range.
pub open spec fn step_fits(head: Coord, d: Direction) -> bool {
    match d {
        Direction::Up => head.y < i32::MAX,
        Direction::Down => head.y > i32::MIN,
        Direction::Left => head.x > i32::MIN,
        Direction::Right => head.x < i32::MAX,
    }
}

/// A move is safe when the cell it steps to lies on the board.
pub open spec fn spec_move_safe(board: Board, head: Coord, d: Direction) -> bool {
    !spec_is_outside(spec_coord_in_direction(head, d), board)
}

/// Pick the move for this turn: evaluate the four directions from the snake's
/// head, keep those that stay on the board, and answer one of them, chosen at
/// random among the survivable moves with the best score; with no survivable
/// move, answer "down".
pub fn next_move(board: &Board, you: &Battlesnake) -> (r: MoveResponse)
    requires
        you.body@.len() >= 1,
        forall|d: Direction| step_fits(you.body@[0], d),
    ensures
        r.shout is None,
        (exists|d: Direction| spec_move_safe(*board, you.body@[0], d)) ==> exists|d: Direction|
            #[trigger] spec_move_safe(*board, you.body@[0], d) && r.direction@ == direction_name(d),
        !(exists|d: Direction| spec_move_safe(*board, you.body@[0], d)) ==> r.direction@
            == direction_name(Direction::Down),
{
    let head = &you.body[0];

    let possible_directions: [Direction; 4] = [
        Direction::Up,
        Direction::Left,
        Direction::Down,
        Direction::Right,
    ];

    let mut direction_results: Vec<DirectionResult> = Vec::new();
    let mut k: usize = 0;
    while k < 4
        invariant
            0 <= k <= 4,
            direction_results@.len() == k,
            forall|j: int|
                0 <= j < k ==> (#[trigger] direction_results@[j]).direction
                    == possible_directions@[j] && direction_results@[j].other_data == 0
                    && (direction_results@[j].outcome == Outcome::Alive <==> spec_move_safe(
                    *board,
                    you.body@[0],
                    possible_directions@[j],
                )),
        decreases 4 - k,
    {
        let direction = possible_directions[k];
        proof {
            assert(step_fits(you.body@[0], direction));
        }
        let next_coord = coord_in_direction(head, &direction);
        let is_out_of_bounds = is_outside(&next_coord, board);
        let outcome = if is_out_of_bounds {
            Outcome::Dead
        } else {
            Outcome::Alive
        };
        direction_results.push(DirectionResult { direction, outcome, other_data: 0 });
        k = k + 1;
    }

    let mut safe_moves: Vec<DirectionResult> = Vec::new();
    let mut k: usize = 0;
    while k < direction_results.len()
        invariant
            0 <= k <= direction_results@.len(),
            forall|j: int|
                0 <= j < safe_moves@.len() ==> spec_move_safe(
                    *board,
                    you.body@[0],
                    (#[trigger] safe_moves@[j]).direction,
                ) && safe_moves@[j].other_data == 0,
            safe_moves@.len() == 0 ==> forall|j: int|
                0 <= j < k ==> (#[trigger] direction_results@[j]).outcome != Outcome::Alive,
        decreases direction_results@.len() - k,
    {
        let dir = &direction_results[k];
        if dir.outcome == Outcome::Alive {
            safe_moves.push(*dir);
        }
        k = k + 1;
    }

    if safe_moves.len() == 0 {
        proof {
            assert forall|d: Direction| !spec_move_safe(*board, you.body@[0], d) by {
                let j: int = match d {
                    Direction::Up => 0,
                    Direction::Left => 1,
                    Direction::Down => 2,
                    Direction::Right => 3,
                };
                assert(direction_results@[j].outcome != Outcome::Alive);
            }
        }
        return MoveResponse { direction: String::from_str("down"), shout: None };
    }

    // Every safe move carries the same score, so the best score is shared by
    // all of them; pick uniformly among the moves that attain it.
    let mut best_score: i32 = safe_moves[0].other_data;
    let mut k: usize = 1;
    while k < safe_moves.len()
        invariant
            best_score == 0,
            forall|j: int|
                0 <= j < safe_moves@.len() ==> spec_move_safe(
                    *board,
                    you.body@[0],
                    (#[trigger] safe_moves@[j]).direction,
                ) && safe_moves@[j].other_data == 0,
        decreases safe_moves@.len() - k,
    {
        if safe_moves[k].other_data > best_score {
            best_score = safe_moves[k].other_data;
        }
        k = k + 1;
    }

    let mut equally_good_moves: Vec<DirectionResult> = Vec::new();
    let mut k: usize = 0;
    while k < safe_moves.len()
        invariant
            0 <= k <= safe_moves@.len(),
            equally_good_moves@.len() == k,
            forall|j: int|
                0 <= j < equally_good_moves@.len() ==> spec_move_safe(
                    *board,
                    you.body@[0],
                    (#[trigger] equally_good_moves@[j]).direction,
                ),
            forall|j: int|
                0 <= j < safe_moves@.len() ==> spec_move_safe(
                    *board,
                    you.body@[0],
                    (#[trigger] safe_moves@[j]).direction,
                ) && safe_moves@[j].other_data == 0,
        decreases safe_moves@.len() - k,
    {
        if safe_moves[k].other_data == best_score {
            equally_good_moves.push(safe_moves[k]);
        }
        k = k + 1;
    }

    let index = random_below(equally_good_moves.len());
    let random_best_move = &equally_good_moves[index];
    let chosen = random_best_move.direction;
    proof {
        assert(spec_move_safe(*board, you.body@[0], chosen));
    }
    MoveResponse { direction: String::from_str(chosen.name()), shout: None }
}

} // verus!
