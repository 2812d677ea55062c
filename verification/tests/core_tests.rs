use battlesnake::board_functions::{
    closest_food, coord_in_direction, distance, is_outside, is_snake_part, same_coord,
};
use battlesnake::logic::next_move;
use battlesnake::models::Direction;
use battlesnake::reachable_cells::reachable_cells;
use battlesnake::{Battlesnake, Board, Coord};

fn coord(x: i32, y: i32) -> Coord {
    Coord { x, y }
}

fn snake(body: Vec<Coord>) -> Battlesnake {
    let head = body[0].clone();
    let length = body.len() as i32;
    Battlesnake {
        id: String::from("s"),
        name: String::from("s"),
        health: 100,
        body,
        head,
        length,
        latency: String::from("0"),
        shout: None,
    }
}

fn board(width: i32, height: u32, snakes: Vec<Battlesnake>, food: Vec<Coord>) -> Board {
    Board {
        height,
        width,
        food,
        snakes,
        hazards: Vec::new(),
    }
}

#[test]
fn empty_board_counts_every_cell() {
    let b = board(5, 5, vec![], vec![]);
    let start = coord(2, 2);
    assert_eq!(reachable_cells(&b, Some(&start)), 25);
}

#[test]
fn fully_blocked_board_counts_only_start() {
    // Eight two-segment snakes' cells ring the start; no snake is long enough
    // to carry a tail mark, so every neighbor is a plain obstacle.
    let b = board(
        3,
        3,
        vec![
            snake(vec![coord(0, 0), coord(1, 0)]),
            snake(vec![coord(2, 0), coord(2, 1)]),
            snake(vec![coord(0, 1), coord(0, 2)]),
            snake(vec![coord(1, 2), coord(2, 2)]),
        ],
        vec![],
    );
    let start = coord(1, 1);
    assert_eq!(reachable_cells(&b, Some(&start)), 1);
}

#[test]
fn blocked_board_with_a_tail_neighbor_adds_the_shortcut() {
    // Every cell around the start is blocked, but the neighbor below the start
    // is a three-segment snake's tail: the count is the start cell plus that
    // snake's length.
    let b = board(
        3,
        3,
        vec![
            snake(vec![coord(0, 1), coord(0, 0), coord(1, 0)]),
            snake(vec![coord(2, 0), coord(2, 1)]),
            snake(vec![coord(0, 2), coord(1, 2), coord(2, 2)]),
        ],
        vec![],
    );
    let start = coord(1, 1);
    assert_eq!(reachable_cells(&b, Some(&start)), 4);
}

#[test]
fn reachable_count_is_idempotent() {
    let b = board(
        4,
        4,
        vec![snake(vec![coord(1, 1), coord(1, 2), coord(2, 2)])],
        vec![],
    );
    let start = coord(0, 0);
    let first = reachable_cells(&b, Some(&start));
    let second = reachable_cells(&b, Some(&start));
    assert_eq!(first, second);
}

#[test]
fn start_on_a_snake_body_is_forced_clear() {
    let b = board(3, 3, vec![snake(vec![coord(1, 1), coord(1, 0)])], vec![]);
    let start = coord(1, 1);
    let count = reachable_cells(&b, Some(&start));
    assert!(count >= 1);
    // The start cell opens onto everything but the snake's other segment.
    assert_eq!(count, 8);
}

#[test]
fn out_of_bounds_start_counts_nothing() {
    let b = board(5, 5, vec![], vec![]);
    assert_eq!(reachable_cells(&b, Some(&coord(7, 2))), 0);
    assert_eq!(reachable_cells(&b, Some(&coord(2, 5))), 0);
    assert_eq!(reachable_cells(&b, Some(&coord(-1, 0))), 0);
    assert_eq!(reachable_cells(&b, Some(&coord(0, -3))), 0);
}

#[test]
fn absent_start_counts_nothing() {
    let b = board(5, 5, vec![], vec![]);
    assert_eq!(reachable_cells(&b, None), 0);
}

#[test]
fn extra_obstacle_never_increases_the_count() {
    let start = coord(2, 2);
    let b1 = board(3, 3, vec![snake(vec![coord(0, 0), coord(1, 0)])], vec![]);
    let before = reachable_cells(&b1, Some(&start));
    // The same board with one extra single-segment snake on a previously
    // clear, reachable, non-tail cell.
    let b2 = board(
        3,
        3,
        vec![
            snake(vec![coord(0, 0), coord(1, 0)]),
            snake(vec![coord(1, 1)]),
        ],
        vec![],
    );
    let after = reachable_cells(&b2, Some(&start));
    assert!(after <= before);
    assert_eq!(before, 7);
    assert_eq!(after, 6);
}

#[test]
fn tail_cell_short_circuits_to_the_body_length() {
    // A three-segment snake whose tail faces the open corridor: the traversal
    // counts the two open cells, then adds the tail shortcut value of 3.
    let b = board(
        5,
        1,
        vec![snake(vec![coord(4, 0), coord(3, 0), coord(2, 0)])],
        vec![],
    );
    let start = coord(0, 0);
    assert_eq!(reachable_cells(&b, Some(&start)), 5);
}

#[test]
fn nearest_food_is_deterministic() {
    let b = board(10, 10, vec![], vec![coord(0, 0), coord(5, 5)]);
    let head = coord(1, 1);
    assert_eq!(closest_food(&head, &b), Some(coord(0, 0)));
}

#[test]
fn nearest_food_tie_takes_the_first_in_list_order() {
    let b = board(10, 10, vec![], vec![coord(3, 1), coord(1, 3), coord(1, 1)]);
    let head = coord(2, 2);
    // (3,1) and (1,3) are both at distance 2; (1,1) also at distance 2.
    assert_eq!(closest_food(&head, &b), Some(coord(3, 1)));
}

#[test]
fn no_food_means_no_nearest_food() {
    let b = board(5, 5, vec![], vec![]);
    assert_eq!(closest_food(&coord(2, 2), &b), None);
}

#[test]
fn distance_is_the_manhattan_sum() {
    assert_eq!(distance(&coord(0, 0), &coord(3, 4)), 7);
    assert_eq!(distance(&coord(2, 5), &coord(1, 1)), 5);
    assert_eq!(distance(&coord(1, 1), &coord(2, 5)), 5);
    assert_eq!(distance(&coord(3, 3), &coord(3, 3)), 0);
}

#[test]
fn coord_in_direction_steps_one_cell() {
    let c = coord(2, 2);
    assert_eq!(coord_in_direction(&c, &Direction::Up), coord(2, 3));
    assert_eq!(coord_in_direction(&c, &Direction::Down), coord(2, 1));
    assert_eq!(coord_in_direction(&c, &Direction::Left), coord(1, 2));
    assert_eq!(coord_in_direction(&c, &Direction::Right), coord(3, 2));
}

#[test]
fn is_outside_tests_all_four_edges() {
    let b = board(5, 3, vec![], vec![]);
    assert!(!is_outside(&coord(0, 0), &b));
    assert!(!is_outside(&coord(4, 2), &b));
    assert!(is_outside(&coord(-1, 0), &b));
    assert!(is_outside(&coord(0, -1), &b));
    assert!(is_outside(&coord(5, 0), &b));
    assert!(is_outside(&coord(0, 3), &b));
}

#[test]
fn is_snake_part_finds_any_segment() {
    let b = board(
        5,
        5,
        vec![
            snake(vec![coord(0, 0), coord(1, 0)]),
            snake(vec![coord(3, 3), coord(3, 4)]),
        ],
        vec![],
    );
    assert!(is_snake_part(&coord(1, 0), &b));
    assert!(is_snake_part(&coord(3, 4), &b));
    assert!(!is_snake_part(&coord(2, 2), &b));
}

#[test]
fn same_coord_compares_both_components() {
    assert!(same_coord(&coord(1, 2), &coord(1, 2)));
    assert!(!same_coord(&coord(1, 2), &coord(2, 1)));
    assert!(!same_coord(&coord(1, 2), &coord(1, 3)));
}

#[test]
fn next_move_takes_the_only_safe_direction() {
    // On a one-cell-wide, two-cell-tall board with the head at the bottom,
    // only Up stays on the board.
    let you = snake(vec![coord(0, 0)]);
    let b = board(1, 2, vec![you.clone()], vec![]);
    let response = next_move(&b, &you);
    assert_eq!(response.direction, "up");
    assert!(response.shout.is_none());
}

#[test]
fn next_move_with_no_safe_direction_goes_down() {
    let you = snake(vec![coord(0, 0)]);
    let b = board(1, 1, vec![you.clone()], vec![]);
    let response = next_move(&b, &you);
    assert_eq!(response.direction, "down");
}

#[test]
fn next_move_answers_some_safe_direction() {
    let you = snake(vec![coord(2, 2)]);
    let b = board(5, 5, vec![you.clone()], vec![]);
    let response = next_move(&b, &you);
    assert!(
        response.direction == "up"
            || response.direction == "down"
            || response.direction == "left"
            || response.direction == "right"
    );
}

#[test]
fn direction_names_are_lowercase() {
    assert_eq!(Direction::Up.name(), "up");
    assert_eq!(Direction::Down.name(), "down");
    assert_eq!(Direction::Left.name(), "left");
    assert_eq!(Direction::Right.name(), "right");
}
