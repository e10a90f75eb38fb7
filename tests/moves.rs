use battlesnake::request::{Battlesnake, Board, Coord, Game};
use battlesnake::snakes::{dizzy, righty, rusty};

fn coord(x: i32, y: i32) -> Coord {
    Coord { x, y }
}

fn snake(id: &str, name: &str, health: u32, body: &[(i32, i32)], length: u32) -> Battlesnake {
    let body: Vec<Coord> = body.iter().map(|&(x, y)| coord(x, y)).collect();
    Battlesnake {
        id: id.to_string(),
        name: name.to_string(),
        health,
        head: body[0],
        body,
        length,
        latency: "111".to_string(),
    }
}

fn board(
    width: u32,
    height: u32,
    food: &[(i32, i32)],
    hazards: &[(i32, i32)],
    snakes: Vec<Battlesnake>,
) -> Board {
    Board {
        height,
        width,
        food: food.iter().map(|&(x, y)| coord(x, y)).collect(),
        hazards: hazards.iter().map(|&(x, y)| coord(x, y)).collect(),
        snakes,
    }
}

fn game() -> Game {
    Game { id: "unique-game-id".to_string(), timeout: 500 }
}

#[test]
fn rusty_movement_avoid_moving_out_of_bounds() {
    let board = board(
        11,
        11,
        &[],
        &[],
        vec![
            snake("my-snake", "My Snake", 54, &[(0, 0), (1, 0), (2, 0)], 3),
        ],
    );
    let you = snake("my-snake", "My Snake", 54, &[(0, 0), (1, 0), (2, 0)], 3);
    let response = rusty::get_move(&game(), &0, &board, &you);
    assert_eq!(response.chosen_move, "up");
    assert_eq!(response.shout, "up");
}

#[test]
fn rusty_movement_tail_is_safe() {
    let board = board(
        11,
        11,
        &[],
        &[],
        vec![
            snake("my-snake", "My Snake", 54, &[(0, 0), (1, 0), (1, 1), (0, 1)], 4),
        ],
    );
    let you = snake("my-snake", "My Snake", 54, &[(0, 0), (1, 0), (1, 1), (0, 1)], 4);
    let response = rusty::get_move(&game(), &0, &board, &you);
    assert_eq!(response.chosen_move, "up");
    assert_eq!(response.shout, "up");
}

#[test]
fn rusty_movement_avoid_snake_bodies() {
    let board = board(
        11,
        11,
        &[],
        &[],
        vec![
            snake("my-snake", "My Snake", 54, &[(5, 5), (6, 5), (7, 5)], 3),
            snake("snake-1", "Snake 1", 54, &[(5, 6), (6, 6), (7, 6)], 3),
            snake("snake-2", "Snake 2", 54, &[(5, 4), (6, 4), (7, 4)], 3),
        ],
    );
    let you = snake("my-snake", "My Snake", 54, &[(5, 5), (6, 5), (7, 5)], 3);
    let response = rusty::get_move(&game(), &0, &board, &you);
    assert_eq!(response.chosen_move, "left");
    assert_eq!(response.shout, "left");
}

#[test]
fn rusty_movement_prefer_safe_move_to_semisafe_move() {
    let board = board(
        11,
        11,
        &[],
        &[],
        vec![
            snake("my-snake", "My Snake", 54, &[(6, 5), (7, 5), (8, 5)], 3),
            snake("snake-1", "Snake 1", 54, &[(4, 5), (3, 5), (2, 5), (1, 5)], 4),
            snake("snake-2", "Snake 2", 54, &[(6, 4), (7, 4), (8, 4)], 3),
        ],
    );
    let you = snake("my-snake", "My Snake", 54, &[(6, 5), (7, 5), (8, 5)], 3);
    let response = rusty::get_move(&game(), &0, &board, &you);
    assert_eq!(response.chosen_move, "up");
    assert!(response.shout.contains("up"));
    assert!(response.shout.contains("left"));
    assert!(!response.shout.contains("right"));
    assert!(!response.shout.contains("down"));
}

#[test]
fn rusty_movement_prefer_food() {
    let board = board(
        11,
        11,
        &[(5, 9)],
        &[],
        vec![
            snake("my-snake", "My Snake", 54, &[(5, 5), (6, 5), (7, 5)], 3),
        ],
    );
    let you = snake("my-snake", "My Snake", 54, &[(5, 5), (6, 5), (7, 5)], 3);
    let response = rusty::get_move(&game(), &0, &board, &you);
    assert_eq!(response.chosen_move, "up");
    assert!(response.shout.contains("up"));
    assert!(response.shout.contains("down"));
    assert!(response.shout.contains("left"));
    assert!(!response.shout.contains("right"));
}

#[test]
fn rusty_movement_prefer_food_avoid_snake() {
    let board = board(
        11,
        11,
        &[(5, 9)],
        &[],
        vec![
            snake("my-snake", "My Snake", 54, &[(5, 5), (6, 5), (7, 5)], 3),
            snake("snake-1", "Snake 1", 54, &[(4, 6), (5, 6), (6, 6), (7, 6)], 4),
        ],
    );
    let you = snake("my-snake", "My Snake", 54, &[(5, 5), (6, 5), (7, 5)], 3);
    let response = rusty::get_move(&game(), &0, &board, &you);
    assert_eq!(response.chosen_move, "down");
    assert!(response.shout.contains("down"));
    assert!(response.shout.contains("left"));
    assert!(!response.shout.contains("right"));
    assert!(!response.shout.contains("up"));
}

#[test]
fn rusty_movement_prefer_food_avoid_self() {
    let board = board(
        11,
        11,
        &[(2, 10)],
        &[],
        vec![
            snake("my-snake", "My Snake", 54, &[(5, 9), (4, 9), (4, 10), (5, 10)], 4),
        ],
    );
    let you = snake("my-snake", "My Snake", 54, &[(5, 9), (4, 9), (4, 10), (5, 10)], 4);
    let response = rusty::get_move(&game(), &0, &board, &you);
    assert_ne!(response.chosen_move, "left");
    assert!(!response.shout.contains("left"));
    assert!(response.shout.contains("right"));
    assert!(response.shout.contains("up"));
    assert!(response.shout.contains("down"));
}

#[test]
fn movement_prefer_food_long_scan() {
    let board = board(
        11,
        11,
        &[(2, 10)],
        &[],
        vec![
            snake("my-snake", "My Snake", 54, &[(6, 0), (6, 1), (7, 1), (8, 1), (9, 1), (9, 2), (9, 3)], 7),
            snake("snake-1", "Snake 1", 54, &[(3, 0), (4, 0), (4, 1), (5, 1), (5, 2), (5, 3), (5, 4), (5, 5)], 8),
        ],
    );
    let you = snake("my-snake", "My Snake", 54, &[(6, 0), (6, 1), (7, 1), (8, 1), (9, 1), (9, 2), (9, 3)], 7);
    let response = rusty::get_move(&game(), &0, &board, &you);
    assert_eq!(response.chosen_move, "right");
    assert!(response.shout.contains("right"));
    assert!(response.shout.contains("left"));
    assert!(!response.shout.contains("up"));
    assert!(!response.shout.contains("down"));
}

#[test]
fn movement_prefer_food_prefer_closer_food() {
    let board = board(
        11,
        11,
        &[(4, 10), (7, 10)],
        &[],
        vec![
            snake("my-snake", "My Snake", 54, &[(5, 10), (5, 9), (5, 8)], 3),
        ],
    );
    let you = snake("my-snake", "My Snake", 54, &[(5, 10), (5, 9), (5, 8)], 3);
    let response = rusty::get_move(&game(), &0, &board, &you);
    assert_eq!(response.chosen_move, "left");
    assert!(response.shout.contains("right"));
    assert!(response.shout.contains("left"));
    assert!(!response.shout.contains("up"));
    assert!(!response.shout.contains("down"));
}

#[test]
fn movement_avoid_small_spaces() {
    let board = board(
        11,
        11,
        &[],
        &[],
        vec![
            snake("my-snake", "My Snake", 54, &[(9, 0), (9, 1), (9, 2), (10, 2)], 4),
        ],
    );
    let you = snake("my-snake", "My Snake", 54, &[(9, 0), (9, 1), (9, 2), (10, 2)], 4);
    let response = rusty::get_move(&game(), &0, &board, &you);
    assert_eq!(response.chosen_move, "left");
    assert!(response.shout.contains("right"));
    assert!(response.shout.contains("left"));
    assert!(!response.shout.contains("up"));
    assert!(!response.shout.contains("down"));
}

#[test]
fn movement_prefer_food_prefer_single_closer_food_to_two_further_food() {
    let board = board(
        11,
        11,
        &[(10, 10), (0, 0), (3, 1)],
        &[],
        vec![
            snake("my-snake", "My Snake", 89, &[(9, 10), (9, 9), (9, 8), (9, 7), (9, 6), (9, 5), (9, 4)], 7),
            snake("snake-2", "Snake 2", 93, &[(5, 10), (5, 9), (5, 8), (5, 7), (5, 6), (5, 5), (5, 4), (5, 3), (5, 2), (5, 1)], 10),
        ],
    );
    let you = snake("my-snake", "My Snake", 89, &[(9, 10), (9, 9), (9, 8), (9, 7), (9, 6), (9, 5), (9, 4)], 7);
    let response = rusty::get_move(&game(), &47, &board, &you);
    assert_eq!(response.chosen_move, "right");
    assert!(response.shout.contains("right"));
    assert!(response.shout.contains("left"));
    assert!(!response.shout.contains("up"));
    assert!(!response.shout.contains("down"));
}

#[test]
fn tests_movement_avoid_moving_out_of_bounds() {
    let board = board(
        11,
        11,
        &[],
        &[],
        vec![
            snake("my-snake", "My Snake", 54, &[(0, 0), (1, 0), (2, 0)], 3),
        ],
    );
    let you = snake("my-snake", "My Snake", 54, &[(0, 0), (1, 0), (2, 0)], 3);
    let response = rusty::get_move(&game(), &0, &board, &you);
    assert_eq!(response.chosen_move, "up");
    assert_eq!(response.shout, "up");
}

#[test]
fn tests_movement_tail_is_safe() {
    let board = board(
        11,
        11,
        &[],
        &[],
        vec![
            snake("my-snake", "My Snake", 54, &[(0, 0), (1, 0), (1, 1), (0, 1)], 4),
        ],
    );
    let you = snake("my-snake", "My Snake", 54, &[(0, 0), (1, 0), (1, 1), (0, 1)], 4);
    let response = rusty::get_move(&game(), &0, &board, &you);
    assert_eq!(response.chosen_move, "up");
    assert_eq!(response.shout, "up");
}

#[test]
fn tests_movement_avoid_snake_bodies() {
    let board = board(
        11,
        11,
        &[],
        &[],
        vec![
            snake("my-snake", "My Snake", 54, &[(5, 5), (6, 5), (7, 5)], 3),
            snake("snake-1", "Snake 1", 54, &[(5, 6), (6, 6), (7, 6)], 3),
            snake("snake-2", "Snake 2", 54, &[(5, 4), (6, 4), (7, 4)], 3),
        ],
    );
    let you = snake("my-snake", "My Snake", 54, &[(5, 5), (6, 5), (7, 5)], 3);
    let response = rusty::get_move(&game(), &0, &board, &you);
    assert_eq!(response.chosen_move, "left");
    assert_eq!(response.shout, "left");
}

#[test]
fn tests_movement_prefer_safe_move_to_semisafe_move() {
    let board = board(
        11,
        11,
        &[],
        &[],
        vec![
            snake("my-snake", "My Snake", 54, &[(6, 5), (7, 5), (8, 5)], 3),
            snake("snake-1", "Snake 1", 54, &[(4, 5), (3, 5), (2, 5), (1, 5)], 4),
            snake("snake-2", "Snake 2", 54, &[(6, 4), (7, 4), (8, 4)], 3),
        ],
    );
    let you = snake("my-snake", "My Snake", 54, &[(6, 5), (7, 5), (8, 5)], 3);
    let response = rusty::get_move(&game(), &0, &board, &you);
    assert_eq!(response.chosen_move, "up");
    assert!(response.shout.contains("up"));
    assert!(response.shout.contains("left"));
}

#[test]
fn tests_movement_prefer_food() {
    let board = board(
        11,
        11,
        &[(5, 9)],
        &[],
        vec![
            snake("my-snake", "My Snake", 54, &[(5, 5), (6, 5), (7, 5)], 3),
        ],
    );
    let you = snake("my-snake", "My Snake", 54, &[(5, 5), (6, 5), (7, 5)], 3);
    let response = rusty::get_move(&game(), &0, &board, &you);
    assert_eq!(response.chosen_move, "up");
    assert!(response.shout.contains("up"));
    assert!(response.shout.contains("down"));
    assert!(response.shout.contains("left"));
}

#[test]
fn tests_movement_prefer_food_avoid_snake() {
    let board = board(
        11,
        11,
        &[(5, 9)],
        &[],
        vec![
            snake("my-snake", "My Snake", 54, &[(5, 5), (6, 5), (7, 5)], 3),
            snake("snake-1", "Snake 1", 54, &[(4, 6), (5, 6), (6, 6), (7, 6)], 4),
        ],
    );
    let you = snake("my-snake", "My Snake", 54, &[(5, 5), (6, 5), (7, 5)], 3);
    let response = rusty::get_move(&game(), &0, &board, &you);
    assert_eq!(response.chosen_move, "down");
    assert!(response.shout.contains("down"));
    assert!(response.shout.contains("left"));
}

#[test]
fn tests_movement_prefer_food_avoid_self() {
    let board = board(
        11,
        11,
        &[(2, 10)],
        &[],
        vec![
            snake("my-snake", "My Snake", 54, &[(5, 9), (4, 9), (4, 10), (5, 10)], 4),
        ],
    );
    let you = snake("my-snake", "My Snake", 54, &[(5, 9), (4, 9), (4, 10), (5, 10)], 4);
    let response = rusty::get_move(&game(), &0, &board, &you);
    assert_ne!(response.chosen_move, "left");
    assert!(response.shout.contains("right"));
    assert!(response.shout.contains("up"));
    assert!(response.shout.contains("down"));
}

#[test]
fn movement_scan_tail_down() {
    let board = board(
        11,
        11,
        &[],
        &[],
        vec![
            snake("my-snake", "My Snake", 80, &[(3, 3), (2, 3), (2, 2), (3, 2)], 4),
        ],
    );
    let you = snake("my-snake", "My Snake", 80, &[(3, 3), (2, 3), (2, 2), (3, 2)], 4);
    let response = dizzy::get_move(&game(), &10, &board, &you);
    assert_eq!(response.chosen_move, "down");
}

#[test]
fn movement_scan_tail_left() {
    let board = board(
        11,
        11,
        &[],
        &[],
        vec![
            snake("my-snake", "My Snake", 80, &[(3, 2), (3, 3), (2, 3), (2, 2)], 4),
        ],
    );
    let you = snake("my-snake", "My Snake", 80, &[(3, 2), (3, 3), (2, 3), (2, 2)], 4);
    let response = dizzy::get_move(&game(), &10, &board, &you);
    assert_eq!(response.chosen_move, "left");
}

#[test]
fn movement_scan_tail_up() {
    let board = board(
        11,
        11,
        &[],
        &[],
        vec![
            snake("my-snake", "My Snake", 80, &[(2, 2), (3, 2), (3, 3), (2, 3)], 4),
        ],
    );
    let you = snake("my-snake", "My Snake", 80, &[(2, 2), (3, 2), (3, 3), (2, 3)], 4);
    let response = dizzy::get_move(&game(), &10, &board, &you);
    assert_eq!(response.chosen_move, "up");
}

#[test]
fn movement_scan_tail_right() {
    let board = board(
        11,
        11,
        &[],
        &[],
        vec![
            snake("my-snake", "My Snake", 80, &[(2, 3), (2, 2), (3, 2), (3, 3)], 4),
        ],
    );
    let you = snake("my-snake", "My Snake", 80, &[(2, 3), (2, 2), (3, 2), (3, 3)], 4);
    let response = dizzy::get_move(&game(), &10, &board, &you);
    assert_eq!(response.chosen_move, "right");
}

#[test]
fn movement_move_right() {
    let board = board(
        11,
        11,
        &[],
        &[],
        vec![
            snake("my-snake", "My Snake", 54, &[(3, 3), (3, 3), (3, 3)], 3),
        ],
    );
    let you = snake("my-snake", "My Snake", 54, &[(3, 3), (3, 3), (3, 3)], 3);
    let response = righty::get_move(&game(), &0, &board, &you);
    assert_eq!(response.chosen_move, "right");
}
