use battlesnake::auth::{ApiKey, ApiKeyError};
use battlesnake::cell_grid::CellGrid;
use battlesnake::fifo_queue::FifoQueue;
use battlesnake::graph::get_adjacent_nodes;
use battlesnake::logic::{
    avoid_bounds, avoid_hazards, avoid_small_spaces, avoid_snake_bodies, get_all_snake_coords,
    handle_opponent_heads, scan_food, scan_tail, snake_is_stacked,
};
use battlesnake::movement_set::{Movement, WeightedMovementSet};
use battlesnake::request::{turn_valid, Battlesnake, Board, Coord, Game};
use battlesnake::snakes::{dizzy, righty, rusty};

fn coord(x: i32, y: i32) -> Coord {
    Coord { x, y }
}

fn snake(id: &str, body: &[(i32, i32)], length: u32) -> Battlesnake {
    let body: Vec<Coord> = body.iter().map(|&(x, y)| coord(x, y)).collect();
    Battlesnake {
        id: id.to_string(),
        name: id.to_string(),
        health: 90,
        head: body[0],
        body,
        length,
        latency: "0".to_string(),
    }
}

fn board(food: &[(i32, i32)], hazards: &[(i32, i32)], snakes: Vec<Battlesnake>) -> Board {
    Board {
        height: 11,
        width: 11,
        food: food.iter().map(|&(x, y)| coord(x, y)).collect(),
        hazards: hazards.iter().map(|&(x, y)| coord(x, y)).collect(),
        snakes,
    }
}

fn safe_set(board: &Board, you: &Battlesnake) -> WeightedMovementSet {
    let mut set = WeightedMovementSet::new();
    avoid_bounds(board.width, board.height, you, &mut set);
    avoid_snake_bodies(&board.snakes, you, &mut set);
    set
}

#[test]
fn fifo_queue_keeps_order() {
    let mut q = FifoQueue::<u32>::new();
    q.enqueue(1);
    q.enqueue(2);
    q.enqueue(3);
    assert_eq!(q.dequeue(), Some(1));
    assert_eq!(q.len(), 2);
    assert_eq!(q.dequeue(), Some(2));
    q.clear();
    assert_eq!(q.len(), 0);
    assert_eq!(q.dequeue(), None);
}

#[test]
fn cell_grid_holds_board_cells_only() {
    let mut g = CellGrid::new(3, 2);
    g.insert(&coord(1, 1));
    g.insert(&coord(-1, 0));
    g.insert(&coord(3, 0));
    assert!(g.contains(&coord(1, 1)));
    assert!(!g.contains(&coord(0, 0)));
    assert!(!g.contains(&coord(-1, 0)));
    assert!(!g.contains(&coord(3, 0)));
    g.remove(&coord(1, 1));
    assert!(!g.contains(&coord(1, 1)));
}

#[test]
fn adjacent_nodes_in_order() {
    let nodes = get_adjacent_nodes(&coord(5, 5));
    let got: Vec<(i32, i32, Movement)> = nodes.iter().map(|n| (n.coord.x, n.coord.y, n.movement)).collect();
    assert_eq!(
        got,
        vec![
            (5, 6, Movement::Up),
            (5, 4, Movement::Down),
            (4, 5, Movement::Left),
            (6, 5, Movement::Right)
        ]
    );
}

#[test]
fn stacked_bodies() {
    assert!(snake_is_stacked(&snake("a", &[(3, 3), (3, 3), (3, 3)], 3)));
    assert!(snake_is_stacked(&snake("a", &[(0, 0), (1, 0), (0, 0)], 3)));
    assert!(!snake_is_stacked(&snake("a", &[(0, 0), (1, 0), (2, 0)], 3)));
    assert!(!snake_is_stacked(&snake("a", &[(0, 0)], 1)));
}

#[test]
fn snake_coords_cover_every_segment_on_the_board() {
    let snakes = vec![snake("a", &[(0, 0), (1, 0)], 2), snake("b", &[(4, 4), (4, 5), (4, 11)], 3)];
    let g = get_all_snake_coords(&snakes, 11, 11);
    assert!(g.contains(&coord(0, 0)));
    assert!(g.contains(&coord(1, 0)));
    assert!(g.contains(&coord(4, 5)));
    assert!(!g.contains(&coord(4, 11)));
    assert!(!g.contains(&coord(2, 0)));
}

#[test]
fn bounds_at_the_corner() {
    let you = snake("me", &[(0, 0), (1, 0), (2, 0)], 3);
    let mut set = WeightedMovementSet::new();
    avoid_bounds(11, 11, &you, &mut set);
    assert_eq!(set.names(), "up,right");
}

#[test]
fn bounds_on_the_left_edge_rule_out_left() {
    let you = snake("me", &[(0, 5), (0, 4), (0, 3)], 3);
    let b = board(&[], &[], vec![snake("me", &[(0, 5), (0, 4), (0, 3)], 3)]);
    let mut set = WeightedMovementSet::new();
    avoid_bounds(11, 11, &you, &mut set);
    assert_eq!(set.names(), "up,down,right");
    let response = rusty::get_move(&Game { id: "g".to_string(), timeout: 500 }, &0, &b, &you);
    assert_ne!(response.chosen_move, "left");
    assert!(!response.shout.contains("left"));
}

#[test]
fn a_tail_that_moves_away_is_safe() {
    let body = [(0, 0), (1, 0), (1, 1), (0, 1)];
    let you = snake("me", &body, 4);
    let mut set = WeightedMovementSet::new();
    avoid_snake_bodies(&vec![snake("me", &body, 4)], &you, &mut set);
    assert_eq!(set.names(), "up,down,left");
}

#[test]
fn a_tail_that_stays_blocks() {
    let body = [(0, 0), (1, 0), (1, 1), (0, 1), (0, 1)];
    let you = snake("me", &body, 5);
    let mut set = WeightedMovementSet::new();
    avoid_snake_bodies(&vec![snake("me", &body, 5)], &you, &mut set);
    assert_eq!(set.names(), "down,left");
}

#[test]
fn hazards_cost_seventy_per_entry() {
    let you = snake("me", &[(5, 5), (6, 5), (7, 5)], 3);
    let mut set = WeightedMovementSet::new();
    avoid_hazards(&vec![coord(5, 6), coord(5, 6), coord(4, 5)], &you, &mut set);
    assert_eq!(set.score(&Movement::Up), Some(-40));
    assert_eq!(set.score(&Movement::Left), Some(30));
    assert_eq!(set.score(&Movement::Down), Some(100));
    assert_eq!(set.score(&Movement::Right), Some(100));
    let mut untouched = WeightedMovementSet::new();
    avoid_hazards(&vec![], &you, &mut untouched);
    assert_eq!(untouched.score(&Movement::Up), Some(100));
}

#[test]
fn heads_of_other_agents() {
    let you = snake("me", &[(5, 5), (5, 4), (5, 3)], 3);
    let snakes = vec![
        snake("me", &[(5, 5), (5, 4), (5, 3)], 10),
        snake("longer", &[(5, 7), (5, 8), (5, 9), (5, 10)], 4),
        snake("equal", &[(7, 5), (8, 5), (9, 5)], 3),
        snake("shorter", &[(3, 5), (2, 5)], 2),
    ];
    let mut set = WeightedMovementSet::new();
    handle_opponent_heads(&snakes, &you, &mut set);
    assert_eq!(set.score(&Movement::Up), Some(40));
    assert_eq!(set.score(&Movement::Right), Some(50));
    assert_eq!(set.score(&Movement::Left), Some(130));
    assert_eq!(set.score(&Movement::Down), Some(100));
}

#[test]
fn closer_food_scores_higher() {
    let me = [(5, 5), (5, 4), (5, 3)];
    let you = snake("me", &me, 3);
    let b = board(&[(5, 7), (2, 5)], &[], vec![snake("me", &me, 3)]);
    let mut set = safe_set(&b, &you);
    scan_food(&b, &you, &mut set);
    assert_eq!(set.score(&Movement::Up), Some(120));
    assert_eq!(set.score(&Movement::Left), Some(110));
    assert_eq!(set.score(&Movement::Right), Some(100));
    assert_eq!(set.score(&Movement::Down), None);
    assert!(set.score(&Movement::Up) > set.score(&Movement::Left));
}

#[test]
fn no_food_changes_nothing() {
    let me = [(5, 5), (5, 4), (5, 3)];
    let you = snake("me", &me, 3);
    let b = board(&[], &[], vec![snake("me", &me, 3)]);
    let mut set = safe_set(&b, &you);
    scan_food(&b, &you, &mut set);
    assert_eq!(set.names(), "up,left,right");
    assert_eq!(set.score(&Movement::Up), Some(100));
    assert_eq!(set.score(&Movement::Left), Some(100));
}

#[test]
fn the_way_to_the_tail_gains_twenty() {
    let body = [(3, 3), (2, 3), (2, 2), (3, 2)];
    let you = snake("me", &body, 4);
    let b = board(&[], &[], vec![snake("me", &body, 4)]);
    let mut set = safe_set(&b, &you);
    scan_tail(&b, &you, &mut set);
    assert_eq!(set.score(&Movement::Down), Some(120));
    assert_eq!(set.score(&Movement::Up), Some(100));
    assert_eq!(set.score(&Movement::Right), Some(100));
    assert_eq!(set.score(&Movement::Left), None);
}

#[test]
fn a_pocket_too_small_costs_seventy() {
    let body = [(9, 0), (9, 1), (9, 2), (10, 2)];
    let long = snake("me", &body, 6);
    let b = board(&[], &[], vec![snake("me", &body, 6)]);
    let mut set = safe_set(&b, &long);
    avoid_small_spaces(&b, &long, &mut set);
    assert_eq!(set.score(&Movement::Right), Some(30));
    assert_eq!(set.score(&Movement::Left), Some(100));
    assert!(set.pick_movement() == Movement::Left);

    let short = snake("me", &body, 4);
    let b = board(&[], &[], vec![snake("me", &body, 4)]);
    let mut set = safe_set(&b, &short);
    avoid_small_spaces(&b, &short, &mut set);
    assert_eq!(set.score(&Movement::Right), Some(100));
    assert_eq!(set.score(&Movement::Left), Some(100));
}

#[test]
fn a_surrounded_head_still_gets_a_move() {
    let you = snake("me", &[(5, 5), (5, 4), (5, 3)], 3);
    let b = board(
        &[],
        &[],
        vec![
            snake("me", &[(5, 5), (5, 4), (5, 3)], 3),
            snake("a", &[(4, 6), (5, 6), (6, 6), (6, 5), (7, 5)], 5),
            snake("b", &[(3, 4), (4, 4), (4, 5), (3, 5)], 4),
        ],
    );
    let response = rusty::get_move(&Game { id: "g".to_string(), timeout: 500 }, &0, &b, &you);
    assert_eq!(response.chosen_move, "up");
    assert_eq!(response.shout, "");
}

#[test]
fn the_same_board_gives_the_same_move() {
    let me = [(9, 10), (9, 9), (9, 8), (9, 7), (9, 6), (9, 5), (9, 4)];
    let other = [(5, 10), (5, 9), (5, 8), (5, 7), (5, 6), (5, 5), (5, 4), (5, 3), (5, 2), (5, 1)];
    let you = snake("me", &me, 7);
    let b = board(&[(10, 10), (0, 0), (3, 1)], &[(8, 10)], vec![snake("me", &me, 7), snake("o", &other, 10)]);
    let g = Game { id: "g".to_string(), timeout: 500 };
    let first = rusty::get_move(&g, &47, &b, &you);
    let second = rusty::get_move(&g, &47, &b, &you);
    assert_eq!(first.chosen_move, second.chosen_move);
    assert_eq!(first.shout, second.shout);
    let first = dizzy::get_move(&g, &47, &b, &you);
    let second = dizzy::get_move(&g, &47, &b, &you);
    assert_eq!(first.chosen_move, second.chosen_move);
    assert_eq!(first.shout, second.shout);
}

#[test]
fn game_lines_and_info() {
    let g = Game { id: "abc".to_string(), timeout: 500 };
    let you = snake("me", &[(1, 1)], 1);
    let b = board(&[], &[], vec![snake("me", &[(1, 1)], 1)]);
    assert_eq!(rusty::start(&g, &0, &b, &you), "abc GAME START");
    assert_eq!(rusty::end(&g, &9, &b, &you), "abc GAME OVER");
    assert_eq!(dizzy::start(&g, &0, &b, &you), "abc GAME START");
    assert_eq!(righty::end(&g, &9, &b, &you), "abc GAME OVER");
    let info = rusty::info();
    assert_eq!(info.color, "#00AA33");
    assert_eq!(info.head, "gamer");
    assert_eq!(righty::info().color, "#000000");
    assert_eq!(dizzy::info().head, "caffeine");
    assert_eq!(righty::get_move(&g, &0, &b, &you).chosen_move, "right");
}

#[test]
fn api_keys() {
    assert!(matches!(ApiKey::check(None, "valid_api_key"), Err(ApiKeyError::Missing)));
    assert!(matches!(ApiKey::check(Some("nope"), "valid_api_key"), Err(ApiKeyError::Invalid)));
    match ApiKey::check(Some("valid_api_key"), "valid_api_key") {
        Ok(key) => assert_eq!(key.0, "valid_api_key"),
        Err(_) => panic!("the matching key was refused"),
    }
}

#[test]
fn turns_the_engine_refuses() {
    let me = [(2, 2), (2, 1)];
    let good = board(&[], &[], vec![snake("me", &me, 2)]);
    assert!(turn_valid(&good, &snake("me", &me, 2)));
    let mut empty = snake("me", &me, 2);
    empty.body.clear();
    assert!(!turn_valid(&good, &empty));
    let off = snake("me", &[(11, 2)], 1);
    assert!(!turn_valid(&good, &off));
    let mut zero = board(&[], &[], vec![]);
    zero.width = 0;
    assert!(!turn_valid(&zero, &snake("me", &me, 2)));
    let mut wrong_head = snake("me", &me, 2);
    wrong_head.head = coord(3, 3);
    assert!(!turn_valid(&good, &wrong_head));
}

#[test]
fn a_single_reachable_food_gives_one_bonus() {
    let me = [(5, 5), (5, 4), (5, 3)];
    let you = snake("me", &me, 3);
    let b = board(&[(5, 7)], &[], vec![snake("me", &me, 3)]);
    let mut set = safe_set(&b, &you);
    scan_food(&b, &you, &mut set);
    assert_eq!(set.score(&Movement::Up), Some(120));
    assert_eq!(set.score(&Movement::Left), Some(100));
    assert_eq!(set.score(&Movement::Right), Some(100));
}

#[test]
fn enclosed_food_is_ignored() {
    let me = [(5, 5), (5, 4), (5, 3)];
    let you = snake("me", &me, 3);
    let wall = snake("wall", &[(1, 10), (1, 9), (0, 9), (0, 8)], 4);
    let b = board(&[(0, 10)], &[], vec![snake("me", &me, 3), wall]);
    let mut set = safe_set(&b, &you);
    scan_food(&b, &you, &mut set);
    assert_eq!(set.score(&Movement::Up), Some(100));
    assert_eq!(set.score(&Movement::Left), Some(100));
    assert_eq!(set.score(&Movement::Right), Some(100));
}

#[test]
fn equally_near_food_goes_to_the_earlier_move() {
    let me = [(5, 5), (5, 4), (5, 3)];
    let you = snake("me", &me, 3);
    let b = board(&[(4, 6)], &[], vec![snake("me", &me, 3)]);
    let mut set = safe_set(&b, &you);
    scan_food(&b, &you, &mut set);
    assert_eq!(set.score(&Movement::Up), Some(120));
    assert_eq!(set.score(&Movement::Left), Some(100));
    assert_eq!(set.score(&Movement::Right), Some(100));
}

#[test]
fn the_next_food_found_gets_the_smaller_bonus() {
    let me = [(9, 10), (9, 9), (9, 8), (9, 7), (9, 6), (9, 5), (9, 4)];
    let other = [(5, 10), (5, 9), (5, 8), (5, 7), (5, 6), (5, 5), (5, 4), (5, 3), (5, 2), (5, 1)];
    let you = snake("me", &me, 7);
    let b = board(&[(10, 10), (0, 0), (3, 1)], &[], vec![snake("me", &me, 7), snake("o", &other, 10)]);
    let mut set = safe_set(&b, &you);
    assert_eq!(set.names(), "left,right");
    scan_food(&b, &you, &mut set);
    assert_eq!(set.score(&Movement::Left), Some(110));
    assert_eq!(set.score(&Movement::Right), Some(120));
}

#[test]
fn equally_near_tail_goes_to_the_earlier_move() {
    let body = [(2, 2), (1, 2), (1, 3), (1, 4), (2, 4), (3, 4), (3, 3)];
    let you = snake("me", &body, 7);
    let b = board(&[], &[], vec![snake("me", &body, 7)]);
    let mut set = safe_set(&b, &you);
    scan_tail(&b, &you, &mut set);
    assert_eq!(set.score(&Movement::Up), Some(120));
    assert_eq!(set.score(&Movement::Right), Some(100));
    assert_eq!(set.score(&Movement::Down), Some(100));
    assert_eq!(set.score(&Movement::Left), None);
}
