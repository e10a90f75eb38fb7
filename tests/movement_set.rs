use battlesnake::movement_set::{Movement, WeightedMovementSet};

#[test]
fn pick_movement_picks_highest_probability() {
    let mut movement_set = WeightedMovementSet::new();
    movement_set.set_score(&Movement::Down, 101);
    assert!(movement_set.pick_movement() == Movement::Down);
    movement_set.set_score(&Movement::Up, 102);
    assert!(movement_set.pick_movement() == Movement::Up);
    movement_set.set_score(&Movement::Right, 103);
    assert!(movement_set.pick_movement() == Movement::Right);
    movement_set.update_score(&Movement::Left, -1);
    assert!(movement_set.pick_movement() == Movement::Right);
}

#[test]
fn remove_removes_option() {
    let mut movement_set = WeightedMovementSet::new();
    let size = movement_set.moves().len();
    movement_set.remove(&Movement::Down);
    assert!(movement_set.moves().len() == size - 1);
    movement_set.set_score(&Movement::Down, 100);
    assert!(movement_set.moves().len() == size - 1);
}

#[test]
fn new_set_holds_every_move_at_one_hundred() {
    let set = WeightedMovementSet::new();
    for m in [Movement::Up, Movement::Down, Movement::Left, Movement::Right] {
        assert_eq!(set.score(&m), Some(100));
    }
    assert_eq!(set.names(), "up,down,left,right");
}

#[test]
fn empty_set_falls_back_to_up() {
    let mut set = WeightedMovementSet::new();
    for m in [Movement::Up, Movement::Down, Movement::Left, Movement::Right] {
        set.remove(&m);
    }
    assert!(set.pick_movement() == Movement::Up);
    assert_eq!(set.names(), "");
    assert_eq!(set.moves().len(), 0);
}

#[test]
fn ties_go_to_the_earliest_of_up_down_left_right() {
    let mut set = WeightedMovementSet::new();
    set.remove(&Movement::Up);
    assert!(set.pick_movement() == Movement::Down);
    set.remove(&Movement::Down);
    assert!(set.pick_movement() == Movement::Left);
    set.set_score(&Movement::Right, 101);
    assert!(set.pick_movement() == Movement::Right);
}

#[test]
fn a_very_low_score_is_still_picked_when_alone() {
    let mut set = WeightedMovementSet::new();
    set.remove(&Movement::Up);
    set.remove(&Movement::Down);
    set.remove(&Movement::Right);
    set.update_score(&Movement::Left, -1000);
    assert_eq!(set.score(&Movement::Left), Some(-900));
    assert!(set.pick_movement() == Movement::Left);
}

#[test]
fn scores_saturate_at_the_limits_of_isize() {
    let mut set = WeightedMovementSet::new();
    set.update_score(&Movement::Up, isize::MAX);
    assert_eq!(set.score(&Movement::Up), Some(isize::MAX));
    set.set_score(&Movement::Down, isize::MIN + 5);
    set.update_score(&Movement::Down, -70);
    assert_eq!(set.score(&Movement::Down), Some(isize::MIN));
}

#[test]
fn a_removed_move_stays_removed() {
    let mut set = WeightedMovementSet::new();
    set.remove(&Movement::Left);
    set.remove(&Movement::Left);
    set.update_score(&Movement::Left, 50);
    set.set_score(&Movement::Left, 500);
    assert!(!set.contains(&Movement::Left));
    assert_eq!(set.score(&Movement::Left), None);
    assert_eq!(set.names(), "up,down,right");
}

#[test]
fn movement_names() {
    assert_eq!(Movement::Up.as_str(), "up");
    assert_eq!(Movement::Down.as_str(), "down");
    assert_eq!(Movement::Left.as_str(), "left");
    assert_eq!(Movement::Right.as_str(), "right");
}
