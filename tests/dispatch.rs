use elevator_dispatch::dispatch::{best_call, distance, idle_target, nearest_pressed, target_floor, Controller};
use elevator_dispatch::model::{Elevator, Floor};

fn elevator(id: u32, cur: i32, dest: Option<i32>, load: f32, pressed: Vec<i32>) -> Elevator {
    Elevator::new(id, cur, dest, load.to_bits(), pressed)
}

fn quiet_floors(n: i32) -> Vec<Floor> {
    (0..n).map(|l| Floor::new(l, false, false)).collect()
}

#[test]
fn nearest_pressed_floor_wins() {
    let e = elevator(0, 0, None, 0.0, vec![5, 2]);
    assert_eq!(target_floor(&e, 0, &[], 0), Some(2));
}

#[test]
fn nearest_pressed_tie_keeps_first_occurrence() {
    assert_eq!(nearest_pressed(0, &[3, -3]), 0);
    assert_eq!(nearest_pressed(0, &[-3, 3]), 0);
    assert_eq!(nearest_pressed(10, &[4, 12, 8]), 1);
}

#[test]
fn pressed_floors_override_calls() {
    let floors = vec![Floor::new(1, true, false)];
    let e = elevator(0, 0, None, 0.0, vec![9]);
    assert_eq!(target_floor(&e, 0, &floors, 0), Some(9));
}

#[test]
fn closer_call_wins() {
    let floors = vec![Floor::new(0, false, false), Floor::new(3, true, false), Floor::new(7, true, false)];
    let e = elevator(0, 0, None, 0.0, vec![]);
    assert_eq!(target_floor(&e, 0, &floors, 0), Some(3));
    assert_eq!(best_call(0, None, 0, &floors), Some(1));
}

#[test]
fn equal_scores_keep_earliest_floor() {
    let floors = vec![Floor::new(8, false, true), Floor::new(2, true, false)];
    let e = elevator(0, 5, None, 0.0, vec![]);
    assert_eq!(target_floor(&e, 0, &floors, 0), Some(8));
}

#[test]
fn direction_bonus_follows_reported_destination() {
    let floors = vec![Floor::new(1, false, true), Floor::new(2, true, false)];
    let going_up = elevator(0, 0, Some(10), 0.0, vec![]);
    assert_eq!(target_floor(&going_up, 0, &floors, 0), Some(2));
    let no_dest = elevator(0, 0, None, 0.0, vec![]);
    assert_eq!(target_floor(&no_dest, 0, &floors, 0), Some(1));
}

#[test]
fn destination_at_current_floor_gives_no_bonus() {
    let floors = vec![Floor::new(1, true, false), Floor::new(-2, false, true)];
    let parked = elevator(0, 0, Some(0), 0.0, vec![]);
    assert_eq!(target_floor(&parked, 0, &floors, 0), Some(1));
    let mut ctrl = Controller::new();
    assert_eq!(ctrl.tick(&[parked], &floors), vec![(0, 1)]);
}

#[test]
fn down_call_bonus_when_heading_down() {
    let floors = vec![Floor::new(1, true, false), Floor::new(-2, false, true)];
    let going_down = elevator(0, 0, Some(-5), 0.0, vec![]);
    assert_eq!(target_floor(&going_down, 0, &floors, 0), Some(-2));
}

#[test]
fn heavy_elevator_still_takes_best_call() {
    let floors = vec![Floor::new(0, false, false), Floor::new(3, true, false), Floor::new(7, true, false)];
    let heavy = elevator(0, 0, None, 0.9, vec![]);
    let light = elevator(0, 0, None, 0.8, vec![]);
    assert_eq!(target_floor(&heavy, 0, &floors, 0), Some(3));
    assert_eq!(target_floor(&light, 0, &floors, 0), Some(3));
}

#[test]
fn idle_positions_for_nine_floors() {
    assert_eq!(idle_target(0, 0, 9), Some(3));
    assert_eq!(idle_target(50, 0, 9), Some(4));
    assert_eq!(idle_target(66, 0, 9), Some(4));
    assert_eq!(idle_target(67, 0, 9), Some(6));
    assert_eq!(idle_target(32, 0, 9), Some(3));
    assert_eq!(idle_target(33, 0, 9), Some(4));
}

#[test]
fn idle_positions_repeat_every_hundred_ticks() {
    for t in 0..100u64 {
        assert_eq!(idle_target(t, 0, 9), idle_target(t + 100, 0, 9));
        assert_eq!(idle_target(t, 3, 12), idle_target(t + 75, 0, 12));
    }
    assert_eq!(idle_target(0, 2, 9), Some(4));
}

#[test]
fn idle_positions_at_range_edges() {
    assert_eq!(idle_target(0, 0, 1), Some(1));
    assert_eq!(idle_target(80, 0, 1), Some(0));
    assert_eq!(idle_target(0, 0, 0), None);
}

#[test]
fn empty_idle_elevator_moves_to_position() {
    let floors = quiet_floors(9);
    let e = elevator(0, 0, None, 0.05, vec![]);
    assert_eq!(target_floor(&e, 0, &floors, 50), Some(4));
}

#[test]
fn loaded_idle_elevator_holds() {
    let floors = quiet_floors(9);
    let e = elevator(0, 7, None, 0.5, vec![]);
    assert_eq!(target_floor(&e, 0, &floors, 0), Some(7));
    let mut ctrl = Controller::new();
    assert!(ctrl.tick(&[e], &floors).is_empty());
}

#[test]
fn negative_load_counts_as_empty() {
    let floors = quiet_floors(9);
    let e = elevator(0, 0, None, -0.5, vec![]);
    assert_eq!(target_floor(&e, 0, &floors, 0), Some(3));
}

#[test]
fn tick_skips_elevators_already_in_place() {
    let floors = vec![Floor::new(0, false, false), Floor::new(3, true, false)];
    let es = vec![elevator(0, 3, None, 0.0, vec![]), elevator(1, 0, None, 0.0, vec![])];
    let mut ctrl = Controller::new();
    assert_eq!(ctrl.tick(&es, &floors), vec![(1, 3)]);
    assert_eq!(ctrl.tick_counter, 1);
}

#[test]
fn tick_uses_counter_for_idle_phase() {
    let floors = quiet_floors(9);
    let es = vec![elevator(0, 0, None, 0.0, vec![])];
    let mut ctrl = Controller::new();
    assert_eq!(ctrl.tick(&es, &floors), vec![(0, 3)]);
    ctrl.tick_counter = 40;
    assert_eq!(ctrl.tick(&es, &floors), vec![(0, 4)]);
    assert_eq!(ctrl.tick_counter, 41);
}

#[test]
fn distance_is_symmetric_and_wide() {
    assert_eq!(distance(-3, 4), 7);
    assert_eq!(distance(4, -3), 7);
    assert_eq!(distance(i32::MIN, i32::MAX), u32::MAX as u64);
}

#[test]
fn go_to_floor_queues_command() {
    let mut e = elevator(4, 0, None, 0.0, vec![]);
    e.go_to_floor(6);
    e.go_to_floor(-1);
    assert_eq!(e.queued_commands(), &[(4, 6), (4, -1)]);
}
