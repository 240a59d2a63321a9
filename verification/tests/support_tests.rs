use elevator::cost_matrix::{convert_json_to_matrix, convert_matrix_to_json, ElevatorState, Elevators, HallCalls};
use elevator::manager::CallButton;
use elevator::manager_loop::{ManagerState, HUMBLE_ALARMS};
use elevator::messages::Manager;
use elevator::process_pair::{is_actor_down, next_value, parse_counter};
use elevator::timer::Timer;
use std::collections::HashMap;

#[test]
fn timer_expires_at_its_end() {
    let mut t = Timer::new();
    assert!(!t.timed_out_at(0));
    t.start_at(100, 3);
    assert!(!t.timed_out_at(100));
    assert!(!t.timed_out_at(102));
    assert!(t.timed_out_at(103));
    t.stop();
    assert!(!t.timed_out_at(1_000_000));
}

#[test]
fn timer_started_now_has_not_expired() {
    let mut t = Timer::new();
    t.start(60);
    assert!(!t.timed_out());
    t.stop();
    assert!(!t.timed_out());
}

#[test]
fn timer_end_saturates() {
    let mut t = Timer::new();
    t.start_at(u64::MAX - 1, 10);
    assert!(!t.timed_out_at(u64::MAX - 1));
    assert!(t.timed_out_at(u64::MAX));
}

fn one_elevator() -> Elevators {
    let mut elevators = Elevators { elevators: HashMap::new() };
    elevators.elevators.insert(
        1,
        ElevatorState {
            id: 1,
            behavior: String::from("idle"),
            floor: 0,
            direction: String::from("up"),
            cab_requests: vec![false, true, false, false],
        },
    );
    elevators
}

#[test]
fn change_floor_moves_a_known_elevator_only() {
    let mut elevators = one_elevator();
    elevators.change_floor(1, 2);
    assert_eq!(elevators.elevators[&1].floor, 2);
    assert_eq!(elevators.elevators[&1].behavior, "idle");
    elevators.change_floor(5, 3);
    assert_eq!(elevators.elevators.len(), 1);
}

#[test]
fn matrix_input_rows_and_keys() {
    let mut elevators = one_elevator();
    elevators.elevators.insert(
        0,
        ElevatorState {
            id: 0,
            behavior: String::from("moving"),
            floor: 1,
            direction: String::from("down"),
            cab_requests: vec![false; 4],
        },
    );
    elevators.elevators.insert(
        -3,
        ElevatorState {
            id: -3,
            behavior: String::from("doorOpen"),
            floor: 3,
            direction: String::from("stop"),
            cab_requests: vec![true; 4],
        },
    );
    let hall_calls = HallCalls { up: vec![false, true, false], down: vec![true] };
    let input = convert_matrix_to_json(&elevators, &hall_calls);
    assert_eq!(input.hall_requests, vec![vec![false, true], vec![true, false], vec![false, false]]);
    let mut keys: Vec<String> = input.states.iter().map(|s| s.key.clone()).collect();
    keys.sort();
    assert_eq!(keys, vec![String::from("id_-3"), String::from("id_1")]);
    let e = input.states.iter().find(|s| s.id == 1).unwrap();
    assert_eq!(e.behavior, "idle");
    assert_eq!(e.direction, "up");
    assert_eq!(e.floor, 0);
    assert_eq!(e.cab_requests, vec![false, true, false, false]);
}

#[test]
fn json_to_matrix_reads_the_first_four_ids() {
    let json = r#"{
        "id_1": [[true, false], [false, true], [false, false], [false, false]],
        "id_4": [[true, true], [false, true], [false, false], [false, false]],
        "id_3": [[false, false], [false, true], [false, false], [false, false]],
        "id_5": [[true, true]]
    }"#;
    let m = convert_json_to_matrix(json).unwrap();
    assert_eq!(m.len(), 4);
    assert_eq!(m[0], vec![true, false, false, true, false, false, false, false]);
    assert!(m[1].is_empty());
    assert_eq!(m[2], vec![false, false, false, true, false, false, false, false]);
    assert_eq!(m[3], vec![true, true, false, true, false, false, false, false]);
}

#[test]
fn json_to_matrix_edge_cases() {
    // Not JSON.
    assert_eq!(convert_json_to_matrix("{"), None);
    // JSON but no object: four empty rows.
    assert_eq!(convert_json_to_matrix("[1, 2]"), Some(vec![vec![], vec![], vec![], vec![]]));
    // A row that is not an array.
    assert_eq!(convert_json_to_matrix(r#"{"id_2": true}"#), None);
    // A pair with a single flag.
    assert_eq!(convert_json_to_matrix(r#"{"id_2": [[true]]}"#), None);
    // Elements that are not arrays are skipped; extra flags are ignored.
    assert_eq!(
        convert_json_to_matrix(r#"{"id_2": [7, [false, true, true]]}"#),
        Some(vec![vec![], vec![false, true], vec![], vec![]])
    );
}

#[test]
fn process_pair_decisions() {
    assert!(!is_actor_down(1_000_000_000, 3_000_000_000));
    assert!(is_actor_down(1_000_000_000, 3_000_000_001));
    assert_eq!(parse_counter("42"), 42);
    assert_eq!(parse_counter("+7"), 7);
    assert_eq!(parse_counter("256"), 0);
    assert_eq!(parse_counter(""), 0);
    assert_eq!(parse_counter("-1"), 0);
    assert_eq!(parse_counter("12\n"), 0);
    assert_eq!(next_value(41), 42);
    assert_eq!(next_value(254), 255);
}

#[test]
fn manager_answers_pings_from_others() {
    let mut m = ManagerState::init(1);
    let out = m.on_message(Manager::Ping(2), 0);
    assert!(matches!(out.to_network, Some(Manager::Pong(1))));
    assert!(!out.updated);
    let out = m.on_message(Manager::Ping(1), 0);
    assert!(out.to_network.is_none());
    let _ = m.on_message(Manager::NetworkError, 0);
    assert!(!m.network_available);
    let _ = m.on_message(Manager::Pong(3), 0);
    assert!(m.network_available);
}

#[test]
fn manager_is_humble_after_start() {
    let m = ManagerState::init(3);
    assert_eq!(m.humble_counter, HUMBLE_ALARMS);
    assert_eq!(m.world_view.id, 3);
}

#[test]
fn manager_cab_press_always_counts() {
    let mut m = ManagerState::init(1);
    let out = m.on_button_press(CallButton { floor: 1, call: 2 });
    assert!(out.updated);
    let out = m.on_button_press(CallButton { floor: 1, call: 2 });
    assert!(!out.updated);
}

#[test]
fn empty_assignment_has_no_calls() {
    let (r, active) = elevator::cost::empty_assignment();
    assert_eq!(r, [[false; 3]; 4]);
    assert!(active.is_empty());
}
