use elevator::config::{CALL_COUNT, FLOOR_COUNT};
use elevator::fsm::{Button, Dirn, ElevatorBehaviour, ElevatorState, FsmAction};

fn create_test_elevator(initial_behaviour: ElevatorBehaviour) -> ElevatorState {
    ElevatorState {
        behaviour: initial_behaviour,
        no_of_timer_threads: 0,
        floor: -1,
        dirn: Dirn::Stop,
        requests: [[false; CALL_COUNT]; FLOOR_COUNT],
        door_open_duration: 3,
        obstruction: false,
    }
}

#[test]
fn test_init_elevator() {
    let elevator_state = ElevatorState::init_elevator();

    assert_eq!(elevator_state.no_of_timer_threads, 0);
    assert_eq!(elevator_state.floor, -1);
    assert_eq!(elevator_state.dirn, Dirn::Stop);
    assert_eq!(elevator_state.requests, [[false; CALL_COUNT]; FLOOR_COUNT]);
    assert_eq!(elevator_state.behaviour, ElevatorBehaviour::Idle);
    assert_eq!(elevator_state.door_open_duration, 3);
    assert_eq!(elevator_state.obstruction, false);
}

#[test]
fn test_requests_initialized_empty() {
    let state = ElevatorState::init_elevator();
    assert!(state.requests.iter().flatten().all(|&r| !r), "All requests should be false initially");
}

#[test]
fn test_new_requests_updates_state_when_idle() {
    let mut elevator = create_test_elevator(ElevatorBehaviour::Idle);
    elevator.floor = 0;

    let test_requests = [[true; CALL_COUNT]; FLOOR_COUNT];
    let actions = elevator.fsm_on_new_requests(test_requests);

    assert!(actions.iter().any(|a| matches!(a, FsmAction::ClearRequest(0, _))));

    let mut expected_requests = test_requests;
    expected_requests[0] = [false; CALL_COUNT];

    assert_eq!(elevator.requests, expected_requests);
    assert_ne!(elevator.behaviour, ElevatorBehaviour::Idle);
}

#[test]
fn test_door_open_behavior_activates_proper_sequence() {
    let mut elevator = create_test_elevator(ElevatorBehaviour::Idle);
    elevator.floor = 2;

    let mut test_requests = [[false; CALL_COUNT]; FLOOR_COUNT];
    test_requests[2][0] = true;

    let actions = elevator.fsm_on_new_requests(test_requests);

    assert_eq!(elevator.behaviour, ElevatorBehaviour::DoorOpen);
    assert!(actions.iter().any(|a| matches!(a, FsmAction::ClearRequest(..))));
}

#[test]
fn test_moving_behavior_sets_motor_direction() {
    let mut elevator = create_test_elevator(ElevatorBehaviour::Idle);
    elevator.floor = 1;

    let mut test_requests = [[false; CALL_COUNT]; FLOOR_COUNT];
    test_requests[3][0] = true;

    let actions = elevator.fsm_on_new_requests(test_requests);

    assert_eq!(elevator.behaviour, ElevatorBehaviour::Moving);
    assert_eq!(elevator.dirn, Dirn::Up);
    assert!(actions.contains(&FsmAction::MotorDirection(Dirn::Up)));
}

#[test]
fn test_fsm_on_init_between_floors() {
    let mut state = create_test_elevator(ElevatorBehaviour::Idle);

    let actions = state.fsm_on_init_between_floors();

    assert_eq!(state.dirn, Dirn::Down);
    assert_eq!(state.behaviour, ElevatorBehaviour::Moving);
    assert_eq!(actions, vec![FsmAction::MotorDirection(Dirn::Down)]);
}

#[test]
fn test_start_time_out_thread_increments_counter_and_sends_message() {
    let mut elevator = create_test_elevator(ElevatorBehaviour::Idle);
    elevator.door_open_duration = 1;

    let action = elevator.start_time_out_thread();
    assert_eq!(elevator.no_of_timer_threads, 1);

    assert_eq!(action, FsmAction::StartDoorTimer(1));
}

#[test]
fn test_requests_choose_direction_up_with_requests_above() {
    let mut elevator = create_test_elevator(ElevatorBehaviour::Moving);
    elevator.dirn = Dirn::Up;
    elevator.floor = 1;
    elevator.requests[2][0] = true;

    let result = elevator.requests_choose_direction();
    assert_eq!(result.dirn, Dirn::Up);
    assert_eq!(result.behavior, ElevatorBehaviour::Moving);
}

#[test]
fn test_requests_clear_at_current_floor_up_direction() {
    let mut elevator = create_test_elevator(ElevatorBehaviour::Moving);
    elevator.dirn = Dirn::Up;
    elevator.floor = 1;
    elevator.requests[1] = [true; CALL_COUNT];

    let msg = elevator.requests_clear_at_current_floor();

    assert!(!elevator.requests[1][Button::Cab.index()]);
    assert!(!elevator.requests[1][Button::HallUp.index()]);
    assert_eq!(elevator.requests[1][Button::HallDown.index()], elevator.requests_above());

    assert!(matches!(msg, FsmAction::ClearRequest(_, _)));
}

#[test]
fn clearing_going_up_keeps_down_call_when_more_above() {
    let mut elevator = create_test_elevator(ElevatorBehaviour::Moving);
    elevator.dirn = Dirn::Up;
    elevator.floor = 1;
    elevator.requests[1] = [true; CALL_COUNT];
    elevator.requests[3][2] = true;

    let msg = elevator.requests_clear_at_current_floor();

    assert_eq!(elevator.requests[1], [false, true, false]);
    assert_eq!(msg, FsmAction::ClearRequest(1, [true, false, true]));
}

#[test]
fn clearing_going_up_with_nothing_ahead_clears_down_call() {
    let mut elevator = create_test_elevator(ElevatorBehaviour::Moving);
    elevator.dirn = Dirn::Up;
    elevator.floor = 1;
    elevator.requests[1] = [false, true, true];

    let msg = elevator.requests_clear_at_current_floor();

    assert_eq!(elevator.requests[1], [false, false, false]);
    assert_eq!(msg, FsmAction::ClearRequest(1, [true, true, true]));
}

#[test]
fn test_requests_here_detects_pressed_buttons() {
    let elevator = ElevatorState {
        floor: 1,
        requests: [[false, false, false], [false, true, false], [false, false, false], [false, false, false]],
        ..create_test_elevator(ElevatorBehaviour::Idle)
    };

    assert!(elevator.requests_here());
}

#[test]
fn test_requests_below_detects_lower_floors() {
    let elevator = ElevatorState {
        floor: 2,
        requests: [[true, false, false], [false, false, false], [false, false, false], [false, false, false]],
        ..create_test_elevator(ElevatorBehaviour::Idle)
    };

    assert!(elevator.requests_below());
}

#[test]
fn test_requests_above_detects_higher_floors() {
    let elevator = ElevatorState {
        floor: 0,
        requests: [[false, false, false], [false, false, false], [true, false, false], [false, false, false]],
        ..create_test_elevator(ElevatorBehaviour::Idle)
    };

    assert!(elevator.requests_above());
}

#[test]
fn test_requests_should_stop_down_with_cab_request() {
    let elevator = ElevatorState {
        dirn: Dirn::Down,
        floor: 1,
        requests: [[false, false, false], [false, false, true], [false, false, false], [false, false, false]],
        ..create_test_elevator(ElevatorBehaviour::Moving)
    };

    assert!(elevator.requests_should_stop());
}

#[test]
fn choose_direction_is_idle_without_requests() {
    for dirn in [Dirn::Up, Dirn::Down, Dirn::Stop] {
        let elevator = ElevatorState { dirn, floor: 2, ..create_test_elevator(ElevatorBehaviour::Idle) };
        let result = elevator.requests_choose_direction();
        assert_eq!(result.dirn, Dirn::Stop);
        assert_eq!(result.behavior, ElevatorBehaviour::Idle);
    }
}

#[test]
fn choose_direction_opens_door_for_request_here() {
    let mut elevator = ElevatorState { dirn: Dirn::Down, floor: 2, ..create_test_elevator(ElevatorBehaviour::Idle) };
    elevator.requests[2][2] = true;
    let result = elevator.requests_choose_direction();
    assert_eq!(result.behavior, ElevatorBehaviour::DoorOpen);
    assert_eq!(result.dirn, Dirn::Up);
}

#[test]
fn clearing_going_down_keeps_up_call_when_more_below() {
    let mut elevator = ElevatorState { dirn: Dirn::Down, floor: 2, ..create_test_elevator(ElevatorBehaviour::Moving) };
    elevator.requests[2] = [true, true, true];
    elevator.requests[0][2] = true;
    let action = elevator.requests_clear_at_current_floor();
    assert_eq!(action, FsmAction::ClearRequest(2, [false, true, true]));
    assert_eq!(elevator.requests[2], [true, false, false]);
}

#[test]
fn floor_arrival_with_request_stops_and_opens_door() {
    let mut elevator = ElevatorState { dirn: Dirn::Up, floor: 1, ..create_test_elevator(ElevatorBehaviour::Moving) };
    elevator.requests[2][2] = true;
    let actions = elevator.fsm_on_floor_arrival(2);
    assert_eq!(elevator.floor, 2);
    assert_eq!(elevator.behaviour, ElevatorBehaviour::DoorOpen);
    assert!(actions.contains(&FsmAction::MotorDirection(Dirn::Stop)));
    assert!(actions.contains(&FsmAction::DoorLight(true)));
    assert!(actions.contains(&FsmAction::FloorIndicator(2)));
    assert!(!elevator.requests[2][2]);
    assert_eq!(elevator.no_of_timer_threads, 1);
}

#[test]
fn door_time_out_closes_door_and_goes_idle() {
    let mut elevator = ElevatorState { floor: 1, no_of_timer_threads: 1, ..create_test_elevator(ElevatorBehaviour::DoorOpen) };
    let actions = elevator.fsm_on_door_time_out();
    assert_eq!(elevator.no_of_timer_threads, 0);
    assert_eq!(elevator.behaviour, ElevatorBehaviour::Idle);
    assert!(actions.contains(&FsmAction::DoorLight(false)));
}

#[test]
fn door_time_out_keeps_door_open_while_obstructed() {
    let mut elevator = ElevatorState { floor: 1, no_of_timer_threads: 1, ..create_test_elevator(ElevatorBehaviour::DoorOpen) };
    elevator.fsm_on_obstruction(true);
    let _ = elevator.fsm_on_door_time_out();
    assert_eq!(elevator.behaviour, ElevatorBehaviour::DoorOpen);
}

#[test]
fn choice_is_defined_needs_a_known_floor_when_stopped() {
    let elevator = create_test_elevator(ElevatorBehaviour::Idle);
    assert!(!elevator.choice_is_defined());
    let elevator = ElevatorState { floor: 0, ..create_test_elevator(ElevatorBehaviour::Idle) };
    assert!(elevator.choice_is_defined());
    let mut going_up = ElevatorState { dirn: Dirn::Up, ..create_test_elevator(ElevatorBehaviour::Moving) };
    assert!(!going_up.choice_is_defined());
    going_up.requests[2][0] = true;
    assert!(going_up.choice_is_defined());
}
