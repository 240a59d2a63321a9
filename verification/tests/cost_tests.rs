use elevator::cost::{
    assignments_from_output, covert_json_to_all_controller_reqs, covert_json_to_controller_reqs, hra_input_at,
    ids_with_assigned_calls, AssignmentError,
};
use elevator::fsm::{Dirn, ElevatorBehaviour};
use elevator::manager::{CallButton, WorldView};

#[test]
fn test_covert_json_to_controller_reqs() {
    let json_data = r#"{
            "id_1": [[false, false], [false, false], [false, false], [false, false]],
            "id_2": [[true, false], [false, true], [false, false], [false, false]]
        }"#;

    let result = covert_json_to_controller_reqs(json_data, 2).unwrap();
    let expected_output = (
        [[true, false, false], [false, true, false], [false, false, false], [false, false, false]],
        vec![2],
    );
    assert_eq!(result, expected_output);
}

#[test]
fn test_covert_json_to_controller_reqs_invalid_json() {
    let json_data = r#"{
            "id_1": [[false, false], [false, false], [false, false], [false, false],
            "id_2": [[true, false], [false, true], [false, false], [false, false]]
        }"#;

    let result = covert_json_to_controller_reqs(json_data, 2);
    assert!(result.is_err());
}

#[test]
fn test_covert_json_to_controller_reqs_invalid_id() {
    let json_data = r#"{
            "id_1": [[false, false], [false, false], [false, false], [false, false]],
            "id_2": [[true, false], [false, true], [false, false], [false, false]]
        }"#;

    let result = covert_json_to_controller_reqs(json_data, 3);
    assert!(result.is_err());
}

#[test]
fn test_covert_json_to_controller_reqs_invalid_pair() {
    let json_data = r#"{
            "id_1": [[false, false], [false, false], [false, false], [false, false]],
            "id_2": [[true, false], [false, true], [false, false], [false, false]]
        }"#;

    let result = covert_json_to_controller_reqs(json_data, 2).unwrap();
    let expected_output = (
        [[true, false, false], [false, true, false], [false, false, false], [false, false, false]],
        vec![2],
    );
    assert_eq!(result, expected_output);
}

#[test]
fn test_ids_with_assigned_calls() {
    let json = r#"{
            "id_1": [[true, false], [false, false], [false, false], [false, false]],
            "id_2": [[false, false], [false, false], [false, false], [false, false]],
            "id_3": [[false, false], [false, false], [false, false], [false, false]]
        }"#;

    let result = ids_with_assigned_calls(json).unwrap();
    assert_eq!(result, vec![1]);
}

#[test]
fn test_ids_with_assigned_calls_multiple_ids() {
    let json = r#"{
            "id_1": [[true, false], [false, false], [false, false], [false, false]],
            "id_2": [[false, false], [false, false], [false, false], [false, false]],
            "id_3": [[true, false], [false, false], [false, false], [false, false]]
        }"#;

    let result = ids_with_assigned_calls(json).unwrap();
    assert_eq!(result, vec![1, 3]);
}

#[test]
fn test_ids_with_assigned_calls_no_true() {
    let json = r#"{
            "id_1": [[false, false], [false, false], [false, false], [false, false]],
            "id_2": [[false, false], [false, false], [false, false], [false, false]],
            "id_3": [[false, false], [false, false], [false, false], [false, false]]
        }"#;

    let result = ids_with_assigned_calls(json).unwrap();
    assert_eq!(result, Vec::<i32>::new());
}

#[test]
fn ids_with_assigned_calls_wrong_id() {
    let json = r#"{
            "id1": [[true, false], [false, false], [false, false], [false, false]],
            "id_2": [[false, false], [false, false], [false, false], [false, false]],
            "id_3": [[false, false], [false, false], [false, false], [false, false]]
        }"#;

    let result = ids_with_assigned_calls(json).unwrap();
    assert!(result.is_empty());
}

#[test]
fn ids_with_assigned_calls_of_malformed_text_is_none() {
    let json = r#"{
            "id1": [[true, false], [false, false], [false, false], [false, false]],
            "id_3": [[false, false], [false, false], [false, false] [false, false]]
        }"#;
    assert_eq!(ids_with_assigned_calls(json), None);
}

#[test]
fn ids_with_assigned_calls_reads_leniently() {
    // Non-array rows and non-boolean flags read as false; a key that is
    // not a number after `id_` is dropped.
    let json = r#"{"id_1": 5, "id_2": [[1, "true"]], "id_x": [[true]], "id_4": [[false, true]]}"#;
    assert_eq!(ids_with_assigned_calls(json), Some(vec![4]));
}

#[test]
fn covert_json_reports_each_error() {
    assert_eq!(covert_json_to_controller_reqs("[1, 2]", 1), Err(AssignmentError::InvalidOutput));
    assert_eq!(covert_json_to_controller_reqs("{\"id_1\": [[true]]}", 1), Err(AssignmentError::InvalidOutput));
    assert_eq!(covert_json_to_controller_reqs("{\"id_x\": []}", 1), Err(AssignmentError::InvalidOutput));
    assert_eq!(covert_json_to_controller_reqs("{\"id_2\": []}", 1), Err(AssignmentError::MissingId(1)));
}

#[test]
fn covert_json_ignores_keys_without_prefix() {
    let all = covert_json_to_all_controller_reqs(r#"{"other": 1, "id_7": [[false, true]]}"#).unwrap();
    assert_eq!(all.len(), 1);
    assert_eq!(all[&7], [[false, true, false], [false, false, false], [false, false, false], [false, false, false]]);
}

#[test]
fn covert_json_reads_negative_and_signed_ids() {
    let all = covert_json_to_all_controller_reqs(r#"{"id_-3": [], "id_+4": [[true, true]]}"#).unwrap();
    assert!(all.contains_key(&-3));
    assert_eq!(all[&4][0], [true, true, false]);
}

#[test]
fn assignments_from_output_without_own_id_serves_nothing() {
    let json = r#"{"id_2": [[true, false], [false, false], [false, false], [false, false]]}"#;
    let (own, active) = assignments_from_output(json, 1).unwrap();
    assert_eq!(own, [[false; 3]; 4]);
    assert_eq!(active, vec![2]);
    assert_eq!(assignments_from_output("not json", 1), None);
}

#[test]
fn hra_input_lists_working_elevators_and_confirmed_hall_calls() {
    let w = WorldView::init(1);
    let (w, _) = w.handle_elevator_state_at(Dirn::Up, ElevatorBehaviour::Moving, 2, 1000);
    let (w, changed) = w.handle_button_press(&CallButton { floor: 3, call: 0 });
    assert!(changed);
    let input = hra_input_at(&w, 1000).unwrap();
    assert_eq!(input.states.len(), 1);
    let s = &input.states[0];
    assert_eq!(s.id, 1);
    assert_eq!(s.floor, 2);
    assert_eq!(s.behaviour, ElevatorBehaviour::Moving);
    assert_eq!(s.direction, Dirn::Up);
    // The pressed call is only unconfirmed, so no hall request is sent yet.
    assert!(input.hall_requests.iter().all(|row| !row[0] && !row[1]));
}

#[test]
fn hra_input_is_none_when_no_elevator_works() {
    let mut w = WorldView::init(1);
    w.elevators.get_mut(&1).unwrap().is_working = false;
    assert!(hra_input_at(&w, 0).is_none());
}

#[test]
fn json_booleans_may_carry_whitespace() {
    let result = covert_json_to_controller_reqs("{\"id_1\": [[ true , false\n]]}", 1).unwrap();
    assert_eq!(result.0[0], [true, false, false]);
    assert_eq!(result.1, vec![1]);
    assert_eq!(covert_json_to_controller_reqs("{\"id_1\": [[\"true\", false]]}", 1), Err(AssignmentError::InvalidOutput));
}

#[test]
fn output_that_is_no_json_value_is_refused() {
    let json = r#"{"id_1": [[true, false]], "x": 1e400}"#;
    assert_eq!(covert_json_to_controller_reqs(json, 1), Err(AssignmentError::InvalidOutput));
    assert_eq!(covert_json_to_all_controller_reqs(json), None);
    assert_eq!(ids_with_assigned_calls(json), None);
}
