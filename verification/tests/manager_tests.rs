use elevator::fsm::{Dirn, ElevatorBehaviour};
use elevator::manager::{CallButton, Elevator, ElevatorNetworkState, Request, RequestState, WorldView, WorldViewChange};
use std::collections::HashSet;

fn ids(v: &[u8]) -> HashSet<u8> {
    v.iter().cloned().collect()
}

#[test]
fn request_new_is_idle_and_acknowledged_by_its_holder() {
    let r = Request::new(3);
    assert_eq!(r.get_state(), RequestState::NoRequest);
    assert_eq!(r.acks, ids(&[3]));
}

#[test]
fn request_merge_takes_the_successor_state() {
    let mut mine = Request::new(1);
    let mut theirs = Request::new(2);
    theirs.set_to(RequestState::Unconfirmed, 2);
    assert!(mine.merge(&theirs, 1));
    assert_eq!(mine.get_state(), RequestState::Unconfirmed);
    assert_eq!(mine.acks, ids(&[1, 2]));
    // Merging the same copy again changes nothing.
    let before = mine.acks.clone();
    assert!(!mine.merge(&theirs, 1));
    assert_eq!(mine.acks, before);
}

#[test]
fn request_merge_does_not_go_back_in_the_cycle() {
    let mut mine = Request::new(1);
    mine.set_to(RequestState::Confirmed, 1);
    let mut theirs = Request::new(2);
    theirs.set_to(RequestState::Unconfirmed, 2);
    assert!(!mine.merge(&theirs, 1));
    assert_eq!(mine.get_state(), RequestState::Confirmed);
    assert_eq!(mine.acks, ids(&[1]));
}

#[test]
fn request_merge_of_equal_states_unites_acknowledgements() {
    let mut mine = Request::new(1);
    mine.set_to(RequestState::Unconfirmed, 1);
    let mut theirs = Request::new(2);
    theirs.set_to(RequestState::Unconfirmed, 2);
    assert!(!mine.merge(&theirs, 1));
    assert_eq!(mine.acks, ids(&[1, 2]));
}

#[test]
fn merged_state_is_symmetric() {
    let states = [RequestState::NoRequest, RequestState::Unconfirmed, RequestState::Confirmed, RequestState::Finished];
    for a in states {
        for b in states {
            let mut x = Request::new(1);
            x.set_to(a, 1);
            let mut y = Request::new(2);
            y.set_to(b, 2);
            let mut xy = x.clone();
            xy.merge(&y, 1);
            let mut yx = y.clone();
            yx.merge(&x, 2);
            assert_eq!(xy.get_state(), yx.get_state());
        }
    }
}

#[test]
fn init_knows_only_itself() {
    let w = WorldView::init(4);
    assert_eq!(w.get_id(), 4);
    let elevators = w.get_elevators();
    assert_eq!(elevators.len(), 1);
    let own = &elevators[&4];
    assert_eq!(own.state, ElevatorNetworkState::new());
    assert!(own.is_working);
    assert!(!own.has_request);
    for row in w.get_hall_requests().iter() {
        for r in row.iter() {
            assert_eq!(r.get_state(), RequestState::NoRequest);
            assert_eq!(r.acks, ids(&[4]));
        }
    }
}

#[test]
fn button_press_marks_unconfirmed_once() {
    let w = WorldView::init(1);
    let (w, changed) = w.handle_button_press(&CallButton { floor: 2, call: 1 });
    assert!(changed);
    assert_eq!(w.hall_requests[2][1].get_state(), RequestState::Unconfirmed);
    let (w, changed) = w.handle_button_press(&CallButton { floor: 2, call: 1 });
    assert!(!changed);
    let (w, changed) = w.handle_button_press(&CallButton { floor: 0, call: 2 });
    assert!(changed);
    assert_eq!(w.elevators[&1].cab_requests[0].get_state(), RequestState::Unconfirmed);
    let (_, changed) = w.handle_button_press(&CallButton { floor: 0, call: 7 });
    assert!(!changed);
}

#[test]
fn barrier_confirms_when_every_alive_elevator_acknowledged() {
    let w = WorldView::init(1);
    let (w, _) = w.handle_button_press(&CallButton { floor: 1, call: 0 });
    let (w, _) = w.handle_button_press(&CallButton { floor: 3, call: 2 });
    let now = w.elevators[&1].last_received;
    let (w, moved) = w.update_states_at_barrier_at(now);
    assert!(moved);
    assert_eq!(w.hall_requests[1][0].get_state(), RequestState::Confirmed);
    assert_eq!(w.elevators[&1].cab_requests[3].get_state(), RequestState::Confirmed);
    let confirmed = w.get_confirmed_requests();
    assert!(confirmed[1][0]);
    assert!(confirmed[3][2]);
    assert!(!confirmed[1][1]);
    // Running the barrier again changes nothing.
    let (_, moved) = w.update_states_at_barrier_at(now);
    assert!(!moved);
}

#[test]
fn barrier_waits_for_an_alive_peer() {
    let a = WorldView::init(1);
    let b = WorldView::init(2);
    let now = a.elevators[&1].last_received.max(b.elevators[&2].last_received);
    let (a, _) = a.handle_foreign_world_view_at(b, now);
    assert_eq!(a.elevators.len(), 2);
    let (a, _) = a.handle_button_press(&CallButton { floor: 0, call: 0 });
    let (a, moved) = a.update_states_at_barrier_at(now);
    assert!(!moved);
    assert_eq!(a.hall_requests[0][0].get_state(), RequestState::Unconfirmed);
    // Once the peer has been silent for more than two seconds it no longer counts.
    let (a, moved) = a.update_states_at_barrier_at(now + 2_000_000_001);
    assert!(moved);
    assert_eq!(a.hall_requests[0][0].get_state(), RequestState::Confirmed);
}

#[test]
fn foreign_view_spreads_requests_and_reports_change() {
    let a = WorldView::init(1);
    let b = WorldView::init(2);
    let (b, _) = b.handle_button_press(&CallButton { floor: 3, call: 1 });
    let now = a.elevators[&1].last_received.max(b.elevators[&2].last_received);
    let (a, changed) = a.handle_foreign_world_view_at(b, now);
    assert!(changed);
    // Both alive elevators have now seen the call, so the barrier confirms it.
    assert_eq!(a.hall_requests[3][1].get_state(), RequestState::Confirmed);
    assert_eq!(a.hall_requests[3][1].acks, ids(&[1]));
    assert_eq!(a.elevators[&2].last_received, now);
}

#[test]
fn alive_elevators_include_self_and_recent_peers() {
    let a = WorldView::init(1);
    let b = WorldView::init(2);
    let now = a.elevators[&1].last_received.max(b.elevators[&2].last_received);
    let (a, _) = a.handle_foreign_world_view_at(b, now);
    assert_eq!(a.get_alive_elevators_at(2, now), ids(&[1, 2]));
    assert_eq!(a.get_alive_elevators_at(2, now + 2_000_000_000), ids(&[1, 2]));
    assert_eq!(a.get_alive_elevators_at(2, now + 2_000_000_001), ids(&[1]));
}

#[test]
fn clear_request_finishes_the_marked_buttons() {
    let w = WorldView::init(1);
    let (w, _) = w.handle_button_press(&CallButton { floor: 2, call: 0 });
    let (w, _) = w.handle_button_press(&CallButton { floor: 2, call: 2 });
    let (w, changed) = w.handle_clear_request(2, &[true, false, true]);
    assert!(changed);
    assert_eq!(w.hall_requests[2][0].get_state(), RequestState::Finished);
    assert_eq!(w.hall_requests[2][1].get_state(), RequestState::NoRequest);
    assert_eq!(w.elevators[&1].cab_requests[2].get_state(), RequestState::Finished);
    let confirmed = w.get_confirmed_requests();
    assert!(!confirmed[2][0] && !confirmed[2][2]);
}

#[test]
fn elevator_state_change_marks_progress() {
    let w = WorldView::init(1);
    let (w, changed) = w.handle_elevator_state_at(Dirn::Up, ElevatorBehaviour::Moving, 1, 42);
    assert!(changed);
    let own = &w.elevators[&1];
    assert_eq!(own.state.current_floor, 1);
    assert_eq!(own.state.dirn, Dirn::Up);
    assert_eq!(own.last_moved, 42);
    assert!(own.is_working);
    // Same floor and behaviour: no progress recorded.
    let (w, _) = w.handle_elevator_state_at(Dirn::Down, ElevatorBehaviour::Moving, 1, 99);
    assert_eq!(w.elevators[&1].last_moved, 42);
    assert_eq!(w.elevators[&1].state.dirn, Dirn::Down);
}

#[test]
fn humbly_takes_the_foreign_view_and_keeps_own_elevator() {
    let a = WorldView::init(1);
    let b = WorldView::init(2);
    let (b, _) = b.handle_button_press(&CallButton { floor: 1, call: 1 });
    let w = a.handle_humbly(b);
    assert_eq!(w.get_id(), 1);
    assert!(w.elevators.contains_key(&1));
    assert!(w.elevators.contains_key(&2));
    assert_eq!(w.hall_requests[1][1].get_state(), RequestState::Unconfirmed);
}

#[test]
fn network_recovery_keeps_own_and_takes_others() {
    let a = WorldView::init(1);
    let (a, _) = a.handle_elevator_state_at(Dirn::Up, ElevatorBehaviour::Moving, 3, 5);
    let b = WorldView::init(2);
    let (b, _) = b.handle_button_press(&CallButton { floor: 0, call: 0 });
    let w = a.handle_network_recovery(b);
    assert_eq!(w.elevators[&1].state.current_floor, 3);
    assert!(w.elevators.contains_key(&2));
    assert_eq!(w.hall_requests[0][0].get_state(), RequestState::Unconfirmed);
}

#[test]
fn compare_finds_each_kind_of_change() {
    let a = WorldView::init(1);
    assert!(a.compare_world_views(&a.clone()).is_empty());
    let (b, _) = a.handle_button_press(&CallButton { floor: 1, call: 0 });
    let (b, _) = b.handle_elevator_state_at(Dirn::Up, ElevatorBehaviour::Moving, 2, 7);
    let changes = b.compare_world_views(&a);
    assert!(changes.contains(&WorldViewChange::HallRequestState {
        floor: 1,
        dir: 0,
        from: RequestState::Unconfirmed,
        to: RequestState::NoRequest,
    }));
    assert!(changes.contains(&WorldViewChange::Dirn { id: 1, from: Dirn::Up, to: Dirn::Stop }));
    assert!(changes.contains(&WorldViewChange::CurrentFloor { id: 1, from: 2, to: -1 }));
    assert!(changes.contains(&WorldViewChange::Behaviour {
        id: 1,
        from: ElevatorBehaviour::Moving,
        to: ElevatorBehaviour::Idle,
    }));
    assert_eq!(changes.len(), 4);
    let c = WorldView::init(2);
    let changes = a.compare_world_views(&c);
    assert!(changes.contains(&WorldViewChange::NewElevator(2)));
    assert!(changes.contains(&WorldViewChange::Removed(1)));
}

#[test]
fn assign_requests_combines_hall_assignment_with_own_cab_calls() {
    let w = WorldView::init(1);
    let (w, _) = w.handle_button_press(&CallButton { floor: 3, call: 2 });
    let now = w.elevators[&1].last_received;
    let (w, _) = w.update_states_at_barrier_at(now);
    let hall = [[true, true, true], [false, false, false], [false, true, false], [false, false, false]];
    let (r, active) = w.assign_requests(Some((hall, vec![1, 5])));
    assert_eq!(r, [[true, true, false], [false, false, false], [false, true, false], [false, false, true]]);
    assert_eq!(active, vec![1, 5]);
    let (r, active) = w.assign_requests(None);
    assert_eq!(r, w.get_confirmed_requests());
    assert!(active.is_empty());
}

#[test]
fn reporting_the_recorded_state_changes_nothing() {
    let w = WorldView::init(1);
    let (w, changed) = w.handle_elevator_state_at(Dirn::Up, ElevatorBehaviour::Moving, 1, 42);
    assert!(changed);
    let (w2, changed) = w.handle_elevator_state_at(Dirn::Up, ElevatorBehaviour::Moving, 1, 50);
    assert!(!changed);
    assert_eq!(w2.elevators[&1].last_moved, 42);
    assert!(w.compare_world_views(&w2).is_empty());
}

#[test]
fn clearing_twice_reports_no_change_the_second_time() {
    let w = WorldView::init(1);
    let (w, changed) = w.handle_clear_request(1, &[false, false, false]);
    assert!(!changed);
    let (w, changed) = w.handle_clear_request(1, &[true, false, true]);
    assert!(changed);
    let (_, changed) = w.handle_clear_request(1, &[true, false, true]);
    assert!(!changed);
}

#[test]
fn hall_press_needs_no_own_elevator() {
    let mut w = WorldView::init(1);
    w.elevators.remove(&1);
    let (w, changed) = w.handle_button_press(&CallButton { floor: 0, call: 1 });
    assert!(changed);
    assert_eq!(w.hall_requests[0][1].get_state(), RequestState::Unconfirmed);
}

#[test]
fn compare_lists_changes_in_order_once_each() {
    let a = WorldView::init(1);
    let mut b = a.clone();
    b.hall_requests[1][0].set_to(RequestState::Unconfirmed, 1);
    b.hall_requests[0][1].set_to(RequestState::Confirmed, 1);
    b.elevators.insert(2, Elevator::new_at(0));
    b.elevators.get_mut(&1).unwrap().state.current_floor = 3;
    b.elevators.get_mut(&1).unwrap().cab_requests[2].set_to(RequestState::Confirmed, 1);
    let changes = a.compare_world_views(&b);
    assert_eq!(
        changes,
        vec![
            WorldViewChange::HallRequestState {
                floor: 0,
                dir: 1,
                from: RequestState::NoRequest,
                to: RequestState::Confirmed,
            },
            WorldViewChange::HallRequestState {
                floor: 1,
                dir: 0,
                from: RequestState::NoRequest,
                to: RequestState::Unconfirmed,
            },
            WorldViewChange::NewElevator(2),
            WorldViewChange::CabRequestState {
                id: 1,
                floor: 2,
                from: RequestState::NoRequest,
                to: RequestState::Confirmed,
            },
            WorldViewChange::CurrentFloor { id: 1, from: -1, to: 3 },
        ]
    );
}

#[test]
fn foreign_view_with_nothing_new_reports_no_change() {
    let a = WorldView::init(1);
    let b = WorldView::init(2);
    let now = a.elevators[&1].last_received.max(b.elevators[&2].last_received);
    let (a, _) = a.handle_foreign_world_view_at(b, now);
    let copy = a.clone();
    let mut same = copy.clone();
    same.id = 2;
    let (a2, changed) = a.handle_foreign_world_view_at(same, now);
    assert!(!changed);
    assert!(a.compare_world_views(&a2).is_empty());
}
