use elevator::fsm::{Dirn, ElevatorBehaviour};
use elevator::manager::CallButton;
use elevator::models::{Elevator, ElevatorNetworkState, Request, RequestState, WorldView};
use std::collections::HashSet;

fn ids(v: &[u8]) -> HashSet<u8> {
    v.iter().cloned().collect()
}

fn request(state: RequestState, acks: &[u8]) -> Request {
    Request { state, acks: ids(acks) }
}

#[test]
fn model_request_merge_takes_the_higher_state_and_all_acks() {
    let mut mine = request(RequestState::Unconfirmed, &[1]);
    let theirs = request(RequestState::NoRequest, &[2, 3]);
    assert!(mine.merge(&theirs, 1));
    assert_eq!(mine.state(), RequestState::Unconfirmed);
    assert_eq!(mine.acks(), &ids(&[1, 2, 3]));
    // The same copy again: nothing new.
    assert!(!mine.merge(&theirs, 1));
}

#[test]
fn model_request_merge_reports_a_new_own_ack() {
    let mut mine = request(RequestState::Confirmed, &[]);
    let theirs = request(RequestState::Confirmed, &[]);
    assert!(mine.merge(&theirs, 4));
    assert_eq!(mine.acks(), &ids(&[4]));
}

#[test]
fn model_request_default_and_new() {
    let d = Request::default();
    assert_eq!(d.state(), RequestState::NoRequest);
    assert!(d.acks().is_empty());
    let n = Request::new(9);
    assert_eq!(n.acks(), &ids(&[9]));
    let mut s = n.clone();
    s.set_to(RequestState::Confirmed, 2);
    assert_eq!(s.state(), RequestState::Confirmed);
    assert_eq!(s.acks(), &ids(&[2]));
}

#[test]
fn model_elevator_getters_and_setters() {
    let mut e = Elevator::new_at(10);
    assert_eq!(e.last_received(), 10);
    assert_eq!(e.last_moved(), 10);
    assert!(e.is_working());
    assert!(!e.has_request());
    assert_eq!(e.get_state(), ElevatorNetworkState::new());
    e.set_last_received(20);
    e.set_last_moved(30);
    e.set_has_request(true);
    e.set_is_working(false);
    assert_eq!(e.last_received(), 20);
    assert_eq!(e.last_moved(), 30);
    assert!(e.has_request());
    assert!(!e.is_working());
    e.cab_requests_mut()[2].set_to(RequestState::Unconfirmed, 1);
    assert_eq!(e.cab_requests()[2].state(), RequestState::Unconfirmed);
    assert_eq!(e.get_cab_requests()[2].acks(), &ids(&[1]));
}

#[test]
fn model_world_view_accessors() {
    let mut w = WorldView::init(2);
    assert_eq!(w.id(), 2);
    assert_eq!(w.elevators().len(), 1);
    w.hall_requests_mut()[1][0].set_to(RequestState::Confirmed, 2);
    assert_eq!(w.hall_requests()[1][0].state(), RequestState::Confirmed);
    w.elevators_mut().insert(7, Elevator::new_at(0));
    assert!(w.elevators().contains_key(&7));
}

#[test]
fn model_press_confirm_and_clear() {
    let w = WorldView::init(1);
    let (w, changed) = w.handle_button_press(&CallButton { floor: 2, call: 0 });
    assert!(changed);
    let (w, changed) = w.handle_button_press(&CallButton { floor: 2, call: 0 });
    assert!(!changed);
    let now = w.elevators()[&1].last_received();
    let (w, moved) = w.update_states_at_barrier_at(now);
    assert!(moved);
    assert!(w.get_confirmed_requests()[2][0]);
    let (w, _) = w.handle_clear_request(2, &[true, false, false]);
    assert_eq!(w.hall_requests()[2][0].state(), RequestState::NoRequest);
    assert!(!w.get_confirmed_requests()[2][0]);
}

#[test]
fn model_barrier_ignores_a_broken_elevator() {
    let w = WorldView::init(1);
    let (w, _) = w.handle_button_press(&CallButton { floor: 0, call: 2 });
    let mut w = w;
    w.elevators_mut().get_mut(&1).unwrap().set_is_working(false);
    let now = w.elevators()[&1].last_received();
    // No elevator is alive: the empty set of alive elevators acknowledged everything.
    assert!(w.get_alive_elevators_at(1, now).is_empty());
    let (w, moved) = w.update_states_at_barrier_at(now);
    assert!(moved);
    assert_eq!(w.elevators()[&1].cab_requests()[0].state(), RequestState::Confirmed);
}

#[test]
fn model_alive_needs_recent_message() {
    let a = WorldView::init(1);
    let b = WorldView::init(2);
    let now = a.elevators()[&1].last_received().max(b.elevators()[&2].last_received());
    let (a, _) = a.handle_foreign_world_view_at(b, now);
    assert_eq!(a.get_alive_elevators_at(1, now + 1_000_000_000), ids(&[1, 2]));
    assert_eq!(a.get_alive_elevators_at(1, now + 1_000_000_001), ids(&[1]));
    // A message stamped after the clock reads as not heard from.
    assert_eq!(a.get_alive_elevators_at(1, now - 1), ids(&[1]));
}

#[test]
fn model_foreign_view_merges_and_confirms() {
    let a = WorldView::init(1);
    let b = WorldView::init(2);
    let (b, _) = b.handle_button_press(&CallButton { floor: 3, call: 1 });
    let now = a.elevators()[&1].last_received().max(b.elevators()[&2].last_received());
    let (a, changed) = a.handle_foreign_world_view_at(b, now);
    assert!(changed);
    assert_eq!(a.hall_requests()[3][1].state(), RequestState::Confirmed);
}

#[test]
fn model_humbly_overwrites_own_elevator() {
    let a = WorldView::init(1);
    let (a, _) = a.handle_elevator_state_at(Dirn::Up, ElevatorBehaviour::Moving, 2, 5);
    let b = WorldView::init(2);
    let w = a.handle_humbly(b);
    assert_eq!(w.id(), 1);
    assert_eq!(w.elevators()[&1].get_state().current_floor, 2);
    assert!(w.elevators().contains_key(&2));
}

#[test]
fn model_compare_with_itself_is_empty() {
    let a = WorldView::init(1);
    assert!(a.compare_world_views(&a.clone()).is_empty());
    let (b, _) = a.handle_button_press(&CallButton { floor: 0, call: 1 });
    assert_eq!(a.compare_world_views(&b).len(), 1);
}

#[test]
fn model_assign_requests_keeps_own_cab_calls() {
    let w = WorldView::init(1);
    let (r, active) = w.assign_requests(None);
    assert_eq!(r, [[false; 3]; 4]);
    assert!(active.is_empty());
    let (r, active) = w.assign_requests(Some(([[true; 3]; 4], vec![1])));
    assert_eq!(r, [[true, true, false]; 4]);
    assert_eq!(active, vec![1]);
}
