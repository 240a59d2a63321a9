//! Decisions of the manager loop.
//!
//! The manager of a node receives messages (from the network and from its
//! own controller), call button presses and a periodic alarm. For each it
//! updates its [`WorldView`] and its knowledge of the network. When the view
//! changed, it broadcasts the view, has the hall calls assigned and hands
//! the result to the controller and to the lights. [`ManagerState`] makes
//! those decisions; the caller performs the I/O they name and runs the
//! external assignment program between [`ManagerState::begin_inform`] and
//! [`ManagerState::finish_inform`].
use vstd::prelude::*;

use crate::clock::{elapsed_exceeds, silent_longer_than};
use crate::config::FLOOR_COUNT;
use crate::fsm::ControllerRequests;
use crate::manager::{
    after_clear, alive_set, clear_changes, lemma_clear_unchanged, lemma_same_state_unchanged, barrier_moves_some, barrier_passes, confirmed_at, elevator_ids, fresh, hall_at, hall_with,
    is_change, is_confirmed_matrix, receive_changes, received, world_after_barrier, with_own_state,
    CallButton, ElevatorNetworkState, ElevatorView, RequestState, WorldModel, WorldView, WorldViewChange,
};
use crate::messages;

verus! {

broadcast use vstd::std_specs::hash::group_hash_axioms;

/// Seconds an elevator with calls may go without progress before it counts as not working.
pub const STUCK_TIMEOUT_SECS: u64 = 10;

/// Alarms to wait, after start, before this node takes part in the network.
pub const HUMBLE_ALARMS: u8 = 5;

/// An elevator after the alarm's progress check at time `now`: without
/// calls its progress clock restarts; with calls and no progress for
/// [`STUCK_TIMEOUT_SECS`] it counts as not working.
pub open spec fn progress_checked(e: ElevatorView, now: u64) -> ElevatorView {
    if !e.has_request {
        ElevatorView { last_moved: now, ..e }
    } else if silent_longer_than(e.last_moved, now, STUCK_TIMEOUT_SECS) {
        ElevatorView { is_working: false, ..e }
    } else {
        e
    }
}

/// Whether the progress check at `now` finds a working elevator stuck.
pub open spec fn newly_failed(e: ElevatorView, now: u64) -> bool {
    e.has_request && silent_longer_than(e.last_moved, now, STUCK_TIMEOUT_SECS) && e.is_working
}

/// An elevator whose calls were withdrawn.
pub open spec fn without_calls(e: ElevatorView) -> ElevatorView {
    ElevatorView { has_request: false, ..e }
}

/// An elevator after an assignment at `now` that made `active` the elevators
/// with calls: those get calls, the others restart their progress clock.
pub open spec fn after_assignment(e: ElevatorView, k: u8, active: Seq<i32>, now: u64) -> ElevatorView {
    if active.contains(k as i32) {
        ElevatorView { has_request: true, ..e }
    } else {
        ElevatorView { last_moved: now, ..e }
    }
}

/// Runs the progress check at `now` on every elevator; returns the ids of
/// the elevators found stuck that were working.
fn check_progress(w: &mut WorldView, now: u64) -> (failed: Vec<u8>)
    ensures
        final(w)@ == (WorldModel {
            elevators: old(w)@.elevators.map_values(|e: ElevatorView| progress_checked(e, now)),
            ..old(w)@
        }),
        final(w).elevators@.dom() == old(w).elevators@.dom(),
        final(w).id == old(w).id,
        forall|k: u8|
            failed@.contains(k) <==> old(w)@.elevators.contains_key(k) && newly_failed(
                old(w)@.elevators[k],
                now,
            ),
{
    let ghost v0 = w@;
    let ghost target = v0.elevators.map_values(|e: ElevatorView| progress_checked(e, now));
    let ids = elevator_ids(&w.elevators);
    let mut failed: Vec<u8> = Vec::new();
    let mut i: usize = 0;
    while i < ids.len()
        invariant
            i <= ids.len(),
            ids@.no_duplicates(),
            forall|k: u8| ids@.contains(k) <==> v0.elevators.contains_key(k),
            v0 == old(w)@,
            w.id == old(w).id,
            target == v0.elevators.map_values(|e: ElevatorView| progress_checked(e, now)),
            w.elevators@.dom() == old(w).elevators@.dom(),
            w@ == (WorldModel { elevators: w@.elevators, ..v0 }),
            w@.elevators == v0.elevators.union_prefer_right(target.restrict(ids@.take(i as int).to_set())),
            forall|k: u8|
                failed@.contains(k) <==> ids@.take(i as int).contains(k) && v0.elevators.contains_key(k)
                    && newly_failed(v0.elevators[k], now),
        decreases ids.len() - i,
    {
        let k = ids[i];
        proof {
            assert(ids@.take(i + 1) =~= ids@.take(i as int).push(k));
            ids@.take(i as int).lemma_push_to_set_commute(k);
            assert(ids@.contains(k));
            assert(ids@.take(i + 1)[i as int] == k);
            assert(!ids@.take(i as int).contains(k)) by {
                if ids@.take(i as int).contains(k) {
                    let j = choose|j: int| 0 <= j < i && ids@[j] == k;
                    assert(ids@[j] == ids@[i as int]);
                }
            }
            assert(w.elevators@.contains_key(k));
        }
        assert(w@.elevators[k] == v0.elevators[k]);
        let ghost before = failed@;
        let mut e = w.take_elevator(k);
        if !e.has_request {
            e.last_moved = now;
        }
        if e.has_request && elapsed_exceeds(e.last_moved, now, STUCK_TIMEOUT_SECS) {
            if e.is_working {
                failed.push(k);
            }
            e.is_working = false;
        }
        w.put_elevator(k, e);
        proof {
            assert(w@.elevators =~= v0.elevators.union_prefer_right(
                target.restrict(ids@.take(i + 1).to_set()),
            ));
            assert(w.elevators@.dom() =~= old(w).elevators@.dom());
            assert forall|kk: u8|
                failed@.contains(kk) <==> ids@.take(i + 1).contains(kk) && v0.elevators.contains_key(kk)
                    && newly_failed(v0.elevators[kk], now) by {
                if failed@.len() > before.len() {
                    assert(failed@ == before.push(k));
                    if failed@.contains(kk) && kk != k {
                        let j = choose|j: int| 0 <= j < failed@.len() && failed@[j] == kk;
                        assert(before[j] == kk);
                    }
                    if before.contains(kk) {
                        let j = choose|j: int| 0 <= j < before.len() && before[j] == kk;
                        assert(failed@[j] == kk);
                    }
                    if kk == k {
                        assert(failed@[before.len() as int] == k);
                    }
                }
                if ids@.take(i + 1).contains(kk) && kk != k {
                    assert(ids@.take(i as int).to_set().contains(kk));
                }
            }
        }
        i += 1;
    }
    proof {
        assert(ids@.take(ids.len() as int) =~= ids@);
        assert(w@.elevators =~= target);
    }
    failed
}

/// Withdraws the calls of every elevator.
fn withdraw_calls(w: &mut WorldView)
    ensures
        final(w)@ == (WorldModel {
            elevators: old(w)@.elevators.map_values(|e: ElevatorView| without_calls(e)),
            ..old(w)@
        }),
        final(w).elevators@.dom() == old(w).elevators@.dom(),
        final(w).id == old(w).id,
{
    let ghost v0 = w@;
    let ghost target = v0.elevators.map_values(|e: ElevatorView| without_calls(e));
    let ids = elevator_ids(&w.elevators);
    let mut i: usize = 0;
    while i < ids.len()
        invariant
            i <= ids.len(),
            ids@.no_duplicates(),
            forall|k: u8| ids@.contains(k) <==> v0.elevators.contains_key(k),
            v0 == old(w)@,
            w.id == old(w).id,
            target == v0.elevators.map_values(|e: ElevatorView| without_calls(e)),
            w.elevators@.dom() == old(w).elevators@.dom(),
            w@ == (WorldModel { elevators: w@.elevators, ..v0 }),
            w@.elevators == v0.elevators.union_prefer_right(target.restrict(ids@.take(i as int).to_set())),
        decreases ids.len() - i,
    {
        let k = ids[i];
        proof {
            assert(ids@.take(i + 1) =~= ids@.take(i as int).push(k));
            ids@.take(i as int).lemma_push_to_set_commute(k);
            assert(ids@.contains(k));
            assert(!ids@.take(i as int).contains(k)) by {
                if ids@.take(i as int).contains(k) {
                    let j = choose|j: int| 0 <= j < i && ids@[j] == k;
                    assert(ids@[j] == ids@[i as int]);
                }
            }
            assert(w.elevators@.contains_key(k));
        }
        assert(w@.elevators[k] == v0.elevators[k]);
        let mut e = w.take_elevator(k);
        e.has_request = false;
        w.put_elevator(k, e);
        proof {
            assert(w@.elevators =~= v0.elevators.union_prefer_right(
                target.restrict(ids@.take(i + 1).to_set()),
            ));
            assert(w.elevators@.dom() =~= old(w).elevators@.dom());
        }
        i += 1;
    }
    proof {
        assert(ids@.take(ids.len() as int) =~= ids@);
        assert(w@.elevators =~= target);
    }
}

/// Whether `id` is among `active`.
fn is_active(active: &Vec<i32>, id: u8) -> (r: bool)
    ensures
        r == active@.contains(id as i32),
{
    let mut i: usize = 0;
    while i < active.len()
        invariant
            i <= active.len(),
            forall|j: int| 0 <= j < i ==> active@[j] != id as i32,
        decreases active.len() - i,
    {
        if active[i] == id as i32 {
            return true;
        }
        i += 1;
    }
    false
}

/// Gives calls to the `active` elevators; the others restart their progress clock at `now`.
fn mark_assigned(w: &mut WorldView, active: &Vec<i32>, now: u64)
    ensures
        final(w)@ == (WorldModel {
            elevators: Map::new(
                |k: u8| old(w)@.elevators.contains_key(k),
                |k: u8| after_assignment(old(w)@.elevators[k], k, active@, now),
            ),
            ..old(w)@
        }),
        final(w).elevators@.dom() == old(w).elevators@.dom(),
        final(w).id == old(w).id,
{
    let ghost v0 = w@;
    let ghost target = Map::new(
        |k: u8| v0.elevators.contains_key(k),
        |k: u8| after_assignment(v0.elevators[k], k, active@, now),
    );
    let ids = elevator_ids(&w.elevators);
    let mut i: usize = 0;
    while i < ids.len()
        invariant
            i <= ids.len(),
            ids@.no_duplicates(),
            forall|k: u8| ids@.contains(k) <==> v0.elevators.contains_key(k),
            v0 == old(w)@,
            w.id == old(w).id,
            target == Map::new(
                |k: u8| v0.elevators.contains_key(k),
                |k: u8| after_assignment(v0.elevators[k], k, active@, now),
            ),
            w.elevators@.dom() == old(w).elevators@.dom(),
            w@ == (WorldModel { elevators: w@.elevators, ..v0 }),
            w@.elevators == v0.elevators.union_prefer_right(target.restrict(ids@.take(i as int).to_set())),
        decreases ids.len() - i,
    {
        let k = ids[i];
        proof {
            assert(ids@.take(i + 1) =~= ids@.take(i as int).push(k));
            ids@.take(i as int).lemma_push_to_set_commute(k);
            assert(ids@.contains(k));
            assert(!ids@.take(i as int).contains(k)) by {
                if ids@.take(i as int).contains(k) {
                    let j = choose|j: int| 0 <= j < i && ids@[j] == k;
                    assert(ids@[j] == ids@[i as int]);
                }
            }
            assert(w.elevators@.contains_key(k));
        }
        assert(w@.elevators[k] == v0.elevators[k]);
        let mut e = w.take_elevator(k);
        if is_active(active, k) {
            e.has_request = true;
        } else {
            e.last_moved = now;
        }
        w.put_elevator(k, e);
        proof {
            assert(w@.elevators =~= v0.elevators.union_prefer_right(
                target.restrict(ids@.take(i + 1).to_set()),
            ));
            assert(w.elevators@.dom() =~= old(w).elevators@.dom());
        }
        i += 1;
    }
    proof {
        assert(ids@.take(ids.len() as int) =~= ids@);
        assert(w@.elevators =~= target);
    }
}

/// What the manager decided on one event.
#[derive(Debug)]
pub struct EventOutcome {
    /// Whether the view changed so that the others must be informed.
    pub updated: bool,
    /// A message to broadcast, if any.
    pub to_network: Option<messages::Manager>,
    /// Differences from the view before to the view after, for the log.
    pub changes: Vec<WorldViewChange>,
    /// Elevators the alarm found stuck, for the log.
    pub failed: Vec<u8>,
}

/// What to send once the view changed.
#[derive(Debug)]
pub struct Inform {
    /// Requests for the own controller.
    pub controller: ControllerRequests,
    /// Confirmed requests for the lights.
    pub lights: ControllerRequests,
}

/// The manager's state.
#[derive(Debug)]
pub struct ManagerState {
    pub world_view: WorldView,
    /// Whether the network is believed to work.
    pub network_available: bool,
    /// Alarms left before this node stops adopting foreign views wholesale.
    pub humble_counter: u8,
}

impl ManagerState {
    /// The state machine is consistent: the own elevator is known.
    pub open spec fn wf(&self) -> bool {
        self.world_view.wf()
    }

    /// A fresh manager for elevator `id`.
    pub fn init(id: u8) -> (s: ManagerState)
        ensures
            s.wf(),
            s.world_view.id == id,
            s.network_available,
            s.humble_counter == HUMBLE_ALARMS,
    {
        ManagerState { world_view: WorldView::init(id), network_available: true, humble_counter: HUMBLE_ALARMS }
    }

    /// Handles a message at time `now`.
    ///
    /// - `Ping(id)`: the network works; a ping from another node is answered
    ///   with a `Pong` carrying the own id.
    /// - `Pong`: the network works. `NetworkError`: it does not.
    /// - `HeartBeat`: the network works; a view from another node is adopted
    ///   wholesale while humble (ending humility), else merged in.
    /// - `ElevatorState`: the own elevator's state is recorded.
    /// - `ClearRequest`: the marked requests of the floor become finished.
    pub fn on_message(&mut self, message: messages::Manager, now: u64) -> (out: EventOutcome)
        requires
            old(self).wf(),
            message matches messages::Manager::ClearRequest(floor, _) ==> floor < FLOOR_COUNT,
        ensures
            final(self).wf(),
            final(self).world_view.id == old(self).world_view.id,
            out.failed@.len() == 0,
            match message {
                messages::Manager::Ping(id) => {
                    &&& final(self).world_view@ == old(self).world_view@
                    &&& final(self).network_available
                    &&& final(self).humble_counter == old(self).humble_counter
                    &&& !out.updated
                    &&& out.changes@.len() == 0
                    &&& if id != old(self).world_view.id {
                        out.to_network matches Some(messages::Manager::Pong(p)) && p == old(self).world_view.id
                    } else {
                        out.to_network is None
                    }
                },
                messages::Manager::Pong(_) => {
                    &&& final(self).world_view@ == old(self).world_view@
                    &&& final(self).network_available
                    &&& final(self).humble_counter == old(self).humble_counter
                    &&& !out.updated && out.to_network is None && out.changes@.len() == 0
                },
                messages::Manager::NetworkError => {
                    &&& final(self).world_view@ == old(self).world_view@
                    &&& !final(self).network_available
                    &&& final(self).humble_counter == old(self).humble_counter
                    &&& !out.updated && out.to_network is None && out.changes@.len() == 0
                },
                messages::Manager::HeartBeat(_, foreign) => {
                    &&& final(self).network_available
                    &&& out.to_network is None
                    &&& if foreign.id == old(self).world_view.id {
                        &&& final(self).world_view@ == old(self).world_view@
                        &&& final(self).humble_counter == old(self).humble_counter
                        &&& !out.updated && out.changes@.len() == 0
                    } else if old(self).humble_counter > 0 {
                        &&& final(self).world_view@ == (WorldModel {
                            id: old(self).world_view.id,
                            elevators: if foreign@.elevators.contains_key(old(self).world_view.id) {
                                foreign@.elevators
                            } else {
                                foreign@.elevators.insert(
                                    old(self).world_view.id,
                                    old(self).world_view@.elevators[old(self).world_view.id],
                                )
                            },
                            hall_requests: foreign@.hall_requests,
                        })
                        &&& final(self).humble_counter == 0
                        &&& !out.updated && out.changes@.len() == 0
                    } else {
                        let mid = received(old(self).world_view@, foreign@, now);
                        let alive = alive_set(mid, 2, now);
                        &&& final(self).world_view@ == world_after_barrier(mid, alive)
                        &&& out.updated == (receive_changes(old(self).world_view@, foreign@, now)
                            || barrier_moves_some(mid, alive))
                        &&& final(self).humble_counter == old(self).humble_counter
                        &&& forall|c: WorldViewChange|
                            out.changes@.contains(c) <==> out.updated && is_change(
                                old(self).world_view@,
                                final(self).world_view@,
                                c,
                            )
                    }
                },
                messages::Manager::ElevatorState(dirn, behaviour, floor) => {
                    &&& final(self).world_view@ == with_own_state(
                        old(self).world_view@,
                        ElevatorNetworkState { dirn, behaviour, current_floor: floor },
                        now,
                    )
                    &&& final(self).network_available == old(self).network_available
                    &&& final(self).humble_counter == old(self).humble_counter
                    &&& out.updated && out.to_network is None
                    &&& forall|c: WorldViewChange|
                        out.changes@.contains(c) <==> is_change(
                            old(self).world_view@,
                            final(self).world_view@,
                            c,
                        )
                },
                messages::Manager::ClearRequest(floor, should_clear) => {
                    let w = old(self).world_view@;
                    &&& final(self).world_view@ == after_clear(w, floor as int, should_clear@, RequestState::Finished)
                    &&& final(self).network_available == old(self).network_available
                    &&& final(self).humble_counter == old(self).humble_counter
                    &&& out.updated == clear_changes(w, floor as int, should_clear@, RequestState::Finished)
                    &&& out.to_network is None
                    &&& forall|c: WorldViewChange|
                        out.changes@.contains(c) <==> is_change(w, final(self).world_view@, c)
                },
            },
    {
        let mut out = EventOutcome {
            updated: false,
            to_network: None,
            changes: Vec::new(),
            failed: Vec::new(),
        };
        match message {
            messages::Manager::Ping(id) => {
                self.network_available = true;
                if self.world_view.get_id() != id {
                    out.to_network = Some(messages::Manager::Pong(self.world_view.get_id()));
                }
            },
            messages::Manager::Pong(_) => {
                self.network_available = true;
            },
            messages::Manager::NetworkError => {
                self.network_available = false;
            },
            messages::Manager::HeartBeat(_, foreign_world_view) => {
                self.network_available = true;
                if foreign_world_view.get_id() != self.world_view.get_id() {
                    if self.humble_counter > 0 {
                        let new_wv = self.world_view.handle_humbly(foreign_world_view);
                        self.world_view = new_wv;
                        self.humble_counter = 0;
                    } else if !self.network_available {
                        let new_wv = self.world_view.handle_network_recovery(foreign_world_view);
                        self.world_view = new_wv;
                        out.updated = true;
                        self.network_available = true;
                    } else {
                        let (new_wv, up) = self.world_view.handle_foreign_world_view_at(foreign_world_view, now);
                        if up {
                            out.changes = self.world_view.compare_world_views(&new_wv);
                        }
                        self.world_view = new_wv;
                        out.updated = up;
                    }
                }
            },
            messages::Manager::ElevatorState(dirn, behaviour, floor) => {
                let (new_wv, up) = self.world_view.handle_elevator_state_at(dirn, behaviour, floor, now);
                if up {
                    out.changes = self.world_view.compare_world_views(&new_wv);
                    self.world_view = new_wv;
                } else {
                    proof {
                        lemma_same_state_unchanged(self.world_view@, now);
                    }
                }
                out.updated = true;
            },
            messages::Manager::ClearRequest(floor, should_clear) => {
                let (new_wv, up) = self.world_view.handle_clear_request(floor, &should_clear);
                if up {
                    out.changes = self.world_view.compare_world_views(&new_wv);
                    self.world_view = new_wv;
                } else {
                    proof {
                        lemma_clear_unchanged(
                            self.world_view@,
                            floor as int,
                            should_clear@,
                            RequestState::Finished,
                        );
                    }
                }
                out.updated = up;
            },
        }
        out
    }

    /// Handles a call button press at time `now`: hall calls only once this
    /// node takes part in a working network, cab calls always.
    pub fn on_button_press(&mut self, button_press: CallButton) -> (out: EventOutcome)
        requires
            old(self).wf(),
            button_press.call <= 2 ==> button_press.floor < FLOOR_COUNT,
        ensures
            final(self).wf(),
            final(self).world_view.id == old(self).world_view.id,
            final(self).network_available == old(self).network_available,
            final(self).humble_counter == old(self).humble_counter,
            out.to_network is None,
            out.failed@.len() == 0,
            ({
                let w = old(self).world_view@;
                let f = button_press.floor as int;
                let c = button_press.call as int;
                let own = w.elevators[w.id];
                let un = fresh(RequestState::Unconfirmed, w.id);
                let accepted = (old(self).humble_counter == 0 && old(self).network_available) || c == 2;
                if accepted && c < 2 && hall_at(w.hall_requests, f, c).state == RequestState::NoRequest {
                    out.updated && final(self).world_view@ == (WorldModel {
                        hall_requests: hall_with(w.hall_requests, f, c, un),
                        ..w
                    })
                } else if accepted && c == 2 && own.cab_requests[f].state == RequestState::NoRequest {
                    out.updated && final(self).world_view@ == (WorldModel {
                        elevators: w.elevators.insert(
                            w.id,
                            ElevatorView { cab_requests: own.cab_requests.update(f, un), ..own },
                        ),
                        ..w
                    })
                } else {
                    !out.updated && final(self).world_view@ == w
                }
            }),
            forall|c: WorldViewChange|
                out.changes@.contains(c) <==> is_change(
                    old(self).world_view@,
                    final(self).world_view@,
                    c,
                ),
    {
        let mut out = EventOutcome {
            updated: false,
            to_network: None,
            changes: Vec::new(),
            failed: Vec::new(),
        };
        if self.humble_counter == 0 && self.network_available || button_press.call == 2 {
            let (new_wv, up) = self.world_view.handle_button_press(&button_press);
            if up {
                out.changes = self.world_view.compare_world_views(&new_wv);
                self.world_view = new_wv;
            }
            out.updated = up;
        }
        proof {
            if !out.updated {
                assert forall|c: WorldViewChange| !is_change(self.world_view@, self.world_view@, c) by {}
            }
        }
        out
    }

    /// Handles the periodic alarm at time `now`: probe the network while it
    /// is down, else count down humility; run the barrier; check every
    /// elevator's progress. Always asks to inform the others.
    pub fn on_alarm(&mut self, now: u64) -> (out: EventOutcome)
        requires
            old(self).wf(),
        ensures
            final(self).wf(),
            final(self).world_view.id == old(self).world_view.id,
            final(self).network_available == old(self).network_available,
            final(self).humble_counter == if !old(self).network_available || old(self).humble_counter == 0 {
                old(self).humble_counter
            } else {
                (old(self).humble_counter - 1) as u8
            },
            if old(self).network_available {
                out.to_network is None
            } else {
                out.to_network matches Some(messages::Manager::Ping(p)) && p == old(self).world_view.id
            },
            out.updated,
            ({
                let w = old(self).world_view@;
                let alive = alive_set(w, 2, now);
                let b = world_after_barrier(w, alive);
                &&& final(self).world_view@ == (WorldModel {
                    elevators: b.elevators.map_values(|e: ElevatorView| progress_checked(e, now)),
                    ..b
                })
                &&& forall|c: WorldViewChange|
                    out.changes@.contains(c) <==> barrier_moves_some(w, alive) && is_change(w, b, c)
                &&& forall|k: u8|
                    out.failed@.contains(k) <==> b.elevators.contains_key(k) && newly_failed(b.elevators[k], now)
            }),
    {
        let mut out = EventOutcome {
            updated: false,
            to_network: None,
            changes: Vec::new(),
            failed: Vec::new(),
        };
        if !self.network_available {
            out.to_network = Some(messages::Manager::Ping(self.world_view.get_id()));
        } else if self.humble_counter > 0 {
            self.humble_counter = self.humble_counter - 1;
        }
        let (new_wv, up) = self.world_view.update_states_at_barrier_at(now);
        if up {
            out.changes = self.world_view.compare_world_views(&new_wv);
            self.world_view = new_wv;
        }
        proof {
            if !up {
                let w = old(self).world_view@;
                let alive = alive_set(w, 2, now);
                assert(world_after_barrier(w, alive).hall_requests =~= w.hall_requests) by {
                    assert forall|f: int| 0 <= f < w.hall_requests.len() implies #[trigger] world_after_barrier(
                        w,
                        alive,
                    ).hall_requests[f] =~= w.hall_requests[f] by {
                        assert forall|d: int| 0 <= d < w.hall_requests[f].len() implies #[trigger] world_after_barrier(
                            w,
                            alive,
                        ).hall_requests[f][d] == w.hall_requests[f][d] by {
                            if f < FLOOR_COUNT && d < 2 {
                                assert(!barrier_passes(w.hall_requests[f][d], alive));
                            }
                        }
                    }
                }
                assert(world_after_barrier(w, alive).elevators =~= w.elevators) by {
                    assert forall|k: u8| w.elevators.contains_key(k) implies #[trigger] world_after_barrier(
                        w,
                        alive,
                    ).elevators[k] == w.elevators[k] by {
                        assert(world_after_barrier(w, alive).elevators[k].cab_requests =~= w.elevators[k].cab_requests) by {
                            assert forall|f: int| 0 <= f < w.elevators[k].cab_requests.len() implies #[trigger] world_after_barrier(
                                w,
                                alive,
                            ).elevators[k].cab_requests[f] == w.elevators[k].cab_requests[f] by {
                                if f < FLOOR_COUNT {
                                    assert(!barrier_passes(w.elevators[k].cab_requests[f], alive));
                                }
                            }
                        }
                    }
                }
            }
        }
        out.updated = true;
        let failed = check_progress(&mut self.world_view, now);
        out.failed = failed;
        out
    }

    /// First half of informing the others after a change: the heartbeat to
    /// broadcast (a copy of the view, sent only outside humility while the
    /// network works), then every elevator's calls are withdrawn until the
    /// new assignment.
    pub fn begin_inform(&mut self, now: u64) -> (heartbeat: Option<messages::Manager>)
        requires
            old(self).wf(),
        ensures
            final(self).wf(),
            final(self).world_view.id == old(self).world_view.id,
            final(self).network_available == old(self).network_available,
            final(self).humble_counter == old(self).humble_counter,
            final(self).world_view@ == (WorldModel {
                elevators: old(self).world_view@.elevators.map_values(|e: ElevatorView| without_calls(e)),
                ..old(self).world_view@
            }),
            if old(self).humble_counter == 0 && old(self).network_available {
                heartbeat matches Some(messages::Manager::HeartBeat(t, w)) && t == now && w@ == old(
                    self,
                ).world_view@
            } else {
                heartbeat is None
            },
    {
        let heartbeat = if self.humble_counter == 0 && self.network_available {
            Some(messages::Manager::HeartBeat(now, self.world_view.clone()))
        } else {
            None
        };
        withdraw_calls(&mut self.world_view);
        heartbeat
    }

    /// Second half of informing the others: apply the hall call assignment
    /// (see [`WorldView::assign_requests`]), give calls to the active
    /// elevators, and name the requests for the controller and the lights.
    pub fn finish_inform(&mut self, assignment: Option<(ControllerRequests, Vec<i32>)>, now: u64) -> (out:
        Inform)
        requires
            old(self).wf(),
        ensures
            final(self).wf(),
            final(self).world_view.id == old(self).world_view.id,
            final(self).network_available == old(self).network_available,
            final(self).humble_counter == old(self).humble_counter,
            ({
                let w = old(self).world_view@;
                let active = match assignment {
                    Some((_, a)) => a@,
                    None => Seq::empty(),
                };
                &&& final(self).world_view@ == (WorldModel {
                    elevators: Map::new(
                        |k: u8| w.elevators.contains_key(k),
                        |k: u8| after_assignment(w.elevators[k], k, active, now),
                    ),
                    ..w
                })
                &&& match assignment {
                    Some((hall, _)) => forall|f: int, b: int|
                        0 <= f < FLOOR_COUNT && 0 <= b < 3 ==> #[trigger] crate::fsm::cell(out.controller, f, b)
                            == if b < 2 {
                            crate::fsm::cell(hall, f, b)
                        } else {
                            confirmed_at(w, f, b)
                        },
                    None => is_confirmed_matrix(out.controller, w),
                }
                &&& is_confirmed_matrix(out.lights, final(self).world_view@)
            }),
    {
        let ghost w0 = self.world_view@;
        let ghost asg = assignment;
        let (controller, active) = self.world_view.assign_requests(assignment);
        proof {
            let act = match asg {
                Some((_, a)) => a@,
                None => Seq::empty(),
            };
            assert(active@ == act);
        }
        mark_assigned(&mut self.world_view, &active, now);
        let lights = self.world_view.get_confirmed_requests();
        Inform { controller, lights }
    }
}

} // verus!
