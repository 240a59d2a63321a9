//! World views of the self-contained variant.
//!
//! Differences from [`crate::manager`]: merging reports a change whenever a
//! state rises or an acknowledgement is new; the barrier only confirms
//! unconfirmed requests; an elevator counts as alive only while it is
//! believed to work; clearing a request resets it at once.
use vstd::prelude::*;
use std::collections::{HashMap, HashSet};

use crate::clock::now_nanos;
use crate::config::{CALL_COUNT, FLOOR_COUNT};
use crate::fsm::{cell, no_requests, ControllerRequests, Dirn, ElevatorBehaviour};
use crate::manager::{elevator_ids, hall_index, is_subset_of, lemma_push_contains, CallButton};
use crate::models::elevator::{
    elevator_after_barrier, merge_cabs, with_new_state, Elevator, ElevatorNetworkState, ElevatorView,
};
use crate::models::requests::{
    after_barrier, barrier_passes, fresh, merge_changes, merged, rank, Request, RequestState, RequestView,
};

verus! {

broadcast use vstd::std_specs::hash::group_hash_axioms;

/// What an elevator knows of the whole system.
#[derive(Debug)]
pub struct WorldView {
    id: u8,
    elevators: HashMap<u8, Elevator>,
    hall_requests: [[Request; 2]; FLOOR_COUNT],
}

/// Mathematical form of a [`WorldView`].
pub struct WorldModel {
    /// The holder's id.
    pub id: u8,
    /// Every known elevator by id.
    pub elevators: Map<u8, ElevatorView>,
    /// Hall requests per floor: `[up, down]`.
    pub hall_requests: Seq<Seq<RequestView>>,
}

/// The views of a map of elevators.
pub open spec fn elevator_views(m: Map<u8, Elevator>) -> Map<u8, ElevatorView> {
    m.map_values(|e: Elevator| e@)
}

/// The views of one floor's hall requests.
pub open spec fn row_views(row: [Request; 2]) -> Seq<RequestView> {
    row@.map_values(|r: Request| r@)
}

/// The views of the hall requests.
pub open spec fn hall_views(h: [[Request; 2]; FLOOR_COUNT]) -> Seq<Seq<RequestView>> {
    h@.map_values(|row: [Request; 2]| row_views(row))
}

impl View for WorldView {
    type V = WorldModel;

    closed spec fn view(&self) -> WorldModel {
        WorldModel {
            id: self.id,
            elevators: elevator_views(self.elevators@),
            hall_requests: hall_views(self.hall_requests),
        }
    }
}

/// Copies of the hall requests.
fn copy_hall(h: &[[Request; 2]; FLOOR_COUNT]) -> (r: [[Request; 2]; FLOOR_COUNT])
    ensures
        hall_views(r) == hall_views(*h),
{
    let r = [
        [h[0][0].clone(), h[0][1].clone()],
        [h[1][0].clone(), h[1][1].clone()],
        [h[2][0].clone(), h[2][1].clone()],
        [h[3][0].clone(), h[3][1].clone()],
    ];
    proof {
        assert forall|f: int| 0 <= f < FLOOR_COUNT implies row_views(r@[f]) == #[trigger] row_views(
            h@[f],
        ) by {
            assert(row_views(r@[f]) =~= row_views(h@[f]));
        }
        assert(hall_views(r) =~= hall_views(*h));
    }
    r
}

impl Clone for WorldView {
    fn clone(&self) -> (r: Self)
        ensures
            r@ == self@,
    {
        let r = WorldView {
            id: self.id,
            elevators: self.elevators.clone(),
            hall_requests: copy_hall(&self.hall_requests),
        };
        proof {
            assert(r.elevators@ == self.elevators@);
        }
        r
    }
}

/// Request `(f, d)` of a hall model.
pub open spec fn hall_at(h: Seq<Seq<RequestView>>, f: int, d: int) -> RequestView {
    h[f][d]
}

/// A hall model with request `(f, d)` replaced.
pub open spec fn hall_with(h: Seq<Seq<RequestView>>, f: int, d: int, r: RequestView) -> Seq<
    Seq<RequestView>,
> {
    h.update(f, h[f].update(d, r))
}

/// Whether at most `timeout` seconds lie between `last` and `now`, both in
/// nanoseconds since the epoch. A `last` after `now` is not within.
pub open spec fn heard_within(last: u64, now: u64, timeout: u64) -> bool {
    last <= now && now - last <= timeout * 1_000_000_000
}

/// Executable form of [`heard_within`].
fn is_heard_within(last: u64, now: u64, timeout: u64) -> (r: bool)
    ensures
        r == heard_within(last, now, timeout),
{
    if last > now {
        false
    } else {
        let elapsed: u128 = (now - last) as u128;
        let limit: u128 = (timeout as u128) * 1_000_000_000;
        elapsed <= limit
    }
}

/// Ids of the elevators counted alive at time `now`: those believed to
/// work that are the holder itself or were heard from within `timeout`
/// seconds.
pub open spec fn alive_set(w: WorldModel, timeout: u64, now: u64) -> Set<u8> {
    w.elevators.dom().filter(
        |k: u8|
            (k == w.id || heard_within(w.elevators[k].last_received, now, timeout))
                && w.elevators[k].is_working,
    )
}

impl WorldView {
    /// The holder's own elevator is known.
    pub open spec fn wf(&self) -> bool {
        self@.elevators.contains_key(self@.id)
    }

    /// Every view has four floors of two hall requests, and every known
    /// elevator has four cab requests.
    pub proof fn lemma_shape(&self)
        ensures
            self@.hall_requests.len() == FLOOR_COUNT,
            forall|f: int| 0 <= f < FLOOR_COUNT ==> (#[trigger] self@.hall_requests[f]).len() == 2,
            forall|k: u8|
                #[trigger] self@.elevators.contains_key(k) ==> self@.elevators[k].cab_requests.len()
                    == FLOOR_COUNT,
    {
        assert forall|k: u8| #[trigger] self@.elevators.contains_key(k) implies self@.elevators[k].cab_requests.len()
            == FLOOR_COUNT by {
            self.elevators@[k].lemma_cab_len();
        }
    }

    /// Replaces hall request `(f, d)` by the merge with `other`.
    fn merge_hall(&mut self, f: usize, d: usize, other: &Request) -> (updated: bool)
        requires
            f < FLOOR_COUNT,
            d < 2,
        ensures
            final(self)@ == (WorldModel {
                hall_requests: hall_with(
                    old(self)@.hall_requests,
                    f as int,
                    d as int,
                    merged(hall_at(old(self)@.hall_requests, f as int, d as int), other@, old(self).id),
                ),
                ..old(self)@
            }),
            updated == merge_changes(hall_at(old(self)@.hall_requests, f as int, d as int), other@, old(self).id),
            final(self).elevators@ == old(self).elevators@,
            final(self).id == old(self).id,
    {
        let ghost v0 = self@;
        let id = self.id;
        let updated = self.hall_requests[f][d].merge(other, id);
        proof {
            let n = merged(hall_at(v0.hall_requests, f as int, d as int), other@, id);
            assert(self@.hall_requests[f as int] =~= v0.hall_requests[f as int].update(d as int, n));
            assert(self@.hall_requests =~= hall_with(v0.hall_requests, f as int, d as int, n));
        }
        updated
    }

    /// Moves hall request `(f, d)` through the barrier.
    fn pass_hall(&mut self, f: usize, d: usize, alive: &HashSet<u8>) -> (moved: bool)
        requires
            f < FLOOR_COUNT,
            d < 2,
        ensures
            final(self)@ == (WorldModel {
                hall_requests: hall_with(
                    old(self)@.hall_requests,
                    f as int,
                    d as int,
                    after_barrier(hall_at(old(self)@.hall_requests, f as int, d as int), alive@, old(self).id),
                ),
                ..old(self)@
            }),
            moved == barrier_passes(hall_at(old(self)@.hall_requests, f as int, d as int), alive@),
            final(self).elevators@ == old(self).elevators@,
            final(self).id == old(self).id,
    {
        let ghost v0 = self@;
        let id = self.id;
        let moved = self.hall_requests[f][d].pass_barrier(alive, id);
        proof {
            let n = after_barrier(hall_at(v0.hall_requests, f as int, d as int), alive@, id);
            assert(self@.hall_requests[f as int] =~= v0.hall_requests[f as int].update(d as int, n));
            assert(self@.hall_requests =~= hall_with(v0.hall_requests, f as int, d as int, n));
        }
        moved
    }

    /// Sets hall request `(f, d)` to `state`, acknowledged by the holder.
    fn set_hall(&mut self, f: usize, d: usize, state: RequestState)
        requires
            f < FLOOR_COUNT,
            d < 2,
        ensures
            final(self)@ == (WorldModel {
                hall_requests: hall_with(
                    old(self)@.hall_requests,
                    f as int,
                    d as int,
                    fresh(state, old(self).id),
                ),
                ..old(self)@
            }),
            final(self).elevators@ == old(self).elevators@,
            final(self).id == old(self).id,
    {
        let ghost v0 = self@;
        let id = self.id;
        self.hall_requests[f][d].set_to(state, id);
        proof {
            let n = fresh(state, id);
            assert(self@.hall_requests[f as int] =~= v0.hall_requests[f as int].update(d as int, n));
            assert(self@.hall_requests =~= hall_with(v0.hall_requests, f as int, d as int, n));
        }
    }

    /// Takes elevator `k` out of the map.
    fn take_elevator(&mut self, k: u8) -> (e: Elevator)
        requires
            old(self).elevators@.contains_key(k),
        ensures
            e@ == old(self)@.elevators[k],
            final(self)@ == (WorldModel { elevators: old(self)@.elevators.remove(k), ..old(self)@ }),
            final(self).elevators@ == old(self).elevators@.remove(k),
            final(self).id == old(self).id,
    {
        let r = self.elevators.remove(&k);
        proof {
            assert(elevator_views(self.elevators@) =~= elevator_views(old(self).elevators@).remove(k));
        }
        match r {
            Some(e) => e,
            None => {
                assert(false);
                Elevator::new_at(0)
            },
        }
    }

    /// Puts elevator `e` into the map under `k`.
    fn put_elevator(&mut self, k: u8, e: Elevator)
        ensures
            final(self)@ == (WorldModel { elevators: old(self)@.elevators.insert(k, e@), ..old(self)@ }),
            final(self).elevators@ == old(self).elevators@.insert(k, e),
            final(self).id == old(self).id,
    {
        self.elevators.insert(k, e);
        proof {
            assert(elevator_views(self.elevators@) =~= elevator_views(old(self).elevators@).insert(k, e@));
        }
    }

    /// A fresh view for elevator `id`: only itself known, stamped with the
    /// current time, every hall request in no state and acknowledged by `id`.
    pub fn init(id: u8) -> (w: WorldView)
        ensures
            w@.id == id,
            w.wf(),
            w@.elevators.dom() == set![id],
            w@.elevators[id].state == crate::manager::initial_network_state(),
            w@.elevators[id].cab_requests.len() == FLOOR_COUNT,
            forall|f: int|
                0 <= f < FLOOR_COUNT ==> #[trigger] w@.elevators[id].cab_requests[f] == (RequestView {
                    state: RequestState::NoRequest,
                    acks: Set::empty(),
                }),
            !w@.elevators[id].has_request,
            w@.elevators[id].is_working,
            w@.hall_requests.len() == FLOOR_COUNT,
            forall|f: int, d: int|
                0 <= f < FLOOR_COUNT && 0 <= d < 2 ==> (#[trigger] w@.hall_requests[f][d]) == fresh(
                    RequestState::NoRequest,
                    id,
                ),
    {
        let mut elevators: HashMap<u8, Elevator> = HashMap::new();
        let e = Elevator::new();
        elevators.insert(id, e);
        let hall_requests = [
            [Request::new(id), Request::new(id)],
            [Request::new(id), Request::new(id)],
            [Request::new(id), Request::new(id)],
            [Request::new(id), Request::new(id)],
        ];
        let w = WorldView { id, elevators, hall_requests };
        proof {
            assert(w@.elevators.dom() =~= set![id]);
        }
        w
    }

    /// The holder's id.
    pub fn id(&self) -> (id: u8)
        ensures
            id == self@.id,
    {
        self.id
    }

    /// The known elevators.
    pub fn elevators(&self) -> (m: &HashMap<u8, Elevator>)
        ensures
            elevator_views(m@) == self@.elevators,
    {
        &self.elevators
    }

    /// The known elevators, for changing them.
    pub fn elevators_mut(&mut self) -> (m: &mut HashMap<u8, Elevator>)
        ensures
            elevator_views(m@) == old(self)@.elevators,
            final(self)@ == (WorldModel { elevators: elevator_views(final(m)@), ..old(self)@ }),
    {
        &mut self.elevators
    }

    /// The hall requests.
    pub fn hall_requests(&self) -> (h: &[[Request; 2]; FLOOR_COUNT])
        ensures
            hall_views(*h) == self@.hall_requests,
    {
        &self.hall_requests
    }

    /// The hall requests, for changing them.
    pub fn hall_requests_mut(&mut self) -> (h: &mut [[Request; 2]; FLOOR_COUNT])
        ensures
            hall_views(*h) == old(self)@.hall_requests,
            final(self)@ == (WorldModel { hall_requests: hall_views(*final(h)), ..old(self)@ }),
    {
        &mut self.hall_requests
    }

    /// Adopts a foreign view when joining: everything of `foreign`, under
    /// the holder's id, with the holder's own elevator as this view has it.
    pub fn handle_humbly(&self, foreign: WorldView) -> (w: WorldView)
        ensures
            w@ == (WorldModel {
                id: self@.id,
                elevators: if self@.elevators.contains_key(self@.id) {
                    foreign@.elevators.insert(self@.id, self@.elevators[self@.id])
                } else {
                    foreign@.elevators
                },
                hall_requests: foreign@.hall_requests,
            }),
            self.wf() ==> w.wf(),
    {
        let mut clone = foreign.clone();
        let id = self.id;
        match self.elevators.get(&id) {
            Some(own_elev) => {
                clone.put_elevator(id, own_elev.clone());
            },
            None => {},
        }
        clone.id = id;
        clone
    }
}

/// `w` after the buttons of `mask` (`[hall up, hall down, cab]`) of floor
/// `floor` were reset to no request, acknowledged by the holder; the cab
/// button is the holder's own.
pub open spec fn after_clear(w: WorldModel, floor: int, mask: Seq<bool>) -> WorldModel {
    let none = fresh(RequestState::NoRequest, w.id);
    let h1 = if mask[0] {
        hall_with(w.hall_requests, floor, 0, none)
    } else {
        w.hall_requests
    };
    let h2 = if mask[1] {
        hall_with(h1, floor, 1, none)
    } else {
        h1
    };
    let own = w.elevators[w.id];
    let e2 = if mask[2] {
        ElevatorView { cab_requests: own.cab_requests.update(floor, none), ..own }
    } else {
        own
    };
    WorldModel { hall_requests: h2, elevators: w.elevators.insert(w.id, e2), ..w }
}

/// `w` after button `c` (0 hall up, 1 hall down, 2 cab) of floor `f` was
/// pressed, and whether that changed it: an idle request becomes
/// unconfirmed, acknowledged by the holder.
pub open spec fn after_press(w: WorldModel, f: int, c: int) -> (WorldModel, bool) {
    let own = w.elevators[w.id];
    let un = fresh(RequestState::Unconfirmed, w.id);
    if 0 <= c < 2 && hall_at(w.hall_requests, f, c).state == RequestState::NoRequest {
        (WorldModel { hall_requests: hall_with(w.hall_requests, f, c, un), ..w }, true)
    } else if c == 2 && own.cab_requests[f].state == RequestState::NoRequest {
        (
            WorldModel {
                elevators: w.elevators.insert(
                    w.id,
                    ElevatorView { cab_requests: own.cab_requests.update(f, un), ..own },
                ),
                ..w
            },
            true,
        )
    } else {
        (w, false)
    }
}

/// `w` after the holder's own elevator reports network state `s` at time `now`.
pub open spec fn with_own_state(w: WorldModel, s: ElevatorNetworkState, now: u64) -> WorldModel {
    WorldModel { elevators: w.elevators.insert(w.id, with_new_state(w.elevators[w.id], s, now)), ..w }
}

/// Whether button `b` of floor `f` is confirmed in `w`: hall buttons from
/// the hall requests, the cab button from the holder's own elevator.
pub open spec fn confirmed_at(w: WorldModel, f: int, b: int) -> bool {
    if b < 2 {
        w.hall_requests[f][b].state == RequestState::Confirmed
    } else {
        w.elevators[w.id].cab_requests[f].state == RequestState::Confirmed
    }
}

/// `r` holds exactly the confirmed requests of `w`.
pub open spec fn is_confirmed_matrix(r: ControllerRequests, w: WorldModel) -> bool {
    forall|f: int, b: int|
        0 <= f < FLOOR_COUNT && 0 <= b < CALL_COUNT ==> #[trigger] cell(r, f, b) == confirmed_at(w, f, b)
}

impl WorldView {
    /// Records the holder's own new direction, behaviour and floor at time
    /// `now`; a change of floor or behaviour marks progress and working.
    pub fn handle_elevator_state_at(
        &self,
        dirn: Dirn,
        behaviour: ElevatorBehaviour,
        floor: i8,
        now: u64,
    ) -> (r: (WorldView, bool))
        requires
            self.wf(),
        ensures
            r.0@ == with_own_state(self@, ElevatorNetworkState { dirn, behaviour, current_floor: floor }, now),
            r.0.wf(),
            r.1,
    {
        let mut clone = self.clone();
        let id = clone.id;
        let mut elev = clone.take_elevator(id);
        let st = elev.get_state();
        if st.current_floor != floor || st.behaviour != behaviour {
            elev.set_last_moved(now);
            elev.set_is_working(true);
        }
        elev.set_state(ElevatorNetworkState { dirn, behaviour, current_floor: floor });
        clone.put_elevator(id, elev);
        proof {
            assert(clone@.elevators =~= self@.elevators.insert(
                self@.id,
                with_new_state(
                    self@.elevators[self@.id],
                    ElevatorNetworkState { dirn, behaviour, current_floor: floor },
                    now,
                ),
            ));
        }
        (clone, true)
    }

    /// [`Self::handle_elevator_state_at`] at the current time.
    pub fn handle_elevator_state(&self, dirn: Dirn, behaviour: ElevatorBehaviour, floor: i8) -> (r: (
        WorldView,
        bool,
    ))
        requires
            self.wf(),
        ensures
            exists|now: u64|
                r.0@ == #[trigger] with_own_state(
                    self@,
                    ElevatorNetworkState { dirn, behaviour, current_floor: floor },
                    now,
                ),
            r.0.wf(),
            r.1,
    {
        self.handle_elevator_state_at(dirn, behaviour, floor, now_nanos())
    }

    /// Resets the requests of `floor` selected by `should_clear`
    /// (`[hall up, hall down, cab]`, the cab one of the holder's elevator)
    /// to no request, acknowledged by the holder.
    pub fn handle_clear_request(&self, floor: usize, should_clear: &[bool; 3]) -> (r: (WorldView, bool))
        requires
            self.wf(),
            floor < FLOOR_COUNT,
        ensures
            r.0@ == after_clear(self@, floor as int, should_clear@),
            r.0.wf(),
            r.1,
    {
        let mut clone = self.clone();
        let id = clone.id;
        let mut elev = clone.take_elevator(id);
        if should_clear[0] {
            clone.set_hall(floor, 0, RequestState::NoRequest);
        }
        if should_clear[1] {
            clone.set_hall(floor, 1, RequestState::NoRequest);
        }
        if should_clear[2] {
            elev.set_cab(floor, RequestState::NoRequest, id);
        }
        clone.put_elevator(id, elev);
        proof {
            let own = self@.elevators[self@.id];
            let none = fresh(RequestState::NoRequest, self@.id);
            let e2 = if should_clear@[2] {
                ElevatorView { cab_requests: own.cab_requests.update(floor as int, none), ..own }
            } else {
                own
            };
            assert(clone@.elevators =~= self@.elevators.insert(self@.id, e2));
        }
        (clone, true)
    }

    /// A button press: an idle hall request (call 0 or 1) or an idle cab
    /// request of the holder's elevator (call 2) becomes unconfirmed,
    /// acknowledged by the holder. Other calls change nothing. Returns
    /// whether something changed.
    pub fn handle_button_press(&self, button: &CallButton) -> (r: (WorldView, bool))
        requires
            button.call == 2 ==> self.wf(),
            button.call <= 2 ==> button.floor < FLOOR_COUNT,
        ensures
            (r.0@, r.1) == after_press(self@, button.floor as int, button.call as int),
            self.wf() ==> r.0.wf(),
    {
        let mut clone = self.clone();
        let id = clone.id;
        let f = button.floor as usize;
        let call = button.call;
        if call == 0 || call == 1 {
            let c = call as usize;
            if clone.hall_requests[f][c].state() == RequestState::NoRequest {
                clone.set_hall(f, c, RequestState::Unconfirmed);
                return (clone, true);
            }
        } else if call == 2 {
            let mut elev = clone.take_elevator(id);
            if elev.cab_state(f) == RequestState::NoRequest {
                elev.set_cab(f, RequestState::Unconfirmed, id);
                clone.put_elevator(id, elev);
                proof {
                    let own = self@.elevators[self@.id];
                    let un = fresh(RequestState::Unconfirmed, self@.id);
                    assert(clone@.elevators =~= self@.elevators.insert(
                        self@.id,
                        ElevatorView { cab_requests: own.cab_requests.update(f as int, un), ..own },
                    ));
                }
                return (clone, true);
            }
            clone.put_elevator(id, elev);
            proof {
                assert(clone@.elevators =~= self@.elevators);
            }
        }
        (clone, false)
    }

    /// Ids of the elevators alive at time `now` (see [`alive_set`]).
    pub fn get_alive_elevators_at(&self, timeout: u64, now: u64) -> (alive: HashSet<u8>)
        ensures
            alive@ == alive_set(self@, timeout, now),
    {
        let ids = elevator_ids(&self.elevators);
        let mut alive: HashSet<u8> = HashSet::new();
        let ghost w = self@;
        let mut i: usize = 0;
        while i < ids.len()
            invariant
                i <= ids.len(),
                w == self@,
                forall|k: u8| ids@.contains(k) <==> self.elevators@.contains_key(k),
                alive@ == alive_set(w, timeout, now).intersect(ids@.take(i as int).to_set()),
            decreases ids.len() - i,
        {
            let k = ids[i];
            proof {
                assert(ids@.take(i + 1) =~= ids@.take(i as int).push(k));
                ids@.take(i as int).lemma_push_to_set_commute(k);
                assert(ids@.contains(k));
            }
            let elev = match self.elevators.get(&k) {
                Some(e) => e,
                None => {
                    assert(false);
                    return alive;
                },
            };
            if (k == self.id || is_heard_within(elev.last_received(), now, timeout)) && elev.is_working() {
                alive.insert(k);
            }
            proof {
                assert(alive@ =~= alive_set(w, timeout, now).intersect(ids@.take(i + 1).to_set()));
            }
            i += 1;
        }
        proof {
            assert(ids@.take(ids.len() as int) =~= ids@);
            assert(alive@ =~= alive_set(w, timeout, now));
        }
        alive
    }

    /// [`Self::get_alive_elevators_at`] at the current time.
    pub fn get_alive_elevators(&self, timeout: u64) -> (alive: HashSet<u8>)
        ensures
            exists|now: u64| alive@ == alive_set(self@, timeout, now),
    {
        self.get_alive_elevators_at(timeout, now_nanos())
    }

    /// The confirmed requests as a matrix: hall buttons from the hall
    /// requests, the cab button from the holder's own elevator.
    pub fn get_confirmed_requests(&self) -> (r: ControllerRequests)
        requires
            self.wf(),
        ensures
            is_confirmed_matrix(r, self@),
    {
        let mut requests = no_requests();
        let elev = match self.elevators.get(&self.id) {
            Some(e) => e,
            None => {
                assert(false);
                return requests;
            },
        };
        proof {
            elev.lemma_cab_len();
        }
        let mut f: usize = 0;
        while f < FLOOR_COUNT
            invariant
                f <= FLOOR_COUNT,
                elev@ == self@.elevators[self@.id],
                forall|g: int, b: int|
                    0 <= g < FLOOR_COUNT && 0 <= b < CALL_COUNT ==> #[trigger] cell(requests, g, b) == (g
                        < f && confirmed_at(self@, g, b)),
            decreases FLOOR_COUNT - f,
        {
            let ghost r0 = requests;
            let a0 = self.hall_requests[f][0].state == RequestState::Confirmed;
            let a1 = self.hall_requests[f][1].state == RequestState::Confirmed;
            let a2 = elev.cab_state(f) == RequestState::Confirmed;
            let row = [a0, a1, a2];
            requests[f] = row;
            proof {
                assert(row@ =~= seq![a0, a1, a2]);
                assert(requests@[f as int] == row);
                assert(self@.hall_requests[f as int][0] == self.hall_requests@[f as int]@[0]@);
                assert(self@.hall_requests[f as int][1] == self.hall_requests@[f as int]@[1]@);
                assert forall|g: int, b: int|
                    0 <= g < FLOOR_COUNT && 0 <= b < CALL_COUNT implies #[trigger] cell(requests, g, b) == (
                    g < f + 1 && confirmed_at(self@, g, b)) by {
                    if g != f {
                        assert(requests@[g] == r0@[g]);
                        assert(cell(requests, g, b) == cell(r0, g, b));
                    } else if b == 0 {
                        assert(cell(requests, g, b) == a0);
                        assert(confirmed_at(self@, g, b) == a0);
                    } else if b == 1 {
                        assert(cell(requests, g, b) == a1);
                        assert(confirmed_at(self@, g, b) == a1);
                    } else {
                        assert(cell(requests, g, b) == a2);
                        assert(confirmed_at(self@, g, b) == a2);
                    }
                }
            }
            f += 1;
        }
        requests
    }

    /// Combines the hall assignment computed for the holder with its
    /// confirmed cab requests. Without an assignment the holder serves every
    /// confirmed request and no elevator counts as active.
    pub fn assign_requests(&self, assignment: Option<(ControllerRequests, Vec<i32>)>) -> (r: (
        ControllerRequests,
        Vec<i32>,
    ))
        requires
            self.wf(),
        ensures
            match assignment {
                Some((hall, active)) => {
                    &&& r.1@ == active@
                    &&& forall|f: int, b: int|
                        0 <= f < FLOOR_COUNT && 0 <= b < CALL_COUNT ==> #[trigger] cell(r.0, f, b) == if b
                            < 2 {
                            cell(hall, f, b)
                        } else {
                            confirmed_at(self@, f, b)
                        }
                },
                None => is_confirmed_matrix(r.0, self@) && r.1@.len() == 0,
            },
    {
        match assignment {
            Some((mut requests, active)) => {
                let confirmed = self.get_confirmed_requests();
                let ghost r0 = requests;
                let mut f: usize = 0;
                while f < FLOOR_COUNT
                    invariant
                        f <= FLOOR_COUNT,
                        is_confirmed_matrix(confirmed, self@),
                        forall|g: int, b: int|
                            0 <= g < FLOOR_COUNT && 0 <= b < CALL_COUNT ==> #[trigger] cell(requests, g, b)
                                == if b < 2 || g >= f {
                                cell(r0, g, b)
                            } else {
                                confirmed_at(self@, g, b)
                            },
                    decreases FLOOR_COUNT - f,
                {
                    let ghost r1 = requests;
                    let a0 = requests[f][0];
                    let a1 = requests[f][1];
                    let a2 = confirmed[f][2];
                    let row = [a0, a1, a2];
                    requests[f] = row;
                    proof {
                        assert(row@ =~= seq![a0, a1, a2]);
                        assert(requests@[f as int] == row);
                        assert forall|g: int, b: int|
                            0 <= g < FLOOR_COUNT && 0 <= b < CALL_COUNT implies #[trigger] cell(requests, g, b)
                                == if b < 2 || g >= f + 1 {
                                cell(r0, g, b)
                            } else {
                                confirmed_at(self@, g, b)
                            } by {
                            assert(cell(confirmed, f as int, 2) == confirmed_at(self@, f as int, 2));
                            if g != f {
                                assert(requests@[g] == r1@[g]);
                                assert(cell(requests, g, b) == cell(r1, g, b));
                            } else if b == 0 {
                                assert(cell(requests, g, b) == a0);
                                assert(cell(r1, g, b) == cell(r0, g, b));
                            } else if b == 1 {
                                assert(cell(requests, g, b) == a1);
                                assert(cell(r1, g, b) == cell(r0, g, b));
                            } else {
                                assert(cell(requests, g, b) == a2);
                            }
                        }
                    }
                    f += 1;
                }
                (requests, active)
            },
            None => (self.get_confirmed_requests(), Vec::new()),
        }
    }
}

/// The hall requests after the barrier.
pub open spec fn hall_after_barrier(h: Seq<Seq<RequestView>>, alive: Set<u8>, id: u8) -> Seq<
    Seq<RequestView>,
> {
    h.map_values(|row: Seq<RequestView>| row.map_values(|r: RequestView| after_barrier(r, alive, id)))
}

/// The whole view after the barrier with alive set `alive`.
pub open spec fn world_after_barrier(w: WorldModel, alive: Set<u8>) -> WorldModel {
    WorldModel {
        id: w.id,
        elevators: w.elevators.map_values(|e: ElevatorView| elevator_after_barrier(e, alive, w.id)),
        hall_requests: hall_after_barrier(w.hall_requests, alive, w.id),
    }
}

/// Whether the barrier confirms a hall request.
pub open spec fn barrier_moves_hall(w: WorldModel, alive: Set<u8>) -> bool {
    exists|f: int, d: int|
        0 <= f < FLOOR_COUNT && 0 <= d < 2 && #[trigger] barrier_passes(w.hall_requests[f][d], alive)
}

/// Whether the barrier confirms a cab request.
pub open spec fn barrier_moves_cab(w: WorldModel, alive: Set<u8>) -> bool {
    exists|k: u8, f: int|
        w.elevators.contains_key(k) && 0 <= f < FLOOR_COUNT && #[trigger] barrier_passes(
            w.elevators[k].cab_requests[f],
            alive,
        )
}

/// Whether the barrier confirms any request.
pub open spec fn barrier_moves_some(w: WorldModel, alive: Set<u8>) -> bool {
    barrier_moves_hall(w, alive) || barrier_moves_cab(w, alive)
}

/// The hall requests merged with `theirs`.
pub open spec fn merged_hall(mine: Seq<Seq<RequestView>>, theirs: Seq<Seq<RequestView>>, id: u8) -> Seq<
    Seq<RequestView>,
> {
    Seq::new(
        mine.len(),
        |f: int| Seq::new(mine[f].len(), |d: int| merged(mine[f][d], theirs[f][d], id)),
    )
}

/// Known elevators plus those only `theirs` knows.
pub open spec fn adopt_unknown(mine: Map<u8, ElevatorView>, theirs: Map<u8, ElevatorView>) -> Map<
    u8,
    ElevatorView,
> {
    theirs.union_prefer_right(mine)
}

/// The sender's own elevator takes the state the sender reports, heard from at `now`.
pub open spec fn refresh_sender(
    m: Map<u8, ElevatorView>,
    theirs: Map<u8, ElevatorView>,
    sender: u8,
    now: u64,
) -> Map<u8, ElevatorView> {
    if theirs.contains_key(sender) {
        m.insert(
            sender,
            ElevatorView { last_received: now, ..with_new_state(m[sender], theirs[sender].state, now) },
        )
    } else {
        m
    }
}

/// Every elevator `theirs` knows gets its cab requests merged with theirs.
pub open spec fn merge_all_cabs(m: Map<u8, ElevatorView>, theirs: Map<u8, ElevatorView>, id: u8) -> Map<
    u8,
    ElevatorView,
> {
    m.union_prefer_right(
        Map::new(
            |k: u8| theirs.contains_key(k) && m.contains_key(k),
            |k: u8| merge_cabs(m[k], theirs[k], id),
        ),
    )
}

/// The elevators after adopting unknown ones and refreshing the sender.
pub open spec fn received_elevators(w: WorldModel, foreign: WorldModel, now: u64) -> Map<u8, ElevatorView> {
    refresh_sender(adopt_unknown(w.elevators, foreign.elevators), foreign.elevators, foreign.id, now)
}

/// `w` after merging in `foreign` at time `now`, before the barrier.
pub open spec fn received(w: WorldModel, foreign: WorldModel, now: u64) -> WorldModel {
    WorldModel {
        id: w.id,
        elevators: merge_all_cabs(received_elevators(w, foreign, now), foreign.elevators, w.id),
        hall_requests: merged_hall(w.hall_requests, foreign.hall_requests, w.id),
    }
}

/// Whether merging in `foreign` changes some request: a state rises or an
/// acknowledgement is new.
pub open spec fn receive_changes(w: WorldModel, foreign: WorldModel, now: u64) -> bool {
    let m = received_elevators(w, foreign, now);
    ||| exists|f: int, d: int|
        0 <= f < FLOOR_COUNT && 0 <= d < 2 && #[trigger] merge_changes(
            w.hall_requests[f][d],
            foreign.hall_requests[f][d],
            w.id,
        )
    ||| exists|k: u8, f: int|
        foreign.elevators.contains_key(k) && 0 <= f < FLOOR_COUNT && #[trigger] merge_changes(
            m[k].cab_requests[f],
            foreign.elevators[k].cab_requests[f],
            w.id,
        )
}

impl WorldView {
    /// Moves the hall requests through the barrier; returns whether one moved.
    fn hall_pass_barrier(&mut self, alive: &HashSet<u8>) -> (moved: bool)
        ensures
            final(self)@ == (WorldModel {
                hall_requests: hall_after_barrier(old(self)@.hall_requests, alive@, old(self).id),
                ..old(self)@
            }),
            final(self).elevators@ == old(self).elevators@,
            final(self).id == old(self).id,
            moved == barrier_moves_hall(old(self)@, alive@),
    {
        let ghost v0 = self@;
        let id = self.id;
        let mut moved = false;
        let mut i: usize = 0;
        while i < 2 * FLOOR_COUNT
            invariant
                i <= 2 * FLOOR_COUNT,
                id == self.id,
                self.id == old(self).id,
                self.elevators@ == old(self).elevators@,
                v0 == old(self)@,
                self@ == (WorldModel { hall_requests: self@.hall_requests, ..v0 }),
                self@.hall_requests.len() == FLOOR_COUNT,
                forall|f: int| 0 <= f < FLOOR_COUNT ==> (#[trigger] self@.hall_requests[f]).len() == 2,
                forall|f: int, d: int|
                    0 <= f < FLOOR_COUNT && 0 <= d < 2 ==> #[trigger] self@.hall_requests[f][d] == if hall_index(
                        f,
                        d,
                    ) < i {
                        after_barrier(v0.hall_requests[f][d], alive@, id)
                    } else {
                        v0.hall_requests[f][d]
                    },
                moved == exists|f: int, d: int|
                    0 <= f < FLOOR_COUNT && 0 <= d < 2 && hall_index(f, d) < i
                        && #[trigger] barrier_passes(v0.hall_requests[f][d], alive@),
            decreases 2 * FLOOR_COUNT - i,
        {
            let f = i / 2;
            let d = i % 2;
            let m = self.pass_hall(f, d, alive);
            proof {
                assert(hall_index(f as int, d as int) == i);
                assert forall|g: int, e: int| 0 <= g < FLOOR_COUNT && 0 <= e < 2 && hall_index(g, e) < i + 1
                    && !(hall_index(g, e) < i) implies g == f && e == d by {}
            }
            moved = moved || m;
            i += 1;
        }
        proof {
            assert forall|f: int| 0 <= f < FLOOR_COUNT implies #[trigger] self@.hall_requests[f]
                =~= hall_after_barrier(v0.hall_requests, alive@, id)[f] by {}
            assert(self@.hall_requests =~= hall_after_barrier(v0.hall_requests, alive@, id));
        }
        moved
    }

    /// Moves every cab request through the barrier; returns whether one moved.
    fn cabs_pass_barrier(&mut self, alive: &HashSet<u8>) -> (moved: bool)
        ensures
            final(self)@ == (WorldModel {
                elevators: old(self)@.elevators.map_values(
                    |e: ElevatorView| elevator_after_barrier(e, alive@, old(self).id),
                ),
                ..old(self)@
            }),
            final(self).elevators@.dom() == old(self).elevators@.dom(),
            final(self).id == old(self).id,
            moved == barrier_moves_cab(old(self)@, alive@),
    {
        let ghost v0 = self@;
        let ghost after = v0.elevators.map_values(|e: ElevatorView| elevator_after_barrier(e, alive@, v0.id));
        let ids = elevator_ids(&self.elevators);
        let id = self.id;
        let mut moved = false;
        let mut i: usize = 0;
        while i < ids.len()
            invariant
                i <= ids.len(),
                ids@.no_duplicates(),
                forall|k: u8| ids@.contains(k) <==> v0.elevators.contains_key(k),
                id == self.id,
                self.id == old(self).id,
                v0 == old(self)@,
                v0.id == id,
                after == v0.elevators.map_values(|e: ElevatorView| elevator_after_barrier(e, alive@, v0.id)),
                self.elevators@.dom() == old(self).elevators@.dom(),
                self@ == (WorldModel { elevators: self@.elevators, ..v0 }),
                self@.elevators == v0.elevators.union_prefer_right(after.restrict(ids@.take(i as int).to_set())),
                moved == exists|k: u8, f: int|
                    ids@.take(i as int).contains(k) && v0.elevators.contains_key(k) && 0 <= f < FLOOR_COUNT
                        && #[trigger] barrier_passes(v0.elevators[k].cab_requests[f], alive@),
            decreases ids.len() - i,
        {
            let k = ids[i];
            proof {
                assert(ids@.take(i + 1) =~= ids@.take(i as int).push(k));
                ids@.take(i as int).lemma_push_to_set_commute(k);
                assert(ids@.contains(k));
                assert(!ids@.take(i as int).contains(k)) by {
                    if ids@.take(i as int).contains(k) {
                        let j = choose|j: int| 0 <= j < i && ids@[j] == k;
                        assert(ids@[j] == ids@[i as int]);
                    }
                }
                assert(self.elevators@.contains_key(k));
            }
            assert(self@.elevators[k] == v0.elevators[k]);
            let mut e = self.take_elevator(k);
            let m = e.pass_barrier(alive, id);
            self.put_elevator(k, e);
            proof {
                let ex = exists|kk: u8, f: int|
                    ids@.take(i + 1).contains(kk) && v0.elevators.contains_key(kk) && 0 <= f < FLOOR_COUNT
                        && #[trigger] barrier_passes(v0.elevators[kk].cab_requests[f], alive@);
                if m {
                    let f0 = choose|f: int|
                        0 <= f < FLOOR_COUNT && #[trigger] barrier_passes(v0.elevators[k].cab_requests[f], alive@);
                    assert(ids@.take(i + 1)[i as int] == k);
                    assert(ids@.take(i + 1).contains(k));
                    assert(barrier_passes(v0.elevators[k].cab_requests[f0], alive@));
                    assert(ex);
                }
                if moved {
                    let (k0, f0) = choose|kk: u8, f: int|
                        ids@.take(i as int).contains(kk) && v0.elevators.contains_key(kk) && 0 <= f < FLOOR_COUNT
                            && #[trigger] barrier_passes(v0.elevators[kk].cab_requests[f], alive@);
                    assert(ids@.take(i + 1).contains(k0));
                    assert(ex);
                }
                if ex {
                    let (k0, f0) = choose|kk: u8, f: int|
                        ids@.take(i + 1).contains(kk) && v0.elevators.contains_key(kk) && 0 <= f < FLOOR_COUNT
                            && #[trigger] barrier_passes(v0.elevators[kk].cab_requests[f], alive@);
                    if k0 == k {
                        assert(m);
                    } else {
                        assert(ids@.take(i as int).contains(k0));
                        assert(moved);
                    }
                }
                assert(self@.elevators =~= v0.elevators.union_prefer_right(
                    after.restrict(ids@.take(i + 1).to_set()),
                ));
                assert(self.elevators@.dom() =~= old(self).elevators@.dom());
            }
            moved = moved || m;
            i += 1;
        }
        proof {
            assert(ids@.take(ids.len() as int) =~= ids@);
            assert(self@.elevators =~= after);
        }
        moved
    }

    /// Confirms, at time `now`, every unconfirmed request that all elevators
    /// alive (heard from within 1 second) acknowledged. Returns whether one
    /// was confirmed.
    pub fn update_states_at_barrier_at(&self, now: u64) -> (r: (WorldView, bool))
        ensures
            r.0@ == world_after_barrier(self@, alive_set(self@, 1, now)),
            r.1 == barrier_moves_some(self@, alive_set(self@, 1, now)),
            r.0@.elevators.dom() == self@.elevators.dom(),
            r.0@.id == self@.id,
    {
        let mut clone = self.clone();
        let alive = clone.get_alive_elevators_at(1, now);
        let h = clone.hall_pass_barrier(&alive);
        let c = clone.cabs_pass_barrier(&alive);
        (clone, h || c)
    }

    /// [`Self::update_states_at_barrier_at`] at the current time.
    pub fn update_states_at_barrier(&self) -> (r: (WorldView, bool))
        ensures
            exists|now: u64|
                r.0@ == world_after_barrier(self@, #[trigger] alive_set(self@, 1, now)) && r.1
                    == barrier_moves_some(self@, alive_set(self@, 1, now)),
            r.0@.elevators.dom() == self@.elevators.dom(),
            r.0@.id == self@.id,
    {
        self.update_states_at_barrier_at(now_nanos())
    }

    /// Adds every elevator that only `foreign` knows.
    fn adopt_unknown_from(&mut self, foreign: &WorldView)
        ensures
            final(self)@ == (WorldModel {
                elevators: adopt_unknown(old(self)@.elevators, foreign@.elevators),
                ..old(self)@
            }),
            final(self).elevators@.dom() == old(self).elevators@.dom().union(foreign.elevators@.dom()),
            final(self).id == old(self).id,
    {
        let ghost v0 = self@;
        let ghost theirs = foreign@.elevators;
        let ids = elevator_ids(&foreign.elevators);
        let mut i: usize = 0;
        while i < ids.len()
            invariant
                i <= ids.len(),
                ids@.no_duplicates(),
                forall|k: u8| ids@.contains(k) <==> theirs.contains_key(k),
                theirs == foreign@.elevators,
                theirs == elevator_views(foreign.elevators@),
                v0 == old(self)@,
                self.id == old(self).id,
                self@ == (WorldModel { elevators: self@.elevators, ..v0 }),
                self@.elevators == theirs.restrict(ids@.take(i as int).to_set()).union_prefer_right(
                    v0.elevators,
                ),
                self.elevators@.dom() == old(self).elevators@.dom().union(
                    foreign.elevators@.dom().intersect(ids@.take(i as int).to_set()),
                ),
            decreases ids.len() - i,
        {
            let k = ids[i];
            proof {
                assert(ids@.take(i + 1) =~= ids@.take(i as int).push(k));
                ids@.take(i as int).lemma_push_to_set_commute(k);
                assert(ids@.contains(k));
            }
            if !self.elevators.contains_key(&k) {
                let e = match foreign.elevators.get(&k) {
                    Some(e) => e.clone(),
                    None => {
                        assert(false);
                        Elevator::new_at(0)
                    },
                };
                self.put_elevator(k, e);
            }
            proof {
                assert(self@.elevators =~= theirs.restrict(ids@.take(i + 1).to_set()).union_prefer_right(
                    v0.elevators,
                ));
                assert(self.elevators@.dom() =~= old(self).elevators@.dom().union(
                    foreign.elevators@.dom().intersect(ids@.take(i + 1).to_set()),
                ));
            }
            i += 1;
        }
        proof {
            assert(ids@.take(ids.len() as int) =~= ids@);
            assert(self@.elevators =~= adopt_unknown(v0.elevators, theirs));
            assert(self.elevators@.dom() =~= old(self).elevators@.dom().union(foreign.elevators@.dom()));
        }
    }

    /// The sender of `foreign` reported its own state: record it, heard at `now`.
    fn refresh_sender_from(&mut self, foreign: &WorldView, now: u64)
        requires
            foreign.elevators@.contains_key(foreign.id) ==> old(self).elevators@.contains_key(foreign.id),
        ensures
            final(self)@ == (WorldModel {
                elevators: refresh_sender(old(self)@.elevators, foreign@.elevators, foreign@.id, now),
                ..old(self)@
            }),
            final(self).elevators@.dom() == old(self).elevators@.dom(),
            final(self).id == old(self).id,
    {
        let fid = foreign.id;
        match foreign.elevators.get(&fid) {
            Some(elev) => {
                let mut own = self.take_elevator(fid);
                let mine = own.get_state();
                let theirs = elev.get_state();
                if mine.current_floor != theirs.current_floor || mine.behaviour != theirs.behaviour {
                    own.set_last_moved(now);
                    own.set_is_working(true);
                }
                own.set_last_received(now);
                own.set_state(theirs);
                self.put_elevator(fid, own);
                proof {
                    assert(self@.elevators =~= refresh_sender(
                        old(self)@.elevators,
                        foreign@.elevators,
                        foreign@.id,
                        now,
                    ));
                    assert(self.elevators@.dom() =~= old(self).elevators@.dom());
                }
            },
            None => {
                assert(!foreign@.elevators.contains_key(foreign@.id));
            },
        }
    }

    /// Merges every hall request with that of `foreign`; returns whether one changed.
    fn merge_hall_from(&mut self, foreign: &WorldView) -> (updated: bool)
        ensures
            final(self)@ == (WorldModel {
                hall_requests: merged_hall(old(self)@.hall_requests, foreign@.hall_requests, old(self).id),
                ..old(self)@
            }),
            final(self).elevators@ == old(self).elevators@,
            final(self).id == old(self).id,
            updated == exists|f: int, d: int|
                0 <= f < FLOOR_COUNT && 0 <= d < 2 && #[trigger] merge_changes(
                    old(self)@.hall_requests[f][d],
                    foreign@.hall_requests[f][d],
                    old(self).id,
                ),
    {
        let ghost v0 = self@;
        let id = self.id;
        let mut updated = false;
        let mut i: usize = 0;
        while i < 2 * FLOOR_COUNT
            invariant
                i <= 2 * FLOOR_COUNT,
                id == self.id,
                self.id == old(self).id,
                self.elevators@ == old(self).elevators@,
                v0 == old(self)@,
                self@ == (WorldModel { hall_requests: self@.hall_requests, ..v0 }),
                self@.hall_requests.len() == FLOOR_COUNT,
                forall|f: int| 0 <= f < FLOOR_COUNT ==> (#[trigger] self@.hall_requests[f]).len() == 2,
                forall|f: int, d: int|
                    0 <= f < FLOOR_COUNT && 0 <= d < 2 ==> #[trigger] self@.hall_requests[f][d] == if hall_index(
                        f,
                        d,
                    ) < i {
                        merged(v0.hall_requests[f][d], foreign@.hall_requests[f][d], id)
                    } else {
                        v0.hall_requests[f][d]
                    },
                updated == exists|f: int, d: int|
                    0 <= f < FLOOR_COUNT && 0 <= d < 2 && hall_index(f, d) < i
                        && #[trigger] merge_changes(v0.hall_requests[f][d], foreign@.hall_requests[f][d], id),
            decreases 2 * FLOOR_COUNT - i,
        {
            let f = i / 2;
            let d = i % 2;
            let u = self.merge_hall(f, d, &foreign.hall_requests[f][d]);
            proof {
                assert(hall_index(f as int, d as int) == i);
                assert(foreign@.hall_requests[f as int][d as int] == foreign.hall_requests@[f as int]@[d as int]@);
                assert forall|g: int, e: int| 0 <= g < FLOOR_COUNT && 0 <= e < 2 && hall_index(g, e) < i + 1
                    && !(hall_index(g, e) < i) implies g == f && e == d by {}
            }
            updated = updated || u;
            i += 1;
        }
        proof {
            assert forall|f: int| 0 <= f < FLOOR_COUNT implies #[trigger] self@.hall_requests[f]
                =~= merged_hall(v0.hall_requests, foreign@.hall_requests, id)[f] by {}
            assert(self@.hall_requests =~= merged_hall(v0.hall_requests, foreign@.hall_requests, id));
        }
        updated
    }

    /// Merges the cab requests of every elevator `foreign` knows; returns
    /// whether one changed.
    fn merge_cabs_from(&mut self, foreign: &WorldView) -> (updated: bool)
        requires
            foreign.elevators@.dom().subset_of(old(self).elevators@.dom()),
        ensures
            final(self)@ == (WorldModel {
                elevators: merge_all_cabs(old(self)@.elevators, foreign@.elevators, old(self).id),
                ..old(self)@
            }),
            final(self).elevators@.dom() == old(self).elevators@.dom(),
            final(self).id == old(self).id,
            updated == exists|k: u8, f: int|
                foreign@.elevators.contains_key(k) && 0 <= f < FLOOR_COUNT && #[trigger] merge_changes(
                    old(self)@.elevators[k].cab_requests[f],
                    foreign@.elevators[k].cab_requests[f],
                    old(self).id,
                ),
    {
        let ghost v0 = self@;
        let ghost theirs = foreign@.elevators;
        let ghost merged_map = Map::new(
            |k: u8| theirs.contains_key(k) && v0.elevators.contains_key(k),
            |k: u8| merge_cabs(v0.elevators[k], theirs[k], v0.id),
        );
        let ids = elevator_ids(&foreign.elevators);
        let id = self.id;
        let mut updated = false;
        let mut i: usize = 0;
        while i < ids.len()
            invariant
                i <= ids.len(),
                ids@.no_duplicates(),
                forall|k: u8| ids@.contains(k) <==> theirs.contains_key(k),
                theirs == foreign@.elevators,
                theirs == elevator_views(foreign.elevators@),
                foreign.elevators@.dom().subset_of(old(self).elevators@.dom()),
                id == self.id,
                self.id == old(self).id,
                v0 == old(self)@,
                v0.id == id,
                merged_map == Map::new(
                    |k: u8| theirs.contains_key(k) && v0.elevators.contains_key(k),
                    |k: u8| merge_cabs(v0.elevators[k], theirs[k], v0.id),
                ),
                self.elevators@.dom() == old(self).elevators@.dom(),
                self@ == (WorldModel { elevators: self@.elevators, ..v0 }),
                self@.elevators == v0.elevators.union_prefer_right(
                    merged_map.restrict(ids@.take(i as int).to_set()),
                ),
                updated == exists|k: u8, f: int|
                    ids@.take(i as int).contains(k) && theirs.contains_key(k) && 0 <= f < FLOOR_COUNT
                        && #[trigger] merge_changes(v0.elevators[k].cab_requests[f], theirs[k].cab_requests[f], id),
            decreases ids.len() - i,
        {
            let k = ids[i];
            proof {
                assert(ids@.take(i + 1) =~= ids@.take(i as int).push(k));
                ids@.take(i as int).lemma_push_to_set_commute(k);
                assert(ids@.contains(k));
                assert(ids@.take(i + 1)[i as int] == k);
                assert(!ids@.take(i as int).contains(k)) by {
                    if ids@.take(i as int).contains(k) {
                        let j = choose|j: int| 0 <= j < i && ids@[j] == k;
                        assert(ids@[j] == ids@[i as int]);
                    }
                }
                assert(self.elevators@.contains_key(k));
            }
            assert(self@.elevators[k] == v0.elevators[k]);
            let fe = match foreign.elevators.get(&k) {
                Some(e) => e,
                None => {
                    assert(false);
                    return updated;
                },
            };
            let mut e = self.take_elevator(k);
            let u = e.merge_all_cab(fe, id);
            self.put_elevator(k, e);
            proof {
                assert(fe@ == theirs[k]);
                assert(self@.elevators =~= v0.elevators.union_prefer_right(
                    merged_map.restrict(ids@.take(i + 1).to_set()),
                ));
                assert(self.elevators@.dom() =~= old(self).elevators@.dom());
                let ex = exists|kk: u8, f: int|
                    ids@.take(i + 1).contains(kk) && theirs.contains_key(kk) && 0 <= f < FLOOR_COUNT
                        && #[trigger] merge_changes(v0.elevators[kk].cab_requests[f], theirs[kk].cab_requests[f], id);
                if u {
                    let f0 = choose|f: int|
                        0 <= f < FLOOR_COUNT && #[trigger] merge_changes(
                            v0.elevators[k].cab_requests[f],
                            theirs[k].cab_requests[f],
                            id,
                        );
                    assert(merge_changes(v0.elevators[k].cab_requests[f0], theirs[k].cab_requests[f0], id));
                    assert(ex);
                }
                if updated {
                    let (k0, f0) = choose|kk: u8, f: int|
                        ids@.take(i as int).contains(kk) && theirs.contains_key(kk) && 0 <= f < FLOOR_COUNT
                            && #[trigger] merge_changes(v0.elevators[kk].cab_requests[f], theirs[kk].cab_requests[f], id);
                    assert(ids@.take(i + 1).contains(k0));
                    assert(ex);
                }
                if ex {
                    let (k0, f0) = choose|kk: u8, f: int|
                        ids@.take(i + 1).contains(kk) && theirs.contains_key(kk) && 0 <= f < FLOOR_COUNT
                            && #[trigger] merge_changes(v0.elevators[kk].cab_requests[f], theirs[kk].cab_requests[f], id);
                    if k0 == k {
                        assert(u);
                    } else {
                        assert(ids@.take(i as int).contains(k0));
                        assert(updated);
                    }
                }
            }
            updated = updated || u;
            i += 1;
        }
        proof {
            assert(ids@.take(ids.len() as int) =~= ids@);
            assert(self@.elevators =~= merge_all_cabs(v0.elevators, theirs, v0.id));
        }
        updated
    }

    /// Merges a view received from another elevator at time `now`: adopt the
    /// elevators it knows and this one does not, take the sender's reported
    /// state, merge every hall and cab request, then run the barrier.
    /// Returns whether some request changed.
    pub fn handle_foreign_world_view_at(&self, foreign: WorldView, now: u64) -> (r: (WorldView, bool))
        ensures
            ({
                let mid = received(self@, foreign@, now);
                let alive = alive_set(mid, 1, now);
                &&& r.0@ == world_after_barrier(mid, alive)
                &&& r.1 == (receive_changes(self@, foreign@, now) || barrier_moves_some(mid, alive))
            }),
            self.wf() ==> r.0.wf(),
            r.0@.id == self@.id,
    {
        let mut clone = self.clone();
        clone.adopt_unknown_from(&foreign);
        clone.refresh_sender_from(&foreign, now);
        let ghost m2 = clone@.elevators;
        let h = clone.merge_hall_from(&foreign);
        let c = clone.merge_cabs_from(&foreign);
        proof {
            assert(m2 == received_elevators(self@, foreign@, now));
            assert(clone@ == received(self@, foreign@, now));
        }
        let (clone, barrier_updated) = clone.update_states_at_barrier_at(now);
        (clone, h || c || barrier_updated)
    }

    /// [`Self::handle_foreign_world_view_at`] at the current time.
    pub fn handle_foreign_world_view(&self, foreign: WorldView) -> (r: (WorldView, bool))
        ensures
            exists|now: u64|
                {
                    let mid = #[trigger] received(self@, foreign@, now);
                    let alive = alive_set(mid, 1, now);
                    &&& r.0@ == world_after_barrier(mid, alive)
                    &&& r.1 == (receive_changes(self@, foreign@, now) || barrier_moves_some(mid, alive))
                },
            self.wf() ==> r.0.wf(),
            r.0@.id == self@.id,
    {
        self.handle_foreign_world_view_at(foreign, now_nanos())
    }
}

/// One difference between two world views.
#[allow(inconsistent_fields)]
#[derive(Debug, Clone, Copy, PartialEq)]
pub enum WorldViewChange {
    /// Hall request `(floor, dir)` changed state.
    HallRequestState { floor: usize, dir: usize, from: RequestState, to: RequestState },
    /// An elevator appeared.
    NewElevator(u8),
    /// A cab request of an elevator changed state.
    CabRequestState { id: u8, floor: usize, from: RequestState, to: RequestState },
    /// An elevator's direction changed.
    Dirn { id: u8, from: Dirn, to: Dirn },
    /// An elevator's floor changed.
    CurrentFloor { id: u8, from: i8, to: i8 },
    /// An elevator's behaviour changed.
    Behaviour { id: u8, from: ElevatorBehaviour, to: ElevatorBehaviour },
    /// An elevator disappeared.
    Removed(u8),
}

/// Whether `c` is a difference from `a` to `b`.
pub open spec fn is_change(a: WorldModel, b: WorldModel, c: WorldViewChange) -> bool {
    match c {
        WorldViewChange::HallRequestState { floor, dir, from, to } => {
            &&& floor < FLOOR_COUNT && dir < 2
            &&& from == a.hall_requests[floor as int][dir as int].state
            &&& to == b.hall_requests[floor as int][dir as int].state
            &&& from != to
        },
        WorldViewChange::NewElevator(k) => b.elevators.contains_key(k) && !a.elevators.contains_key(k),
        WorldViewChange::CabRequestState { id, floor, from, to } => {
            &&& a.elevators.contains_key(id) && b.elevators.contains_key(id)
            &&& floor < FLOOR_COUNT
            &&& from == a.elevators[id].cab_requests[floor as int].state
            &&& to == b.elevators[id].cab_requests[floor as int].state
            &&& from != to
        },
        WorldViewChange::Dirn { id, from, to } => {
            &&& a.elevators.contains_key(id) && b.elevators.contains_key(id)
            &&& from == a.elevators[id].state.dirn && to == b.elevators[id].state.dirn
            &&& from != to
        },
        WorldViewChange::CurrentFloor { id, from, to } => {
            &&& a.elevators.contains_key(id) && b.elevators.contains_key(id)
            &&& from == a.elevators[id].state.current_floor
            &&& to == b.elevators[id].state.current_floor
            &&& from != to
        },
        WorldViewChange::Behaviour { id, from, to } => {
            &&& a.elevators.contains_key(id) && b.elevators.contains_key(id)
            &&& from == a.elevators[id].state.behaviour && to == b.elevators[id].state.behaviour
            &&& from != to
        },
        WorldViewChange::Removed(k) => a.elevators.contains_key(k) && !b.elevators.contains_key(k),
    }
}

/// The elevator a per-elevator change is about.
pub open spec fn change_subject(c: WorldViewChange) -> Option<u8> {
    match c {
        WorldViewChange::CabRequestState { id, .. } => Some(id),
        WorldViewChange::Dirn { id, .. } => Some(id),
        WorldViewChange::CurrentFloor { id, .. } => Some(id),
        WorldViewChange::Behaviour { id, .. } => Some(id),
        WorldViewChange::Removed(k) => Some(k),
        _ => None,
    }
}

/// Changes found after looking at the first `hall` hall requests, the new
/// elevators among `seen_new` and the own elevators among `seen_own`.
pub open spec fn change_covered(c: WorldViewChange, hall: int, seen_new: Set<u8>, seen_own: Set<u8>) -> bool {
    match c {
        WorldViewChange::HallRequestState { floor, dir, .. } => hall_index(floor as int, dir as int) < hall,
        WorldViewChange::NewElevator(k) => seen_new.contains(k),
        _ => change_subject(c) matches Some(k) && seen_own.contains(k),
    }
}

/// The part of a comparison a change belongs to: 0 for hall requests, 1
/// for new elevators, 2 for the elevators of the first view.
pub open spec fn change_part(c: WorldViewChange) -> int {
    match c {
        WorldViewChange::HallRequestState { .. } => 0,
        WorldViewChange::NewElevator(_) => 1,
        _ => 2,
    }
}

/// The place of a change within its part: a hall request by its flat index;
/// for one elevator its cab requests by floor, then direction, floor and
/// behaviour.
pub open spec fn change_place(c: WorldViewChange) -> int {
    match c {
        WorldViewChange::HallRequestState { floor, dir, .. } => hall_index(floor as int, dir as int),
        WorldViewChange::CabRequestState { floor, .. } => floor as int,
        WorldViewChange::Dirn { .. } => 4,
        WorldViewChange::CurrentFloor { .. } => 5,
        WorldViewChange::Behaviour { .. } => 6,
        _ => 0,
    }
}

/// Whether `a` may stand before `b` in a list of changes.
pub open spec fn comes_before(a: WorldViewChange, b: WorldViewChange) -> bool {
    &&& change_part(a) <= change_part(b)
    &&& change_part(a) == 0 && change_part(b) == 0 ==> change_place(a) < change_place(b)
    &&& change_part(a) == 2 && change_part(b) == 2 && change_subject(a) == change_subject(b)
        ==> change_place(a) < change_place(b)
}

/// The order of a comparison: hall requests by index, then new elevators,
/// then the changes of each elevator of the first view together, each in
/// its place.
pub open spec fn changes_in_order(s: Seq<WorldViewChange>) -> bool {
    &&& forall|i: int, j: int| 0 <= i < j < s.len() ==> comes_before(#[trigger] s[i], #[trigger] s[j])
    &&& forall|i: int, j: int, l: int|
        0 <= i < j < l < s.len() && change_part(#[trigger] s[i]) == 2 && change_subject(s[i])
            == change_subject(#[trigger] s[l]) ==> change_subject(#[trigger] s[j]) == change_subject(s[i])
}

/// Appending a change that may follow every listed one, and that does not
/// split the changes of one elevator, keeps the order.
proof fn lemma_push_in_order(s: Seq<WorldViewChange>, x: WorldViewChange)
    requires
        changes_in_order(s),
        forall|i: int| 0 <= i < s.len() ==> comes_before(#[trigger] s[i], x),
        change_part(x) == 2 ==> forall|i: int, j: int|
            0 <= i < j < s.len() && change_part(#[trigger] s[i]) == 2 && change_subject(s[i])
                == change_subject(x) ==> change_subject(#[trigger] s[j]) == change_subject(x),
    ensures
        changes_in_order(s.push(x)),
{
    let t = s.push(x);
    assert forall|i: int, j: int| 0 <= i < j < t.len() implies comes_before(#[trigger] t[i], #[trigger] t[j]) by {
        if j == s.len() {
            assert(t[i] == s[i]);
        } else {
            assert(t[i] == s[i] && t[j] == s[j]);
        }
    }
    assert forall|i: int, j: int, l: int|
        0 <= i < j < l < t.len() && change_part(#[trigger] t[i]) == 2 && change_subject(t[i])
            == change_subject(#[trigger] t[l]) implies change_subject(#[trigger] t[j]) == change_subject(t[i]) by {
        assert(t[i] == s[i] && t[j] == s[j]);
        if l < s.len() {
            assert(t[l] == s[l]);
        } else {
            assert(comes_before(s[i], x));
        }
    }
}

/// Appending a change of elevator `k` after the block of its changes that
/// starts at `start` keeps the order, and the change is new to the list.
proof fn lemma_push_elevator_change(s: Seq<WorldViewChange>, start: int, k: u8, x: WorldViewChange)
    requires
        changes_in_order(s),
        0 <= start <= s.len(),
        change_part(x) == 2,
        change_subject(x) == Some(k),
        forall|j: int| 0 <= j < start ==> change_subject(#[trigger] s[j]) != Some(k) || change_part(s[j]) != 2,
        forall|j: int|
            start <= j < s.len() ==> change_part(#[trigger] s[j]) == 2 && change_subject(s[j]) == Some(k)
                && change_place(s[j]) < change_place(x),
    ensures
        changes_in_order(s.push(x)),
        !s.contains(x),
{
    assert forall|i: int| 0 <= i < s.len() implies comes_before(#[trigger] s[i], x) by {}
    lemma_push_in_order(s, x);
    if s.contains(x) {
        let j = choose|j: int| 0 <= j < s.len() && s[j] == x;
        assert(change_subject(s[j]) == Some(k));
    }
}

/// A list without repeats stays so when a new element is appended.
proof fn lemma_push_no_duplicates<A>(s: Seq<A>, x: A)
    requires
        s.no_duplicates(),
        !s.contains(x),
    ensures
        s.push(x).no_duplicates(),
{
    assert forall|i: int, j: int| 0 <= i < s.push(x).len() && 0 <= j < s.push(x).len() && i != j implies s.push(
        x,
    )[i] != s.push(x)[j] by {
        if i == s.len() {
            assert(s[j] == s.push(x)[j]);
        } else if j == s.len() {
            assert(s[i] == s.push(x)[i]);
        } else {
            assert(s[i] == s.push(x)[i] && s[j] == s.push(x)[j]);
        }
    }
}

impl WorldView {
    /// The differences from this view to `other_world_view`: changed hall
    /// requests, new elevators, and for every elevator of this view its
    /// changed cab requests, direction, floor and behaviour, or its removal.
    pub fn compare_world_views(&self, other_world_view: &WorldView) -> (changes: Vec<WorldViewChange>)
        ensures
            forall|c: WorldViewChange| changes@.contains(c) <==> is_change(self@, other_world_view@, c),
            changes@.no_duplicates(),
            changes_in_order(changes@),
    {
        let ghost a = self@;
        let ghost b = other_world_view@;
        let other = other_world_view;
        let mut changes: Vec<WorldViewChange> = Vec::new();
        let mut i: usize = 0;
        while i < 2 * FLOOR_COUNT
            invariant
                i <= 2 * FLOOR_COUNT,
                a == self@,
                b == other@,
                forall|c: WorldViewChange|
                    #[trigger] changes@.contains(c) <==> is_change(a, b, c) && change_covered(
                        c,
                        i as int,
                        Set::empty(),
                        Set::empty(),
                    ),
                changes@.no_duplicates(),
                changes_in_order(changes@),
                forall|q: int|
                    0 <= q < changes@.len() ==> change_part(#[trigger] changes@[q]) == 0 && change_place(
                        changes@[q],
                    ) < i,
            decreases 2 * FLOOR_COUNT - i,
        {
            let f = i / 2;
            let d = i % 2;
            let from = self.hall_requests[f][d].state;
            let to = other.hall_requests[f][d].state;
            let x = WorldViewChange::HallRequestState { floor: f, dir: d, from, to };
            let ghost before = changes@;
            if from != to {
                changes.push(x);
            }
            proof {
                lemma_push_contains(before, x);
                assert(hall_index(f as int, d as int) == i);
                if from != to {
                    if before.contains(x) {
                        let q = choose|q: int| 0 <= q < before.len() && before[q] == x;
                        assert(change_place(before[q]) < i);
                    }
                    lemma_push_in_order(before, x);
                    lemma_push_no_duplicates(before, x);
                }
                assert forall|q: int| 0 <= q < changes@.len() implies change_part(#[trigger] changes@[q]) == 0
                    && change_place(changes@[q]) < i + 1 by {
                    if q < before.len() {
                        assert(changes@[q] == before[q]);
                    }
                }
                assert(from == a.hall_requests[f as int][d as int].state);
                assert(to == b.hall_requests[f as int][d as int].state);
                assert forall|c: WorldViewChange|
                    #[trigger] changes@.contains(c) <==> is_change(a, b, c) && change_covered(
                        c,
                        i + 1,
                        Set::empty(),
                        Set::empty(),
                    ) by {
                    match c {
                        WorldViewChange::HallRequestState { floor, dir, .. } => {
                            if hall_index(floor as int, dir as int) == i && floor < FLOOR_COUNT && dir < 2 {
                                assert(floor == f && dir == d);
                            }
                        },
                        _ => {},
                    }
                }
            }
            i += 1;
        }
        let theirs = elevator_ids(&other.elevators);
        let mut j: usize = 0;
        while j < theirs.len()
            invariant
                j <= theirs.len(),
                a == self@,
                b == other@,
                forall|k: u8| theirs@.contains(k) <==> other.elevators@.contains_key(k),
                forall|c: WorldViewChange|
                    #[trigger] changes@.contains(c) <==> is_change(a, b, c) && change_covered(
                        c,
                        2 * FLOOR_COUNT,
                        theirs@.take(j as int).to_set(),
                        Set::empty(),
                    ),
                theirs@.no_duplicates(),
                changes@.no_duplicates(),
                changes_in_order(changes@),
                forall|q: int| 0 <= q < changes@.len() ==> change_part(#[trigger] changes@[q]) <= 1,
            decreases theirs.len() - j,
        {
            let k = theirs[j];
            let x = WorldViewChange::NewElevator(k);
            let ghost before = changes@;
            proof {
                assert(theirs@.take(j + 1) =~= theirs@.take(j as int).push(k));
                theirs@.take(j as int).lemma_push_to_set_commute(k);
                assert(theirs@.contains(k));
            }
            if !self.elevators.contains_key(&k) {
                changes.push(x);
            }
            proof {
                lemma_push_contains(before, x);
                if !a.elevators.contains_key(k) {
                    assert(!theirs@.take(j as int).contains(k)) by {
                        if theirs@.take(j as int).contains(k) {
                            let q = choose|q: int| 0 <= q < j && theirs@[q] == k;
                            assert(theirs@[q] == theirs@[j as int]);
                        }
                    }
                    assert(!before.contains(x));
                    lemma_push_in_order(before, x);
                    lemma_push_no_duplicates(before, x);
                }
                assert forall|q: int| 0 <= q < changes@.len() implies change_part(#[trigger] changes@[q]) <= 1 by {
                    if q < before.len() {
                        assert(changes@[q] == before[q]);
                    }
                }
            }
            j += 1;
        }
        proof {
            assert(theirs@.take(theirs.len() as int) =~= theirs@);
        }
        let mine = elevator_ids(&self.elevators);
        let mut m: usize = 0;
        while m < mine.len()
            invariant
                m <= mine.len(),
                a == self@,
                b == other@,
                forall|k: u8| mine@.contains(k) <==> self.elevators@.contains_key(k),
                forall|k: u8| theirs@.contains(k) <==> other.elevators@.contains_key(k),
                forall|c: WorldViewChange|
                    #[trigger] changes@.contains(c) <==> is_change(a, b, c) && change_covered(
                        c,
                        2 * FLOOR_COUNT,
                        theirs@.to_set(),
                        mine@.take(m as int).to_set(),
                    ),
                mine@.no_duplicates(),
                changes@.no_duplicates(),
                changes_in_order(changes@),
                forall|q: int|
                    0 <= q < changes@.len() && change_part(#[trigger] changes@[q]) == 2 ==> (change_subject(
                        changes@[q],
                    ) matches Some(kk) && mine@.take(m as int).contains(kk)),
            decreases mine.len() - m,
        {
            let k = mine[m];
            let ghost before = changes@;
            let ghost start = changes@.len() as int;
            proof {
                assert(mine@.take(m + 1) =~= mine@.take(m as int).push(k));
                mine@.take(m as int).lemma_push_to_set_commute(k);
                assert(mine@.contains(k));
                lemma_push_contains(mine@.take(m as int), k);
                assert(!mine@.take(m as int).contains(k)) by {
                    if mine@.take(m as int).contains(k) {
                        let q = choose|q: int| 0 <= q < m && mine@[q] == k;
                        assert(mine@[q] == mine@[m as int]);
                    }
                }
                assert forall|q: int| 0 <= q < start implies change_subject(#[trigger] before[q]) != Some(k)
                    || change_part(before[q]) != 2 by {}
            }
            let elev = match self.elevators.get(&k) {
                Some(e) => e,
                None => {
                    assert(false);
                    return changes;
                },
            };
            match other.elevators.get(&k) {
                Some(oe) => {
                    let mut f: usize = 0;
                    while f < FLOOR_COUNT
                        invariant
                            f <= FLOOR_COUNT,
                            a == self@,
                            b == other@,
                            elev@ == a.elevators[k],
                            oe@ == b.elevators[k],
                            a.elevators.contains_key(k),
                            b.elevators.contains_key(k),
                            forall|c: WorldViewChange|
                                #[trigger] changes@.contains(c) <==> is_change(a, b, c) && (change_covered(
                                    c,
                                    2 * FLOOR_COUNT,
                                    theirs@.to_set(),
                                    mine@.take(m as int).to_set(),
                                ) || (c matches WorldViewChange::CabRequestState { id, floor, .. } && id == k
                                    && floor < f)),
                            changes@.no_duplicates(),
                            changes_in_order(changes@),
                            0 <= start <= changes@.len(),
                            start == before.len(),
                            forall|q: int| 0 <= q < start ==> #[trigger] changes@[q] == before[q],
                            forall|q: int|
                                0 <= q < start ==> change_subject(#[trigger] changes@[q]) != Some(k)
                                    || change_part(changes@[q]) != 2,
                            forall|q: int|
                                start <= q < changes@.len() ==> change_part(#[trigger] changes@[q]) == 2
                                    && change_subject(changes@[q]) == Some(k) && change_place(changes@[q]) < f,
                        decreases FLOOR_COUNT - f,
                    {
                        let from = elev.cab_state(f);
                        let to = oe.cab_state(f);
                        let x = WorldViewChange::CabRequestState { id: k, floor: f, from, to };
                        let ghost before2 = changes@;
                        if from != to {
                            changes.push(x);
                        }
                        proof {
                            if from != to {
                                assert(changes@ == before2.push(x));
                                lemma_push_elevator_change(before2, start, k, x);
                                lemma_push_no_duplicates(before2, x);
                            }
                            assert forall|q: int|
                                start <= q < changes@.len() implies change_part(#[trigger] changes@[q]) == 2
                                    && change_subject(changes@[q]) == Some(k) && change_place(changes@[q]) < f + 1 by {
                                if q < before2.len() {
                                    assert(changes@[q] == before2[q]);
                                }
                            }
                            lemma_push_contains(before2, x);
                            assert(from == a.elevators[k].cab_requests[f as int].state);
                            assert(to == b.elevators[k].cab_requests[f as int].state);
                        }
                        f += 1;
                    }
                    let es = elev.get_state();
                    let os = oe.get_state();
                    let x1 = WorldViewChange::Dirn { id: k, from: es.dirn, to: os.dirn };
                    let x2 = WorldViewChange::CurrentFloor {
                        id: k,
                        from: es.current_floor,
                        to: os.current_floor,
                    };
                    let x3 = WorldViewChange::Behaviour {
                        id: k,
                        from: es.behaviour,
                        to: os.behaviour,
                    };
                    let ghost before3 = changes@;
                    if es.dirn != os.dirn {
                        changes.push(x1);
                    }
                    proof {
                        if es.dirn != os.dirn {
                            lemma_push_elevator_change(before3, start, k, x1);
                            lemma_push_no_duplicates(before3, x1);
                        }
                        assert forall|q: int|
                            start <= q < changes@.len() implies change_part(#[trigger] changes@[q]) == 2
                                && change_subject(changes@[q]) == Some(k) && change_place(changes@[q]) < 5 by {
                            if q < before3.len() {
                                assert(changes@[q] == before3[q]);
                            }
                        }
                        assert forall|q: int| 0 <= q < start implies change_subject(#[trigger] changes@[q])
                            != Some(k) || change_part(changes@[q]) != 2 by {
                            assert(changes@[q] == before3[q]);
                        }
                        assert forall|q: int| 0 <= q < start implies #[trigger] changes@[q] == before[q] by {
                            assert(changes@[q] == before3[q]);
                        }
                    }
                    let ghost before4 = changes@;
                    if es.current_floor != os.current_floor {
                        changes.push(x2);
                    }
                    proof {
                        if es.current_floor != os.current_floor {
                            lemma_push_elevator_change(before4, start, k, x2);
                            lemma_push_no_duplicates(before4, x2);
                        }
                        assert forall|q: int|
                            start <= q < changes@.len() implies change_part(#[trigger] changes@[q]) == 2
                                && change_subject(changes@[q]) == Some(k) && change_place(changes@[q]) < 6 by {
                            if q < before4.len() {
                                assert(changes@[q] == before4[q]);
                            }
                        }
                        assert forall|q: int| 0 <= q < start implies change_subject(#[trigger] changes@[q])
                            != Some(k) || change_part(changes@[q]) != 2 by {
                            assert(changes@[q] == before4[q]);
                        }
                        assert forall|q: int| 0 <= q < start implies #[trigger] changes@[q] == before[q] by {
                            assert(changes@[q] == before4[q]);
                        }
                    }
                    let ghost before5 = changes@;
                    if es.behaviour != os.behaviour {
                        changes.push(x3);
                    }
                    proof {
                        if es.behaviour != os.behaviour {
                            lemma_push_elevator_change(before5, start, k, x3);
                            lemma_push_no_duplicates(before5, x3);
                        }
                        assert forall|q: int|
                            start <= q < changes@.len() implies change_part(#[trigger] changes@[q]) == 2
                                && change_subject(changes@[q]) == Some(k) && change_place(changes@[q]) < 7 by {
                            if q < before5.len() {
                                assert(changes@[q] == before5[q]);
                            }
                        }
                        assert forall|q: int| 0 <= q < start implies change_subject(#[trigger] changes@[q])
                            != Some(k) || change_part(changes@[q]) != 2 by {
                            assert(changes@[q] == before5[q]);
                        }
                        assert forall|q: int| 0 <= q < start implies #[trigger] changes@[q] == before[q] by {
                            assert(changes@[q] == before5[q]);
                        }
                    }
                    proof {
                        lemma_push_contains(before3, x1);
                        lemma_push_contains(before4, x2);
                        lemma_push_contains(before5, x3);
                        assert forall|c: WorldViewChange|
                            #[trigger] changes@.contains(c) <==> is_change(a, b, c) && change_covered(
                                c,
                                2 * FLOOR_COUNT,
                                theirs@.to_set(),
                                mine@.take(m + 1).to_set(),
                            ) by {
                            assert(changes@.contains(c) <==> (before3.contains(c) || (c == x1 && es.dirn
                                != os.dirn) || (c == x2 && es.current_floor
                                != os.current_floor) || (c == x3 && es.behaviour
                                != os.behaviour)));
                        }
                    }
                },
                None => {
                    let x = WorldViewChange::Removed(k);
                    changes.push(x);
                    proof {
                        lemma_push_contains(before, x);
                        lemma_push_elevator_change(before, start, k, x);
                        lemma_push_no_duplicates(before, x);
                    }
                },
            }
            proof {
                assert forall|q: int|
                    0 <= q < changes@.len() && change_part(#[trigger] changes@[q]) == 2 implies (change_subject(
                    changes@[q],
                ) matches Some(kk) && mine@.take(m + 1).contains(kk)) by {
                    if q < start {
                        assert(changes@[q] == before[q]);
                        let kk = change_subject(before[q])->0;
                        assert(mine@.take(m as int).contains(kk));
                    } else {
                        assert(mine@.take(m + 1)[m as int] == k);
                    }
                }
            }
            m += 1;
        }
        proof {
            assert(mine@.take(mine.len() as int) =~= mine@);
            assert forall|c: WorldViewChange| is_change(a, b, c) implies change_covered(
                c,
                2 * FLOOR_COUNT,
                theirs@.to_set(),
                mine@.to_set(),
            ) by {
                match c {
                    WorldViewChange::NewElevator(k) => {
                        assert(theirs@.contains(k));
                    },
                    WorldViewChange::HallRequestState { floor, dir, .. } => {},
                    _ => {
                        assert(mine@.contains(change_subject(c)->0));
                    },
                }
            }
        }
        changes
    }
}

/// Merging in the self-contained variant: the state reached does not
/// depend on the order in which copies are merged, never falls, and a
/// request met again is kept; merging the same copy twice changes nothing
/// the second time.
pub proof fn lemma_merge_laws(a: RequestView, b: RequestView, c: RequestView, id: u8)
    ensures
        merged(a, b, id).state == merged(b, a, id).state,
        merged(merged(a, b, id), c, id).state == merged(a, merged(b, c, id), id).state,
        merged(a, b, id).acks == merged(b, a, id).acks,
        merged(merged(a, b, id), c, id).acks == merged(a, merged(b, c, id), id).acks,
        rank(merged(a, b, id).state) >= rank(a.state),
        rank(merged(a, b, id).state) >= rank(b.state),
        merged(merged(a, b, id), b, id) == merged(a, b, id),
        !merge_changes(merged(a, b, id), b, id),
{
    assert(merged(a, b, id).acks =~= merged(b, a, id).acks);
    assert(merged(merged(a, b, id), c, id).acks =~= merged(a, merged(b, c, id), id).acks);
    assert(merged(merged(a, b, id), b, id).acks =~= merged(a, b, id).acks);
}

/// The barrier moves a request only when it is unconfirmed and every alive
/// elevator acknowledged it; it then becomes confirmed, acknowledged by the
/// holder alone. Such a request always moves.
pub proof fn lemma_barrier_needs_every_ack(r: RequestView, alive: Set<u8>, id: u8)
    ensures
        after_barrier(r, alive, id) != r ==> alive.subset_of(r.acks) && r.state == RequestState::Unconfirmed,
        after_barrier(r, alive, id) != r ==> after_barrier(r, alive, id) == fresh(RequestState::Confirmed, id),
        barrier_passes(r, alive) ==> alive.subset_of(r.acks) && r.state == RequestState::Unconfirmed,
        r.state == RequestState::Unconfirmed && alive.subset_of(r.acks) ==> after_barrier(r, alive, id) == fresh(
            RequestState::Confirmed,
            id,
        ),
        r.state == RequestState::Unconfirmed && alive.subset_of(r.acks) ==> barrier_passes(r, alive),
{
}

/// Running the barrier twice with the same alive elevators does what
/// running it once does.
pub proof fn lemma_barrier_idempotent(r: RequestView, alive: Set<u8>, id: u8)
    ensures
        after_barrier(after_barrier(r, alive, id), alive, id) == after_barrier(r, alive, id),
{
}

/// The barrier, applied to a whole view twice with the same alive
/// elevators, does what applying it once does.
pub proof fn lemma_world_barrier_idempotent(w: WorldModel, alive: Set<u8>)
    ensures
        world_after_barrier(world_after_barrier(w, alive), alive) == world_after_barrier(w, alive),
{
    let w1 = world_after_barrier(w, alive);
    let w2 = world_after_barrier(w1, alive);
    assert forall|k: u8| #[trigger] w2.elevators.contains_key(k) implies w2.elevators[k] == w1.elevators[k] by {
        let e1 = w1.elevators[k];
        assert forall|f: int| 0 <= f < e1.cab_requests.len() implies after_barrier(
            #[trigger] e1.cab_requests[f],
            alive,
            w.id,
        ) == e1.cab_requests[f] by {
            lemma_barrier_idempotent(w.elevators[k].cab_requests[f], alive, w.id);
        }
        assert(elevator_after_barrier(e1, alive, w.id).cab_requests =~= e1.cab_requests);
    }
    assert(w2.elevators =~= w1.elevators);
    assert forall|f: int| 0 <= f < w1.hall_requests.len() implies #[trigger] w2.hall_requests[f]
        =~= w1.hall_requests[f] by {
        assert forall|d: int| 0 <= d < w1.hall_requests[f].len() implies after_barrier(
            #[trigger] w1.hall_requests[f][d],
            alive,
            w.id,
        ) == w1.hall_requests[f][d] by {
            lemma_barrier_idempotent(w.hall_requests[f][d], alive, w.id);
        }
    }
    assert(w2.hall_requests =~= w1.hall_requests);
}

/// A view differs from itself in nothing.
pub proof fn lemma_no_change_to_itself(w: WorldModel)
    ensures
        forall|c: WorldViewChange| !is_change(w, w, c),
{
}

/// Pressing the same button twice: the second press finds the request
/// already unconfirmed and changes nothing.
pub proof fn lemma_press_twice(w: WorldModel, f: int, c: int)
    requires
        0 <= f < FLOOR_COUNT,
        0 <= c <= 2,
        w.hall_requests.len() == FLOOR_COUNT,
        forall|g: int| 0 <= g < FLOOR_COUNT ==> (#[trigger] w.hall_requests[g]).len() == 2,
        w.elevators.contains_key(w.id),
        w.elevators[w.id].cab_requests.len() == FLOOR_COUNT,
    ensures
        after_press(after_press(w, f, c).0, f, c) == (after_press(w, f, c).0, false),
{
}

/// A cleared button is no longer confirmed.
pub proof fn lemma_cleared_not_confirmed(w: WorldModel, floor: int, mask: Seq<bool>, b: int)
    requires
        0 <= floor < FLOOR_COUNT,
        0 <= b < CALL_COUNT,
        mask.len() == CALL_COUNT,
        mask[b],
        w.hall_requests.len() == FLOOR_COUNT,
        forall|g: int| 0 <= g < FLOOR_COUNT ==> (#[trigger] w.hall_requests[g]).len() == 2,
        w.elevators.contains_key(w.id),
        w.elevators[w.id].cab_requests.len() == FLOOR_COUNT,
    ensures
        !confirmed_at(after_clear(w, floor, mask), floor, b),
{
}

} // verus!
