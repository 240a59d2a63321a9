//! Shared bookkeeping of requests among networked elevators.
//!
//! Every elevator keeps a [`WorldView`]: the state of each known elevator
//! and of every hall and cab request. Requests move through the cycle
//! `NoRequest -> Unconfirmed -> Confirmed -> Finished -> NoRequest`.
//! World views are exchanged over the network and merged request by
//! request; a request moves on from `Unconfirmed` (or `Finished`) once every
//! elevator that is alive has acknowledged it (the barrier).
use vstd::prelude::*;
use std::collections::{HashMap, HashSet};

use crate::clock::{elapsed_exceeds, now_nanos, silent_longer_than};
use crate::config::{CALL_COUNT, FLOOR_COUNT};
use crate::fsm::{cell, no_requests, ControllerRequests, Dirn, ElevatorBehaviour};

verus! {

broadcast use vstd::std_specs::hash::group_hash_axioms;

/// Where a request stands in its cycle.
#[derive(Debug, Clone, Copy, PartialEq, Eq, Structural)]
pub enum RequestState {
    /// No request.
    NoRequest,
    /// Pressed; not yet acknowledged by every alive elevator.
    Unconfirmed,
    /// Acknowledged by every alive elevator: it will be served.
    Confirmed,
    /// Served; clearing not yet acknowledged by every alive elevator.
    Finished,
}

/// A request and the elevators that acknowledged its current state.
#[derive(Debug)]
pub struct Request {
    pub state: RequestState,
    pub acks: HashSet<u8>,
}

/// Mathematical form of a [`Request`].
pub struct RequestView {
    pub state: RequestState,
    pub acks: Set<u8>,
}

impl View for Request {
    type V = RequestView;

    open spec fn view(&self) -> RequestView {
        RequestView { state: self.state, acks: self.acks@ }
    }
}

/// The state a request reaches when it meets another copy of itself: each
/// state only gives way to its successor in the cycle (a `NoRequest` also to
/// `Confirmed`, a `Finished` also to `Unconfirmed`).
pub open spec fn merged_state(mine: RequestState, theirs: RequestState) -> RequestState {
    match (mine, theirs) {
        (RequestState::NoRequest, RequestState::Unconfirmed) => RequestState::Unconfirmed,
        (RequestState::NoRequest, RequestState::Confirmed) => RequestState::Confirmed,
        (RequestState::Unconfirmed, RequestState::Confirmed) => RequestState::Confirmed,
        (RequestState::Confirmed, RequestState::Finished) => RequestState::Finished,
        (RequestState::Finished, RequestState::NoRequest) => RequestState::NoRequest,
        (RequestState::Finished, RequestState::Unconfirmed) => RequestState::Unconfirmed,
        _ => mine,
    }
}

/// A request after merging in another copy, acknowledged by `id`: on a state
/// change it takes the other's acknowledgements plus `id`; on equal states
/// it unites the acknowledgements; otherwise it is unchanged.
pub open spec fn merged(mine: RequestView, theirs: RequestView, id: u8) -> RequestView {
    let s = merged_state(mine.state, theirs.state);
    if s != mine.state {
        RequestView { state: s, acks: theirs.acks.insert(id) }
    } else if mine.state == theirs.state {
        RequestView { state: mine.state, acks: mine.acks.union(theirs.acks) }
    } else {
        mine
    }
}

/// A request in state `state` acknowledged by `id` alone.
pub open spec fn fresh(state: RequestState, id: u8) -> RequestView {
    RequestView { state, acks: set![id] }
}

/// Copy of a set of elevator ids.
pub(crate) fn copy_ids(s: &HashSet<u8>) -> (r: HashSet<u8>)
    ensures
        r@ == s@,
{
    let mut acks = HashSet::new();
    let ghost all = s@;
    for a in it: s.iter()
        invariant
            all == s@,
            it.seq().unref().to_set() == all,
            acks@ == it.seq().take(it.index() as int).unref().to_set(),
            it.index() == it.seq().len() ==> acks@ == all,
    {
        proof {
            assert(it.seq().take(it.index() + 1).unref() =~= it.seq().take(
                it.index() as int,
            ).unref().push(*a));
            it.seq().take(it.index() as int).unref().lemma_push_to_set_commute(*a);
        }
        acks.insert(*a);
        proof {
            assert(it.seq().take(it.seq().len() as int) =~= it.seq());
        }
    }
    acks
}

/// Whether every id of `small` is in `big`.
pub fn is_subset_of(small: &HashSet<u8>, big: &HashSet<u8>) -> (r: bool)
    ensures
        r == small@.subset_of(big@),
{
    let ghost all = small@;
    for a in it: small.iter()
        invariant
            all == small@,
            it.seq().unref().to_set() == all,
            forall|j: int| 0 <= j < it.index() ==> big@.contains(*it.seq()[j]),
            it.index() == it.seq().len() ==> all.subset_of(big@),
    {
        if !big.contains(a) {
            proof {
                assert(all.contains(*a)) by {
                    assert(it.seq().unref()[it.index() as int] == *a);
                }
            }
            return false;
        }
        proof {
            assert forall|x: u8| it.index() + 1 == it.seq().len() && all.contains(x) implies big@.contains(
                x,
            ) by {
                assert(it.seq().unref().contains(x));
                let j = choose|j: int| 0 <= j < it.seq().len() && it.seq().unref()[j] == x;
                assert(*it.seq()[j] == x);
            }
        }
    }
    true
}

/// Adds every id of `other` to `s`.
pub(crate) fn add_all(s: &mut HashSet<u8>, other: &HashSet<u8>)
    ensures
        final(s)@ == old(s)@.union(other@),
{
    let ghost start = s@;
    let ghost all = other@;
    for a in it: other.iter()
        invariant
            all == other@,
            it.seq().unref().to_set() == all,
            s@ == start.union(it.seq().take(it.index() as int).unref().to_set()),
            it.index() == it.seq().len() ==> s@ == start.union(all),
    {
        proof {
            assert(it.seq().take(it.index() + 1).unref() =~= it.seq().take(
                it.index() as int,
            ).unref().push(*a));
            it.seq().take(it.index() as int).unref().lemma_push_to_set_commute(*a);
        }
        s.insert(*a);
        proof {
            assert(s@ =~= start.union(it.seq().take(it.index() + 1).unref().to_set()));
            assert(it.seq().take(it.seq().len() as int) =~= it.seq());
        }
    }
}

impl Clone for Request {
    fn clone(&self) -> (r: Self)
        ensures
            r@ == self@,
    {
        Request { state: self.state, acks: copy_ids(&self.acks) }
    }
}

impl Default for Request {
    fn default() -> (r: Self)
        ensures
            r@ == (RequestView { state: RequestState::NoRequest, acks: Set::empty() }),
    {
        Request { state: RequestState::NoRequest, acks: HashSet::new() }
    }
}

impl Request {
    /// A request in no state, acknowledged by `id`.
    pub fn new(id: u8) -> (r: Request)
        ensures
            r@ == fresh(RequestState::NoRequest, id),
    {
        let mut hs = HashSet::new();
        hs.insert(id);
        Request { state: RequestState::NoRequest, acks: hs }
    }

    /// Moves the request to state `r`, acknowledged by `id` alone.
    pub fn set_to(&mut self, r: RequestState, id: u8)
        ensures
            final(self)@ == fresh(r, id),
    {
        self.state = r;
        self.acks = HashSet::new();
        self.acks.insert(id);
    }

    /// Merges another copy of this request into it (see [`merged`]); `id`
    /// acknowledges a state change. Returns whether the state changed.
    pub fn merge(&mut self, r2: &Request, id: u8) -> (updated: bool)
        ensures
            final(self)@ == merged(old(self)@, r2@, id),
            updated == (merged_state(old(self).state, r2.state) != old(self).state),
    {
        let new_state = match (self.state, r2.state) {
            (RequestState::NoRequest, RequestState::Unconfirmed) => RequestState::Unconfirmed,
            (RequestState::NoRequest, RequestState::Confirmed) => RequestState::Confirmed,
            (RequestState::Unconfirmed, RequestState::Confirmed) => RequestState::Confirmed,
            (RequestState::Confirmed, RequestState::Finished) => RequestState::Finished,
            (RequestState::Finished, RequestState::NoRequest) => RequestState::NoRequest,
            (RequestState::Finished, RequestState::Unconfirmed) => RequestState::Unconfirmed,
            _ => self.state,
        };
        if self.state != new_state {
            self.state = new_state;
            self.acks = copy_ids(&r2.acks);
            self.acks.insert(id);
            true
        } else {
            if self.state == r2.state {
                add_all(&mut self.acks, &r2.acks);
            }
            false
        }
    }

    /// The current state.
    pub fn get_state(&self) -> (s: RequestState)
        ensures
            s == self.state,
    {
        self.state
    }
}

/// What an elevator tells the others about itself.
#[derive(Debug, Clone, Copy, PartialEq, Eq, Structural)]
pub struct ElevatorNetworkState {
    pub dirn: Dirn,
    pub behaviour: ElevatorBehaviour,
    pub current_floor: i8,
}

/// Stopped, idle, floor unknown (-1).
pub open spec fn initial_network_state() -> ElevatorNetworkState {
    ElevatorNetworkState { dirn: Dirn::Stop, behaviour: ElevatorBehaviour::Idle, current_floor: -1i8 }
}

impl ElevatorNetworkState {
    /// Stopped, idle, floor unknown (-1).
    pub fn new() -> (s: ElevatorNetworkState)
        ensures
            s == initial_network_state(),
    {
        ElevatorNetworkState { dirn: Dirn::Stop, behaviour: ElevatorBehaviour::Idle, current_floor: -1 }
    }
}

/// One elevator as seen by the network. Times are nanoseconds since the
/// UNIX epoch.
#[derive(Debug)]
pub struct Elevator {
    /// When its state was last received.
    pub last_received: u64,
    pub state: ElevatorNetworkState,
    /// Cab request per floor.
    pub cab_requests: [Request; FLOOR_COUNT],
    /// When it was last seen to make progress.
    pub last_moved: u64,
    /// Whether it was last given calls to serve.
    pub has_request: bool,
    /// Whether it is believed to be working.
    pub is_working: bool,
}

/// Mathematical form of an [`Elevator`].
pub struct ElevatorView {
    pub last_received: u64,
    pub state: ElevatorNetworkState,
    pub cab_requests: Seq<RequestView>,
    pub last_moved: u64,
    pub has_request: bool,
    pub is_working: bool,
}

impl View for Elevator {
    type V = ElevatorView;

    open spec fn view(&self) -> ElevatorView {
        ElevatorView {
            last_received: self.last_received,
            state: self.state,
            cab_requests: self.cab_requests@.map_values(|r: Request| r@),
            last_moved: self.last_moved,
            has_request: self.has_request,
            is_working: self.is_working,
        }
    }
}

/// Copies of four requests.
fn copy_requests(rs: &[Request; FLOOR_COUNT]) -> (r: [Request; FLOOR_COUNT])
    ensures
        r@.map_values(|q: Request| q@) == rs@.map_values(|q: Request| q@),
{
    let r = [rs[0].clone(), rs[1].clone(), rs[2].clone(), rs[3].clone()];
    assert(r@.map_values(|q: Request| q@) =~= rs@.map_values(|q: Request| q@));
    r
}

/// Four requests in no state with no acknowledgement.
fn empty_requests() -> (r: [Request; FLOOR_COUNT])
    ensures
        forall|f: int|
            0 <= f < FLOOR_COUNT ==> #[trigger] r@[f]@ == (RequestView {
                state: RequestState::NoRequest,
                acks: Set::empty(),
            }),
{
    [Request::default(), Request::default(), Request::default(), Request::default()]
}

impl Clone for Elevator {
    fn clone(&self) -> (r: Self)
        ensures
            r@ == self@,
    {
        Elevator {
            last_received: self.last_received,
            state: self.state,
            cab_requests: copy_requests(&self.cab_requests),
            last_moved: self.last_moved,
            has_request: self.has_request,
            is_working: self.is_working,
        }
    }
}

impl Elevator {
    /// A newly seen elevator at time `now`: default network state, no cab
    /// requests, no calls, working.
    pub fn new_at(now: u64) -> (e: Elevator)
        ensures
            e.last_received == now,
            e.last_moved == now,
            e.state == initial_network_state(),
            forall|f: int|
                0 <= f < FLOOR_COUNT ==> #[trigger] e.cab_requests@[f]@ == (RequestView {
                    state: RequestState::NoRequest,
                    acks: Set::empty(),
                }),
            !e.has_request,
            e.is_working,
    {
        Elevator {
            last_received: now,
            state: ElevatorNetworkState::new(),
            cab_requests: empty_requests(),
            last_moved: now,
            has_request: false,
            is_working: true,
        }
    }

    /// A newly seen elevator, stamped with the current time.
    pub fn new() -> (e: Elevator)
        ensures
            e.last_received == e.last_moved,
            e.state == initial_network_state(),
            forall|f: int|
                0 <= f < FLOOR_COUNT ==> #[trigger] e.cab_requests@[f]@ == (RequestView {
                    state: RequestState::NoRequest,
                    acks: Set::empty(),
                }),
            !e.has_request,
            e.is_working,
    {
        Self::new_at(now_nanos())
    }

    /// A copy of the cab requests.
    pub fn get_cab_requests(&self) -> (r: [Request; FLOOR_COUNT])
        ensures
            r@.map_values(|q: Request| q@) == self@.cab_requests,
    {
        copy_requests(&self.cab_requests)
    }

    /// Merges `other` into the cab request of floor `f`; see [`Request::merge`].
    fn merge_cab(&mut self, f: usize, other: &Request, id: u8) -> (updated: bool)
        requires
            f < FLOOR_COUNT,
        ensures
            final(self)@ == (ElevatorView {
                cab_requests: old(self)@.cab_requests.update(
                    f as int,
                    merged(old(self)@.cab_requests[f as int], other@, id),
                ),
                ..old(self)@
            }),
            updated == (merged_state(old(self).cab_requests@[f as int].state, other.state)
                != old(self).cab_requests@[f as int].state),
    {
        let ghost v0 = self@;
        let updated = self.cab_requests[f].merge(other, id);
        assert(self@.cab_requests =~= v0.cab_requests.update(
            f as int,
            merged(v0.cab_requests[f as int], other@, id),
        ));
        updated
    }

    /// Sets the cab request of floor `f` to `state`, acknowledged by `id`.
    fn set_cab(&mut self, f: usize, state: RequestState, id: u8)
        requires
            f < FLOOR_COUNT,
        ensures
            final(self)@ == (ElevatorView {
                cab_requests: old(self)@.cab_requests.update(f as int, fresh(state, id)),
                ..old(self)@
            }),
    {
        let ghost v0 = self@;
        self.cab_requests[f].set_to(state, id);
        assert(self@.cab_requests =~= v0.cab_requests.update(f as int, fresh(state, id)));
    }
}

/// A call button press: `call` is 0 (hall up), 1 (hall down) or 2 (cab).
#[derive(Debug, Clone, Copy, PartialEq, Eq, Structural)]
pub struct CallButton {
    pub floor: u8,
    pub call: u8,
}

/// What an elevator knows of the whole system.
#[derive(Debug)]
pub struct WorldView {
    /// The id of the elevator holding this view.
    pub id: u8,
    /// Every known elevator by id.
    pub elevators: HashMap<u8, Elevator>,
    /// Hall requests per floor: `[up, down]`.
    pub hall_requests: [[Request; 2]; FLOOR_COUNT],
}

/// Mathematical form of a [`WorldView`].
pub struct WorldModel {
    pub id: u8,
    pub elevators: Map<u8, ElevatorView>,
    pub hall_requests: Seq<Seq<RequestView>>,
}

/// The views of a map of elevators.
pub open spec fn elevator_views(m: Map<u8, Elevator>) -> Map<u8, ElevatorView> {
    m.map_values(|e: Elevator| e@)
}

/// The views of one floor's hall requests.
pub open spec fn row_views(row: [Request; 2]) -> Seq<RequestView> {
    row@.map_values(|r: Request| r@)
}

/// The views of the hall requests.
pub open spec fn hall_views(h: [[Request; 2]; FLOOR_COUNT]) -> Seq<Seq<RequestView>> {
    h@.map_values(|row: [Request; 2]| row_views(row))
}

impl View for WorldView {
    type V = WorldModel;

    open spec fn view(&self) -> WorldModel {
        WorldModel {
            id: self.id,
            elevators: elevator_views(self.elevators@),
            hall_requests: hall_views(self.hall_requests),
        }
    }
}

/// The keys of a map, each once.
pub(crate) fn elevator_ids<V>(m: &HashMap<u8, V>) -> (v: Vec<u8>)
    ensures
        v@.no_duplicates(),
        forall|k: u8| v@.contains(k) <==> m@.contains_key(k),
{
    let mut v: Vec<u8> = Vec::new();
    let ghost dom = m@.dom();
    for k in it: m.keys()
        invariant
            dom == m@.dom(),
            it.seq().unref().to_set() == dom,
            it.seq().unref().no_duplicates(),
            v@ == it.seq().take(it.index() as int).unref(),
            it.index() == it.seq().len() ==> v@ == it.seq().unref(),
    {
        v.push(*k);
        proof {
            assert(v@ =~= it.seq().take(it.index() + 1).unref());
            assert(it.seq().take(it.seq().len() as int) =~= it.seq());
        }
    }
    proof {
        assert forall|k: u8| v@.contains(k) <==> m@.contains_key(k) by {
            assert(v@.to_set().contains(k) <==> v@.contains(k));
        }
    }
    v
}

/// Copies of the hall requests.
fn copy_hall(h: &[[Request; 2]; FLOOR_COUNT]) -> (r: [[Request; 2]; FLOOR_COUNT])
    ensures
        hall_views(r) == hall_views(*h),
{
    let r = [
        [h[0][0].clone(), h[0][1].clone()],
        [h[1][0].clone(), h[1][1].clone()],
        [h[2][0].clone(), h[2][1].clone()],
        [h[3][0].clone(), h[3][1].clone()],
    ];
    proof {
        assert forall|f: int| 0 <= f < FLOOR_COUNT implies row_views(r@[f]) == #[trigger] row_views(
            h@[f],
        ) by {
            assert(row_views(r@[f]) =~= row_views(h@[f]));
        }
        assert(hall_views(r) =~= hall_views(*h));
    }
    r
}

impl Clone for WorldView {
    fn clone(&self) -> (r: Self)
        ensures
            r@ == self@,
            r.id == self.id,
            r.elevators@ == self.elevators@,
    {
        WorldView {
            id: self.id,
            elevators: self.elevators.clone(),
            hall_requests: copy_hall(&self.hall_requests),
        }
    }
}

/// Request `(f, d)` of a hall model.
pub open spec fn hall_at(h: Seq<Seq<RequestView>>, f: int, d: int) -> RequestView {
    h[f][d]
}

/// A hall model with request `(f, d)` replaced.
pub open spec fn hall_with(h: Seq<Seq<RequestView>>, f: int, d: int, r: RequestView) -> Seq<
    Seq<RequestView>,
> {
    h.update(f, h[f].update(d, r))
}

/// Whether the elevator changed floor or behaviour.
pub open spec fn moved(old_state: ElevatorNetworkState, new_state: ElevatorNetworkState) -> bool {
    old_state.current_floor != new_state.current_floor || old_state.behaviour != new_state.behaviour
}

/// An elevator view after a new network state arrives at time `now`: a
/// change of floor or behaviour counts as progress and as proof of working.
pub open spec fn with_new_state(
    e: ElevatorView,
    s: ElevatorNetworkState,
    now: u64,
) -> ElevatorView {
    ElevatorView {
        state: s,
        last_moved: if moved(e.state, s) {
            now
        } else {
            e.last_moved
        },
        is_working: moved(e.state, s) || e.is_working,
        ..e
    }
}

/// Ids of the elevators counted alive at time `now`: the holder itself and
/// every elevator heard from within `timeout` seconds.
pub open spec fn alive_set(w: WorldModel, timeout: u64, now: u64) -> Set<u8> {
    w.elevators.dom().filter(
        |k: u8| k == w.id || !silent_longer_than(w.elevators[k].last_received, now, timeout),
    )
}

impl WorldView {
    /// The holder's own elevator is known.
    pub open spec fn wf(&self) -> bool {
        self.elevators@.contains_key(self.id)
    }

    /// Replaces hall request `(f, d)` by the merge with `other`.
    fn merge_hall(&mut self, f: usize, d: usize, other: &Request) -> (updated: bool)
        requires
            f < FLOOR_COUNT,
            d < 2,
        ensures
            final(self)@ == (WorldModel {
                hall_requests: hall_with(
                    old(self)@.hall_requests,
                    f as int,
                    d as int,
                    merged(hall_at(old(self)@.hall_requests, f as int, d as int), other@, old(self).id),
                ),
                ..old(self)@
            }),
            updated == (merged_state(
                hall_at(old(self)@.hall_requests, f as int, d as int).state,
                other.state,
            ) != hall_at(old(self)@.hall_requests, f as int, d as int).state),
            final(self).elevators@ == old(self).elevators@,
            final(self).id == old(self).id,
    {
        let ghost v0 = self@;
        let id = self.id;
        let updated = self.hall_requests[f][d].merge(other, id);
        proof {
            let n = merged(hall_at(v0.hall_requests, f as int, d as int), other@, id);
            assert(self@.hall_requests[f as int] =~= v0.hall_requests[f as int].update(d as int, n));
            assert(self@.hall_requests =~= hall_with(v0.hall_requests, f as int, d as int, n));
        }
        updated
    }

    /// Sets hall request `(f, d)` to `state`, acknowledged by the holder.
    fn set_hall(&mut self, f: usize, d: usize, state: RequestState)
        requires
            f < FLOOR_COUNT,
            d < 2,
        ensures
            final(self)@ == (WorldModel {
                hall_requests: hall_with(
                    old(self)@.hall_requests,
                    f as int,
                    d as int,
                    fresh(state, old(self).id),
                ),
                ..old(self)@
            }),
            final(self).elevators@ == old(self).elevators@,
            final(self).id == old(self).id,
    {
        let ghost v0 = self@;
        let id = self.id;
        self.hall_requests[f][d].set_to(state, id);
        proof {
            let n = fresh(state, id);
            assert(self@.hall_requests[f as int] =~= v0.hall_requests[f as int].update(d as int, n));
            assert(self@.hall_requests =~= hall_with(v0.hall_requests, f as int, d as int, n));
        }
    }

    /// Takes elevator `k` out of the map.
    pub(crate) fn take_elevator(&mut self, k: u8) -> (e: Elevator)
        requires
            old(self).elevators@.contains_key(k),
        ensures
            e@ == old(self)@.elevators[k],
            final(self)@ == (WorldModel { elevators: old(self)@.elevators.remove(k), ..old(self)@ }),
            final(self).elevators@ == old(self).elevators@.remove(k),
    {
        let r = self.elevators.remove(&k);
        proof {
            assert(elevator_views(self.elevators@) =~= elevator_views(old(self).elevators@).remove(k));
        }
        match r {
            Some(e) => e,
            None => {
                assert(false);
                Elevator::new_at(0)
            },
        }
    }

    /// Puts elevator `e` into the map under `k`.
    pub(crate) fn put_elevator(&mut self, k: u8, e: Elevator)
        ensures
            final(self)@ == (WorldModel { elevators: old(self)@.elevators.insert(k, e@), ..old(self)@ }),
            final(self).elevators@ == old(self).elevators@.insert(k, e),
    {
        self.elevators.insert(k, e);
        proof {
            assert(elevator_views(self.elevators@) =~= elevator_views(old(self).elevators@).insert(k, e@));
        }
    }

    /// A fresh view for elevator `id`: only itself known, every hall request
    /// in no state and acknowledged by `id`.
    pub fn init(id: u8) -> (w: WorldView)
        ensures
            w.id == id,
            w.wf(),
            w@.elevators.dom() == set![id],
            w@.elevators[id].state == initial_network_state(),
            forall|f: int|
                0 <= f < FLOOR_COUNT ==> #[trigger] w@.elevators[id].cab_requests[f] == (RequestView {
                    state: RequestState::NoRequest,
                    acks: Set::empty(),
                }),
            !w@.elevators[id].has_request,
            w@.elevators[id].is_working,
            w@.hall_requests.len() == FLOOR_COUNT,
            forall|f: int, d: int|
                0 <= f < FLOOR_COUNT && 0 <= d < 2 ==> (#[trigger] w@.hall_requests[f][d]) == fresh(
                    RequestState::NoRequest,
                    id,
                ),
    {
        let mut elevators: HashMap<u8, Elevator> = HashMap::new();
        let e = Elevator::new();
        elevators.insert(id, e);
        let hall_requests = [
            [Request::new(id), Request::new(id)],
            [Request::new(id), Request::new(id)],
            [Request::new(id), Request::new(id)],
            [Request::new(id), Request::new(id)],
        ];
        let w = WorldView { id, elevators, hall_requests };
        proof {
            assert(w@.elevators.dom() =~= set![id]);
        }
        w
    }

    /// The holder's id.
    pub fn get_id(&self) -> (id: u8)
        ensures
            id == self.id,
    {
        self.id
    }

    /// A copy of the known elevators.
    pub fn get_elevators(&self) -> (m: HashMap<u8, Elevator>)
        ensures
            m@ == self.elevators@,
    {
        self.elevators.clone()
    }

    /// A copy of the hall requests.
    pub fn get_hall_requests(&self) -> (h: [[Request; 2]; FLOOR_COUNT])
        ensures
            hall_views(h) == self@.hall_requests,
    {
        copy_hall(&self.hall_requests)
    }

    /// Adopts a foreign view when joining: everything of `foreign_world_view`,
    /// under the holder's id, and the holder's own elevator if the foreign
    /// view does not know it.
    pub fn handle_humbly(&self, foreign_world_view: WorldView) -> (w: WorldView)
        requires
            self.wf(),
        ensures
            w@ == (WorldModel {
                id: self.id,
                elevators: if foreign_world_view@.elevators.contains_key(self.id) {
                    foreign_world_view@.elevators
                } else {
                    foreign_world_view@.elevators.insert(self.id, self@.elevators[self.id])
                },
                hall_requests: foreign_world_view@.hall_requests,
            }),
            w.wf(),
    {
        let id = self.id;
        let mut w = foreign_world_view;
        w.id = id;
        if !w.elevators.contains_key(&id) {
            let own = match self.elevators.get(&id) {
                Some(e) => e.clone(),
                None => {
                    assert(false);
                    Elevator::new_at(0)
                },
            };
            w.put_elevator(id, own);
        }
        w
    }

    /// Recovers from a network partition: takes the hall requests and every
    /// other elevator from `foreign_world_view`, keeps the own elevator.
    pub fn handle_network_recovery(&self, foreign_world_view: WorldView) -> (w: WorldView)
        ensures
            w@ == (WorldModel {
                id: self.id,
                elevators: self@.elevators.union_prefer_right(
                    foreign_world_view@.elevators.remove(self.id),
                ),
                hall_requests: foreign_world_view@.hall_requests,
            }),
            self.wf() ==> w.wf(),
    {
        let mut w = self.clone();
        let fv = foreign_world_view;
        let ghost theirs = fv@.elevators;
        let ghost mine = self@.elevators;
        let ids = elevator_ids(&fv.elevators);
        let mut foreign_elevators = fv.elevators;
        w.hall_requests = fv.hall_requests;
        let mut i: usize = 0;
        while i < ids.len()
            invariant
                i <= ids.len(),
                ids@.no_duplicates(),
                forall|k: u8| ids@.contains(k) <==> theirs.contains_key(k),
                w.id == self.id,
                w@.hall_requests == fv@.hall_requests,
                forall|k: u8|
                    #[trigger] theirs.contains_key(k) && !ids@.take(i as int).contains(k) ==> elevator_views(
                        foreign_elevators@,
                    ).contains_key(k) && elevator_views(foreign_elevators@)[k] == theirs[k],
                w@.elevators == mine.union_prefer_right(
                    theirs.remove(self.id).restrict(ids@.take(i as int).to_set()),
                ),
            decreases ids.len() - i,
        {
            let k = ids[i];
            proof {
                assert(ids@.take(i + 1) =~= ids@.take(i as int).push(k));
                ids@.take(i as int).lemma_push_to_set_commute(k);
                assert(!ids@.take(i as int).contains(k)) by {
                    if ids@.take(i as int).contains(k) {
                        let j = choose|j: int| 0 <= j < i && ids@[j] == k;
                        assert(ids@[j] == ids@[i as int]);
                    }
                }
            }
            assert(ids@.contains(k));
            assert(theirs.contains_key(k));
            assert(elevator_views(foreign_elevators@).contains_key(k));
            let ghost fe0 = foreign_elevators@;
            if k != self.id {
                let e = foreign_elevators.remove(&k);
                assert(foreign_elevators@ == fe0.remove(k));
                match e {
                    Some(e) => {
                        assert(e@ == theirs[k]);
                        w.put_elevator(k, e);
                    },
                    None => {
                        assert(false);
                    },
                }
            }
            proof {
                assert(w@.elevators =~= mine.union_prefer_right(
                    theirs.remove(self.id).restrict(ids@.take(i + 1).to_set()),
                ));
                assert forall|j: u8|
                    #[trigger] theirs.contains_key(j) && !ids@.take(i + 1).contains(j) implies elevator_views(
                        foreign_elevators@,
                    ).contains_key(j) && elevator_views(foreign_elevators@)[j] == theirs[j] by {
                    assert(ids@.take(i + 1)[i as int] == k);
                }
            }
            i += 1;
        }
        proof {
            assert(ids@.take(ids.len() as int) =~= ids@);
            assert(theirs.remove(self.id).restrict(ids@.to_set()) =~= theirs.remove(self.id));
            assert(w@.elevators.contains_key(self.id) ==> w.elevators@.contains_key(self.id));
        }
        w
    }
}

/// Whether setting the buttons of `mask` of floor `floor` to `state`,
/// acknowledged by the holder, changes one of them.
pub open spec fn clear_changes(w: WorldModel, floor: int, mask: Seq<bool>, state: RequestState) -> bool {
    let fin = fresh(state, w.id);
    ||| mask[0] && hall_at(w.hall_requests, floor, 0) != fin
    ||| mask[1] && hall_at(w.hall_requests, floor, 1) != fin
    ||| mask[2] && w.elevators[w.id].cab_requests[floor] != fin
}

/// Whether `r` is in state `state`, acknowledged by `id` alone.
fn is_fresh(r: &Request, state: RequestState, id: u8) -> (b: bool)
    ensures
        b == (r@ == fresh(state, id)),
{
    let mut single: HashSet<u8> = HashSet::new();
    single.insert(id);
    let b = r.state == state && r.acks.contains(&id) && is_subset_of(&r.acks, &single);
    proof {
        if b {
            assert(r.acks@ =~= set![id]);
        }
        if r@ == fresh(state, id) {
            assert(single@ =~= set![id]);
            assert(r.acks@.contains(id));
        }
    }
    b
}

/// `w` after the buttons of `mask` (`[hall up, hall down, cab]`) of floor
/// `floor` were set to `state`, acknowledged by the holder; the cab button
/// is the holder's own.
pub open spec fn after_clear(w: WorldModel, floor: int, mask: Seq<bool>, state: RequestState) -> WorldModel {
    let fin = fresh(state, w.id);
    let h1 = if mask[0] {
        hall_with(w.hall_requests, floor, 0, fin)
    } else {
        w.hall_requests
    };
    let h2 = if mask[1] {
        hall_with(h1, floor, 1, fin)
    } else {
        h1
    };
    let own = w.elevators[w.id];
    let e2 = if mask[2] {
        ElevatorView { cab_requests: own.cab_requests.update(floor, fin), ..own }
    } else {
        own
    };
    WorldModel { hall_requests: h2, elevators: w.elevators.insert(w.id, e2), ..w }
}

/// `w` after button `c` (0 hall up, 1 hall down, 2 cab) of floor `f` was
/// pressed, and whether that changed it: an idle request becomes
/// unconfirmed, acknowledged by the holder.
pub open spec fn after_press(w: WorldModel, f: int, c: int) -> (WorldModel, bool) {
    let own = w.elevators[w.id];
    let un = fresh(RequestState::Unconfirmed, w.id);
    if 0 <= c < 2 && hall_at(w.hall_requests, f, c).state == RequestState::NoRequest {
        (WorldModel { hall_requests: hall_with(w.hall_requests, f, c, un), ..w }, true)
    } else if c == 2 && own.cab_requests[f].state == RequestState::NoRequest {
        (
            WorldModel {
                elevators: w.elevators.insert(
                    w.id,
                    ElevatorView { cab_requests: own.cab_requests.update(f, un), ..own },
                ),
                ..w
            },
            true,
        )
    } else {
        (w, false)
    }
}

/// `w` after the holder's own elevator reports network state `s` at time `now`.
pub open spec fn with_own_state(w: WorldModel, s: ElevatorNetworkState, now: u64) -> WorldModel {
    WorldModel { elevators: w.elevators.insert(w.id, with_new_state(w.elevators[w.id], s, now)), ..w }
}

/// Whether button `b` of floor `f` is confirmed in `w`: hall buttons from
/// the hall requests, the cab button from the holder's own elevator.
pub open spec fn confirmed_at(w: WorldModel, f: int, b: int) -> bool {
    if b < 2 {
        w.hall_requests[f][b].state == RequestState::Confirmed
    } else {
        w.elevators[w.id].cab_requests[f].state == RequestState::Confirmed
    }
}

/// `r` holds exactly the confirmed requests of `w`.
pub open spec fn is_confirmed_matrix(r: ControllerRequests, w: WorldModel) -> bool {
    forall|f: int, b: int|
        0 <= f < FLOOR_COUNT && 0 <= b < CALL_COUNT ==> #[trigger] cell(r, f, b) == confirmed_at(w, f, b)
}

impl WorldView {
    /// Records the holder's own new direction, behaviour and floor at time
    /// `now`; a change of floor or behaviour marks progress and working.
    /// Returns whether the reported state differs from the recorded one.
    pub fn handle_elevator_state_at(
        &self,
        dirn: Dirn,
        behaviour: ElevatorBehaviour,
        floor: i8,
        now: u64,
    ) -> (r: (WorldView, bool))
        requires
            self.wf(),
        ensures
            r.0@ == with_own_state(self@, ElevatorNetworkState { dirn, behaviour, current_floor: floor }, now),
            r.0.wf(),
            r.1 == (self@.elevators[self@.id].state != ElevatorNetworkState {
                dirn,
                behaviour,
                current_floor: floor,
            }),
    {
        let mut w = self.clone();
        let id = w.id;
        let mut elev = w.take_elevator(id);
        let changed = elev.state != ElevatorNetworkState { dirn, behaviour, current_floor: floor };
        if elev.state.current_floor != floor || elev.state.behaviour != behaviour {
            elev.last_moved = now;
            elev.is_working = true;
        }
        elev.state.dirn = dirn;
        elev.state.behaviour = behaviour;
        elev.state.current_floor = floor;
        w.put_elevator(id, elev);
        proof {
            assert(w@.elevators =~= self@.elevators.insert(
                self.id,
                with_new_state(
                    self@.elevators[self.id],
                    ElevatorNetworkState { dirn, behaviour, current_floor: floor },
                    now,
                ),
            ));
        }
        (w, changed)
    }

    /// [`Self::handle_elevator_state_at`] at the current time.
    pub fn handle_elevator_state(&self, dirn: Dirn, behaviour: ElevatorBehaviour, floor: i8) -> (r: (
        WorldView,
        bool,
    ))
        requires
            self.wf(),
        ensures
            exists|now: u64|
                r.0@ == #[trigger] with_own_state(
                    self@,
                    ElevatorNetworkState { dirn, behaviour, current_floor: floor },
                    now,
                ),
            r.0.wf(),
            r.1 == (self@.elevators[self@.id].state != ElevatorNetworkState {
                dirn,
                behaviour,
                current_floor: floor,
            }),
    {
        self.handle_elevator_state_at(dirn, behaviour, floor, now_nanos())
    }

    /// Marks the requests of `floor` selected by `should_clear`
    /// (`[hall up, hall down, cab]`, the cab one of the holder's elevator) as
    /// finished, acknowledged by the holder. Returns whether a selected
    /// request changed.
    pub fn handle_clear_request(&self, floor: usize, should_clear: &[bool; 3]) -> (r: (WorldView, bool))
        requires
            self.wf(),
            floor < FLOOR_COUNT,
        ensures
            r.0@ == after_clear(self@, floor as int, should_clear@, RequestState::Finished),
            r.0.wf(),
            r.1 == clear_changes(self@, floor as int, should_clear@, RequestState::Finished),
    {
        let mut w = self.clone();
        let id = w.id;
        let own = match self.elevators.get(&id) {
            Some(e) => e,
            None => {
                assert(false);
                return (w, false);
            },
        };
        let c0 = should_clear[0] && !is_fresh(&self.hall_requests[floor][0], RequestState::Finished, id);
        let c1 = should_clear[1] && !is_fresh(&self.hall_requests[floor][1], RequestState::Finished, id);
        let c2 = should_clear[2] && !is_fresh(&own.cab_requests[floor], RequestState::Finished, id);
        proof {
            assert(self@.hall_requests[floor as int][0] == self.hall_requests@[floor as int]@[0]@);
            assert(self@.hall_requests[floor as int][1] == self.hall_requests@[floor as int]@[1]@);
        }
        if should_clear[0] {
            w.set_hall(floor, 0, RequestState::Finished);
        }
        if should_clear[1] {
            w.set_hall(floor, 1, RequestState::Finished);
        }
        let mut elev = w.take_elevator(id);
        if should_clear[2] {
            elev.set_cab(floor, RequestState::Finished, id);
        }
        w.put_elevator(id, elev);
        proof {
            let own = self@.elevators[self.id];
            let fin = fresh(RequestState::Finished, self.id);
            let e2 = if should_clear@[2] {
                ElevatorView { cab_requests: own.cab_requests.update(floor as int, fin), ..own }
            } else {
                own
            };
            assert(w@.elevators =~= self@.elevators.insert(self.id, e2));
        }
        (w, c0 || c1 || c2)
    }

    /// A button press: an idle hall request (call 0 or 1) or an idle cab
    /// request of the holder's elevator (call 2) becomes unconfirmed,
    /// acknowledged by the holder. Other calls change nothing. Returns
    /// whether something changed.
    pub fn handle_button_press(&self, button_press: &CallButton) -> (r: (WorldView, bool))
        requires
            button_press.call == 2 ==> self.wf(),
            button_press.call <= 2 ==> button_press.floor < FLOOR_COUNT,
        ensures
            (r.0@, r.1) == after_press(self@, button_press.floor as int, button_press.call as int),
            self.wf() ==> r.0.wf(),
    {
        let mut w = self.clone();
        let id = w.id;
        let f = button_press.floor as usize;
        let call = button_press.call;
        if call == 0 || call == 1 {
            let c = call as usize;
            if w.hall_requests[f][c].state == RequestState::NoRequest {
                w.set_hall(f, c, RequestState::Unconfirmed);
                return (w, true);
            }
        } else if call == 2 {
            if w.elevators.contains_key(&id) {
                let mut elev = w.take_elevator(id);
                if elev.cab_requests[f].state == RequestState::NoRequest {
                    elev.set_cab(f, RequestState::Unconfirmed, id);
                    w.put_elevator(id, elev);
                    proof {
                        let own = self@.elevators[self.id];
                        let un = fresh(RequestState::Unconfirmed, self.id);
                        assert(w@.elevators =~= self@.elevators.insert(
                            self.id,
                            ElevatorView { cab_requests: own.cab_requests.update(f as int, un), ..own },
                        ));
                    }
                    return (w, true);
                }
                w.put_elevator(id, elev);
                proof {
                    assert(w@.elevators =~= self@.elevators);
                }
            }
        }
        (w, false)
    }

    /// Ids of the elevators alive at time `now`: the holder and every
    /// elevator last heard from within `timeout` seconds.
    pub fn get_alive_elevators_at(&self, timeout: u64, now: u64) -> (alive: HashSet<u8>)
        ensures
            alive@ == alive_set(self@, timeout, now),
    {
        let ids = elevator_ids(&self.elevators);
        let mut alive: HashSet<u8> = HashSet::new();
        let ghost w = self@;
        let mut i: usize = 0;
        while i < ids.len()
            invariant
                i <= ids.len(),
                w == self@,
                forall|k: u8| ids@.contains(k) <==> self.elevators@.contains_key(k),
                alive@ == alive_set(w, timeout, now).intersect(ids@.take(i as int).to_set()),
            decreases ids.len() - i,
        {
            let k = ids[i];
            proof {
                assert(ids@.take(i + 1) =~= ids@.take(i as int).push(k));
                ids@.take(i as int).lemma_push_to_set_commute(k);
                assert(ids@.contains(k));
            }
            let e = match self.elevators.get(&k) {
                Some(e) => e,
                None => {
                    assert(false);
                    return alive;
                },
            };
            if k == self.id || !elapsed_exceeds(e.last_received, now, timeout) {
                alive.insert(k);
            }
            proof {
                assert(alive@ =~= alive_set(w, timeout, now).intersect(ids@.take(i + 1).to_set()));
            }
            i += 1;
        }
        proof {
            assert(ids@.take(ids.len() as int) =~= ids@);
            assert(alive@ =~= alive_set(w, timeout, now));
        }
        alive
    }

    /// [`Self::get_alive_elevators_at`] at the current time.
    pub fn get_alive_elevators(&self, timeout: u64) -> (alive: HashSet<u8>)
        ensures
            exists|now: u64| alive@ == alive_set(self@, timeout, now),
    {
        self.get_alive_elevators_at(timeout, now_nanos())
    }

    /// The confirmed requests as a matrix: hall buttons from the hall
    /// requests, the cab button from the holder's own elevator.
    pub fn get_confirmed_requests(&self) -> (r: ControllerRequests)
        requires
            self.wf(),
        ensures
            is_confirmed_matrix(r, self@),
    {
        let mut requests = no_requests();
        let elev = match self.elevators.get(&self.id) {
            Some(e) => e,
            None => {
                assert(false);
                return requests;
            },
        };
        let mut f: usize = 0;
        while f < FLOOR_COUNT
            invariant
                f <= FLOOR_COUNT,
                elev@ == self@.elevators[self.id],
                forall|g: int, b: int|
                    0 <= g < FLOOR_COUNT && 0 <= b < CALL_COUNT ==> #[trigger] cell(requests, g, b) == (g
                        < f && confirmed_at(self@, g, b)),
            decreases FLOOR_COUNT - f,
        {
            let ghost r0 = requests;
            let a0 = self.hall_requests[f][0].state == RequestState::Confirmed;
            let a1 = self.hall_requests[f][1].state == RequestState::Confirmed;
            let a2 = elev.cab_requests[f].state == RequestState::Confirmed;
            let row = [a0, a1, a2];
            requests[f] = row;
            proof {
                assert(row@ =~= seq![a0, a1, a2]);
                assert(requests@[f as int] == row);
                assert(self@.hall_requests[f as int][0] == self.hall_requests@[f as int]@[0]@);
                assert(self@.hall_requests[f as int][1] == self.hall_requests@[f as int]@[1]@);
                assert(self@.elevators[self.id].cab_requests[f as int] == elev.cab_requests@[f as int]@);
                assert forall|g: int, b: int|
                    0 <= g < FLOOR_COUNT && 0 <= b < CALL_COUNT implies #[trigger] cell(requests, g, b) == (
                    g < f + 1 && confirmed_at(self@, g, b)) by {
                    if g != f {
                        assert(requests@[g] == r0@[g]);
                        assert(cell(requests, g, b) == cell(r0, g, b));
                    } else if b == 0 {
                        assert(cell(requests, g, b) == a0);
                        assert(confirmed_at(self@, g, b) == a0);
                    } else if b == 1 {
                        assert(cell(requests, g, b) == a1);
                        assert(confirmed_at(self@, g, b) == a1);
                    } else {
                        assert(cell(requests, g, b) == a2);
                        assert(confirmed_at(self@, g, b) == a2);
                    }
                }
            }
            f += 1;
        }
        requests
    }

    /// Combines the hall assignment computed for the holder with its
    /// confirmed cab requests. Without an assignment the holder serves every
    /// confirmed request and no elevator counts as active.
    pub fn assign_requests(&self, assignment: Option<(ControllerRequests, Vec<i32>)>) -> (r: (
        ControllerRequests,
        Vec<i32>,
    ))
        requires
            self.wf(),
        ensures
            match assignment {
                Some((hall, active)) => {
                    &&& r.1@ == active@
                    &&& forall|f: int, b: int|
                        0 <= f < FLOOR_COUNT && 0 <= b < CALL_COUNT ==> #[trigger] cell(r.0, f, b) == if b
                            < 2 {
                            cell(hall, f, b)
                        } else {
                            confirmed_at(self@, f, b)
                        }
                },
                None => is_confirmed_matrix(r.0, self@) && r.1@.len() == 0,
            },
    {
        match assignment {
            Some((mut r, active)) => {
                let confirmed = self.get_confirmed_requests();
                let ghost r0 = r;
                let mut f: usize = 0;
                while f < FLOOR_COUNT
                    invariant
                        f <= FLOOR_COUNT,
                        is_confirmed_matrix(confirmed, self@),
                        forall|g: int, b: int|
                            0 <= g < FLOOR_COUNT && 0 <= b < CALL_COUNT ==> #[trigger] cell(r, g, b) == if b
                                < 2 || g >= f {
                                cell(r0, g, b)
                            } else {
                                confirmed_at(self@, g, b)
                            },
                    decreases FLOOR_COUNT - f,
                {
                    let ghost r1 = r;
                    let a0 = r[f][0];
                    let a1 = r[f][1];
                    let a2 = confirmed[f][2];
                    let row = [a0, a1, a2];
                    r[f] = row;
                    proof {
                        assert(row@ =~= seq![a0, a1, a2]);
                        assert(r@[f as int] == row);
                        assert forall|g: int, b: int|
                            0 <= g < FLOOR_COUNT && 0 <= b < CALL_COUNT implies #[trigger] cell(r, g, b) == if b
                                < 2 || g >= f + 1 {
                                cell(r0, g, b)
                            } else {
                                confirmed_at(self@, g, b)
                            } by {
                            assert(cell(confirmed, f as int, 2) == confirmed_at(self@, f as int, 2));
                            if g != f {
                                assert(r@[g] == r1@[g]);
                                assert(cell(r, g, b) == cell(r1, g, b));
                            } else if b == 0 {
                                assert(cell(r, g, b) == a0);
                                assert(cell(r1, g, b) == cell(r0, g, b));
                            } else if b == 1 {
                                assert(cell(r, g, b) == a1);
                                assert(cell(r1, g, b) == cell(r0, g, b));
                            } else {
                                assert(cell(r, g, b) == a2);
                            }
                        }
                    }
                    f += 1;
                }
                (r, active)
            },
            None => (self.get_confirmed_requests(), Vec::new()),
        }
    }
}

/// Whether the barrier lets `r` move on: it is unconfirmed or finished and
/// every alive elevator acknowledged it.
pub open spec fn barrier_passes(r: RequestView, alive: Set<u8>) -> bool {
    (r.state == RequestState::Unconfirmed || r.state == RequestState::Finished) && alive.subset_of(
        r.acks,
    )
}

/// A request after the barrier: an unconfirmed one that passes becomes
/// confirmed, a finished one that passes becomes no request, each
/// acknowledged by `id` alone; others stay.
pub open spec fn after_barrier(r: RequestView, alive: Set<u8>, id: u8) -> RequestView {
    if barrier_passes(r, alive) {
        if r.state == RequestState::Unconfirmed {
            fresh(RequestState::Confirmed, id)
        } else {
            fresh(RequestState::NoRequest, id)
        }
    } else {
        r
    }
}

/// An elevator whose cab requests went through the barrier.
pub open spec fn elevator_after_barrier(e: ElevatorView, alive: Set<u8>, id: u8) -> ElevatorView {
    ElevatorView {
        cab_requests: e.cab_requests.map_values(|r: RequestView| after_barrier(r, alive, id)),
        ..e
    }
}

/// The hall requests after the barrier.
pub open spec fn hall_after_barrier(h: Seq<Seq<RequestView>>, alive: Set<u8>, id: u8) -> Seq<
    Seq<RequestView>,
> {
    h.map_values(|row: Seq<RequestView>| row.map_values(|r: RequestView| after_barrier(r, alive, id)))
}

/// The whole view after the barrier with alive set `alive`.
pub open spec fn world_after_barrier(w: WorldModel, alive: Set<u8>) -> WorldModel {
    WorldModel {
        id: w.id,
        elevators: w.elevators.map_values(|e: ElevatorView| elevator_after_barrier(e, alive, w.id)),
        hall_requests: hall_after_barrier(w.hall_requests, alive, w.id),
    }
}

/// Whether the barrier moves a hall request.
pub open spec fn barrier_moves_hall(w: WorldModel, alive: Set<u8>) -> bool {
    exists|f: int, d: int|
        0 <= f < FLOOR_COUNT && 0 <= d < 2 && #[trigger] barrier_passes(w.hall_requests[f][d], alive)
}

/// Whether the barrier moves a cab request.
pub open spec fn barrier_moves_cab(w: WorldModel, alive: Set<u8>) -> bool {
    exists|k: u8, f: int|
        w.elevators.contains_key(k) && 0 <= f < FLOOR_COUNT && #[trigger] barrier_passes(
            w.elevators[k].cab_requests[f],
            alive,
        )
}

/// Whether the barrier moves any request.
pub open spec fn barrier_moves_some(w: WorldModel, alive: Set<u8>) -> bool {
    barrier_moves_hall(w, alive) || barrier_moves_cab(w, alive)
}

/// Whether merging in `theirs` changes the state of `mine`.
pub open spec fn state_changes(mine: RequestView, theirs: RequestView) -> bool {
    merged_state(mine.state, theirs.state) != mine.state
}

/// An elevator whose cab requests were merged with those of `theirs`.
pub open spec fn merge_cabs(e: ElevatorView, theirs: ElevatorView, id: u8) -> ElevatorView {
    ElevatorView {
        cab_requests: Seq::new(
            e.cab_requests.len(),
            |f: int| merged(e.cab_requests[f], theirs.cab_requests[f], id),
        ),
        ..e
    }
}

/// The hall requests merged with `theirs`.
pub open spec fn merged_hall(mine: Seq<Seq<RequestView>>, theirs: Seq<Seq<RequestView>>, id: u8) -> Seq<
    Seq<RequestView>,
> {
    Seq::new(
        mine.len(),
        |f: int| Seq::new(mine[f].len(), |d: int| merged(mine[f][d], theirs[f][d], id)),
    )
}

/// Known elevators plus those only `theirs` knows.
pub open spec fn adopt_unknown(mine: Map<u8, ElevatorView>, theirs: Map<u8, ElevatorView>) -> Map<
    u8,
    ElevatorView,
> {
    theirs.union_prefer_right(mine)
}

/// The sender's own elevator takes the state the sender reports, heard from at `now`.
pub open spec fn refresh_sender(
    m: Map<u8, ElevatorView>,
    theirs: Map<u8, ElevatorView>,
    sender: u8,
    now: u64,
) -> Map<u8, ElevatorView> {
    if theirs.contains_key(sender) {
        m.insert(
            sender,
            ElevatorView { last_received: now, ..with_new_state(m[sender], theirs[sender].state, now) },
        )
    } else {
        m
    }
}

/// Every elevator `theirs` knows gets its cab requests merged with theirs.
pub open spec fn merge_all_cabs(m: Map<u8, ElevatorView>, theirs: Map<u8, ElevatorView>, id: u8) -> Map<
    u8,
    ElevatorView,
> {
    m.union_prefer_right(
        Map::new(
            |k: u8| theirs.contains_key(k) && m.contains_key(k),
            |k: u8| merge_cabs(m[k], theirs[k], id),
        ),
    )
}

/// The elevators after adopting unknown ones and refreshing the sender.
pub open spec fn received_elevators(w: WorldModel, foreign: WorldModel, now: u64) -> Map<u8, ElevatorView> {
    refresh_sender(adopt_unknown(w.elevators, foreign.elevators), foreign.elevators, foreign.id, now)
}

/// `w` after merging in `foreign` at time `now`, before the barrier.
pub open spec fn received(w: WorldModel, foreign: WorldModel, now: u64) -> WorldModel {
    WorldModel {
        id: w.id,
        elevators: merge_all_cabs(received_elevators(w, foreign, now), foreign.elevators, w.id),
        hall_requests: merged_hall(w.hall_requests, foreign.hall_requests, w.id),
    }
}

/// Whether merging in `foreign` changes the state of some request.
pub open spec fn receive_changes(w: WorldModel, foreign: WorldModel, now: u64) -> bool {
    let m = received_elevators(w, foreign, now);
    ||| exists|f: int, d: int|
        0 <= f < FLOOR_COUNT && 0 <= d < 2 && #[trigger] state_changes(
            w.hall_requests[f][d],
            foreign.hall_requests[f][d],
        )
    ||| exists|k: u8, f: int|
        foreign.elevators.contains_key(k) && 0 <= f < FLOOR_COUNT && #[trigger] state_changes(
            m[k].cab_requests[f],
            foreign.elevators[k].cab_requests[f],
        )
}

/// Flat index of hall request `(f, d)`.
pub open spec fn hall_index(f: int, d: int) -> int {
    f * 2 + d
}

impl Request {
    /// Moves the request through the barrier; returns whether it moved.
    fn pass_barrier(&mut self, alive: &HashSet<u8>, id: u8) -> (moved: bool)
        ensures
            final(self)@ == after_barrier(old(self)@, alive@, id),
            moved == barrier_passes(old(self)@, alive@),
    {
        let st = self.state;
        if (st == RequestState::Unconfirmed || st == RequestState::Finished) && is_subset_of(
            alive,
            &self.acks,
        ) {
            if st == RequestState::Unconfirmed {
                self.set_to(RequestState::Confirmed, id);
            } else {
                self.set_to(RequestState::NoRequest, id);
            }
            true
        } else {
            false
        }
    }
}

impl Elevator {
    /// Moves every cab request through the barrier; returns whether one moved.
    fn pass_barrier(&mut self, alive: &HashSet<u8>, id: u8) -> (moved: bool)
        ensures
            final(self)@ == elevator_after_barrier(old(self)@, alive@, id),
            moved == exists|f: int|
                0 <= f < FLOOR_COUNT && #[trigger] barrier_passes(old(self)@.cab_requests[f], alive@),
    {
        let ghost v0 = self@;
        let mut moved = false;
        let mut f: usize = 0;
        while f < FLOOR_COUNT
            invariant
                f <= FLOOR_COUNT,
                self@.cab_requests.len() == FLOOR_COUNT,
                self@ == (ElevatorView { cab_requests: self@.cab_requests, ..v0 }),
                forall|g: int|
                    0 <= g < FLOOR_COUNT ==> #[trigger] self@.cab_requests[g] == if g < f {
                        after_barrier(v0.cab_requests[g], alive@, id)
                    } else {
                        v0.cab_requests[g]
                    },
                moved == exists|g: int|
                    0 <= g < f && #[trigger] barrier_passes(v0.cab_requests[g], alive@),
            decreases FLOOR_COUNT - f,
        {
            let ghost c0 = self@.cab_requests;
            let m = self.cab_requests[f].pass_barrier(alive, id);
            proof {
                assert(self@.cab_requests =~= c0.update(f as int, after_barrier(c0[f as int], alive@, id)));
            }
            moved = moved || m;
            f += 1;
        }
        proof {
            assert(self@.cab_requests =~= v0.cab_requests.map_values(
                |r: RequestView| after_barrier(r, alive@, id),
            ));
        }
        moved
    }

    /// Merges every cab request with that of `other`; returns whether a state changed.
    fn merge_all_cab(&mut self, other: &Elevator, id: u8) -> (updated: bool)
        ensures
            final(self)@ == merge_cabs(old(self)@, other@, id),
            updated == exists|f: int|
                0 <= f < FLOOR_COUNT && #[trigger] state_changes(
                    old(self)@.cab_requests[f],
                    other@.cab_requests[f],
                ),
    {
        let ghost v0 = self@;
        let mut updated = false;
        let mut f: usize = 0;
        while f < FLOOR_COUNT
            invariant
                f <= FLOOR_COUNT,
                self@.cab_requests.len() == FLOOR_COUNT,
                self@ == (ElevatorView { cab_requests: self@.cab_requests, ..v0 }),
                forall|g: int|
                    0 <= g < FLOOR_COUNT ==> #[trigger] self@.cab_requests[g] == if g < f {
                        merged(v0.cab_requests[g], other@.cab_requests[g], id)
                    } else {
                        v0.cab_requests[g]
                    },
                updated == exists|g: int|
                    0 <= g < f && #[trigger] state_changes(v0.cab_requests[g], other@.cab_requests[g]),
            decreases FLOOR_COUNT - f,
        {
            let ghost c0 = self@.cab_requests;
            let u = self.merge_cab(f, &other.cab_requests[f], id);
            proof {
                assert(other@.cab_requests[f as int] == other.cab_requests@[f as int]@);
                assert(c0[f as int] == v0.cab_requests[f as int]);
                assert(u == state_changes(v0.cab_requests[f as int], other@.cab_requests[f as int]));
            }
            updated = updated || u;
            f += 1;
        }
        proof {
            assert(self@.cab_requests =~= merge_cabs(v0, other@, id).cab_requests);
        }
        updated
    }
}

impl WorldView {
    /// Moves the hall requests through the barrier; returns whether one moved.
    fn hall_pass_barrier(&mut self, alive: &HashSet<u8>) -> (moved: bool)
        ensures
            final(self)@ == (WorldModel {
                hall_requests: hall_after_barrier(old(self)@.hall_requests, alive@, old(self).id),
                ..old(self)@
            }),
            final(self).elevators@ == old(self).elevators@,
            final(self).id == old(self).id,
            moved == barrier_moves_hall(old(self)@, alive@),
    {
        let ghost v0 = self@;
        let id = self.id;
        let mut moved = false;
        let mut i: usize = 0;
        while i < 2 * FLOOR_COUNT
            invariant
                i <= 2 * FLOOR_COUNT,
                id == self.id,
                self.id == old(self).id,
                self.elevators@ == old(self).elevators@,
                v0 == old(self)@,
                self@ == (WorldModel { hall_requests: self@.hall_requests, ..v0 }),
                self@.hall_requests.len() == FLOOR_COUNT,
                forall|f: int| 0 <= f < FLOOR_COUNT ==> (#[trigger] self@.hall_requests[f]).len() == 2,
                forall|f: int, d: int|
                    0 <= f < FLOOR_COUNT && 0 <= d < 2 ==> #[trigger] self@.hall_requests[f][d] == if hall_index(
                        f,
                        d,
                    ) < i {
                        after_barrier(v0.hall_requests[f][d], alive@, id)
                    } else {
                        v0.hall_requests[f][d]
                    },
                moved == exists|f: int, d: int|
                    0 <= f < FLOOR_COUNT && 0 <= d < 2 && hall_index(f, d) < i
                        && #[trigger] barrier_passes(v0.hall_requests[f][d], alive@),
            decreases 2 * FLOOR_COUNT - i,
        {
            let f = i / 2;
            let d = i % 2;
            let ghost h0 = self@.hall_requests;
            let ghost r0 = h0[f as int][d as int];
            let st = self.hall_requests[f][d].state;
            let m = (st == RequestState::Unconfirmed || st == RequestState::Finished) && is_subset_of(
                alive,
                &self.hall_requests[f][d].acks,
            );
            if m {
                if st == RequestState::Unconfirmed {
                    self.set_hall(f, d, RequestState::Confirmed);
                } else {
                    self.set_hall(f, d, RequestState::NoRequest);
                }
            }
            proof {
                assert(r0 == self.hall_requests@[f as int]@[d as int]@ || m);
                assert(hall_index(f as int, d as int) == i);
                if m {
                    assert(self@.hall_requests == hall_with(h0, f as int, d as int, after_barrier(r0, alive@, id)));
                } else {
                    assert(self@.hall_requests == h0);
                }
                assert forall|g: int, e: int| 0 <= g < FLOOR_COUNT && 0 <= e < 2 && hall_index(g, e) < i + 1
                    && !(hall_index(g, e) < i) implies g == f && e == d by {}
            }
            moved = moved || m;
            i += 1;
        }
        proof {
            assert forall|f: int| 0 <= f < FLOOR_COUNT implies #[trigger] self@.hall_requests[f]
                =~= hall_after_barrier(v0.hall_requests, alive@, id)[f] by {}
            assert(self@.hall_requests =~= hall_after_barrier(v0.hall_requests, alive@, id));
        }
        moved
    }

    /// Moves every cab request through the barrier; returns whether one moved.
    fn cabs_pass_barrier(&mut self, alive: &HashSet<u8>) -> (moved: bool)
        ensures
            final(self)@ == (WorldModel {
                elevators: old(self)@.elevators.map_values(
                    |e: ElevatorView| elevator_after_barrier(e, alive@, old(self).id),
                ),
                ..old(self)@
            }),
            final(self).elevators@.dom() == old(self).elevators@.dom(),
            final(self).id == old(self).id,
            moved == barrier_moves_cab(old(self)@, alive@),
    {
        let ghost v0 = self@;
        let ghost after = v0.elevators.map_values(|e: ElevatorView| elevator_after_barrier(e, alive@, v0.id));
        let ids = elevator_ids(&self.elevators);
        let id = self.id;
        let mut moved = false;
        let mut i: usize = 0;
        while i < ids.len()
            invariant
                i <= ids.len(),
                ids@.no_duplicates(),
                forall|k: u8| ids@.contains(k) <==> v0.elevators.contains_key(k),
                id == self.id,
                self.id == old(self).id,
                v0 == old(self)@,
                after == v0.elevators.map_values(|e: ElevatorView| elevator_after_barrier(e, alive@, v0.id)),
                self.elevators@.dom() == old(self).elevators@.dom(),
                self@ == (WorldModel { elevators: self@.elevators, ..v0 }),
                self@.elevators == v0.elevators.union_prefer_right(after.restrict(ids@.take(i as int).to_set())),
                moved == exists|k: u8, f: int|
                    ids@.take(i as int).contains(k) && v0.elevators.contains_key(k) && 0 <= f < FLOOR_COUNT
                        && #[trigger] barrier_passes(v0.elevators[k].cab_requests[f], alive@),
            decreases ids.len() - i,
        {
            let k = ids[i];
            proof {
                assert(ids@.take(i + 1) =~= ids@.take(i as int).push(k));
                ids@.take(i as int).lemma_push_to_set_commute(k);
                assert(ids@.contains(k));
                assert(!ids@.take(i as int).contains(k)) by {
                    if ids@.take(i as int).contains(k) {
                        let j = choose|j: int| 0 <= j < i && ids@[j] == k;
                        assert(ids@[j] == ids@[i as int]);
                    }
                }
                assert(self.elevators@.contains_key(k));
            }
            assert(self@.elevators[k] == v0.elevators[k]);
            let mut e = self.take_elevator(k);
            let m = e.pass_barrier(alive, id);
            self.put_elevator(k, e);
            proof {
                let ex = exists|kk: u8, f: int|
                    ids@.take(i + 1).contains(kk) && v0.elevators.contains_key(kk) && 0 <= f < FLOOR_COUNT
                        && #[trigger] barrier_passes(v0.elevators[kk].cab_requests[f], alive@);
                if m {
                    let f0 = choose|f: int|
                        0 <= f < FLOOR_COUNT && #[trigger] barrier_passes(v0.elevators[k].cab_requests[f], alive@);
                    assert(ids@.take(i + 1)[i as int] == k);
                    assert(ids@.take(i + 1).contains(k));
                    assert(barrier_passes(v0.elevators[k].cab_requests[f0], alive@));
                    assert(ex);
                }
                if moved {
                    let (k0, f0) = choose|kk: u8, f: int|
                        ids@.take(i as int).contains(kk) && v0.elevators.contains_key(kk) && 0 <= f < FLOOR_COUNT
                            && #[trigger] barrier_passes(v0.elevators[kk].cab_requests[f], alive@);
                    assert(ids@.take(i + 1).contains(k0));
                    assert(ex);
                }
                if ex {
                    let (k0, f0) = choose|kk: u8, f: int|
                        ids@.take(i + 1).contains(kk) && v0.elevators.contains_key(kk) && 0 <= f < FLOOR_COUNT
                            && #[trigger] barrier_passes(v0.elevators[kk].cab_requests[f], alive@);
                    if k0 == k {
                        assert(m);
                    } else {
                        assert(ids@.take(i as int).contains(k0));
                        assert(moved);
                    }
                }
                assert(self@.elevators =~= v0.elevators.union_prefer_right(
                    after.restrict(ids@.take(i + 1).to_set()),
                ));
                assert(self.elevators@.dom() =~= old(self).elevators@.dom());
            }
            moved = moved || m;
            i += 1;
        }
        proof {
            assert(ids@.take(ids.len() as int) =~= ids@);
            assert(self@.elevators =~= after);
        }
        moved
    }

    /// Moves through the barrier, at time `now`, every request that all
    /// elevators alive (heard from within 2 seconds) acknowledged: unconfirmed
    /// becomes confirmed, finished becomes no request. Returns whether one moved.
    pub fn update_states_at_barrier_at(&self, now: u64) -> (r: (WorldView, bool))
        ensures
            r.0@ == world_after_barrier(self@, alive_set(self@, 2, now)),
            r.1 == barrier_moves_some(self@, alive_set(self@, 2, now)),
            r.0.elevators@.dom() == self.elevators@.dom(),
            r.0.id == self.id,
    {
        let mut w = self.clone();
        let alive = w.get_alive_elevators_at(2, now);
        let h = w.hall_pass_barrier(&alive);
        let c = w.cabs_pass_barrier(&alive);
        (w, h || c)
    }

    /// [`Self::update_states_at_barrier_at`] at the current time.
    pub fn update_states_at_barrier(&self) -> (r: (WorldView, bool))
        ensures
            exists|now: u64|
                r.0@ == world_after_barrier(self@, #[trigger] alive_set(self@, 2, now)) && r.1
                    == barrier_moves_some(self@, alive_set(self@, 2, now)),
            r.0.elevators@.dom() == self.elevators@.dom(),
            r.0.id == self.id,
    {
        self.update_states_at_barrier_at(now_nanos())
    }
}

impl WorldView {
    /// Adds every elevator that only `foreign` knows.
    fn adopt_unknown_from(&mut self, foreign: &WorldView)
        ensures
            final(self)@ == (WorldModel {
                elevators: adopt_unknown(old(self)@.elevators, foreign@.elevators),
                ..old(self)@
            }),
            final(self).elevators@.dom() == old(self).elevators@.dom().union(foreign.elevators@.dom()),
            final(self).id == old(self).id,
    {
        let ghost v0 = self@;
        let ghost theirs = foreign@.elevators;
        let ids = elevator_ids(&foreign.elevators);
        let mut i: usize = 0;
        while i < ids.len()
            invariant
                i <= ids.len(),
                ids@.no_duplicates(),
                forall|k: u8| ids@.contains(k) <==> theirs.contains_key(k),
                theirs == foreign@.elevators,
                v0 == old(self)@,
                self.id == old(self).id,
                self@ == (WorldModel { elevators: self@.elevators, ..v0 }),
                self@.elevators == theirs.restrict(ids@.take(i as int).to_set()).union_prefer_right(
                    v0.elevators,
                ),
                self.elevators@.dom() == old(self).elevators@.dom().union(
                    foreign.elevators@.dom().intersect(ids@.take(i as int).to_set()),
                ),
            decreases ids.len() - i,
        {
            let k = ids[i];
            proof {
                assert(ids@.take(i + 1) =~= ids@.take(i as int).push(k));
                ids@.take(i as int).lemma_push_to_set_commute(k);
                assert(ids@.contains(k));
            }
            if !self.elevators.contains_key(&k) {
                let e = match foreign.elevators.get(&k) {
                    Some(e) => e.clone(),
                    None => {
                        assert(false);
                        Elevator::new_at(0)
                    },
                };
                self.put_elevator(k, e);
            }
            proof {
                assert(self@.elevators =~= theirs.restrict(ids@.take(i + 1).to_set()).union_prefer_right(
                    v0.elevators,
                ));
                assert(self.elevators@.dom() =~= old(self).elevators@.dom().union(
                    foreign.elevators@.dom().intersect(ids@.take(i + 1).to_set()),
                ));
            }
            i += 1;
        }
        proof {
            assert(ids@.take(ids.len() as int) =~= ids@);
            assert(self@.elevators =~= adopt_unknown(v0.elevators, theirs));
            assert(self.elevators@.dom() =~= old(self).elevators@.dom().union(foreign.elevators@.dom()));
        }
    }

    /// The sender of `foreign` reported its own state: record it, heard at `now`.
    fn refresh_sender_from(&mut self, foreign: &WorldView, now: u64)
        requires
            foreign.elevators@.contains_key(foreign.id) ==> old(self).elevators@.contains_key(foreign.id),
        ensures
            final(self)@ == (WorldModel {
                elevators: refresh_sender(old(self)@.elevators, foreign@.elevators, foreign.id, now),
                ..old(self)@
            }),
            final(self).elevators@.dom() == old(self).elevators@.dom(),
            final(self).id == old(self).id,
    {
        let fid = foreign.id;
        match foreign.elevators.get(&fid) {
            Some(e) => {
                let mut u = self.take_elevator(fid);
                if u.state.current_floor != e.state.current_floor || u.state.behaviour != e.state.behaviour {
                    u.last_moved = now;
                    u.is_working = true;
                }
                u.last_received = now;
                u.state = e.state;
                self.put_elevator(fid, u);
                proof {
                    assert(self@.elevators =~= refresh_sender(
                        old(self)@.elevators,
                        foreign@.elevators,
                        foreign.id,
                        now,
                    ));
                    assert(self.elevators@.dom() =~= old(self).elevators@.dom());
                }
            },
            None => {},
        }
    }

    /// Merges every hall request with that of `foreign`; returns whether a state changed.
    fn merge_hall_from(&mut self, foreign: &WorldView) -> (updated: bool)
        ensures
            final(self)@ == (WorldModel {
                hall_requests: merged_hall(old(self)@.hall_requests, foreign@.hall_requests, old(self).id),
                ..old(self)@
            }),
            final(self).elevators@ == old(self).elevators@,
            final(self).id == old(self).id,
            updated == exists|f: int, d: int|
                0 <= f < FLOOR_COUNT && 0 <= d < 2 && #[trigger] state_changes(
                    old(self)@.hall_requests[f][d],
                    foreign@.hall_requests[f][d],
                ),
    {
        let ghost v0 = self@;
        let id = self.id;
        let mut updated = false;
        let mut i: usize = 0;
        while i < 2 * FLOOR_COUNT
            invariant
                i <= 2 * FLOOR_COUNT,
                id == self.id,
                self.id == old(self).id,
                self.elevators@ == old(self).elevators@,
                v0 == old(self)@,
                self@ == (WorldModel { hall_requests: self@.hall_requests, ..v0 }),
                self@.hall_requests.len() == FLOOR_COUNT,
                forall|f: int| 0 <= f < FLOOR_COUNT ==> (#[trigger] self@.hall_requests[f]).len() == 2,
                forall|f: int, d: int|
                    0 <= f < FLOOR_COUNT && 0 <= d < 2 ==> #[trigger] self@.hall_requests[f][d] == if hall_index(
                        f,
                        d,
                    ) < i {
                        merged(v0.hall_requests[f][d], foreign@.hall_requests[f][d], id)
                    } else {
                        v0.hall_requests[f][d]
                    },
                updated == exists|f: int, d: int|
                    0 <= f < FLOOR_COUNT && 0 <= d < 2 && hall_index(f, d) < i
                        && #[trigger] state_changes(v0.hall_requests[f][d], foreign@.hall_requests[f][d]),
            decreases 2 * FLOOR_COUNT - i,
        {
            let f = i / 2;
            let d = i % 2;
            let ghost h0 = self@.hall_requests;
            let u = self.merge_hall(f, d, &foreign.hall_requests[f][d]);
            proof {
                assert(hall_index(f as int, d as int) == i);
                assert(foreign@.hall_requests[f as int][d as int] == foreign.hall_requests@[f as int]@[d as int]@);
                assert(h0[f as int][d as int] == v0.hall_requests[f as int][d as int]);
                assert(u == state_changes(v0.hall_requests[f as int][d as int], foreign@.hall_requests[f as int][d as int]));
                assert forall|g: int, e: int| 0 <= g < FLOOR_COUNT && 0 <= e < 2 && hall_index(g, e) < i + 1
                    && !(hall_index(g, e) < i) implies g == f && e == d by {}
            }
            updated = updated || u;
            i += 1;
        }
        proof {
            assert forall|f: int| 0 <= f < FLOOR_COUNT implies #[trigger] self@.hall_requests[f]
                =~= merged_hall(v0.hall_requests, foreign@.hall_requests, id)[f] by {}
            assert(self@.hall_requests =~= merged_hall(v0.hall_requests, foreign@.hall_requests, id));
        }
        updated
    }

    /// Merges the cab requests of every elevator `foreign` knows; returns
    /// whether a state changed.
    fn merge_cabs_from(&mut self, foreign: &WorldView) -> (updated: bool)
        requires
            foreign.elevators@.dom().subset_of(old(self).elevators@.dom()),
        ensures
            final(self)@ == (WorldModel {
                elevators: merge_all_cabs(old(self)@.elevators, foreign@.elevators, old(self).id),
                ..old(self)@
            }),
            final(self).elevators@.dom() == old(self).elevators@.dom(),
            final(self).id == old(self).id,
            updated == exists|k: u8, f: int|
                foreign@.elevators.contains_key(k) && 0 <= f < FLOOR_COUNT && #[trigger] state_changes(
                    old(self)@.elevators[k].cab_requests[f],
                    foreign@.elevators[k].cab_requests[f],
                ),
    {
        let ghost v0 = self@;
        let ghost theirs = foreign@.elevators;
        let ghost merged_map = Map::new(
            |k: u8| theirs.contains_key(k) && v0.elevators.contains_key(k),
            |k: u8| merge_cabs(v0.elevators[k], theirs[k], v0.id),
        );
        let ids = elevator_ids(&foreign.elevators);
        let id = self.id;
        let mut updated = false;
        let mut i: usize = 0;
        while i < ids.len()
            invariant
                i <= ids.len(),
                ids@.no_duplicates(),
                forall|k: u8| ids@.contains(k) <==> theirs.contains_key(k),
                theirs == foreign@.elevators,
                foreign.elevators@.dom().subset_of(old(self).elevators@.dom()),
                id == self.id,
                self.id == old(self).id,
                v0 == old(self)@,
                merged_map == Map::new(
                    |k: u8| theirs.contains_key(k) && v0.elevators.contains_key(k),
                    |k: u8| merge_cabs(v0.elevators[k], theirs[k], v0.id),
                ),
                self.elevators@.dom() == old(self).elevators@.dom(),
                self@ == (WorldModel { elevators: self@.elevators, ..v0 }),
                self@.elevators == v0.elevators.union_prefer_right(
                    merged_map.restrict(ids@.take(i as int).to_set()),
                ),
                updated == exists|k: u8, f: int|
                    ids@.take(i as int).contains(k) && theirs.contains_key(k) && 0 <= f < FLOOR_COUNT
                        && #[trigger] state_changes(v0.elevators[k].cab_requests[f], theirs[k].cab_requests[f]),
            decreases ids.len() - i,
        {
            let k = ids[i];
            proof {
                assert(ids@.take(i + 1) =~= ids@.take(i as int).push(k));
                ids@.take(i as int).lemma_push_to_set_commute(k);
                assert(ids@.contains(k));
                assert(ids@.take(i + 1)[i as int] == k);
                assert(!ids@.take(i as int).contains(k)) by {
                    if ids@.take(i as int).contains(k) {
                        let j = choose|j: int| 0 <= j < i && ids@[j] == k;
                        assert(ids@[j] == ids@[i as int]);
                    }
                }
                assert(self.elevators@.contains_key(k));
            }
            assert(self@.elevators[k] == v0.elevators[k]);
            let fe = match foreign.elevators.get(&k) {
                Some(e) => e,
                None => {
                    assert(false);
                    return updated;
                },
            };
            let mut e = self.take_elevator(k);
            let u = e.merge_all_cab(fe, id);
            self.put_elevator(k, e);
            proof {
                assert(fe@ == theirs[k]);
                assert(self@.elevators =~= v0.elevators.union_prefer_right(
                    merged_map.restrict(ids@.take(i + 1).to_set()),
                ));
                assert(self.elevators@.dom() =~= old(self).elevators@.dom());
                let ex = exists|kk: u8, f: int|
                    ids@.take(i + 1).contains(kk) && theirs.contains_key(kk) && 0 <= f < FLOOR_COUNT
                        && #[trigger] state_changes(v0.elevators[kk].cab_requests[f], theirs[kk].cab_requests[f]);
                if u {
                    let f0 = choose|f: int|
                        0 <= f < FLOOR_COUNT && #[trigger] state_changes(
                            v0.elevators[k].cab_requests[f],
                            theirs[k].cab_requests[f],
                        );
                    assert(state_changes(v0.elevators[k].cab_requests[f0], theirs[k].cab_requests[f0]));
                    assert(ex);
                }
                if updated {
                    let (k0, f0) = choose|kk: u8, f: int|
                        ids@.take(i as int).contains(kk) && theirs.contains_key(kk) && 0 <= f < FLOOR_COUNT
                            && #[trigger] state_changes(v0.elevators[kk].cab_requests[f], theirs[kk].cab_requests[f]);
                    assert(ids@.take(i + 1).contains(k0));
                    assert(ex);
                }
                if ex {
                    let (k0, f0) = choose|kk: u8, f: int|
                        ids@.take(i + 1).contains(kk) && theirs.contains_key(kk) && 0 <= f < FLOOR_COUNT
                            && #[trigger] state_changes(v0.elevators[kk].cab_requests[f], theirs[kk].cab_requests[f]);
                    if k0 == k {
                        assert(u);
                    } else {
                        assert(ids@.take(i as int).contains(k0));
                        assert(updated);
                    }
                }
            }
            updated = updated || u;
            i += 1;
        }
        proof {
            assert(ids@.take(ids.len() as int) =~= ids@);
            assert(self@.elevators =~= merge_all_cabs(v0.elevators, theirs, v0.id));
        }
        updated
    }

    /// Merges a view received from another elevator at time `now`: adopt the
    /// elevators it knows and this one does not, take the sender's reported
    /// state, merge every hall and cab request, then run the barrier.
    /// Returns whether some request state changed.
    pub fn handle_foreign_world_view_at(&self, foreign_world_view: WorldView, now: u64) -> (r: (
        WorldView,
        bool,
    ))
        ensures
            ({
                let mid = received(self@, foreign_world_view@, now);
                let alive = alive_set(mid, 2, now);
                &&& r.0@ == world_after_barrier(mid, alive)
                &&& r.1 == (receive_changes(self@, foreign_world_view@, now) || barrier_moves_some(
                    mid,
                    alive,
                ))
            }),
            self.wf() ==> r.0.wf(),
            r.0.id == self.id,
    {
        let foreign = foreign_world_view;
        let mut w = self.clone();
        w.adopt_unknown_from(&foreign);
        w.refresh_sender_from(&foreign, now);
        let ghost m2 = w@.elevators;
        let h = w.merge_hall_from(&foreign);
        let c = w.merge_cabs_from(&foreign);
        proof {
            assert(m2 == received_elevators(self@, foreign@, now));
            assert(w@ == received(self@, foreign@, now));
        }
        let (w2, b) = w.update_states_at_barrier_at(now);
        (w2, h || c || b)
    }

    /// [`Self::handle_foreign_world_view_at`] at the current time.
    pub fn handle_foreign_world_view(&self, foreign_world_view: WorldView) -> (r: (WorldView, bool))
        ensures
            exists|now: u64|
                {
                    let mid = #[trigger] received(self@, foreign_world_view@, now);
                    let alive = alive_set(mid, 2, now);
                    &&& r.0@ == world_after_barrier(mid, alive)
                    &&& r.1 == (receive_changes(self@, foreign_world_view@, now) || barrier_moves_some(
                        mid,
                        alive,
                    ))
                },
            self.wf() ==> r.0.wf(),
            r.0.id == self.id,
    {
        self.handle_foreign_world_view_at(foreign_world_view, now_nanos())
    }
}

/// One difference between two world views.
#[allow(inconsistent_fields)]
#[derive(Debug, Clone, Copy, PartialEq)]
pub enum WorldViewChange {
    /// Hall request `(floor, dir)` changed state.
    HallRequestState { floor: usize, dir: usize, from: RequestState, to: RequestState },
    /// An elevator appeared.
    NewElevator(u8),
    /// A cab request of an elevator changed state.
    CabRequestState { id: u8, floor: usize, from: RequestState, to: RequestState },
    /// An elevator's direction changed.
    Dirn { id: u8, from: Dirn, to: Dirn },
    /// An elevator's floor changed.
    CurrentFloor { id: u8, from: i8, to: i8 },
    /// An elevator's behaviour changed.
    Behaviour { id: u8, from: ElevatorBehaviour, to: ElevatorBehaviour },
    /// An elevator disappeared.
    Removed(u8),
}

/// Whether `c` is a difference from `a` to `b`.
pub open spec fn is_change(a: WorldModel, b: WorldModel, c: WorldViewChange) -> bool {
    match c {
        WorldViewChange::HallRequestState { floor, dir, from, to } => {
            &&& floor < FLOOR_COUNT && dir < 2
            &&& from == a.hall_requests[floor as int][dir as int].state
            &&& to == b.hall_requests[floor as int][dir as int].state
            &&& from != to
        },
        WorldViewChange::NewElevator(k) => b.elevators.contains_key(k) && !a.elevators.contains_key(k),
        WorldViewChange::CabRequestState { id, floor, from, to } => {
            &&& a.elevators.contains_key(id) && b.elevators.contains_key(id)
            &&& floor < FLOOR_COUNT
            &&& from == a.elevators[id].cab_requests[floor as int].state
            &&& to == b.elevators[id].cab_requests[floor as int].state
            &&& from != to
        },
        WorldViewChange::Dirn { id, from, to } => {
            &&& a.elevators.contains_key(id) && b.elevators.contains_key(id)
            &&& from == a.elevators[id].state.dirn && to == b.elevators[id].state.dirn
            &&& from != to
        },
        WorldViewChange::CurrentFloor { id, from, to } => {
            &&& a.elevators.contains_key(id) && b.elevators.contains_key(id)
            &&& from == a.elevators[id].state.current_floor
            &&& to == b.elevators[id].state.current_floor
            &&& from != to
        },
        WorldViewChange::Behaviour { id, from, to } => {
            &&& a.elevators.contains_key(id) && b.elevators.contains_key(id)
            &&& from == a.elevators[id].state.behaviour && to == b.elevators[id].state.behaviour
            &&& from != to
        },
        WorldViewChange::Removed(k) => a.elevators.contains_key(k) && !b.elevators.contains_key(k),
    }
}

/// The elevator a per-elevator change is about.
pub open spec fn change_subject(c: WorldViewChange) -> Option<u8> {
    match c {
        WorldViewChange::CabRequestState { id, .. } => Some(id),
        WorldViewChange::Dirn { id, .. } => Some(id),
        WorldViewChange::CurrentFloor { id, .. } => Some(id),
        WorldViewChange::Behaviour { id, .. } => Some(id),
        WorldViewChange::Removed(k) => Some(k),
        _ => None,
    }
}

/// Changes found after looking at the first `hall` hall requests, the new
/// elevators among `seen_new` and the own elevators among `seen_own`.
pub open spec fn change_covered(c: WorldViewChange, hall: int, seen_new: Set<u8>, seen_own: Set<u8>) -> bool {
    match c {
        WorldViewChange::HallRequestState { floor, dir, .. } => hall_index(floor as int, dir as int) < hall,
        WorldViewChange::NewElevator(k) => seen_new.contains(k),
        _ => change_subject(c) matches Some(k) && seen_own.contains(k),
    }
}

/// The part of a comparison a change belongs to: 0 for hall requests, 1
/// for new elevators, 2 for the elevators of the first view.
pub open spec fn change_part(c: WorldViewChange) -> int {
    match c {
        WorldViewChange::HallRequestState { .. } => 0,
        WorldViewChange::NewElevator(_) => 1,
        _ => 2,
    }
}

/// The place of a change within its part: a hall request by its flat index;
/// for one elevator its cab requests by floor, then direction, floor and
/// behaviour.
pub open spec fn change_place(c: WorldViewChange) -> int {
    match c {
        WorldViewChange::HallRequestState { floor, dir, .. } => hall_index(floor as int, dir as int),
        WorldViewChange::CabRequestState { floor, .. } => floor as int,
        WorldViewChange::Dirn { .. } => 4,
        WorldViewChange::CurrentFloor { .. } => 5,
        WorldViewChange::Behaviour { .. } => 6,
        _ => 0,
    }
}

/// Whether `a` may stand before `b` in a list of changes.
pub open spec fn comes_before(a: WorldViewChange, b: WorldViewChange) -> bool {
    &&& change_part(a) <= change_part(b)
    &&& change_part(a) == 0 && change_part(b) == 0 ==> change_place(a) < change_place(b)
    &&& change_part(a) == 2 && change_part(b) == 2 && change_subject(a) == change_subject(b)
        ==> change_place(a) < change_place(b)
}

/// The order of a comparison: hall requests by index, then new elevators,
/// then the changes of each elevator of the first view together, each in
/// its place.
pub open spec fn changes_in_order(s: Seq<WorldViewChange>) -> bool {
    &&& forall|i: int, j: int| 0 <= i < j < s.len() ==> comes_before(#[trigger] s[i], #[trigger] s[j])
    &&& forall|i: int, j: int, l: int|
        0 <= i < j < l < s.len() && change_part(#[trigger] s[i]) == 2 && change_subject(s[i])
            == change_subject(#[trigger] s[l]) ==> change_subject(#[trigger] s[j]) == change_subject(s[i])
}

/// Appending a change that may follow every listed one, and that does not
/// split the changes of one elevator, keeps the order.
proof fn lemma_push_in_order(s: Seq<WorldViewChange>, x: WorldViewChange)
    requires
        changes_in_order(s),
        forall|i: int| 0 <= i < s.len() ==> comes_before(#[trigger] s[i], x),
        change_part(x) == 2 ==> forall|i: int, j: int|
            0 <= i < j < s.len() && change_part(#[trigger] s[i]) == 2 && change_subject(s[i])
                == change_subject(x) ==> change_subject(#[trigger] s[j]) == change_subject(x),
    ensures
        changes_in_order(s.push(x)),
{
    let t = s.push(x);
    assert forall|i: int, j: int| 0 <= i < j < t.len() implies comes_before(#[trigger] t[i], #[trigger] t[j]) by {
        if j == s.len() {
            assert(t[i] == s[i]);
        } else {
            assert(t[i] == s[i] && t[j] == s[j]);
        }
    }
    assert forall|i: int, j: int, l: int|
        0 <= i < j < l < t.len() && change_part(#[trigger] t[i]) == 2 && change_subject(t[i])
            == change_subject(#[trigger] t[l]) implies change_subject(#[trigger] t[j]) == change_subject(t[i]) by {
        assert(t[i] == s[i] && t[j] == s[j]);
        if l < s.len() {
            assert(t[l] == s[l]);
        } else {
            assert(comes_before(s[i], x));
        }
    }
}

/// Appending a change of elevator `k` after the block of its changes that
/// starts at `start` keeps the order, and the change is new to the list.
proof fn lemma_push_elevator_change(s: Seq<WorldViewChange>, start: int, k: u8, x: WorldViewChange)
    requires
        changes_in_order(s),
        0 <= start <= s.len(),
        change_part(x) == 2,
        change_subject(x) == Some(k),
        forall|j: int| 0 <= j < start ==> change_subject(#[trigger] s[j]) != Some(k) || change_part(s[j]) != 2,
        forall|j: int|
            start <= j < s.len() ==> change_part(#[trigger] s[j]) == 2 && change_subject(s[j]) == Some(k)
                && change_place(s[j]) < change_place(x),
    ensures
        changes_in_order(s.push(x)),
        !s.contains(x),
{
    assert forall|i: int| 0 <= i < s.len() implies comes_before(#[trigger] s[i], x) by {}
    lemma_push_in_order(s, x);
    if s.contains(x) {
        let j = choose|j: int| 0 <= j < s.len() && s[j] == x;
        assert(change_subject(s[j]) == Some(k));
    }
}

/// A list without repeats stays so when a new element is appended.
proof fn lemma_push_no_duplicates<A>(s: Seq<A>, x: A)
    requires
        s.no_duplicates(),
        !s.contains(x),
    ensures
        s.push(x).no_duplicates(),
{
    assert forall|i: int, j: int| 0 <= i < s.push(x).len() && 0 <= j < s.push(x).len() && i != j implies s.push(
        x,
    )[i] != s.push(x)[j] by {
        if i == s.len() {
            assert(s[j] == s.push(x)[j]);
        } else if j == s.len() {
            assert(s[i] == s.push(x)[i]);
        } else {
            assert(s[i] == s.push(x)[i] && s[j] == s.push(x)[j]);
        }
    }
}

/// What pushing an element does to membership.
pub proof fn lemma_push_contains<A>(s: Seq<A>, x: A)
    ensures
        forall|y: A| #[trigger] s.push(x).contains(y) <==> (s.contains(y) || x == y),
{
    assert forall|y: A| #[trigger] s.push(x).contains(y) <==> (s.contains(y) || x == y) by {
        if s.push(x).contains(y) {
            let i = choose|i: int| 0 <= i < s.len() + 1 && s.push(x)[i] == y;
            if i < s.len() {
                assert(s[i] == y);
            }
        }
        if s.contains(y) {
            let i = choose|i: int| 0 <= i < s.len() && s[i] == y;
            assert(s.push(x)[i] == y);
        }
        if x == y {
            assert(s.push(x)[s.len() as int] == y);
        }
    }
}

impl WorldView {
    /// The differences from this view to `other_world_view`: changed hall
    /// requests, new elevators, and for every elevator of this view its
    /// changed cab requests, direction, floor and behaviour, or its removal.
    pub fn compare_world_views(&self, other_world_view: &WorldView) -> (changes: Vec<WorldViewChange>)
        ensures
            forall|c: WorldViewChange| changes@.contains(c) <==> is_change(self@, other_world_view@, c),
            changes@.no_duplicates(),
            changes_in_order(changes@),
    {
        let ghost a = self@;
        let ghost b = other_world_view@;
        let other = other_world_view;
        let mut changes: Vec<WorldViewChange> = Vec::new();
        let mut i: usize = 0;
        while i < 2 * FLOOR_COUNT
            invariant
                i <= 2 * FLOOR_COUNT,
                a == self@,
                b == other@,
                forall|c: WorldViewChange|
                    #[trigger] changes@.contains(c) <==> is_change(a, b, c) && change_covered(
                        c,
                        i as int,
                        Set::empty(),
                        Set::empty(),
                    ),
                changes@.no_duplicates(),
                changes_in_order(changes@),
                forall|q: int|
                    0 <= q < changes@.len() ==> change_part(#[trigger] changes@[q]) == 0 && change_place(
                        changes@[q],
                    ) < i,
            decreases 2 * FLOOR_COUNT - i,
        {
            let f = i / 2;
            let d = i % 2;
            let from = self.hall_requests[f][d].state;
            let to = other.hall_requests[f][d].state;
            let x = WorldViewChange::HallRequestState { floor: f, dir: d, from, to };
            let ghost before = changes@;
            if from != to {
                changes.push(x);
            }
            proof {
                lemma_push_contains(before, x);
                assert(hall_index(f as int, d as int) == i);
                if from != to {
                    if before.contains(x) {
                        let q = choose|q: int| 0 <= q < before.len() && before[q] == x;
                        assert(change_place(before[q]) < i);
                    }
                    lemma_push_in_order(before, x);
                    lemma_push_no_duplicates(before, x);
                }
                assert forall|q: int| 0 <= q < changes@.len() implies change_part(#[trigger] changes@[q]) == 0
                    && change_place(changes@[q]) < i + 1 by {
                    if q < before.len() {
                        assert(changes@[q] == before[q]);
                    }
                }
                assert(from == a.hall_requests[f as int][d as int].state);
                assert(to == b.hall_requests[f as int][d as int].state);
                assert forall|c: WorldViewChange|
                    #[trigger] changes@.contains(c) <==> is_change(a, b, c) && change_covered(
                        c,
                        i + 1,
                        Set::empty(),
                        Set::empty(),
                    ) by {
                    match c {
                        WorldViewChange::HallRequestState { floor, dir, .. } => {
                            if hall_index(floor as int, dir as int) == i && floor < FLOOR_COUNT && dir < 2 {
                                assert(floor == f && dir == d);
                            }
                        },
                        _ => {},
                    }
                }
            }
            i += 1;
        }
        let theirs = elevator_ids(&other.elevators);
        let mut j: usize = 0;
        while j < theirs.len()
            invariant
                j <= theirs.len(),
                a == self@,
                b == other@,
                forall|k: u8| theirs@.contains(k) <==> other.elevators@.contains_key(k),
                forall|c: WorldViewChange|
                    #[trigger] changes@.contains(c) <==> is_change(a, b, c) && change_covered(
                        c,
                        2 * FLOOR_COUNT,
                        theirs@.take(j as int).to_set(),
                        Set::empty(),
                    ),
                theirs@.no_duplicates(),
                changes@.no_duplicates(),
                changes_in_order(changes@),
                forall|q: int| 0 <= q < changes@.len() ==> change_part(#[trigger] changes@[q]) <= 1,
            decreases theirs.len() - j,
        {
            let k = theirs[j];
            let x = WorldViewChange::NewElevator(k);
            let ghost before = changes@;
            proof {
                assert(theirs@.take(j + 1) =~= theirs@.take(j as int).push(k));
                theirs@.take(j as int).lemma_push_to_set_commute(k);
                assert(theirs@.contains(k));
            }
            if !self.elevators.contains_key(&k) {
                changes.push(x);
            }
            proof {
                lemma_push_contains(before, x);
                if !a.elevators.contains_key(k) {
                    assert(!theirs@.take(j as int).contains(k)) by {
                        if theirs@.take(j as int).contains(k) {
                            let q = choose|q: int| 0 <= q < j && theirs@[q] == k;
                            assert(theirs@[q] == theirs@[j as int]);
                        }
                    }
                    assert(!before.contains(x));
                    lemma_push_in_order(before, x);
                    lemma_push_no_duplicates(before, x);
                }
                assert forall|q: int| 0 <= q < changes@.len() implies change_part(#[trigger] changes@[q]) <= 1 by {
                    if q < before.len() {
                        assert(changes@[q] == before[q]);
                    }
                }
            }
            j += 1;
        }
        proof {
            assert(theirs@.take(theirs.len() as int) =~= theirs@);
        }
        let mine = elevator_ids(&self.elevators);
        let mut m: usize = 0;
        while m < mine.len()
            invariant
                m <= mine.len(),
                a == self@,
                b == other@,
                forall|k: u8| mine@.contains(k) <==> self.elevators@.contains_key(k),
                forall|k: u8| theirs@.contains(k) <==> other.elevators@.contains_key(k),
                forall|c: WorldViewChange|
                    #[trigger] changes@.contains(c) <==> is_change(a, b, c) && change_covered(
                        c,
                        2 * FLOOR_COUNT,
                        theirs@.to_set(),
                        mine@.take(m as int).to_set(),
                    ),
                mine@.no_duplicates(),
                changes@.no_duplicates(),
                changes_in_order(changes@),
                forall|q: int|
                    0 <= q < changes@.len() && change_part(#[trigger] changes@[q]) == 2 ==> (change_subject(
                        changes@[q],
                    ) matches Some(kk) && mine@.take(m as int).contains(kk)),
            decreases mine.len() - m,
        {
            let k = mine[m];
            let ghost before = changes@;
            let ghost start = changes@.len() as int;
            proof {
                assert(mine@.take(m + 1) =~= mine@.take(m as int).push(k));
                mine@.take(m as int).lemma_push_to_set_commute(k);
                assert(mine@.contains(k));
                lemma_push_contains(mine@.take(m as int), k);
                assert(!mine@.take(m as int).contains(k)) by {
                    if mine@.take(m as int).contains(k) {
                        let q = choose|q: int| 0 <= q < m && mine@[q] == k;
                        assert(mine@[q] == mine@[m as int]);
                    }
                }
                assert forall|q: int| 0 <= q < start implies change_subject(#[trigger] before[q]) != Some(k)
                    || change_part(before[q]) != 2 by {}
            }
            let elev = match self.elevators.get(&k) {
                Some(e) => e,
                None => {
                    assert(false);
                    return changes;
                },
            };
            match other.elevators.get(&k) {
                Some(oe) => {
                    let mut f: usize = 0;
                    while f < FLOOR_COUNT
                        invariant
                            f <= FLOOR_COUNT,
                            a == self@,
                            b == other@,
                            elev@ == a.elevators[k],
                            oe@ == b.elevators[k],
                            a.elevators.contains_key(k),
                            b.elevators.contains_key(k),
                            forall|c: WorldViewChange|
                                #[trigger] changes@.contains(c) <==> is_change(a, b, c) && (change_covered(
                                    c,
                                    2 * FLOOR_COUNT,
                                    theirs@.to_set(),
                                    mine@.take(m as int).to_set(),
                                ) || (c matches WorldViewChange::CabRequestState { id, floor, .. } && id == k
                                    && floor < f)),
                            changes@.no_duplicates(),
                            changes_in_order(changes@),
                            0 <= start <= changes@.len(),
                            start == before.len(),
                            forall|q: int| 0 <= q < start ==> #[trigger] changes@[q] == before[q],
                            forall|q: int|
                                0 <= q < start ==> change_subject(#[trigger] changes@[q]) != Some(k)
                                    || change_part(changes@[q]) != 2,
                            forall|q: int|
                                start <= q < changes@.len() ==> change_part(#[trigger] changes@[q]) == 2
                                    && change_subject(changes@[q]) == Some(k) && change_place(changes@[q]) < f,
                        decreases FLOOR_COUNT - f,
                    {
                        let from = elev.cab_requests[f].state;
                        let to = oe.cab_requests[f].state;
                        let x = WorldViewChange::CabRequestState { id: k, floor: f, from, to };
                        let ghost before2 = changes@;
                        if from != to {
                            changes.push(x);
                        }
                        proof {
                            if from != to {
                                assert(changes@ == before2.push(x));
                                lemma_push_elevator_change(before2, start, k, x);
                                lemma_push_no_duplicates(before2, x);
                            }
                            assert forall|q: int|
                                start <= q < changes@.len() implies change_part(#[trigger] changes@[q]) == 2
                                    && change_subject(changes@[q]) == Some(k) && change_place(changes@[q]) < f + 1 by {
                                if q < before2.len() {
                                    assert(changes@[q] == before2[q]);
                                }
                            }
                            lemma_push_contains(before2, x);
                            assert(from == a.elevators[k].cab_requests[f as int].state);
                            assert(to == b.elevators[k].cab_requests[f as int].state);
                        }
                        f += 1;
                    }
                    let x1 = WorldViewChange::Dirn { id: k, from: elev.state.dirn, to: oe.state.dirn };
                    let x2 = WorldViewChange::CurrentFloor {
                        id: k,
                        from: elev.state.current_floor,
                        to: oe.state.current_floor,
                    };
                    let x3 = WorldViewChange::Behaviour {
                        id: k,
                        from: elev.state.behaviour,
                        to: oe.state.behaviour,
                    };
                    let ghost before3 = changes@;
                    if elev.state.dirn != oe.state.dirn {
                        changes.push(x1);
                    }
                    proof {
                        if elev.state.dirn != oe.state.dirn {
                            lemma_push_elevator_change(before3, start, k, x1);
                            lemma_push_no_duplicates(before3, x1);
                        }
                        assert forall|q: int|
                            start <= q < changes@.len() implies change_part(#[trigger] changes@[q]) == 2
                                && change_subject(changes@[q]) == Some(k) && change_place(changes@[q]) < 5 by {
                            if q < before3.len() {
                                assert(changes@[q] == before3[q]);
                            }
                        }
                        assert forall|q: int| 0 <= q < start implies change_subject(#[trigger] changes@[q])
                            != Some(k) || change_part(changes@[q]) != 2 by {
                            assert(changes@[q] == before3[q]);
                        }
                        assert forall|q: int| 0 <= q < start implies #[trigger] changes@[q] == before[q] by {
                            assert(changes@[q] == before3[q]);
                        }
                    }
                    let ghost before4 = changes@;
                    if elev.state.current_floor != oe.state.current_floor {
                        changes.push(x2);
                    }
                    proof {
                        if elev.state.current_floor != oe.state.current_floor {
                            lemma_push_elevator_change(before4, start, k, x2);
                            lemma_push_no_duplicates(before4, x2);
                        }
                        assert forall|q: int|
                            start <= q < changes@.len() implies change_part(#[trigger] changes@[q]) == 2
                                && change_subject(changes@[q]) == Some(k) && change_place(changes@[q]) < 6 by {
                            if q < before4.len() {
                                assert(changes@[q] == before4[q]);
                            }
                        }
                        assert forall|q: int| 0 <= q < start implies change_subject(#[trigger] changes@[q])
                            != Some(k) || change_part(changes@[q]) != 2 by {
                            assert(changes@[q] == before4[q]);
                        }
                        assert forall|q: int| 0 <= q < start implies #[trigger] changes@[q] == before[q] by {
                            assert(changes@[q] == before4[q]);
                        }
                    }
                    let ghost before5 = changes@;
                    if elev.state.behaviour != oe.state.behaviour {
                        changes.push(x3);
                    }
                    proof {
                        if elev.state.behaviour != oe.state.behaviour {
                            lemma_push_elevator_change(before5, start, k, x3);
                            lemma_push_no_duplicates(before5, x3);
                        }
                        assert forall|q: int|
                            start <= q < changes@.len() implies change_part(#[trigger] changes@[q]) == 2
                                && change_subject(changes@[q]) == Some(k) && change_place(changes@[q]) < 7 by {
                            if q < before5.len() {
                                assert(changes@[q] == before5[q]);
                            }
                        }
                        assert forall|q: int| 0 <= q < start implies change_subject(#[trigger] changes@[q])
                            != Some(k) || change_part(changes@[q]) != 2 by {
                            assert(changes@[q] == before5[q]);
                        }
                        assert forall|q: int| 0 <= q < start implies #[trigger] changes@[q] == before[q] by {
                            assert(changes@[q] == before5[q]);
                        }
                    }
                    proof {
                        lemma_push_contains(before3, x1);
                        lemma_push_contains(before4, x2);
                        lemma_push_contains(before5, x3);
                        assert forall|c: WorldViewChange|
                            #[trigger] changes@.contains(c) <==> is_change(a, b, c) && change_covered(
                                c,
                                2 * FLOOR_COUNT,
                                theirs@.to_set(),
                                mine@.take(m + 1).to_set(),
                            ) by {
                            assert(changes@.contains(c) <==> (before3.contains(c) || (c == x1 && elev.state.dirn
                                != oe.state.dirn) || (c == x2 && elev.state.current_floor
                                != oe.state.current_floor) || (c == x3 && elev.state.behaviour
                                != oe.state.behaviour)));
                        }
                    }
                },
                None => {
                    let x = WorldViewChange::Removed(k);
                    changes.push(x);
                    proof {
                        lemma_push_contains(before, x);
                        lemma_push_elevator_change(before, start, k, x);
                        lemma_push_no_duplicates(before, x);
                    }
                },
            }
            proof {
                assert forall|q: int|
                    0 <= q < changes@.len() && change_part(#[trigger] changes@[q]) == 2 implies (change_subject(
                    changes@[q],
                ) matches Some(kk) && mine@.take(m + 1).contains(kk)) by {
                    if q < start {
                        assert(changes@[q] == before[q]);
                        let kk = change_subject(before[q])->0;
                        assert(mine@.take(m as int).contains(kk));
                    } else {
                        assert(mine@.take(m + 1)[m as int] == k);
                    }
                }
            }
            m += 1;
        }
        proof {
            assert(mine@.take(mine.len() as int) =~= mine@);
            assert forall|c: WorldViewChange| is_change(a, b, c) implies change_covered(
                c,
                2 * FLOOR_COUNT,
                theirs@.to_set(),
                mine@.to_set(),
            ) by {
                match c {
                    WorldViewChange::NewElevator(k) => {
                        assert(theirs@.contains(k));
                    },
                    WorldViewChange::HallRequestState { floor, dir, .. } => {},
                    _ => {
                        assert(mine@.contains(change_subject(c)->0));
                    },
                }
            }
        }
        changes
    }
}

/// The next state in the cycle `NoRequest -> Unconfirmed -> Confirmed ->
/// Finished -> NoRequest`.
pub open spec fn cycle_next(s: RequestState) -> RequestState {
    match s {
        RequestState::NoRequest => RequestState::Unconfirmed,
        RequestState::Unconfirmed => RequestState::Confirmed,
        RequestState::Confirmed => RequestState::Finished,
        RequestState::Finished => RequestState::NoRequest,
    }
}

/// Merging only moves a request forward in the cycle: a copy one step
/// ahead always wins, whichever side holds it (so a served, finished call
/// is never brought back by a confirmed copy), and the result is never
/// behind either copy by a step.
pub proof fn lemma_merge_moves_forward(a: RequestState, b: RequestState)
    ensures
        merged_state(a, cycle_next(a)) == cycle_next(a),
        merged_state(cycle_next(a), a) == cycle_next(a),
        merged_state(a, b) == a || merged_state(a, b) == cycle_next(a) || merged_state(a, b) == cycle_next(
            cycle_next(a),
        ),
        merged_state(a, b) != a ==> merged_state(a, b) == b,
        cycle_next(merged_state(a, b)) != a || merged_state(a, b) == a,
{
}

/// The barrier moves a request only when it is unconfirmed or finished and
/// every alive elevator acknowledged it; it then moves one step on in the
/// cycle, acknowledged by the holder alone. Such a request always moves.
pub proof fn lemma_barrier_needs_every_ack(r: RequestView, alive: Set<u8>, id: u8)
    ensures
        after_barrier(r, alive, id).state != r.state ==> alive.subset_of(r.acks) && (r.state
            == RequestState::Unconfirmed || r.state == RequestState::Finished),
        after_barrier(r, alive, id) != r ==> after_barrier(r, alive, id) == fresh(cycle_next(r.state), id),
        barrier_passes(r, alive) ==> alive.subset_of(r.acks),
        barrier_passes(r, alive) <==> after_barrier(r, alive, id).state != r.state,
        (r.state == RequestState::Unconfirmed || r.state == RequestState::Finished) && alive.subset_of(r.acks)
            ==> after_barrier(r, alive, id) == fresh(cycle_next(r.state), id),
{
}

/// Two elevators that merge each other's copy of a request reach the same
/// state: merging is symmetric in the state, keeps a state met again, and
/// always yields one of the two states.
pub proof fn lemma_merged_state_laws(a: RequestState, b: RequestState)
    ensures
        merged_state(a, b) == merged_state(b, a),
        merged_state(a, a) == a,
        merged_state(a, b) == a || merged_state(a, b) == b,
{
}

/// Merging the same copy a second time changes nothing, and merging a
/// request with an identical copy changes nothing either.
pub proof fn lemma_merge_twice(mine: RequestView, theirs: RequestView, id: u8)
    ensures
        merged(merged(mine, theirs, id), theirs, id) == merged(mine, theirs, id),
        !state_changes(merged(mine, theirs, id), theirs),
        merged(mine, mine, id) == mine,
{
    let m1 = merged(mine, theirs, id);
    if m1.state == theirs.state {
        assert(m1.acks.union(theirs.acks) =~= m1.acks);
    }
    assert(mine.acks.union(mine.acks) =~= mine.acks);
}

/// Running the barrier twice with the same alive elevators does what
/// running it once does.
pub proof fn lemma_barrier_idempotent(r: RequestView, alive: Set<u8>, id: u8)
    ensures
        after_barrier(after_barrier(r, alive, id), alive, id) == after_barrier(r, alive, id),
{
}

/// The barrier, applied to a whole view twice with the same alive
/// elevators, does what applying it once does.
pub proof fn lemma_world_barrier_idempotent(w: WorldModel, alive: Set<u8>)
    ensures
        world_after_barrier(world_after_barrier(w, alive), alive) == world_after_barrier(w, alive),
{
    let w1 = world_after_barrier(w, alive);
    let w2 = world_after_barrier(w1, alive);
    assert forall|k: u8| #[trigger] w2.elevators.contains_key(k) implies w2.elevators[k] == w1.elevators[k] by {
        let e1 = w1.elevators[k];
        assert forall|f: int| 0 <= f < e1.cab_requests.len() implies after_barrier(
            #[trigger] e1.cab_requests[f],
            alive,
            w.id,
        ) == e1.cab_requests[f] by {
            lemma_barrier_idempotent(w.elevators[k].cab_requests[f], alive, w.id);
        }
        assert(elevator_after_barrier(e1, alive, w.id).cab_requests =~= e1.cab_requests);
    }
    assert(w2.elevators =~= w1.elevators);
    assert forall|f: int| 0 <= f < w1.hall_requests.len() implies #[trigger] w2.hall_requests[f]
        =~= w1.hall_requests[f] by {
        assert forall|d: int| 0 <= d < w1.hall_requests[f].len() implies after_barrier(
            #[trigger] w1.hall_requests[f][d],
            alive,
            w.id,
        ) == w1.hall_requests[f][d] by {
            lemma_barrier_idempotent(w.hall_requests[f][d], alive, w.id);
        }
    }
    assert(w2.hall_requests =~= w1.hall_requests);
}

/// A view differs from itself in nothing.
pub proof fn lemma_no_change_to_itself(w: WorldModel)
    ensures
        forall|c: WorldViewChange| !is_change(w, w, c),
{
}

/// Pressing the same button twice: the second press finds the request
/// already unconfirmed and changes nothing.
pub proof fn lemma_press_twice(w: WorldModel, f: int, c: int)
    requires
        0 <= f < FLOOR_COUNT,
        0 <= c <= 2,
        w.hall_requests.len() == FLOOR_COUNT,
        forall|g: int| 0 <= g < FLOOR_COUNT ==> (#[trigger] w.hall_requests[g]).len() == 2,
        w.elevators.contains_key(w.id),
        w.elevators[w.id].cab_requests.len() == FLOOR_COUNT,
    ensures
        after_press(after_press(w, f, c).0, f, c) == (after_press(w, f, c).0, false),
{
}

/// A cleared button is no longer confirmed.
pub proof fn lemma_cleared_not_confirmed(w: WorldModel, floor: int, mask: Seq<bool>, b: int)
    requires
        0 <= floor < FLOOR_COUNT,
        0 <= b < CALL_COUNT,
        mask.len() == CALL_COUNT,
        mask[b],
        w.hall_requests.len() == FLOOR_COUNT,
        forall|g: int| 0 <= g < FLOOR_COUNT ==> (#[trigger] w.hall_requests[g]).len() == 2,
        w.elevators.contains_key(w.id),
        w.elevators[w.id].cab_requests.len() == FLOOR_COUNT,
    ensures
        !confirmed_at(after_clear(w, floor, mask, RequestState::Finished), floor, b),
{
}

/// Reporting the state already recorded changes nothing.
pub proof fn lemma_same_state_unchanged(w: WorldModel, now: u64)
    requires
        w.elevators.contains_key(w.id),
    ensures
        with_own_state(w, w.elevators[w.id].state, now) == w,
{
    assert(with_new_state(w.elevators[w.id], w.elevators[w.id].state, now) == w.elevators[w.id]);
    assert(with_own_state(w, w.elevators[w.id].state, now).elevators =~= w.elevators);
}

/// Clearing buttons that already are as the clear sets them changes nothing.
pub proof fn lemma_clear_unchanged(w: WorldModel, floor: int, mask: Seq<bool>, state: RequestState)
    requires
        0 <= floor < FLOOR_COUNT,
        w.hall_requests.len() == FLOOR_COUNT,
        forall|g: int| 0 <= g < FLOOR_COUNT ==> (#[trigger] w.hall_requests[g]).len() == 2,
        w.elevators.contains_key(w.id),
        w.elevators[w.id].cab_requests.len() == FLOOR_COUNT,
        !clear_changes(w, floor, mask, state),
    ensures
        after_clear(w, floor, mask, state) == w,
{
    let fin = fresh(state, w.id);
    let h1 = if mask[0] {
        hall_with(w.hall_requests, floor, 0, fin)
    } else {
        w.hall_requests
    };
    assert(h1 =~= w.hall_requests) by {
        if mask[0] {
            assert(w.hall_requests[floor].update(0, fin) =~= w.hall_requests[floor]);
        }
    }
    let h2 = if mask[1] {
        hall_with(h1, floor, 1, fin)
    } else {
        h1
    };
    assert(h2 =~= w.hall_requests) by {
        if mask[1] {
            assert(h1[floor].update(1, fin) =~= h1[floor]);
        }
    }
    let own = w.elevators[w.id];
    if mask[2] {
        assert(own.cab_requests.update(floor, fin) =~= own.cab_requests);
    }
    assert(after_clear(w, floor, mask, state).elevators =~= w.elevators);
}

/// Whether request `(f, d)` of the hall is in different states in `a` and `b`.
pub open spec fn hall_state_differs(a: WorldModel, b: WorldModel, f: int, d: int) -> bool {
    a.hall_requests[f][d].state != b.hall_requests[f][d].state
}

/// Whether cab request `f` of elevator `k` is in different states in `a` and `b`.
pub open spec fn cab_state_differs(a: WorldModel, b: WorldModel, k: u8, f: int) -> bool {
    a.elevators[k].cab_requests[f].state != b.elevators[k].cab_requests[f].state
}

/// Whether some request of `b` (hall, or cab of an elevator `b` knows) is
/// in another state in `a`.
pub open spec fn some_state_differs(a: WorldModel, b: WorldModel) -> bool {
    ||| exists|f: int, d: int| 0 <= f < FLOOR_COUNT && 0 <= d < 2 && #[trigger] hall_state_differs(a, b, f, d)
    ||| exists|k: u8, f: int|
        b.elevators.contains_key(k) && 0 <= f < FLOOR_COUNT && #[trigger] cab_state_differs(a, b, k, f)
}

/// A request merged with another copy and then put through the barrier
/// ends in another state exactly when the merge changed its state or the
/// barrier moved it.
pub proof fn lemma_request_flag(mine: RequestView, theirs: RequestView, alive: Set<u8>, id: u8)
    ensures
        (state_changes(mine, theirs) || barrier_passes(merged(mine, theirs, id), alive)) <==> after_barrier(
            merged(mine, theirs, id),
            alive,
            id,
        ).state != mine.state,
        barrier_passes(mine, alive) <==> after_barrier(mine, alive, id).state != mine.state,
{
}

/// Handling a foreign view whose elevators are all known reports a change
/// exactly when some request ends in another state.
pub proof fn lemma_foreign_flag(w: WorldModel, foreign: WorldModel, now: u64)
    requires
        foreign.elevators.dom().subset_of(w.elevators.dom()),
        w.hall_requests.len() == FLOOR_COUNT,
        forall|g: int| 0 <= g < FLOOR_COUNT ==> (#[trigger] w.hall_requests[g]).len() == 2,
        forall|k: u8|
            #[trigger] w.elevators.contains_key(k) ==> w.elevators[k].cab_requests.len() == FLOOR_COUNT,
    ensures
        ({
            let mid = received(w, foreign, now);
            let alive = alive_set(mid, 2, now);
            (receive_changes(w, foreign, now) || barrier_moves_some(mid, alive)) <==> some_state_differs(
                world_after_barrier(mid, alive),
                w,
            )
        }),
{
    let id = w.id;
    let mid = received(w, foreign, now);
    let alive = alive_set(mid, 2, now);
    let r = world_after_barrier(mid, alive);
    let m = received_elevators(w, foreign, now);
    assert forall|k: u8| #[trigger] w.elevators.contains_key(k) implies m.contains_key(k)
        && m[k].cab_requests == w.elevators[k].cab_requests && mid.elevators.contains_key(k) by {}
    assert forall|f: int, d: int| 0 <= f < FLOOR_COUNT && 0 <= d < 2 implies (#[trigger] hall_state_differs(
        r,
        w,
        f,
        d,
    ) <==> (state_changes(w.hall_requests[f][d], foreign.hall_requests[f][d]) || barrier_passes(
        mid.hall_requests[f][d],
        alive,
    ))) by {
        lemma_request_flag(w.hall_requests[f][d], foreign.hall_requests[f][d], alive, id);
    }
    assert forall|k: u8, f: int| w.elevators.contains_key(k) && 0 <= f < FLOOR_COUNT implies (
    #[trigger] cab_state_differs(r, w, k, f) <==> ((foreign.elevators.contains_key(k) && state_changes(
        m[k].cab_requests[f],
        foreign.elevators[k].cab_requests[f],
    )) || barrier_passes(mid.elevators[k].cab_requests[f], alive))) by {
        lemma_request_flag(w.elevators[k].cab_requests[f], foreign.elevators[k].cab_requests[f], alive, id);
    }
    if receive_changes(w, foreign, now) || barrier_moves_some(mid, alive) {
        if exists|f: int, d: int|
            0 <= f < FLOOR_COUNT && 0 <= d < 2 && #[trigger] state_changes(
                w.hall_requests[f][d],
                foreign.hall_requests[f][d],
            ) {
            let (f, d) = choose|f: int, d: int|
                0 <= f < FLOOR_COUNT && 0 <= d < 2 && #[trigger] state_changes(
                    w.hall_requests[f][d],
                    foreign.hall_requests[f][d],
                );
            assert(hall_state_differs(r, w, f, d));
        } else if exists|k: u8, f: int|
            foreign.elevators.contains_key(k) && 0 <= f < FLOOR_COUNT && #[trigger] state_changes(
                m[k].cab_requests[f],
                foreign.elevators[k].cab_requests[f],
            ) {
            let (k, f) = choose|k: u8, f: int|
                foreign.elevators.contains_key(k) && 0 <= f < FLOOR_COUNT && #[trigger] state_changes(
                    m[k].cab_requests[f],
                    foreign.elevators[k].cab_requests[f],
                );
            assert(w.elevators.contains_key(k));
            assert(cab_state_differs(r, w, k, f));
        } else if barrier_moves_hall(mid, alive) {
            let (f, d) = choose|f: int, d: int|
                0 <= f < FLOOR_COUNT && 0 <= d < 2 && #[trigger] barrier_passes(mid.hall_requests[f][d], alive);
            assert(hall_state_differs(r, w, f, d));
        } else {
            assert(barrier_moves_cab(mid, alive));
            let (k, f) = choose|k: u8, f: int|
                mid.elevators.contains_key(k) && 0 <= f < FLOOR_COUNT && #[trigger] barrier_passes(
                    mid.elevators[k].cab_requests[f],
                    alive,
                );
            assert(w.elevators.contains_key(k));
            assert(cab_state_differs(r, w, k, f));
        }
    }
    if some_state_differs(r, w) {
        if exists|f: int, d: int| 0 <= f < FLOOR_COUNT && 0 <= d < 2 && #[trigger] hall_state_differs(r, w, f, d) {
            let (f, d) = choose|f: int, d: int|
                0 <= f < FLOOR_COUNT && 0 <= d < 2 && #[trigger] hall_state_differs(r, w, f, d);
            if state_changes(w.hall_requests[f][d], foreign.hall_requests[f][d]) {
                assert(receive_changes(w, foreign, now));
            } else {
                assert(barrier_passes(mid.hall_requests[f][d], alive));
                assert(barrier_moves_hall(mid, alive));
            }
        } else {
            let (k, f) = choose|k: u8, f: int|
                w.elevators.contains_key(k) && 0 <= f < FLOOR_COUNT && #[trigger] cab_state_differs(r, w, k, f);
            if foreign.elevators.contains_key(k) && state_changes(
                m[k].cab_requests[f],
                foreign.elevators[k].cab_requests[f],
            ) {
                assert(receive_changes(w, foreign, now));
            } else {
                assert(barrier_passes(mid.elevators[k].cab_requests[f], alive));
                assert(barrier_moves_cab(mid, alive));
            }
        }
    }
}

} // verus!
