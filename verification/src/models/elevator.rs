//! Elevators behind getters and setters.
use vstd::prelude::*;

use crate::clock::now_nanos;
use crate::config::FLOOR_COUNT;
use std::collections::HashSet;

use crate::manager::moved;
use crate::models::requests::{
    after_barrier, barrier_passes, fresh, merge_changes, merged, Request, RequestState, RequestView,
};

pub use crate::manager::{initial_network_state, ElevatorNetworkState};

verus! {

/// One elevator as seen by the network. Times are nanoseconds since the
/// UNIX epoch.
#[derive(Debug)]
pub struct Elevator {
    last_received: u64,
    pub state: ElevatorNetworkState,
    cab_requests: [Request; FLOOR_COUNT],
    last_moved: u64,
    has_request: bool,
    is_working: bool,
}

/// Mathematical form of an [`Elevator`].
pub struct ElevatorView {
    pub last_received: u64,
    pub state: ElevatorNetworkState,
    pub cab_requests: Seq<RequestView>,
    pub last_moved: u64,
    pub has_request: bool,
    pub is_working: bool,
}

/// The views of four requests.
pub open spec fn cab_views(rs: [Request; FLOOR_COUNT]) -> Seq<RequestView> {
    rs@.map_values(|r: Request| r@)
}

impl View for Elevator {
    type V = ElevatorView;

    closed spec fn view(&self) -> ElevatorView {
        ElevatorView {
            last_received: self.last_received,
            state: self.state,
            cab_requests: cab_views(self.cab_requests),
            last_moved: self.last_moved,
            has_request: self.has_request,
            is_working: self.is_working,
        }
    }
}

/// Copies of four requests.
pub(crate) fn copy_requests(rs: &[Request; FLOOR_COUNT]) -> (r: [Request; FLOOR_COUNT])
    ensures
        cab_views(r) == cab_views(*rs),
{
    let r = [rs[0].clone(), rs[1].clone(), rs[2].clone(), rs[3].clone()];
    assert(cab_views(r) =~= cab_views(*rs));
    r
}

impl Clone for Elevator {
    fn clone(&self) -> (r: Self)
        ensures
            r@ == self@,
    {
        Elevator {
            last_received: self.last_received,
            state: self.state,
            cab_requests: copy_requests(&self.cab_requests),
            last_moved: self.last_moved,
            has_request: self.has_request,
            is_working: self.is_working,
        }
    }
}

impl Elevator {
    /// A newly seen elevator at time `now`: default network state, cab
    /// requests in no state with no acknowledgement, no calls, working.
    pub fn new_at(now: u64) -> (e: Elevator)
        ensures
            e@.last_received == now,
            e@.last_moved == now,
            e@.state == initial_network_state(),
            e@.cab_requests.len() == FLOOR_COUNT,
            forall|f: int|
                0 <= f < FLOOR_COUNT ==> #[trigger] e@.cab_requests[f] == (RequestView {
                    state: RequestState::NoRequest,
                    acks: Set::empty(),
                }),
            !e@.has_request,
            e@.is_working,
    {
        Elevator {
            last_received: now,
            state: ElevatorNetworkState::new(),
            cab_requests: [Request::default(), Request::default(), Request::default(), Request::default()],
            last_moved: now,
            has_request: false,
            is_working: true,
        }
    }

    /// A newly seen elevator, stamped with the current time.
    pub fn new() -> (e: Elevator)
        ensures
            e@.last_received == e@.last_moved,
            e@.state == initial_network_state(),
            e@.cab_requests.len() == FLOOR_COUNT,
            forall|f: int|
                0 <= f < FLOOR_COUNT ==> #[trigger] e@.cab_requests[f] == (RequestView {
                    state: RequestState::NoRequest,
                    acks: Set::empty(),
                }),
            !e@.has_request,
            e@.is_working,
    {
        Self::new_at(now_nanos())
    }

    /// When its state was last received.
    pub fn last_received(&self) -> (t: u64)
        ensures
            t == self@.last_received,
    {
        self.last_received
    }

    /// When it last made progress.
    pub fn last_moved(&self) -> (t: u64)
        ensures
            t == self@.last_moved,
    {
        self.last_moved
    }

    /// Its cab requests.
    pub fn cab_requests(&self) -> (r: &[Request; FLOOR_COUNT])
        ensures
            cab_views(*r) == self@.cab_requests,
    {
        &self.cab_requests
    }

    /// Its cab requests, for changing them.
    pub fn cab_requests_mut(&mut self) -> (r: &mut [Request; FLOOR_COUNT])
        ensures
            cab_views(*r) == old(self)@.cab_requests,
            final(self)@ == (ElevatorView { cab_requests: cab_views(*final(r)), ..old(self)@ }),
    {
        &mut self.cab_requests
    }

    /// Whether it was last given calls.
    pub fn has_request(&self) -> (b: bool)
        ensures
            b == self@.has_request,
    {
        self.has_request
    }

    /// Whether it is believed to work.
    pub fn is_working(&self) -> (b: bool)
        ensures
            b == self@.is_working,
    {
        self.is_working
    }

    /// Its network state.
    pub fn get_state(&self) -> (s: ElevatorNetworkState)
        ensures
            s == self@.state,
    {
        self.state
    }

    /// Sets when its state was last received.
    pub fn set_last_received(&mut self, time: u64)
        ensures
            final(self)@ == (ElevatorView { last_received: time, ..old(self)@ }),
    {
        self.last_received = time;
    }

    /// Sets when it last made progress.
    pub fn set_last_moved(&mut self, time: u64)
        ensures
            final(self)@ == (ElevatorView { last_moved: time, ..old(self)@ }),
    {
        self.last_moved = time;
    }

    /// Sets whether it was given calls.
    pub fn set_has_request(&mut self, value: bool)
        ensures
            final(self)@ == (ElevatorView { has_request: value, ..old(self)@ }),
    {
        self.has_request = value;
    }

    /// Sets whether it is believed to work.
    pub fn set_is_working(&mut self, value: bool)
        ensures
            final(self)@ == (ElevatorView { is_working: value, ..old(self)@ }),
    {
        self.is_working = value;
    }

    /// Its cab requests.
    pub fn get_cab_requests(&self) -> (r: &[Request; FLOOR_COUNT])
        ensures
            cab_views(*r) == self@.cab_requests,
    {
        &self.cab_requests
    }

    /// Replaces the network state.
    pub fn set_state(&mut self, state: ElevatorNetworkState)
        ensures
            final(self)@ == (ElevatorView { state, ..old(self)@ }),
    {
        self.state = state;
    }
}

/// An elevator view after a new network state arrives at time `now`: a
/// change of floor or behaviour counts as progress and as proof of working.
pub open spec fn with_new_state(e: ElevatorView, s: ElevatorNetworkState, now: u64) -> ElevatorView {
    ElevatorView {
        state: s,
        last_moved: if moved(e.state, s) {
            now
        } else {
            e.last_moved
        },
        is_working: moved(e.state, s) || e.is_working,
        ..e
    }
}

/// An elevator whose cab requests went through the barrier.
pub open spec fn elevator_after_barrier(e: ElevatorView, alive: Set<u8>, id: u8) -> ElevatorView {
    ElevatorView {
        cab_requests: e.cab_requests.map_values(|r: RequestView| after_barrier(r, alive, id)),
        ..e
    }
}

/// An elevator whose cab requests were merged with those of `theirs`.
pub open spec fn merge_cabs(e: ElevatorView, theirs: ElevatorView, id: u8) -> ElevatorView {
    ElevatorView {
        cab_requests: Seq::new(
            e.cab_requests.len(),
            |f: int| merged(e.cab_requests[f], theirs.cab_requests[f], id),
        ),
        ..e
    }
}

impl Elevator {
    /// Every view has four cab requests.
    pub proof fn lemma_cab_len(&self)
        ensures
            self@.cab_requests.len() == FLOOR_COUNT,
    {
    }

    /// The state of the cab request of floor `f`.
    pub(crate) fn cab_state(&self, f: usize) -> (s: RequestState)
        requires
            f < FLOOR_COUNT,
        ensures
            s == self@.cab_requests[f as int].state,
    {
        self.cab_requests[f].state
    }

    /// Sets the cab request of floor `f` to `state`, acknowledged by `id`.
    pub(crate) fn set_cab(&mut self, f: usize, state: RequestState, id: u8)
        requires
            f < FLOOR_COUNT,
        ensures
            final(self)@ == (ElevatorView {
                cab_requests: old(self)@.cab_requests.update(f as int, fresh(state, id)),
                ..old(self)@
            }),
    {
        let ghost v0 = self@;
        self.cab_requests[f].set_to(state, id);
        assert(self@.cab_requests =~= v0.cab_requests.update(f as int, fresh(state, id)));
    }

    /// Moves every cab request through the barrier; returns whether one moved.
    pub(crate) fn pass_barrier(&mut self, alive: &HashSet<u8>, id: u8) -> (moved: bool)
        ensures
            final(self)@ == elevator_after_barrier(old(self)@, alive@, id),
            moved == exists|f: int|
                0 <= f < FLOOR_COUNT && #[trigger] barrier_passes(old(self)@.cab_requests[f], alive@),
    {
        let ghost v0 = self@;
        let mut moved = false;
        let mut f: usize = 0;
        while f < FLOOR_COUNT
            invariant
                f <= FLOOR_COUNT,
                self@.cab_requests.len() == FLOOR_COUNT,
                self@ == (ElevatorView { cab_requests: self@.cab_requests, ..v0 }),
                forall|g: int|
                    0 <= g < FLOOR_COUNT ==> #[trigger] self@.cab_requests[g] == if g < f {
                        after_barrier(v0.cab_requests[g], alive@, id)
                    } else {
                        v0.cab_requests[g]
                    },
                moved == exists|g: int|
                    0 <= g < f && #[trigger] barrier_passes(v0.cab_requests[g], alive@),
            decreases FLOOR_COUNT - f,
        {
            let ghost c0 = self@.cab_requests;
            let m = self.cab_requests[f].pass_barrier(alive, id);
            proof {
                assert(self@.cab_requests =~= c0.update(f as int, after_barrier(c0[f as int], alive@, id)));
            }
            moved = moved || m;
            f += 1;
        }
        proof {
            assert(self@.cab_requests =~= v0.cab_requests.map_values(
                |r: RequestView| after_barrier(r, alive@, id),
            ));
        }
        moved
    }

    /// Merges every cab request with that of `other`; returns whether one changed.
    pub(crate) fn merge_all_cab(&mut self, other: &Elevator, id: u8) -> (updated: bool)
        ensures
            final(self)@ == merge_cabs(old(self)@, other@, id),
            updated == exists|f: int|
                0 <= f < FLOOR_COUNT && #[trigger] merge_changes(
                    old(self)@.cab_requests[f],
                    other@.cab_requests[f],
                    id,
                ),
    {
        let ghost v0 = self@;
        let mut updated = false;
        let mut f: usize = 0;
        while f < FLOOR_COUNT
            invariant
                f <= FLOOR_COUNT,
                self@.cab_requests.len() == FLOOR_COUNT,
                self@ == (ElevatorView { cab_requests: self@.cab_requests, ..v0 }),
                forall|g: int|
                    0 <= g < FLOOR_COUNT ==> #[trigger] self@.cab_requests[g] == if g < f {
                        merged(v0.cab_requests[g], other@.cab_requests[g], id)
                    } else {
                        v0.cab_requests[g]
                    },
                updated == exists|g: int|
                    0 <= g < f && #[trigger] merge_changes(v0.cab_requests[g], other@.cab_requests[g], id),
            decreases FLOOR_COUNT - f,
        {
            let ghost c0 = self@.cab_requests;
            let u = self.cab_requests[f].merge(&other.cab_requests[f], id);
            proof {
                assert(self@.cab_requests =~= c0.update(
                    f as int,
                    merged(c0[f as int], other@.cab_requests[f as int], id),
                ));
                assert(other@.cab_requests[f as int] == other.cab_requests@[f as int]@);
            }
            updated = updated || u;
            f += 1;
        }
        proof {
            assert(self@.cab_requests =~= merge_cabs(v0, other@, id).cab_requests);
        }
        updated
    }
}

} // verus!
