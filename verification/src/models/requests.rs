//! Requests that grow by merging.
use vstd::prelude::*;
use std::collections::HashSet;

use crate::manager::{add_all, copy_ids, is_subset_of};

verus! {

broadcast use vstd::std_specs::hash::group_hash_axioms;

/// Where a request stands; later states rank higher.
#[derive(Debug, Clone, Copy, PartialEq, Eq, Structural)]
pub enum RequestState {
    /// No request.
    NoRequest,
    /// Pressed, not yet acknowledged by every alive elevator.
    Unconfirmed,
    /// Acknowledged by every alive elevator.
    Confirmed,
}

/// Rank of a state: 0, 1, 2 in the order of the variants.
pub open spec fn rank(s: RequestState) -> int {
    match s {
        RequestState::NoRequest => 0,
        RequestState::Unconfirmed => 1,
        RequestState::Confirmed => 2,
    }
}

/// A request and the elevators that acknowledged it.
#[derive(Debug)]
pub struct Request {
    pub state: RequestState,
    pub acks: HashSet<u8>,
}

/// Mathematical form of a [`Request`].
pub struct RequestView {
    pub state: RequestState,
    pub acks: Set<u8>,
}

impl View for Request {
    type V = RequestView;

    open spec fn view(&self) -> RequestView {
        RequestView { state: self.state, acks: self.acks@ }
    }
}

/// The higher ranked of two states.
pub open spec fn higher(a: RequestState, b: RequestState) -> RequestState {
    if rank(b) > rank(a) {
        b
    } else {
        a
    }
}

/// `mine` after merging in `theirs`, acknowledged by `id`: the higher state
/// and all acknowledgements of both plus `id`.
pub open spec fn merged(mine: RequestView, theirs: RequestView, id: u8) -> RequestView {
    RequestView { state: higher(mine.state, theirs.state), acks: mine.acks.union(theirs.acks).insert(id) }
}

/// Whether merging in `theirs` with `id` changes `mine`.
pub open spec fn merge_changes(mine: RequestView, theirs: RequestView, id: u8) -> bool {
    rank(theirs.state) > rank(mine.state) || !theirs.acks.insert(id).subset_of(mine.acks)
}

/// A request in state `state` acknowledged by `id` alone.
pub open spec fn fresh(state: RequestState, id: u8) -> RequestView {
    RequestView { state, acks: set![id] }
}

/// The rank of a state.
fn rank_of(s: RequestState) -> (r: u8)
    ensures
        r == rank(s),
{
    match s {
        RequestState::NoRequest => 0,
        RequestState::Unconfirmed => 1,
        RequestState::Confirmed => 2,
    }
}

impl Default for Request {
    fn default() -> (r: Self)
        ensures
            r@ == (RequestView { state: RequestState::NoRequest, acks: Set::empty() }),
    {
        Request { state: RequestState::NoRequest, acks: HashSet::new() }
    }
}

impl Clone for Request {
    fn clone(&self) -> (r: Self)
        ensures
            r@ == self@,
    {
        Request { state: self.state, acks: copy_ids(&self.acks) }
    }
}

impl Request {
    /// A request in no state, acknowledged by `id`.
    pub fn new(id: u8) -> (r: Request)
        ensures
            r@ == fresh(RequestState::NoRequest, id),
    {
        let mut r = Request::default();
        r.acks.insert(id);
        proof {
            assert(r@.acks =~= set![id]);
        }
        r
    }

    /// Merges `other` in (see [`merged`]); returns whether this request changed.
    pub fn merge(&mut self, other: &Request, id: u8) -> (updated: bool)
        ensures
            final(self)@ == merged(old(self)@, other@, id),
            updated == merge_changes(old(self)@, other@, id),
    {
        let ghost v0 = self@;
        let mut updated = false;
        if rank_of(other.state) > rank_of(self.state) {
            self.state = other.state;
            updated = true;
        }
        let all_known = is_subset_of(&other.acks, &self.acks);
        add_all(&mut self.acks, &other.acks);
        let inserted = self.acks.insert(id);
        proof {
            assert(self.acks@ =~= v0.acks.union(other@.acks).insert(id));
        }
        updated || !all_known || inserted
    }

    /// Moves the request to `new_state`, acknowledged by `id` alone.
    pub fn set_to(&mut self, new_state: RequestState, id: u8)
        ensures
            final(self)@ == fresh(new_state, id),
    {
        self.state = new_state;
        self.acks.clear();
        self.acks.insert(id);
        proof {
            assert(self.acks@ =~= set![id]);
        }
    }

    /// The state.
    pub fn state(&self) -> (s: RequestState)
        ensures
            s == self@.state,
    {
        self.state
    }

    /// The acknowledgements.
    pub fn acks(&self) -> (a: &HashSet<u8>)
        ensures
            a@ == self@.acks,
    {
        &self.acks
    }

    /// Confirms the request if the barrier lets it pass; returns whether it did.
    pub(crate) fn pass_barrier(&mut self, alive: &HashSet<u8>, id: u8) -> (moved: bool)
        ensures
            final(self)@ == after_barrier(old(self)@, alive@, id),
            moved == barrier_passes(old(self)@, alive@),
    {
        if self.state == RequestState::Unconfirmed && is_subset_of(alive, &self.acks) {
            self.set_to(RequestState::Confirmed, id);
            true
        } else {
            false
        }
    }
}

/// Whether the barrier confirms `r`: it is unconfirmed and every alive
/// elevator acknowledged it.
pub open spec fn barrier_passes(r: RequestView, alive: Set<u8>) -> bool {
    r.state == RequestState::Unconfirmed && alive.subset_of(r.acks)
}

/// A request after the barrier: one that passes becomes confirmed,
/// acknowledged by `id` alone; others stay.
pub open spec fn after_barrier(r: RequestView, alive: Set<u8>, id: u8) -> RequestView {
    if barrier_passes(r, alive) {
        fresh(RequestState::Confirmed, id)
    } else {
        r
    }
}

} // verus!
