//! Messages of the self-contained variant.
use vstd::prelude::*;

use crate::fsm::{Dirn, ElevatorBehaviour};
use crate::models::worldview::WorldView;

pub use crate::messages::Controller;

verus! {

/// Messages to the manager.
#[derive(Debug)]
pub enum Manager {
    Ping(u8),
    Pong(u8),
    NetworkError,
    /// A node's world view, sent at this time (nanoseconds since the epoch).
    HeartBeat(u64, WorldView),
    ElevatorState(Dirn, ElevatorBehaviour, i8),
    /// Clear the marked buttons `[up, down, cab]` of a floor.
    ClearRequest(usize, [bool; 3]),
}

} // verus!
