//! Messages between the parts of an elevator node and between nodes.
use vstd::prelude::*;

use crate::fsm::{ControllerRequests, Dirn, ElevatorBehaviour};
use crate::manager::WorldView;

verus! {

/// Messages to the manager, from the controller and from the network.
#[derive(Debug)]
pub enum Manager {
    /// Liveness probe from the node with this id.
    Ping(u8),
    /// Answer to a probe, from the node with this id.
    Pong(u8),
    /// Broadcasting failed.
    NetworkError,
    /// A node's world view, sent at this time (nanoseconds since the epoch).
    HeartBeat(u64, WorldView),
    /// The own elevator's direction, behaviour and floor.
    ElevatorState(Dirn, ElevatorBehaviour, i8),
    /// The own elevator served floor `.0`: clear the marked buttons `[up, down, cab]`.
    ClearRequest(usize, [bool; 3]),
}

/// Messages to the controller and to the lights.
#[derive(Debug)]
pub enum Controller {
    /// Requests to serve (controller) or to light (lights).
    Requests(ControllerRequests),
}

} // verus!
