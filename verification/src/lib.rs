//! Distributed elevator control: the verified core.
//!
//! The library holds the decisions of a networked elevator system: the
//! single-elevator state machine, the request bookkeeping that elevators
//! share over the network, the assignment of hall calls, and the small
//! supporting pieces (timer, process-pair counter). Hardware, sockets,
//! channels and the external assignment program are driven from `app/`.
use vstd::prelude::*;

pub mod clock;
pub mod config;
pub mod cost;
pub mod cost_matrix;
pub mod fsm;
pub mod json;
pub mod manager;
pub mod manager_loop;
pub mod messages;
pub mod models;
pub mod process_pair;
pub mod timer;

verus! {
}
