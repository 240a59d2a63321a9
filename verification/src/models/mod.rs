//! A self-contained variant of the shared bookkeeping.
//!
//! Here a request only ever grows: its state moves up
//! `NoRequest < Unconfirmed < Confirmed` and acknowledgements accumulate;
//! clearing resets it directly. Elevators expose their fields through
//! getters and setters.
pub mod elevator;
pub mod messages;
pub mod requests;
pub mod worldview;

pub use elevator::{Elevator, ElevatorNetworkState};
pub use messages::{Controller, Manager};
pub use requests::{Request, RequestState};
pub use worldview::WorldView;
