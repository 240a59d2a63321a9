//! Fixed dimensions of the elevator installation.
use vstd::prelude::*;

verus! {

/// Number of floors served.
pub const FLOOR_COUNT: usize = 4;

/// Buttons per floor: hall up, hall down and cab.
pub const CALL_COUNT: usize = 3;

} // verus!
