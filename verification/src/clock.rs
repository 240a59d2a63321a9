//! Reading the wall clock.
use vstd::prelude::*;

verus! {

/// Nanoseconds since the UNIX epoch by `std::time::SystemTime::now`
/// (`duration_since(UNIX_EPOCH)`, 0 for a clock set before the epoch,
/// saturated at `u64::MAX`).
///
/// Nothing is promised of the value: it is whatever the system clock reads.
#[verifier::external_body]
pub(crate) fn now_nanos() -> u64 {
    match std::time::SystemTime::now().duration_since(std::time::UNIX_EPOCH) {
        Ok(d) => u64::try_from(d.as_nanos()).unwrap_or(u64::MAX),
        Err(_) => 0,
    }
}

/// Whole seconds since the UNIX epoch by `std::time::SystemTime::now`
/// (`duration_since(UNIX_EPOCH)`, then `as_secs`; 0 for a clock set before
/// the epoch).
///
/// Nothing is promised of the value: it is whatever the system clock reads.
#[verifier::external_body]
pub(crate) fn now_secs() -> u64 {
    match std::time::SystemTime::now().duration_since(std::time::UNIX_EPOCH) {
        Ok(d) => d.as_secs(),
        Err(_) => 0,
    }
}

/// Whether more than `timeout_secs` seconds lie between `last` and `now`,
/// both in nanoseconds since the epoch. A `last` after `now` counts as no
/// time elapsed.
pub open spec fn silent_longer_than(last: u64, now: u64, timeout_secs: u64) -> bool {
    now > last && now - last > timeout_secs * 1_000_000_000
}

/// Executable form of [`silent_longer_than`].
pub fn elapsed_exceeds(last: u64, now: u64, timeout_secs: u64) -> (r: bool)
    ensures
        r == silent_longer_than(last, now, timeout_secs),
{
    if now <= last {
        false
    } else {
        let elapsed: u128 = (now - last) as u128;
        let limit: u128 = (timeout_secs as u128) * 1_000_000_000;
        elapsed > limit
    }
}

} // verus!
