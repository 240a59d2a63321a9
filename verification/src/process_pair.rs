//! Decisions of a process pair that keeps a counter alive.
//!
//! The actor writes an increasing counter to a file; the supervisor reads
//! it back, and takes over from the last value it read once the file has
//! not been written for longer than [`TIMEOUT_SECONDS`]. Reading the file,
//! the clock and spawning processes are left to the caller.
use vstd::prelude::*;

use crate::json::is_decimal_digits;
use crate::json::digits_value;

verus! {

/// After this many seconds without a write the actor counts as crashed.
pub const TIMEOUT_SECONDS: u64 = 2;

/// Whether the actor counts as crashed: its last write, at `modified`,
/// lies more than [`TIMEOUT_SECONDS`] before `now` (both in nanoseconds).
pub open spec fn actor_down(modified: u64, now: u64) -> bool {
    now - modified > TIMEOUT_SECONDS * 1_000_000_000
}

/// Whether the actor counts as crashed; see [`actor_down`]. A write time
/// after `now` is not accepted.
pub fn is_actor_down(modified: u64, now: u64) -> (r: bool)
    requires
        modified <= now,
    ensures
        r == actor_down(modified, now),
{
    now - modified > TIMEOUT_SECONDS * 1_000_000_000
}

/// The number `text` spells, as `str::parse::<u8>` reads it: an optional
/// `+` followed by only digits, at most 255; `None` otherwise.
pub open spec fn decimal_u8(text: Seq<char>) -> Option<u8> {
    let body = if text.len() > 0 && text[0] == '+' {
        text.drop_first()
    } else {
        text
    };
    if is_decimal_digits(body) && digits_value(body) <= 255 {
        Some(digits_value(body) as u8)
    } else {
        None
    }
}

/// The number `text` holds, by `str::parse::<u8>`, which the standard
/// library documents as an optional `+` followed by only digits, within
/// the range of `u8`; see [`decimal_u8`].
#[verifier::external_body]
fn parse_u8(text: &str) -> (r: Option<u8>)
    ensures
        r == decimal_u8(text@),
{
    text.parse::<u8>().ok()
}

/// The counter the file's contents spell; 0 when they spell none.
pub fn parse_counter(contents: &str) -> (r: u8)
    ensures
        r == match decimal_u8(contents@) {
            Some(v) => v,
            None => 0u8,
        },
{
    match parse_u8(contents) {
        Some(v) => v,
        None => 0,
    }
}

/// The actor's next value. The counter does not wrap: 255 has no successor.
pub fn next_value(val: u8) -> (r: u8)
    requires
        val < 255,
    ensures
        r == val + 1,
{
    val + 1
}

} // verus!
