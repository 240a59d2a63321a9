//! A one-shot timer on the wall clock, in whole seconds.
use vstd::prelude::*;

use crate::clock::now_secs;

verus! {

/// A timer that is either stopped or running until an end time.
#[derive(Debug)]
pub struct Timer {
    timer_end: Option<u64>,
    timer_active: bool,
}

/// Mathematical form of a [`Timer`].
pub struct TimerView {
    /// When it expires (seconds since the epoch), if set.
    pub end: Option<u64>,
    /// Whether it runs.
    pub active: bool,
}

impl View for Timer {
    type V = TimerView;

    closed spec fn view(&self) -> TimerView {
        TimerView { end: self.timer_end, active: self.timer_active }
    }
}

/// The end of a timer started at `now` for `duration` seconds, saturating
/// at the largest time.
pub open spec fn end_time(now: u64, duration: u16) -> u64 {
    if now + duration <= u64::MAX {
        (now + duration) as u64
    } else {
        u64::MAX
    }
}

/// Whether a timer in state `t` has expired at time `now`.
pub open spec fn expired(t: TimerView, now: u64) -> bool {
    t.active && (t.end matches Some(e) && now >= e)
}

impl Timer {
    /// A stopped timer.
    pub fn new() -> (t: Timer)
        ensures
            t@ == (TimerView { end: None, active: false }),
    {
        Timer { timer_end: None, timer_active: false }
    }

    /// The wall clock in whole seconds since the epoch.
    fn get_wall_time() -> u64 {
        now_secs()
    }

    /// Starts the timer at time `now` for `duration` seconds.
    pub fn start_at(&mut self, now: u64, duration: u16)
        ensures
            final(self)@ == (TimerView { end: Some(end_time(now, duration)), active: true }),
    {
        self.timer_end = Some(now.saturating_add(duration as u64));
        self.timer_active = true;
    }

    /// Starts the timer now for `duration` seconds.
    pub fn start(&mut self, duration: u16)
        ensures
            exists|now: u64|
                final(self)@ == (TimerView { end: Some(#[trigger] end_time(now, duration)), active: true }),
    {
        let now = Self::get_wall_time();
        self.start_at(now, duration);
    }

    /// Stops the timer.
    pub fn stop(&mut self)
        ensures
            final(self)@ == (TimerView { end: None, active: false }),
    {
        self.timer_active = false;
        self.timer_end = None;
    }

    /// Whether the timer has expired at time `now`: it runs and `now` has
    /// reached its end.
    pub fn timed_out_at(&self, now: u64) -> (r: bool)
        ensures
            r == expired(self@, now),
    {
        if self.timer_active {
            if let Some(end_time) = self.timer_end {
                return now >= end_time;
            }
        }
        false
    }

    /// Whether the timer has expired now.
    pub fn timed_out(&self) -> (r: bool)
        ensures
            exists|now: u64| r == #[trigger] expired(self@, now),
            r ==> self@.active && self@.end is Some,
    {
        let now = Self::get_wall_time();
        self.timed_out_at(now)
    }
}

/// A stopped timer never expires.
pub proof fn lemma_stopped_never_expires(now: u64)
    ensures
        !expired(TimerView { end: None, active: false }, now),
{
}

/// A timer started at `start` for `duration` seconds expires exactly once
/// the clock reaches its end; short of the largest time, not at the start
/// of a positive duration.
pub proof fn lemma_started_expires_at_end(start: u64, duration: u16, now: u64)
    ensures
        expired(TimerView { end: Some(end_time(start, duration)), active: true }, now) <==> now >= end_time(
            start,
            duration,
        ),
        duration > 0 && start + duration <= u64::MAX ==> !expired(
            TimerView { end: Some(end_time(start, duration)), active: true },
            start,
        ),
{
}

} // verus!
