//! Monotonic clock in milliseconds, used for time budgets.

use std::time::{Duration, Instant};

use vstd::prelude::*;

verus! {

#[verifier::external_type_specification]
#[verifier::external_body]
pub struct ExInstant(Instant);

/// `Instant::now`: the current reading of the monotonic clock. It depends
/// on the time, so the contract states nothing of it.
#[verifier::external_body]
fn instant_now() -> Instant {
    Instant::now()
}

/// `Instant::elapsed`: the time since `start` (zero when `start` is later).
/// It depends on the time, so the contract states nothing of it.
#[verifier::external_body]
fn instant_elapsed(start: &Instant) -> Duration {
    start.elapsed()
}

/// `Duration::as_millis`: the whole milliseconds of `d`. A `Duration` is
/// opaque to the proofs, so the contract does not state the result.
#[verifier::external_body]
fn duration_millis(d: &Duration) -> u128 {
    d.as_millis()
}

/// `Duration::as_micros`: the whole microseconds of `d`. A `Duration` is
/// opaque to the proofs, so the contract does not state the result.
#[verifier::external_body]
fn duration_micros(d: &Duration) -> u128 {
    d.as_micros()
}

/// `v` as a `u64`, capped at `u64::MAX`.
pub fn capped(v: u128) -> (r: u64)
    ensures
        r == if v > u64::MAX {
            u64::MAX as int
        } else {
            v as int
        },
{
    if v > u64::MAX as u128 {
        u64::MAX
    } else {
        v as u64
    }
}

/// Whole microseconds of `d`, capped at `u64::MAX`.
pub fn micros(d: &Duration) -> u64 {
    capped(duration_micros(d))
}

/// `us` microseconds in milliseconds, rounded to the nearest, halves up.
pub fn ms_from_micros(us: u64) -> (r: u64)
    ensures
        r == us / 1000 + if us % 1000 >= 500 {
            1int
        } else {
            0int
        },
{
    us / 1000 + if us % 1000 >= 500 {
        1
    } else {
        0
    }
}

/// Milliseconds of `d`, rounded to the nearest and capped at `u64::MAX`.
pub fn rounded_ms(d: &Duration) -> u64 {
    ms_from_micros(micros(d))
}

/// `Duration::saturating_add`: the sum of two durations, capped at the
/// largest one. A `Duration` is opaque to the proofs, so the contract does
/// not state the result.
#[verifier::external_body]
pub(crate) fn duration_sum(a: Duration, b: Duration) -> Duration {
    a.saturating_add(b)
}

/// `Duration::from_millis(0)`: no time at all. A `Duration` is opaque to the
/// proofs, so the contract does not state the result.
#[verifier::external_body]
pub(crate) fn no_time() -> Duration {
    Duration::from_millis(0)
}

/// Milliseconds since the clock was started.
#[derive(Clone, Copy)]
pub struct Timer {
    start: Instant,
}

impl Timer {
    pub fn start() -> Timer {
        Timer { start: instant_now() }
    }

    /// Time since the timer started.
    pub fn elapsed(&self) -> Duration {
        instant_elapsed(&self.start)
    }

    /// Whole milliseconds since the timer started, capped at `u64::MAX`.
    pub fn elapsed_ms(&self) -> u64 {
        let d = instant_elapsed(&self.start);
        capped(duration_millis(&d))
    }
}

/// A point in time: `at_ms` milliseconds after `timer` started.
#[derive(Clone, Copy)]
pub struct Deadline {
    pub timer: Timer,
    pub at_ms: u64,
}

impl Deadline {
    /// The moment `ms` milliseconds from now.
    pub fn after_ms(ms: u64) -> (d: Deadline)
        ensures
            d.at_ms == ms,
    {
        Deadline { timer: Timer::start(), at_ms: ms }
    }

    /// The deadline has been reached.
    pub fn passed(&self) -> bool {
        self.timer.elapsed_ms() >= self.at_ms
    }

    /// Milliseconds until the deadline, zero once it has passed.
    pub fn remaining_ms(&self) -> (r: u64)
        ensures
            r <= self.at_ms,
    {
        let now = self.timer.elapsed_ms();
        if now >= self.at_ms {
            0
        } else {
            self.at_ms - now
        }
    }
}

} // verus!
