//! The soft time budget of a search.

use std::time::{Duration, Instant};
use vstd::prelude::*;

verus! {

/// `std::time::Instant`, a moment on the clock of the machine. Nothing is
/// seen of what it holds.
#[verifier::external_type_specification]
#[verifier::external_body]
pub struct ExInstant(Instant);

/// `std::time::Instant::now`: the present moment. Nothing is claimed of it.
#[verifier::external_body]
fn instant_now() -> Instant {
    Instant::now()
}

/// `std::time::Instant::elapsed`: the time gone by since `st` was taken.
/// Nothing is claimed of it.
#[verifier::external_body]
fn instant_elapsed(st: &Instant) -> Duration {
    st.elapsed()
}

/// `std::time::Duration::as_millis`: the whole milliseconds in `d`.
/// Nothing is claimed of it.
#[verifier::external_body]
fn duration_as_millis(d: &Duration) -> u128 {
    d.as_millis()
}

/// A running budget: the moment it was started and the milliseconds granted.
pub struct Stopwatch {
    pub st: Instant,
    pub limit: u128,
}

/// The milliseconds a search keeps back to hand its answer over in time.
pub const MARGIN_MS: u128 = 20;

/// What is left of a budget of `ms` milliseconds once the margin is kept back.
pub open spec fn usable(ms: u128) -> u128 {
    if ms >= MARGIN_MS {
        (ms - MARGIN_MS) as u128
    } else {
        0
    }
}

impl Stopwatch {
    /// Starts the clock on a budget of `ms` milliseconds.
    pub fn start_millis(ms: u128) -> (w: Stopwatch)
        ensures
            w.limit == usable(ms),
    {
        let limit: u128 = if ms >= MARGIN_MS { ms - MARGIN_MS } else { 0 };
        Stopwatch { st: instant_now(), limit }
    }

    /// Starts the clock on the budget `tl`.
    pub fn start(tl: &Duration) -> (w: Stopwatch) {
        Stopwatch::start_millis(duration_as_millis(tl))
    }

    /// Whether a run of `elapsed` milliseconds is over the granted time.
    pub fn over(&self, elapsed: u128) -> (r: bool)
        ensures
            r == (elapsed > self.limit),
    {
        elapsed > self.limit
    }

    /// Whether more than the granted time has gone by.
    pub fn expired(&self) -> bool {
        let d = instant_elapsed(&self.st);
        self.over(duration_as_millis(&d))
    }
}

} // verus!
