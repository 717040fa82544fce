//! Clock abstraction: a real system clock and a deterministic manual clock.
//!
//! Abstracting the clock is what makes timing-dependent collection testable:
//! tests drive a `ManualClock` with explicit advances, so span durations are
//! exact and reproducible — no flaky `sleep`-based timing.

use std::time::{Duration, Instant};
use vstd::prelude::*;

verus! {

/// A source of monotonically non-decreasing nanosecond timestamps.
pub trait Clock: Send + Sync {
    fn now_ns(&self) -> u64;
}

#[verifier::external_type_specification]
#[verifier::external_body]
pub struct ExInstant(Instant);

/// Reads the monotonic clock through `Instant::now`. The reading depends on
/// the time of the call, so nothing is stated of it.
#[verifier::external_body]
fn instant_now() -> Instant {
    Instant::now()
}

/// The time passed since `origin`, through `Instant::elapsed`. It depends on
/// the time of the call, so nothing is stated of it.
#[verifier::external_body]
fn instant_elapsed(origin: &Instant) -> Duration {
    origin.elapsed()
}

/// The whole nanoseconds of a duration, through `Duration::as_nanos`. The
/// duration is opaque here, so nothing is stated of the count.
#[verifier::external_body]
fn duration_as_nanos(d: &Duration) -> u128 {
    d.as_nanos()
}

/// A real clock measuring nanoseconds since its creation.
pub struct SystemClock {
    origin: Instant,
}

impl SystemClock {
    pub fn new() -> (c: SystemClock) {
        SystemClock { origin: instant_now() }
    }
}

impl Default for SystemClock {
    fn default() -> (c: SystemClock) {
        SystemClock::new()
    }
}

impl Clock for SystemClock {
    /// Nanoseconds since creation, truncated to 64 bits.
    fn now_ns(&self) -> u64 {
        let elapsed = instant_elapsed(&self.origin);
        let nanos = duration_as_nanos(&elapsed);
        nanos as u64
    }
}

/// A deterministic clock advanced explicitly by tests and demos.
pub struct ManualClock {
    now: u64,
}

impl ManualClock {
    /// The current reading of the clock.
    pub closed spec fn reading(&self) -> u64 {
        self.now
    }

    /// A clock reading zero.
    pub fn new() -> (c: ManualClock)
        ensures
            c.reading() == 0,
    {
        ManualClock { now: 0 }
    }

    /// Advances the clock by `delta_ns`, wrapping around at `u64::MAX`.
    pub fn advance(&mut self, delta_ns: u64)
        ensures
            final(self).reading() == (old(self).reading() + delta_ns) % 0x1_0000_0000_0000_0000,
    {
        self.now = self.now.wrapping_add(delta_ns);
    }

    /// Sets the clock to an absolute value.
    pub fn set(&mut self, value_ns: u64)
        ensures
            final(self).reading() == value_ns,
    {
        self.now = value_ns;
    }
}

impl Default for ManualClock {
    fn default() -> (c: ManualClock)
        ensures
            c.reading() == 0,
    {
        ManualClock::new()
    }
}

impl Clock for ManualClock {
    fn now_ns(&self) -> (r: u64)
        ensures
            r == self.reading(),
    {
        self.now
    }
}

} // verus!
