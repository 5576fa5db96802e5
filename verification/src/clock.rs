//! Monotonic time sources, in whole seconds.
//!
//! The engine never reads wall-clock time directly: it asks a [`Clock`],
//! whose readings never decrease. A [`ManualClock`] is advanced by hand, so
//! tests drive the engine deterministically; a [`SystemClock`] follows the
//! process's monotonic clock.

use vstd::prelude::*;

verus! {

/// A monotonic time source. Readings are in whole seconds and never
/// decrease across calls within one value.
pub trait Clock {
    /// The reading that the clock stands at; every later reading is at
    /// least this.
    spec fn spec_now(&self) -> u64;

    /// The current reading.
    fn now_seconds(&mut self) -> (r: u64)
        ensures
            old(self).spec_now() <= r,
            final(self).spec_now() == r,
    ;
}

/// A manually advanced clock: reads return the value set by [`ManualClock::advance`].
pub struct ManualClock {
    t: u64,
}

impl ManualClock {
    /// A clock standing at `start` seconds.
    pub fn new(start: u64) -> (r: ManualClock)
        ensures
            r.spec_now() == start,
    {
        ManualClock { t: start }
    }

    /// Moves the clock forward by `d` seconds.
    pub fn advance(&mut self, d: u64)
        requires
            old(self).spec_now() + d <= u64::MAX,
        ensures
            final(self).spec_now() == old(self).spec_now() + d,
    {
        self.t = self.t + d;
    }
}

impl Clock for ManualClock {
    closed spec fn spec_now(&self) -> u64 {
        self.t
    }

    fn now_seconds(&mut self) -> (r: u64) {
        self.t
    }
}

/// Declares std::time::Instant so that a clock can hold one; the value is
/// opaque and only the wrappers below touch it.
#[verifier::external_type_specification]
#[verifier::external_body]
pub struct ExInstant(std::time::Instant);

/// Relies on std::time::Instant::now for an anchor point of the process's
/// monotonic clock. Nothing is assumed of the value.
#[verifier::external_body]
fn instant_now() -> std::time::Instant {
    std::time::Instant::now()
}

/// Relies on std::time::Instant::elapsed, converted to whole seconds.
/// Nothing is assumed of the result: how much wall time has passed depends
/// on the machine, so the caller clamps it instead.
#[verifier::external_body]
fn seconds_since(start: &std::time::Instant) -> u64 {
    start.elapsed().as_secs()
}

/// The production clock: seconds since its construction, clamped so that
/// readings never decrease even if the underlying source misbehaves.
pub struct SystemClock {
    start: std::time::Instant,
    last: u64,
}

impl SystemClock {
    /// A clock standing at zero, anchored at the moment of the call.
    pub fn new() -> (r: SystemClock)
        ensures
            r.spec_now() == 0,
    {
        SystemClock { start: instant_now(), last: 0 }
    }
}

impl Clock for SystemClock {
    closed spec fn spec_now(&self) -> u64 {
        self.last
    }

    fn now_seconds(&mut self) -> (r: u64) {
        let e = seconds_since(&self.start);
        if e > self.last {
            self.last = e;
        }
        self.last
    }
}

} // verus!
