//! Points in time on the cache's clock.
use vstd::prelude::*;

verus! {

/// Nanoseconds in one second.
pub const NANOS_PER_SEC: u64 = 1_000_000_000;

/// A point on the cache's clock, counted in nanoseconds from the clock's origin.
#[derive(Clone, Copy, Debug, PartialEq, Eq, Structural, Hash)]
pub struct Instant {
    nanos: u64,
}

impl View for Instant {
    type V = u64;

    closed spec fn view(&self) -> u64 {
        self.nanos
    }
}

/// Relies on mock_instant's thread-local `MockClock::time`: the clock's
/// current reading, which its owner sets and advances; nothing is promised of it.
#[verifier::external_body]
fn clock_reading() -> (r: u64) {
    mock_instant::thread_local::MockClock::time().as_nanos() as u64
}

impl Instant {
    /// The instant that lies `nanos` nanoseconds after the clock's origin.
    pub fn from_nanos(nanos: u64) -> (r: Instant)
        ensures
            r@ == nanos,
    {
        Instant { nanos }
    }

    /// Nanoseconds from the clock's origin to this instant.
    pub fn as_nanos(&self) -> (r: u64)
        ensures
            r == self@,
    {
        self.nanos
    }

    /// The clock's current reading.
    pub fn now() -> (r: Instant) {
        Instant { nanos: clock_reading() }
    }

    /// The instant `nanos` nanoseconds later, saturating at the clock's end.
    pub fn plus_nanos(&self, nanos: u64) -> (r: Instant)
        ensures
            r@ == if self@ + nanos <= u64::MAX { (self@ + nanos) as u64 } else { u64::MAX },
    {
        if nanos <= u64::MAX - self.nanos {
            Instant { nanos: self.nanos + nanos }
        } else {
            Instant { nanos: u64::MAX }
        }
    }

    /// The instant `secs` seconds later, saturating at the clock's end.
    pub fn plus_secs(&self, secs: u64) -> (r: Instant)
        ensures
            r@ == if self@ + secs * NANOS_PER_SEC <= u64::MAX {
                (self@ + secs * NANOS_PER_SEC) as u64
            } else {
                u64::MAX
            },
    {
        let room: u64 = u64::MAX - self.nanos;
        if secs <= room / NANOS_PER_SEC {
            assert(secs * NANOS_PER_SEC <= room) by (nonlinear_arith)
                requires
                    secs as int <= room as int / NANOS_PER_SEC as int,
                    NANOS_PER_SEC > 0,
            ;
            Instant { nanos: self.nanos + secs * NANOS_PER_SEC }
        } else {
            assert(secs * NANOS_PER_SEC > room) by (nonlinear_arith)
                requires
                    secs as int > room as int / NANOS_PER_SEC as int,
                    NANOS_PER_SEC > 0,
            ;
            Instant { nanos: u64::MAX }
        }
    }
}

} // verus!
