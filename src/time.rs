use std::time::Instant;
use vstd::prelude::*;

verus! {

/// Nanoseconds in one second.
pub const NANOS_PER_SEC: u64 = 1_000_000_000;

/// Nanoseconds in one millisecond.
pub const NANOS_PER_MILLI: u64 = 1_000_000;

/// `x` cut down to the largest `u64` where it does not fit.
pub open spec fn clamp_u64(x: int) -> int {
    if x > u64::MAX {
        u64::MAX as int
    } else {
        x
    }
}

/// A span of time, counted in nanoseconds. Spans longer than `u64::MAX`
/// nanoseconds (about 584 years) are held as that maximum.
#[derive(Clone, Copy, Debug, PartialEq, Eq, Structural)]
pub struct TimeSpan {
    pub nanos: u64,
}

impl TimeSpan {
    pub fn from_nanos(nanos: u64) -> (r: TimeSpan)
        ensures
            r.nanos == nanos,
    {
        TimeSpan { nanos }
    }

    pub fn from_millis(millis: u64) -> (r: TimeSpan)
        ensures
            r.nanos == clamp_u64(millis * NANOS_PER_MILLI),
    {
        if millis > u64::MAX / NANOS_PER_MILLI {
            TimeSpan { nanos: u64::MAX }
        } else {
            TimeSpan { nanos: millis * NANOS_PER_MILLI }
        }
    }

    pub fn from_secs(secs: u64) -> (r: TimeSpan)
        ensures
            r.nanos == clamp_u64(secs * NANOS_PER_SEC),
    {
        if secs > u64::MAX / NANOS_PER_SEC {
            TimeSpan { nanos: u64::MAX }
        } else {
            TimeSpan { nanos: secs * NANOS_PER_SEC }
        }
    }

    pub fn as_nanos(&self) -> (r: u64)
        ensures
            r == self.nanos,
    {
        self.nanos
    }
}

#[verifier::external_type_specification]
#[verifier::external_body]
pub struct ExInstant(Instant);

/// Relies on std::time::Instant::now: a reading of the monotonic clock.
/// Nothing is assumed of the value.
#[verifier::external_body]
pub(crate) fn clock_start() -> Instant {
    Instant::now()
}

/// Relies on std::time::Instant::elapsed and std::time::Duration::as_nanos:
/// the nanoseconds that passed on the monotonic clock since `origin`.
/// Nothing is assumed of the value.
#[verifier::external_body]
pub(crate) fn nanos_since(origin: &Instant) -> u128 {
    origin.elapsed().as_nanos()
}

/// Nanoseconds since `origin`, held as the largest `u64` beyond that range.
pub(crate) fn clock_reading(origin: &Instant) -> (r: u64) {
    let n = nanos_since(origin);
    if n > u64::MAX as u128 {
        u64::MAX
    } else {
        n as u64
    }
}

} // verus!
