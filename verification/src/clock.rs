//! Readings of the monotonic clock and lengths of time, in nanoseconds.
use std::time::{Duration, Instant};

use vstd::prelude::*;

verus! {

/// A moment of the monotonic clock of std, which only std can read.
#[verifier::external_type_specification]
#[verifier::external_body]
pub struct ExInstant(Instant);

/// The number of nanoseconds in the longest length of time that std can hold.
pub const MAX_NANOS: u128 = 18_446_744_073_709_551_615_999_999_999;

/// The number of nanoseconds in a length of time.
pub uninterp spec fn duration_nanos(d: Duration) -> u128;

/// `Duration::as_nanos`: the whole number of nanoseconds in a length of time. The contract says
/// that it depends on the length of time alone, and gives it a name; std keeps to itself how a
/// length of time is made up. It is bounded, since a length of time is a number of seconds that
/// fits 64 bits and less than a second besides.
pub assume_specification[ Duration::as_nanos ](d: &Duration) -> (nanos: u128)
    ensures
        nanos == duration_nanos(*d),
        nanos <= MAX_NANOS,
;

/// `Instant::now`: the present moment. Nothing can be said of it beforehand.
pub assume_specification[ Instant::now ]() -> (now: Instant)
;

/// `Instant::elapsed`: the time that has passed since a moment, or none where the clock has not
/// moved. Nothing can be said beforehand of how much it is.
pub assume_specification[ Instant::elapsed ](since: &Instant) -> (elapsed: Duration)
;

/// Whether `reading` is what the clock can read, in nanoseconds since `origin`: the length of a
/// time that `Instant::elapsed` gives for `origin`.
pub open spec fn clock_read(origin: Instant, reading: u128) -> bool {
    &&& reading <= MAX_NANOS
    &&& exists|passed: Duration| #[trigger]
        call_ensures(Instant::elapsed, (&origin,), passed) && reading == duration_nanos(passed)
}

/// What `measure` gives for `origin`.
fn measured<F: FnOnce(&Instant) -> Duration>(measure: F, origin: &Instant) -> (passed: Duration)
    requires
        measure.requires((origin,)),
    ensures
        measure.ensures((origin,), passed),
{
    measure(origin)
}

/// Reads the clock, in nanoseconds since `origin`.
pub fn nanos_since(origin: &Instant) -> (reading: u128)
    ensures
        clock_read(*origin, reading),
{
    let passed = measured(Instant::elapsed, origin);
    passed.as_nanos()
}

} // verus!
