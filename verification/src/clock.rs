//! The wall clock by which a search is cut off.

use vstd::prelude::*;

verus! {

/// `std::time::Instant`: a reading of the monotonic clock, carried as a
/// value of which nothing is known.
#[verifier::external_type_specification]
#[verifier::external_body]
pub struct ExInstant(std::time::Instant);

/// A point in time and the number of milliseconds after it at which a
/// search gives up.
pub struct Deadline {
    pub start: std::time::Instant,
    pub limit_millis: u64,
}

/// `std::time::Instant::now`: the current reading of the monotonic clock.
/// Nothing is claimed of the reading.
#[verifier::external_body]
pub(crate) fn clock_start() -> (start: std::time::Instant) {
    std::time::Instant::now()
}

/// `std::time::Instant::elapsed`: the time that has passed since `start`.
/// Nothing is claimed of the result, which depends on when the call is made.
#[verifier::external_body]
pub(crate) fn clock_elapsed(start: &std::time::Instant) -> (passed: std::time::Duration) {
    start.elapsed()
}

/// `std::time::Duration::as_millis`: the whole milliseconds that the duration
/// holds. Nothing is claimed of the result.
#[verifier::external_body]
pub(crate) fn duration_millis(d: &std::time::Duration) -> (millis: u128) {
    d.as_millis()
}

impl Deadline {
    /// A deadline `limit_millis` milliseconds from now.
    pub fn after(limit_millis: u64) -> (d: Deadline)
        ensures
            d.limit_millis == limit_millis,
    {
        Deadline { start: clock_start(), limit_millis }
    }

    /// The milliseconds that have passed since the deadline was set, or the
    /// largest number that 64 bits hold if they are more.
    pub fn elapsed_millis(&self) -> u64 {
        let passed = clock_elapsed(&self.start);
        let millis: u128 = duration_millis(&passed);
        capped_millis(millis)
    }

    /// Whether the limit has been reached: whether the milliseconds that have
    /// passed since the deadline was set are no fewer than `limit_millis`.
    /// A deadline of no milliseconds has passed whenever it is asked. Of any
    /// other the clock decides, and `reached` says what the answer is for
    /// each reading of it.
    pub fn passed(&self) -> (r: bool)
        ensures
            self.limit_millis == 0 ==> r,
    {
        let elapsed = self.elapsed_millis();
        self.reached(elapsed)
    }

    /// Whether the limit has been reached once `elapsed_millis` milliseconds
    /// have passed since the deadline was set.
    pub fn reached(&self, elapsed_millis: u64) -> (r: bool)
        ensures
            r == (elapsed_millis >= self.limit_millis),
    {
        elapsed_millis >= self.limit_millis
    }
}

/// A number of milliseconds in 64 bits: the number itself, or the largest
/// that 64 bits hold if it is more.
pub fn capped_millis(millis: u128) -> (capped: u64)
    ensures
        capped == if millis > u64::MAX {
            u64::MAX as int
        } else {
            millis as int
        },
{
    if millis > 0xffff_ffff_ffff_ffff {
        0xffff_ffff_ffff_ffff
    } else {
        millis as u64
    }
}

} // verus!
