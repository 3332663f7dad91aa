//! Readings of the clocks.

use vstd::prelude::*;

verus! {

/// An instant of the machine's monotonic clock.
#[verifier::external_type_specification]
#[verifier::external_body]
pub struct ExInstant(std::time::Instant);

/// `std::time::Instant::now`. Nothing is claimed of which instant comes.
pub assume_specification[ std::time::Instant::now ]() -> (r: std::time::Instant);

/// `std::time::Instant::elapsed`. Nothing is claimed of how much time has passed.
pub assume_specification[ std::time::Instant::elapsed ](i: &std::time::Instant) -> (r:
    std::time::Duration);

/// A reading of the wall clock.
#[verifier::external_type_specification]
#[verifier::external_body]
pub struct ExSystemTime(std::time::SystemTime);

/// `std::time::SystemTime::now`. Nothing is claimed of which reading comes.
pub assume_specification[ std::time::SystemTime::now ]() -> (r: std::time::SystemTime);

/// A span of the monotonic clock in nanoseconds: its whole seconds fit in 64
/// bits. A deadline any number of milliseconds ahead of such a reading can be
/// told in nanoseconds, too.
pub open spec fn is_span(nanos: u128) -> bool {
    nanos / 1_000_000_000 <= u64::MAX
}

/// `std::time::Duration::as_nanos`. Claimed is that the whole seconds fit in 64
/// bits, as those of every duration do.
pub assume_specification[ std::time::Duration::as_nanos ](d: &std::time::Duration) -> (r: u128)
    ensures
        is_span(r),
;

/// `std::time::Duration::as_micros`. Nothing is claimed of the number.
pub assume_specification[ std::time::Duration::as_micros ](d: &std::time::Duration) -> (r: u128);

/// `std::time::SystemTime::duration_since` the Unix epoch, or nothing if the
/// reading lies before it. Nothing is claimed of which it is.
#[verifier::external_body]
fn since_unix_epoch(reading: &std::time::SystemTime) -> (r: Option<std::time::Duration>) {
    reading.duration_since(std::time::UNIX_EPOCH).ok()
}

/// Nanoseconds since `epoch`.
pub(crate) fn nanos_since(epoch: &std::time::Instant) -> (r: u128)
    ensures
        is_span(r),
{
    epoch.elapsed().as_nanos()
}

/// Microseconds of the wall clock since the Unix epoch, or nothing if the clock is
/// set before it.
pub(crate) fn micros_since_unix_epoch() -> (r: Option<u128>) {
    match since_unix_epoch(&std::time::SystemTime::now()) {
        Some(elapsed) => Some(elapsed.as_micros()),
        None => None,
    }
}

/// Wall-clock milliseconds: a reading of the wall clock in whole milliseconds,
/// zero for a clock before the Unix epoch.
pub open spec fn wall_millis(micros: Option<u128>) -> u64 {
    match micros {
        Some(us) => (us / 1000) as u64,
        None => 0,
    }
}

/// Wall-clock milliseconds from a reading of the wall clock.
pub fn wall_clock_millis(micros: Option<u128>) -> (r: u64)
    ensures
        r == wall_millis(micros),
{
    match micros {
        Some(us) => #[verifier::truncate]
        ((us / 1000) as u64),
        None => 0,
    }
}

/// The wall clock is told in whole milliseconds: it is as far behind the reading as
/// less than a millisecond.
pub proof fn wall_clock_is_told_in_whole_milliseconds(us: u128)
    requires
        us / 1000 <= u64::MAX,
    ensures
        wall_millis(Some(us)) * 1000 <= us < wall_millis(Some(us)) * 1000 + 1000,
        wall_millis(None) == 0,
{
}

} // verus!
