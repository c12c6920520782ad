//! std's clocks and durations, which the verifier sees as opaque values.
//! Each function here makes one std call.
use vstd::prelude::*;
use core::time::Duration;
use std::time::{Instant, SystemTime, UNIX_EPOCH};

verus! {

/// std's monotonic clock reading.
#[verifier::external_type_specification]
#[verifier::external_body]
pub struct ExInstant(std::time::Instant);

/// std's wall clock reading.
#[verifier::external_type_specification]
#[verifier::external_body]
pub struct ExSystemTime(std::time::SystemTime);

/// Relies on `Instant::now`: the current monotonic time.
#[verifier::external_body]
pub(crate) fn instant_now() -> Instant {
    Instant::now()
}

/// Relies on `Instant::saturating_duration_since`: the time from `earlier`
/// to `later`, zero when `later` is not after it.
#[verifier::external_body]
pub(crate) fn duration_since(later: &Instant, earlier: &Instant) -> Duration {
    later.saturating_duration_since(*earlier)
}

/// Relies on `SystemTime::now`: the current wall-clock time.
#[verifier::external_body]
pub(crate) fn system_now() -> SystemTime {
    SystemTime::now()
}

/// Relies on `SystemTime::duration_since`: the time since the Unix epoch,
/// `None` for a time before it.
#[verifier::external_body]
pub(crate) fn since_unix_epoch(t: &SystemTime) -> Option<Duration> {
    t.duration_since(UNIX_EPOCH).ok()
}

/// Relies on `Duration::as_nanos`: the whole nanoseconds of a duration.
#[verifier::external_body]
pub(crate) fn duration_nanos(d: &Duration) -> u128 {
    d.as_nanos()
}

/// Relies on `Duration::as_micros`: the whole microseconds of a duration.
#[verifier::external_body]
pub(crate) fn duration_micros(d: &Duration) -> u128 {
    d.as_micros()
}

/// Relies on `Duration::from_secs`: a duration of `secs` whole seconds.
#[verifier::external_body]
pub(crate) fn duration_from_secs(secs: u64) -> Duration {
    Duration::from_secs(secs)
}

/// Wall-clock nanoseconds since the Unix epoch, truncated to 64 bits; zero
/// before the epoch.
pub fn wall_clock_nanos() -> u64 {
    let now = system_now();
    match since_unix_epoch(&now) {
        Some(d) => duration_nanos(&d) as u64,
        None => 0,
    }
}

} // verus!
