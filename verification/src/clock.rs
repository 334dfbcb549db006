//! The clocks: std's monotonic `Instant` and the system time.

use vstd::prelude::*;

verus! {

#[verifier::external_type_specification]
#[verifier::external_body]
pub struct ExInstant(std::time::Instant);

#[verifier::external_type_specification]
#[verifier::external_body]
pub struct ExSystemTime(std::time::SystemTime);

/// std's `Clone` for `Instant`, a `Copy` type: the clone is the same
/// instant.
pub assume_specification[<std::time::Instant as Clone>::clone](i: &std::time::Instant) -> (r:
    std::time::Instant)
    ensures
        r == *i,
;

/// std's `Instant::now`: the current reading of the monotonic clock.
/// Nothing is stated of it.
#[verifier::external_body]
pub(crate) fn instant_now() -> std::time::Instant {
    std::time::Instant::now()
}

/// std's `Instant::elapsed`: the time since `start` by the monotonic clock.
/// Nothing is stated of it: it depends on the clock.
#[verifier::external_body]
pub(crate) fn elapsed_since(start: &std::time::Instant) -> std::time::Duration {
    start.elapsed()
}

/// std's `Duration::as_secs`: the whole seconds of `d`. Nothing is stated of
/// the value, as nothing here models a `Duration`.
#[verifier::external_body]
pub(crate) fn duration_secs(d: &std::time::Duration) -> u64 {
    d.as_secs()
}

/// std's `SystemTime::now`: the current system time. Nothing is stated of
/// it.
#[verifier::external_body]
pub(crate) fn system_now() -> std::time::SystemTime {
    std::time::SystemTime::now()
}

/// std's `SystemTime::duration_since` the Unix epoch: `None` where `t` is
/// before it (std's error). Nothing is stated of the value.
#[verifier::external_body]
pub(crate) fn since_unix_epoch(t: &std::time::SystemTime) -> Option<std::time::Duration> {
    match t.duration_since(std::time::UNIX_EPOCH) {
        Ok(d) => Some(d),
        Err(_) => None,
    }
}

/// std's `Duration::as_nanos`: the whole nanoseconds of `d`. Nothing is
/// stated of the value, as nothing here models a `Duration`.
#[verifier::external_body]
pub(crate) fn duration_nanos(d: &std::time::Duration) -> u128 {
    d.as_nanos()
}

} // verus!
