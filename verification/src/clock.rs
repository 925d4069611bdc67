//! The std clock calls behind `model::now_ms`.

use std::time::{Duration, SystemTime, SystemTimeError};

use vstd::prelude::*;

verus! {

/// Declares `std::time::SystemTime`.
#[verifier::external_type_specification]
#[verifier::external_body]
pub struct ExSystemTime(SystemTime);

/// Declares `std::time::SystemTimeError`.
#[verifier::external_type_specification]
#[verifier::external_body]
pub struct ExSystemTimeError(SystemTimeError);

/// Calls `SystemTime::now`. The clock's reading: nothing is promised of it.
#[verifier::external_body]
pub(crate) fn system_now() -> SystemTime {
    SystemTime::now()
}

/// Calls `SystemTime::duration_since` with the Unix epoch; it fails when the
/// time lies before the epoch. Nothing is promised of the duration.
#[verifier::external_body]
pub(crate) fn since_unix_epoch(t: &SystemTime) -> Result<Duration, SystemTimeError> {
    t.duration_since(std::time::UNIX_EPOCH)
}

/// Calls `Duration::as_millis`: the whole milliseconds of a duration.
#[verifier::external_body]
pub(crate) fn whole_millis(d: &Duration) -> u128 {
    d.as_millis()
}

} // verus!
