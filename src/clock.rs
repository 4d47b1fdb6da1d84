//! The till's clock: the system time, in whole seconds since the Unix epoch.
use vstd::prelude::*;

verus! {

#[verifier::external_type_specification]
#[verifier::external_body]
pub struct ExSystemTime(std::time::SystemTime);

/// Relies on `std::time::SystemTime::now`: reads the system clock. What it reads depends
/// on the machine, so nothing is stated of it.
#[verifier::external_body]
fn system_now() -> (r: std::time::SystemTime) {
    std::time::SystemTime::now()
}

/// Relies on `std::time::SystemTime::duration_since`: the time from the Unix epoch to `t`,
/// or none when `t` lies before the epoch (the call's error case; it does not panic).
#[verifier::external_body]
fn since_epoch(t: &std::time::SystemTime) -> (r: Option<core::time::Duration>) {
    t.duration_since(std::time::UNIX_EPOCH).ok()
}

/// Relies on `core::time::Duration::as_secs`: the whole seconds of a duration.
pub assume_specification[ core::time::Duration::as_secs ](d: &core::time::Duration) -> u64;

/// The system time now in whole seconds since the Unix epoch (UTC); a clock set before
/// the epoch reads as the epoch itself.
pub fn current_time() -> (r: u64) {
    match since_epoch(&system_now()) {
        Some(d) => d.as_secs(),
        None => 0,
    }
}

} // verus!
