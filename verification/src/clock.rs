//! The wall clock, in milliseconds since the Unix epoch.

use std::time::{Duration, SystemTime, SystemTimeError};
use vstd::prelude::*;

verus! {

/// The system's clock reading, opaque to the verifier.
#[verifier::external_type_specification]
#[verifier::external_body]
pub struct ExSystemTime(SystemTime);

/// The error of a clock reading that lies before the one it is measured
/// from, opaque to the verifier.
#[verifier::external_type_specification]
#[verifier::external_body]
pub struct ExSystemTimeError(SystemTimeError);

/// Calls `std::time::SystemTime::now`. Nothing is claimed of the reading:
/// it may differ from call to call, in either direction.
#[verifier::external_body]
fn system_time_now() -> (t: SystemTime) {
    SystemTime::now()
}

/// Calls `std::time::SystemTime::duration_since` with
/// `std::time::UNIX_EPOCH`. Nothing is claimed of the result.
#[verifier::external_body]
fn since_unix_epoch(t: &SystemTime) -> (d: Result<Duration, SystemTimeError>) {
    t.duration_since(std::time::UNIX_EPOCH)
}

/// Calls `std::time::Duration::as_millis`. Nothing is claimed of the
/// result.
#[verifier::external_body]
fn whole_millis(d: &Duration) -> (ms: u128) {
    d.as_millis()
}

/// The milliseconds that have passed since the Unix epoch. A clock that
/// stands before the epoch reads as the latest time there is, so that
/// every deadline has passed.
pub fn now_millis() -> (ms: u128) {
    let t = system_time_now();
    let reading: Option<u128> = match since_unix_epoch(&t) {
        Ok(d) => Some(whole_millis(&d)),
        Err(_) => None,
    };
    millis_or_latest(reading)
}

/// The time that a reading of the clock stands for: the reading itself,
/// and the latest time there is where the clock could not be read.
pub fn millis_or_latest(reading: Option<u128>) -> (ms: u128)
    ensures
        ms == (match reading {
            Some(m) => m,
            None => u128::MAX,
        }),
{
    match reading {
        Some(m) => m,
        None => u128::MAX,
    }
}

} // verus!
