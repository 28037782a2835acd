//! The wall clock, read through `std::time`.

use std::time::{Duration, SystemTime, SystemTimeError, UNIX_EPOCH};
use vstd::prelude::*;

verus! {

/// `std::time::SystemTime`: an instant of the wall clock. Nothing is known
/// of what it holds.
#[verifier::external_type_specification]
#[verifier::external_body]
pub struct ExSystemTime(SystemTime);

/// `std::time::SystemTimeError`: what is handed back for an instant that
/// lies before the one it is measured from.
#[verifier::external_type_specification]
#[verifier::external_body]
pub struct ExSystemTimeError(SystemTimeError);

/// `SystemTime::now` reads the clock; nothing is assumed of the instant it returns.
pub assume_specification[ SystemTime::now ]() -> (t: SystemTime);

/// `Duration::as_millis` is the whole number of milliseconds in the
/// duration; nothing is assumed of it here.
pub assume_specification[ Duration::as_millis ](d: &Duration) -> (ms: u128);

/// `SystemTime::duration_since`, measured from `UNIX_EPOCH`: the call never
/// panics, and fails when `t` lies before the epoch. Nothing is assumed of
/// the duration it returns.
#[verifier::external_body]
fn since_unix_epoch(t: &SystemTime) -> (r: Result<Duration, SystemTimeError>) {
    t.duration_since(UNIX_EPOCH)
}

/// The wall clock's time in milliseconds since the Unix epoch, or zero for
/// a clock that is set before the epoch.
pub fn wall_clock_ms() -> u128 {
    let now = SystemTime::now();
    match since_unix_epoch(&now) {
        Ok(elapsed) => elapsed.as_millis(),
        Err(_) => 0,
    }
}

} // verus!
