//! Reading the system clock.

use std::time::{Duration, SystemTime, SystemTimeError};
use vstd::prelude::*;

verus! {

/// A reading of the system clock.
#[verifier::external_type_specification]
#[verifier::external_body]
pub struct ExSystemTime(SystemTime);

/// What `SystemTime::duration_since` returns where the other time is the later one.
#[verifier::external_type_specification]
#[verifier::external_body]
pub struct ExSystemTimeError(SystemTimeError);

/// `SystemTime::now` reads the system clock. Nothing is claimed of what it shows.
pub assume_specification[ SystemTime::now ]() -> SystemTime;

/// `Duration::as_nanos` counts the nanoseconds of a duration. Nothing is claimed of the
/// count, as durations are opaque here.
pub assume_specification[ Duration::as_nanos ](duration: &Duration) -> u128;

/// Calls `SystemTime::duration_since` with the Unix epoch. Nothing is claimed of the
/// duration, which depends on the clock.
#[verifier::external_body]
fn since_epoch(time: SystemTime) -> Result<Duration, SystemTimeError> {
    time.duration_since(SystemTime::UNIX_EPOCH)
}

/// The timestamp for a number of nanoseconds since the Unix epoch: the lowest 64 bits, and
/// zero for a time before the epoch.
pub fn timestamp_of(nanos: Option<u128>) -> (timestamp_ns: u64)
    ensures
        match nanos {
            Some(n) => timestamp_ns == n % 0x1_0000_0000_0000_0000,
            None => timestamp_ns == 0,
        },
{
    match nanos {
        Some(n) => (n % 0x1_0000_0000_0000_0000) as u64,
        None => 0,
    }
}

/// The current time as nanoseconds since the Unix epoch. What it returns is up to the
/// system clock.
pub fn now_ns() -> u64 {
    match since_epoch(SystemTime::now()) {
        Ok(duration) => timestamp_of(Some(duration.as_nanos())),
        Err(_) => timestamp_of(None),
    }
}

} // verus!
