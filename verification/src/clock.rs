//! The wall clock.
use vstd::prelude::*;
use std::time::{Duration, SystemTime, SystemTimeError};

verus! {

#[verifier::external_type_specification]
#[verifier::external_body]
pub struct ExSystemTime(SystemTime);

#[verifier::external_type_specification]
#[verifier::external_body]
pub struct ExSystemTimeError(SystemTimeError);

/// `SystemTime::now()`: the current wall-clock time; nothing is promised of
/// it.
#[verifier::external_body]
fn system_now() -> SystemTime {
    SystemTime::now()
}

/// `SystemTime::duration_since(UNIX_EPOCH)`: the time since the Unix epoch,
/// or an error for a clock set before it; nothing is promised of which.
#[verifier::external_body]
fn since_epoch(t: SystemTime) -> Result<Duration, SystemTimeError> {
    t.duration_since(std::time::UNIX_EPOCH)
}

/// `Duration::as_millis`: the whole milliseconds of a duration; nothing is
/// promised of the value.
#[verifier::external_body]
fn duration_millis(d: Duration) -> u128 {
    d.as_millis()
}

/// Milliseconds since the Unix epoch, saturated to `u64` (0 for a clock set
/// before the epoch). Nothing is promised of the value: it is the time.
pub(crate) fn now_millis() -> u64 {
    match since_epoch(system_now()) {
        Ok(d) => {
            let m = duration_millis(d);
            if m > 0xffff_ffff_ffff_ffffu128 {
                0xffff_ffff_ffff_ffffu64
            } else {
                m as u64
            }
        },
        Err(_) => 0,
    }
}

} // verus!
