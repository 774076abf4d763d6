//! Wall-clock readings. The values depend on the machine's clock, so nothing
//! beyond their sign is promised of a reading; the conversions of a reading
//! are stated exactly.

use std::time::{SystemTime, SystemTimeError, Duration};
use vstd::prelude::*;

verus! {

#[verifier::external_type_specification]
#[verifier::external_body]
pub struct ExSystemTime(SystemTime);

#[verifier::external_type_specification]
#[verifier::external_body]
pub struct ExSystemTimeError(SystemTimeError);

/// `SystemTime::now`: the current wall-clock time. Nothing is promised of it.
#[verifier::external_body]
fn system_time_now() -> SystemTime {
    SystemTime::now()
}

/// `SystemTime::duration_since` measured from `UNIX_EPOCH`: an error when
/// `t` lies before the epoch. Nothing else is promised.
#[verifier::external_body]
fn since_unix_epoch(t: SystemTime) -> Result<Duration, SystemTimeError> {
    t.duration_since(std::time::UNIX_EPOCH)
}

/// `Duration::as_millis`: the whole milliseconds in `d`.
#[verifier::external_body]
fn duration_millis(d: &Duration) -> u128 {
    d.as_millis()
}

/// The whole milliseconds since the Unix epoch that a clock reading gave
/// (`None` for a reading before the epoch).
fn elapsed_millis() -> Option<u128> {
    match since_unix_epoch(system_time_now()) {
        Ok(elapsed) => Some(duration_millis(&elapsed)),
        Err(_) => None,
    }
}

/// A millisecond count clamped into `i64`; zero for a reading before the
/// epoch.
pub fn clamped_millis(elapsed: Option<u128>) -> (ms: i64)
    ensures
        ms == match elapsed {
            Some(m) => if m > i64::MAX as u128 {
                i64::MAX as int
            } else {
                m as int
            },
            None => 0,
        },
{
    match elapsed {
        Some(m) => if m > 0x7fff_ffff_ffff_ffffu128 {
            0x7fff_ffff_ffff_ffffi64
        } else {
            m as i64
        },
        None => 0,
    }
}

/// A millisecond count as the publication store records it: its low 64
/// bits, read as `i64`; zero for a reading before the epoch.
pub fn stored_millis(elapsed: Option<u128>) -> (ms: i64)
    ensures
        ms == match elapsed {
            Some(m) => m as i64,
            None => 0i64,
        },
{
    match elapsed {
        Some(m) => m as i64,
        None => 0,
    }
}

/// Milliseconds since the Unix epoch, clamped into `i64`; zero when the clock
/// reads before the epoch.
pub fn now_millis() -> (ms: i64)
    ensures
        ms >= 0,
{
    clamped_millis(elapsed_millis())
}

/// Milliseconds since the Unix epoch as the publication store records them:
/// the low 64 bits of the millisecond count, read as `i64`; zero when the
/// clock reads before the epoch. Any `i64` can come back, so nothing is
/// promised of it; `stored_millis` states the conversion.
pub fn now_ms() -> i64 {
    stored_millis(elapsed_millis())
}

} // verus!
