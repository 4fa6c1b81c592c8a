//! The current time, in milliseconds since the Unix epoch.
use vstd::prelude::*;
use std::time::{Duration, SystemTime, SystemTimeError, UNIX_EPOCH};

verus! {

#[verifier::external_type_specification]
#[verifier::external_body]
pub struct ExSystemTime(SystemTime);

#[verifier::external_type_specification]
#[verifier::external_body]
pub struct ExSystemTimeError(SystemTimeError);

/// Reads the system clock (`SystemTime::now`). Nothing is claimed of the reading: it
/// depends on the moment of the call.
#[verifier::external_body]
fn system_time_now() -> (now: SystemTime) {
    SystemTime::now()
}

/// The time elapsed from the Unix epoch to `t` (`SystemTime::duration_since`), or an
/// error when `t` lies before the epoch. Nothing is claimed of the value: it depends on
/// the clock reading `t`, which the library cannot see into.
#[verifier::external_body]
fn duration_since_epoch(t: &SystemTime) -> (d: Result<Duration, SystemTimeError>) {
    t.duration_since(UNIX_EPOCH)
}

/// The whole seconds of `d` (`Duration::as_secs`). Nothing is claimed of the value:
/// the library holds durations only as opaque values.
#[verifier::external_body]
fn duration_secs(d: &Duration) -> (secs: u64) {
    d.as_secs()
}

/// The fractional part of `d` in nanoseconds (`Duration::subsec_nanos`). Claims what
/// std documents: the value is always less than one billion.
#[verifier::external_body]
fn duration_subsec_nanos(d: &Duration) -> (nanos: u32)
    ensures
        nanos < 1_000_000_000,
{
    d.subsec_nanos()
}

/// The whole milliseconds of a duration of `secs` seconds and `subsec_nanos`
/// nanoseconds, as `Duration::as_millis` counts them.
pub fn millis_of(secs: u64, subsec_nanos: u32) -> (ms: u128)
    ensures
        ms == secs as int * 1000 + subsec_nanos as int / 1_000_000,
{
    secs as u128 * 1000 + (subsec_nanos / 1_000_000) as u128
}

/// The current time in milliseconds since the Unix epoch, or `None` when the clock
/// reads a time before the epoch.
pub fn get_current_timestamp_ms() -> (ts: Option<u128>)
    ensures
        ts matches Some(ms) ==> ms <= u64::MAX as int * 1000 + 999,
{
    let start = system_time_now();
    match duration_since_epoch(&start) {
        Ok(since_the_epoch) => {
            let secs = duration_secs(&since_the_epoch);
            let nanos = duration_subsec_nanos(&since_the_epoch);
            Some(millis_of(secs, nanos))
        },
        Err(_) => None,
    }
}

} // verus!
