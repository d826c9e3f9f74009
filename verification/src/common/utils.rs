//! Time stamps and the wall clock.
use vstd::prelude::*;

use std::time::SystemTime;

verus! {

/// A point in time, in the unit of the clock that produced it.
pub type Timestamp = i64;

#[verifier::external_type_specification]
#[verifier::external_body]
pub struct ExSystemTime(SystemTime);

/// `std::time::SystemTime::now`: the system's wall clock. What it reads
/// depends on the moment of the call, so nothing is said of it.
#[verifier::external_body]
fn system_time_now() -> (t: SystemTime) {
    SystemTime::now()
}

/// `SystemTime::duration_since(UNIX_EPOCH)`, as whole seconds and the
/// nanoseconds past them. It is `None` where std returns an error (a time
/// before the epoch). The nanoseconds of a `Duration` are below one billion.
#[verifier::external_body]
fn since_unix_epoch(t: SystemTime) -> (res: Option<(u64, u32)>)
    ensures
        res matches Some((_, nanos)) ==> nanos < 1_000_000_000,
{
    match t.duration_since(std::time::UNIX_EPOCH) {
        Ok(d) => Some((d.as_secs(), d.subsec_nanos())),
        Err(_) => None,
    }
}

/// `chrono::DateTime::from_timestamp(secs, nanos)` read back through
/// `DateTime::timestamp_millis`. `from_timestamp` round-trips with
/// `timestamp` and `timestamp_subsec_nanos`, and `timestamp_millis` is
/// `timestamp() * 1000 + timestamp_subsec_nanos() / 1_000_000`, so a result
/// is that sum. `from_timestamp` returns `None` for a time outside chrono's
/// years (the latest is 262142) or an invalid nanosecond count; a whole
/// second count from 0 to 8 * 10^12 (before the year 255500) with fewer than
/// a billion nanoseconds is always accepted. Where it is refused in between
/// is not stated.
#[verifier::external_body]
fn utc_millis(secs: i64, nanos: u32) -> (res: Option<i64>)
    ensures
        res matches Some(ms) ==> ms == secs * 1000 + nanos / 1_000_000,
        0 <= secs <= 8_000_000_000_000 && nanos < 1_000_000_000 ==> res is Some,
{
    match chrono::DateTime::from_timestamp(secs, nanos) {
        Some(dt) => Some(dt.timestamp_millis()),
        None => None,
    }
}

/// The milliseconds since the Unix epoch of the instant `secs` seconds and
/// `nanos` nanoseconds after it, as chrono counts them; `None` where chrono
/// cannot represent the instant.
pub fn epoch_millis(secs: u64, nanos: u32) -> (res: Option<i64>)
    ensures
        res matches Some(ms) ==> ms == secs * 1000 + nanos / 1_000_000,
        secs <= 8_000_000_000_000 && nanos < 1_000_000_000 ==> res is Some,
{
    if secs > i64::MAX as u64 {
        None
    } else {
        utc_millis(secs as i64, nanos)
    }
}

/// The wall-clock time in milliseconds since the Unix epoch, or `None`
/// where the system clock stands before the epoch or beyond the times that
/// chrono represents. The reading depends on the moment of the call.
pub fn now_millis() -> (res: Option<i64>)
    ensures
        res matches Some(ms) ==> ms >= 0,
{
    match since_unix_epoch(system_time_now()) {
        Some((secs, nanos)) => epoch_millis(secs, nanos),
        None => None,
    }
}

} // verus!
