//! The system clock, read through `std::time`.

use vstd::prelude::*;

verus! {

#[verifier::external_type_specification]
#[verifier::external_body]
pub struct ExSystemTime(std::time::SystemTime);

/// Calls `SystemTime::now`: a reading of the system clock. Nothing is claimed of the
/// reading; two calls may give any two values.
#[verifier::external_body]
fn clock_reading() -> std::time::SystemTime {
    std::time::SystemTime::now()
}

/// Calls `SystemTime::duration_since` with `UNIX_EPOCH`: the time elapsed since the
/// epoch, `None` where the reading lies before it. Nothing is claimed of the duration.
#[verifier::external_body]
fn since_unix_epoch(t: &std::time::SystemTime) -> Option<core::time::Duration> {
    t.duration_since(std::time::UNIX_EPOCH).ok()
}

/// Calls `Duration::as_nanos`: the whole duration in nanoseconds. Nothing is claimed of it.
#[verifier::external_body]
fn duration_nanos(d: &core::time::Duration) -> u128 {
    d.as_nanos()
}

/// Calls `Duration::as_secs`: the whole seconds of the duration. Nothing is claimed of it.
#[verifier::external_body]
fn duration_secs(d: &core::time::Duration) -> u64 {
    d.as_secs()
}

/// Nanoseconds since the Unix epoch by the system clock, truncated to 64 bits
/// (0 if the clock is before the epoch).
pub fn now_ns() -> u64 {
    match since_unix_epoch(&clock_reading()) {
        Some(d) => duration_nanos(&d) as u64,
        None => 0,
    }
}

/// Seconds since the Unix epoch by the system clock (0 if the clock is before the epoch).
pub fn now_secs() -> u64 {
    match since_unix_epoch(&clock_reading()) {
        Some(d) => duration_secs(&d),
        None => 0,
    }
}

} // verus!
