//! Reading the wall clock and the monotonic clock.
use vstd::prelude::*;
use std::time::{Duration, Instant, SystemTime};

verus! {

/// A reading of the system clock (opaque).
#[verifier::external_type_specification]
#[verifier::external_body]
pub struct ExSystemTime(std::time::SystemTime);

/// `std::time::SystemTime::now`: the current reading of the system clock.
/// It depends on the machine's clock, so nothing is claimed of it.
#[verifier::external_body]
fn system_time_now() -> (t: SystemTime) {
    SystemTime::now()
}

/// `SystemTime::duration_since` taken from the Unix epoch: the time elapsed
/// since then, or `None` when `t` lies before the epoch. Nothing is claimed
/// of the duration, which is opaque here.
#[verifier::external_body]
fn duration_since_epoch(t: SystemTime) -> (d: Option<Duration>) {
    match t.duration_since(std::time::UNIX_EPOCH) {
        Ok(d) => Some(d),
        Err(_) => None,
    }
}

/// `Duration::as_millis`: the whole milliseconds of `d`. The duration is
/// opaque here, so nothing is claimed of the result.
#[verifier::external_body]
fn duration_millis(d: Duration) -> (ms: u128) {
    d.as_millis()
}

/// Milliseconds since the Unix epoch by the system clock: 0 when the clock
/// stands before the epoch, the largest `u64` past its range. Every caller is
/// verified for whatever value comes back.
pub(crate) fn unix_time_millis() -> (ms: u64) {
    match duration_since_epoch(system_time_now()) {
        Some(d) => {
            let ms = duration_millis(d);
            if ms <= u64::MAX as u128 {
                ms as u64
            } else {
                u64::MAX
            }
        },
        None => 0,
    }
}

/// A reading of the monotonic clock (opaque).
#[verifier::external_type_specification]
#[verifier::external_body]
pub struct ExInstant(std::time::Instant);

/// `std::time::Instant::now`: the current reading of the monotonic clock.
/// Nothing is claimed of it.
#[verifier::external_body]
pub(crate) fn instant_now() -> (t: Instant) {
    Instant::now()
}

/// `Instant::duration_since`: the time from `earlier` to `later` (zero when
/// `later` comes first). Nothing is claimed of the duration, which is opaque
/// here.
#[verifier::external_body]
fn instant_duration_since(later: Instant, earlier: Instant) -> (d: Duration) {
    later.duration_since(earlier)
}

/// Milliseconds elapsed since `origin` by the monotonic clock, the largest
/// `u64` past its range. Every caller is verified for whatever value comes
/// back.
pub(crate) fn millis_since(origin: Instant) -> (ms: u64) {
    let ms = duration_millis(instant_duration_since(instant_now(), origin));
    if ms <= u64::MAX as u128 {
        ms as u64
    } else {
        u64::MAX
    }
}

/// `Duration::as_nanos`: the whole nanoseconds of `d`. The duration is
/// opaque here, so nothing is claimed of the result.
#[verifier::external_body]
fn duration_nanos(d: Duration) -> (ns: u128) {
    d.as_nanos()
}

/// Nanoseconds elapsed since `origin` by the monotonic clock, the largest
/// `u64` past its range. Every caller is verified for whatever value comes
/// back.
pub(crate) fn nanos_since(origin: Instant) -> (ns: u64) {
    let ns = duration_nanos(instant_duration_since(instant_now(), origin));
    if ns <= u64::MAX as u128 {
        ns as u64
    } else {
        u64::MAX
    }
}

} // verus!
