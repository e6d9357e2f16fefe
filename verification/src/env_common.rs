//! The clock.

use vstd::prelude::*;
use std::time::{Duration, SystemTime};

verus! {

/// A reading of the system clock.
#[verifier::external_type_specification]
#[verifier::external_body]
pub struct ExSystemTime(std::time::SystemTime);

/// `SystemTime::now` reads the system clock. Nothing is claimed of the
/// reading.
pub assume_specification[ std::time::SystemTime::now ]() -> (r: SystemTime)
;

/// `Duration::as_secs` gives the whole seconds of a span of time. Nothing is
/// claimed of their number.
pub assume_specification[ core::time::Duration::as_secs ](d: &Duration) -> (r: u64)
;

/// `Duration::subsec_nanos` gives the nanoseconds of a span of time beyond
/// its whole seconds, which are fewer than a second's.
pub assume_specification[ core::time::Duration::subsec_nanos ](d: &Duration) -> (r: u32)
    ensures
        r < 1_000_000_000,
;

/// The time from the epoch to the reading `t`, by
/// `SystemTime::duration_since`; `None` where the reading stands before the
/// epoch. Nothing is claimed of the span.
#[verifier::external_body]
fn since_epoch(t: &SystemTime) -> (r: Option<Duration>) {
    match t.duration_since(std::time::UNIX_EPOCH) {
        Err(_) => None,
        Ok(dur) => Some(dur),
    }
}

/// Microseconds in `secs` seconds and `subsec_nanos` nanoseconds.
pub open spec fn micros_in(secs: u64, subsec_nanos: u32) -> int {
    secs * 1000000 + subsec_nanos / 1000
}

/// Microseconds in `secs` seconds and `subsec_nanos` nanoseconds; `None` where
/// they do not fit in 64 bits.
pub fn micros_of(secs: u64, subsec_nanos: u32) -> (r: Option<u64>)
    ensures
        r.is_some() == (micros_in(secs, subsec_nanos) <= u64::MAX),
        r.is_some() ==> r.unwrap() == micros_in(secs, subsec_nanos),
{
    let sub: u64 = (subsec_nanos / 1000) as u64;
    if secs > (u64::MAX - sub) / 1000000 {
        None
    } else {
        Some(secs * 1000000 + sub)
    }
}

/// Microseconds since the epoch by the system clock. A reading that stands
/// before the epoch, or that does not fit in 64 bits, is taken again; should
/// every one of 2^64 - 1 readings be such, the result is 0.
pub fn micros() -> (r: u64) {
    let mut tries: u64 = u64::MAX;
    while tries > 0
        decreases tries,
    {
        let now = SystemTime::now();
        match since_epoch(&now) {
            None => {},
            Some(dur) => {
                match micros_of(dur.as_secs(), dur.subsec_nanos()) {
                    Some(m) => {
                        return m;
                    },
                    None => {},
                }
            },
        }
        tries -= 1;
    }
    0
}

/// Waits for `micros` microseconds. The engine runs on one thread and has
/// nothing to wait for: this returns at once.
#[allow(unused_variables)]
pub fn sleep_for(micros: u32) {
}

} // verus!
