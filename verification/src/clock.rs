//! The moment at which a stream is opened, in milliseconds.

use std::time::{Duration, SystemTime, SystemTimeError};

use vstd::prelude::*;

verus! {

/// A moment on the clock of the system.
#[verifier::external_type_specification]
#[verifier::external_body]
pub struct ExSystemTime(SystemTime);

/// A moment that lies before another one.
#[verifier::external_type_specification]
#[verifier::external_body]
pub struct ExSystemTimeError(SystemTimeError);

/// The whole milliseconds in a span of time, as `Duration::as_millis` counts them.
pub uninterp spec fn whole_millis(d: Duration) -> u128;

/// `Duration::as_millis` counts the whole milliseconds in a span of time.
pub assume_specification[ Duration::as_millis ](d: &Duration) -> (n: u128)
    ensures
        n == whole_millis(*d),
;

/// The time from the start of 1970 to a moment, as `SystemTime::duration_since` measures
/// it from `SystemTime::UNIX_EPOCH` on.
pub uninterp spec fn since_epoch(t: SystemTime) -> Result<Duration, SystemTimeError>;

/// Calls `SystemTime::duration_since` with `SystemTime::UNIX_EPOCH`: the time from the
/// start of 1970 to the moment `t`, or an error where `t` lies before it.
#[verifier::external_body]
fn measure(t: &SystemTime) -> (r: Result<Duration, SystemTimeError>)
    ensures
        r == since_epoch(*t),
{
    t.duration_since(SystemTime::UNIX_EPOCH)
}

/// Calls `SystemTime::now`, which reads the clock; nothing is stated of the result.
#[verifier::external_body]
fn read_clock() -> SystemTime {
    SystemTime::now()
}

/// The milliseconds that have passed; none where the clock stands before the
/// moment from which they are counted.
pub open spec fn millis_passed(passed: Result<Duration, SystemTimeError>) -> u128 {
    match passed {
        Ok(d) => whole_millis(d),
        Err(_) => 0,
    }
}

/// The milliseconds that have passed.
pub fn millis_of(passed: &Result<Duration, SystemTimeError>) -> (n: u128)
    ensures
        n == millis_passed(*passed),
{
    match passed {
        Ok(d) => d.as_millis(),
        Err(_) => 0,
    }
}

/// The milliseconds from the start of 1970 to a moment; none where it lies before.
pub fn millis_at(now: &SystemTime) -> (n: u128)
    ensures
        n == millis_passed(since_epoch(*now)),
{
    let passed = measure(now);
    millis_of(&passed)
}

/// The milliseconds since the start of 1970 on the clock of the system.
pub fn now_millis() -> (n: u128)
    ensures
        exists|now: SystemTime| n == millis_passed(#[trigger] since_epoch(now)),
{
    let now = read_clock();
    millis_at(&now)
}

} // verus!
