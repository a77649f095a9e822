//! The wall clock, in whole seconds.
use std::time::{Duration, SystemTime, SystemTimeError};
use vstd::prelude::*;

verus! {

/// A reading of the system clock.
#[verifier::external_type_specification]
#[verifier::external_body]
pub struct ExSystemTime(SystemTime);

/// What a clock that stands before the epoch gives.
#[verifier::external_type_specification]
#[verifier::external_body]
pub struct ExSystemTimeError(SystemTimeError);

/// The whole seconds in a span of time.
pub uninterp spec fn whole_seconds(span: Duration) -> u64;

/// Trusted: `SystemTime::now` reads the clock. Nothing is said of the reading.
pub assume_specification[ SystemTime::now ]() -> SystemTime
;

/// Trusted: `SystemTime::duration_since` the epoch is the time passed since then, or an error
/// where the clock stands before it. Nothing is said of which.
#[verifier::external_body]
fn since_epoch(reading: &SystemTime) -> (passed: Result<Duration, SystemTimeError>) {
    reading.duration_since(std::time::UNIX_EPOCH)
}

/// Trusted: `Duration::as_secs` is the number of whole seconds in the span.
pub assume_specification[ Duration::as_secs ](span: &Duration) -> (seconds: u64)
    ensures
        seconds == whole_seconds(*span),
;

/// The timestamp for the time passed since the epoch: its whole seconds, or zero where the
/// clock stands before the epoch.
pub open spec fn timestamp(passed: Result<Duration, SystemTimeError>) -> u64 {
    match passed {
        Ok(span) => whole_seconds(span),
        Err(_) => 0,
    }
}

/// Before the epoch it is the second zero; after it, as many whole seconds have passed as the clock
/// says.
pub proof fn law_timestamp(passed: Result<Duration, SystemTimeError>)
    ensures
        passed is Err ==> timestamp(passed) == 0,
        passed matches Ok(span) ==> timestamp(passed) == whole_seconds(span),
{
}

/// The timestamp for the time passed since the epoch.
pub fn timestamp_of(passed: Result<Duration, SystemTimeError>) -> (now: u64)
    ensures
        now == timestamp(passed),
{
    match passed {
        Ok(span) => span.as_secs(),
        Err(_) => 0,
    }
}

/// The current time in whole seconds since the epoch. The clock decides which; see
/// [`timestamp_of`].
pub fn get_timestamp() -> (now: u64)
    ensures
        exists|passed: Result<Duration, SystemTimeError>| now == #[trigger] timestamp(passed),
{
    timestamp_of(since_epoch(&SystemTime::now()))
}

/// The seconds from `start_time` to `now`, kept to the width of an access time: both the
/// difference and its narrowing wrap around.
pub open spec fn uptime(now: u64, start_time: u64) -> u32 {
    ((now - start_time) % 0x1_0000_0000) as u32
}

/// The seconds from `start_time` to `now`.
pub fn uptime_at(now: u64, start_time: u64) -> (seconds: u32)
    ensures
        seconds == uptime(now, start_time),
{
    let passed: u64 = now.wrapping_sub(start_time);
    proof {
        assert(passed as int % 0x1_0000_0000 == (now - start_time) % 0x1_0000_0000) by {
            if now < start_time {
                assert(passed == now - start_time + 0x1_0000_0000int * 0x1_0000_0000int);
                vstd::arithmetic::div_mod::lemma_mod_multiples_vanish(
                    0x1_0000_0000,
                    now - start_time,
                    0x1_0000_0000,
                );
            }
        }
    }
    (passed % 0x1_0000_0000) as u32
}

/// Up to the width of an access time, the seconds that have passed since the start are what has to
/// be added to it to get to now.
pub proof fn law_uptime_counts_from_the_start(now: u64, start_time: u64)
    requires
        start_time <= now < start_time + 0x1_0000_0000,
    ensures
        start_time + uptime(now, start_time) == now,
{
}

/// One second later it is one second more, until the width is used up.
pub proof fn law_uptime_goes_on(now: u64, start_time: u64)
    requires
        now < u64::MAX,
    ensures
        uptime((now + 1) as u64, start_time) == (if uptime(now, start_time) < u32::MAX {
            uptime(now, start_time) + 1
        } else {
            0
        }),
{
}

/// The seconds that have passed since `start_time`. The clock decides how many.
pub fn get_uptime_seconds(start_time: u64) -> (seconds: u32)
    ensures
        exists|now: u64| seconds == #[trigger] uptime(now, start_time),
{
    uptime_at(get_timestamp(), start_time)
}

} // verus!
