//! The time of day.

use vstd::prelude::*;

verus! {

/// `std::time::SystemTime::now`: the whole seconds since the epoch, and
/// nothing while the clock stands before it. Nothing is promised of the time.
#[verifier::external_body]
fn seconds_since_epoch() -> (result: Option<u64>)
{
    let now = std::time::SystemTime::now();
    now.duration_since(std::time::UNIX_EPOCH).ok().map(|elapsed| elapsed.as_secs())
}

/// Whether the clock gave a reading.
pub closed spec fn clock_reads(reading: Option<u64>) -> bool {
    call_ensures(seconds_since_epoch, (), reading)
}

fn take_reading<F: Fn() -> Option<u64>>(read: F) -> (result: Option<u64>)
    requires
        call_requires(read, ()),
    ensures
        call_ensures(read, (), result),
{
    read()
}

/// A reading of the clock in seconds; nothing counts as the epoch.
pub open spec fn reading_or_epoch(reading: Option<u64>) -> u64 {
    match reading {
        Some(seconds) => seconds,
        None => 0,
    }
}

/// A reading of the clock as a number of seconds.
pub fn reading_seconds(reading: Option<u64>) -> (result: u64)
    ensures
        result == reading_or_epoch(reading),
{
    match reading {
        Some(seconds) => seconds,
        None => 0,
    }
}

/// Whether some seconds are what a reading of the clock comes to.
pub open spec fn is_now(seconds: u64) -> bool {
    exists|reading: Option<u64>| #[trigger]
        clock_reads(reading) && seconds == reading_or_epoch(reading)
}

/// The seconds since the epoch by the system's clock, zero before it. What
/// the clock says is not known beforehand.
pub fn now_epoch_seconds() -> (result: u64)
    ensures
        is_now(result),
{
    let reading = take_reading(seconds_since_epoch);
    assert(clock_reads(reading));
    reading_seconds(reading)
}

} // verus!
