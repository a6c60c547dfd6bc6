//! The time of day, in whole seconds.

use std::time::Duration;
use std::time::SystemTime;
use vstd::prelude::*;

verus! {

/// `std::time::SystemTime`, carried as an opaque value.
#[verifier::external_type_specification]
#[verifier::external_body]
pub struct ExSystemTime(std::time::SystemTime);

/// The whole seconds of a duration.
pub uninterp spec fn duration_seconds(duration: Duration) -> u64;

/// The whole seconds from the beginning of 1970 to a time; `None` where the time is earlier.
pub uninterp spec fn epoch_seconds(time: SystemTime) -> Option<u64>;

/// `std::time::SystemTime::now`: the time that the machine's clock shows. Nothing is promised of
/// it.
#[verifier::external_body]
fn read_clock() -> (r: SystemTime) {
    SystemTime::now()
}

/// `std::time::SystemTime::duration_since`, from the beginning of 1970 on: its result is named
/// `epoch_seconds`, by its whole seconds.
#[verifier::external_body]
fn since_epoch(time: &SystemTime) -> (r: Option<Duration>)
    ensures
        match r {
            Some(duration) => epoch_seconds(*time) == Some(duration_seconds(duration)),
            None => epoch_seconds(*time) is None,
        },
{
    time.duration_since(SystemTime::UNIX_EPOCH).ok()
}

/// `std::time::Duration::as_secs`: its result is named `duration_seconds`.
#[verifier::external_body]
fn whole_seconds(duration: &Duration) -> (r: u64)
    ensures
        r == duration_seconds(*duration),
{
    duration.as_secs()
}

/// The seconds from the beginning of 1970 to a time; none where the time is earlier.
pub open spec fn seconds_at(time: SystemTime) -> u64 {
    match epoch_seconds(time) {
        Some(seconds) => seconds,
        None => 0,
    }
}

/// The seconds from the beginning of 1970 to a time; none where the time is earlier.
pub fn unix_seconds(time: &SystemTime) -> (r: u64)
    ensures
        r == seconds_at(*time),
{
    match since_epoch(time) {
        Some(duration) => whole_seconds(&duration),
        None => 0,
    }
}

/// The seconds from the beginning of 1970 to now, by the machine's clock: those of the time that
/// the clock shows. Which time that is stays open.
pub fn unix_now() -> (r: u64)
    ensures
        exists|time: SystemTime| r == #[trigger] seconds_at(time),
{
    let time = read_clock();
    unix_seconds(&time)
}

} // verus!
