//! The wall clock that stamps new records.

use std::time::Duration;
use vstd::prelude::*;

verus! {

/// Calls `SystemTime::elapsed` on `UNIX_EPOCH`: the time since the epoch, or
/// nothing where the clock reads earlier than the epoch. The result depends
/// on the moment of the call, so nothing is promised of it.
#[verifier::external_body]
fn since_epoch() -> Option<Duration> {
    std::time::UNIX_EPOCH.elapsed().ok()
}

/// Calls `Duration::as_millis`: the whole milliseconds in `d`.
#[verifier::external_body]
fn whole_millis(d: &Duration) -> u128 {
    d.as_millis()
}

/// The low 64 bits of a millisecond count.
pub open spec fn low_64(millis: u128) -> u64 {
    (millis % 0x1_0000_0000_0000_0000) as u64
}

/// Narrows a millisecond count to the 64 bits a record holds.
pub fn to_timestamp(millis: u128) -> (timestamp: u64)
    ensures
        timestamp == low_64(millis),
{
    (millis % 0x1_0000_0000_0000_0000) as u64
}

/// Milliseconds since the Unix epoch; 0 where the clock reads earlier.
pub(crate) fn now_millis() -> u64 {
    let elapsed = match since_epoch() {
        Some(d) => Some(whole_millis(&d)),
        None => None,
    };
    timestamp_of(elapsed)
}

/// The timestamp for what the clock gave.
pub open spec fn stamp(elapsed: Option<u128>) -> u64 {
    match elapsed {
        Some(millis) => low_64(millis),
        None => 0,
    }
}

/// The timestamp for what the clock gave: the low 64 bits of the
/// milliseconds since the epoch, and 0 where the clock reads earlier than
/// the epoch.
pub fn timestamp_of(elapsed: Option<u128>) -> (timestamp: u64)
    ensures
        timestamp == stamp(elapsed),
{
    match elapsed {
        Some(millis) => to_timestamp(millis),
        None => 0,
    }
}

} // verus!
