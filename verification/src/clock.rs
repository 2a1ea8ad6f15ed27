//! Timestamps from the clock and the local time zone.

use crate::record::{Timestamp, TimestampView};
use chrono::DateTime;
use chrono::Local;
use std::time::Duration;
use std::time::SystemTime;
use std::time::SystemTimeError;
use std::time::UNIX_EPOCH;
use vstd::prelude::*;

verus! {

/// The last millisecond that chrono's calendar holds: the end of the year
/// 262142.
pub const MAX_MILLIS: u128 = 8_210_266_876_799_999;

/// An instant of the system clock.
#[verifier::external_type_specification]
#[verifier::external_body]
pub struct ExSystemTime(SystemTime);

/// What `duration_since` gives where the one instant lies before the other.
#[verifier::external_type_specification]
#[verifier::external_body]
pub struct ExSystemTimeError(SystemTimeError);

/// Reads the clock: `SystemTime::now`. Nothing is claimed of the instant.
#[verifier::external_body]
fn clock_now() -> (now: SystemTime) {
    SystemTime::now()
}

/// The time from the Unix epoch to an instant: `SystemTime::duration_since`
/// with `UNIX_EPOCH`, which fails for an instant before the epoch.
#[verifier::external_body]
fn since_epoch(at: &SystemTime) -> (span: Result<Duration, SystemTimeError>) {
    at.duration_since(UNIX_EPOCH)
}

/// The whole milliseconds of a span: `Duration::as_millis`.
#[verifier::external_body]
fn millis_of(span: &Duration) -> (millis: u128) {
    span.as_millis()
}

/// Writes an instant out in the local time zone. Calls chrono's
/// `DateTime::from_timestamp_millis`, which gives nothing for a number out
/// of its range, then `with_timezone` with `Local` and `to_rfc3339`. The
/// instants admitted are those from the epoch to the end of the calendar's
/// last year: there the day count and the time of day that
/// `from_timestamp_millis` computes are both valid, so a text is always
/// given, and the time zone's rules are looked up without overflow. The
/// text depends on the machine's time zone, so nothing is claimed of what
/// it holds.
#[verifier::external_body]
fn local_rfc3339(millis: i64) -> (text: Option<String>)
    requires
        0 <= millis <= MAX_MILLIS,
    ensures
        text is Some,
{
    match DateTime::from_timestamp_millis(millis) {
        Some(at) => Some(at.with_timezone(&Local).to_rfc3339()),
        None => None,
    }
}

/// The timestamp of an instant whose text is at hand: there is one where a
/// text was given, and it holds the number in full.
pub fn stamp_with_text(epoch: u128, text: Option<String>) -> (stamp: Option<Timestamp>)
    ensures
        stamp is Some <==> text is Some,
        stamp matches Some(s) ==> s@ == (TimestampView { epoch, iso8601: text->0@ }),
{
    match text {
        Some(iso8601) => Some(Timestamp::new(epoch, iso8601)),
        None => None,
    }
}

/// The timestamp of a modification time given in milliseconds since the
/// epoch, written out in the local time zone. There is one for every number
/// that the calendar holds, up to `MAX_MILLIS`, and none beyond it.
pub fn timestamp_of(epoch: u128) -> (stamp: Option<Timestamp>)
    ensures
        stamp is Some <==> epoch <= MAX_MILLIS,
        stamp matches Some(s) ==> s@.epoch == epoch,
{
    if epoch > MAX_MILLIS {
        return None;
    }
    let text = local_rfc3339(epoch as i64);
    stamp_with_text(epoch, text)
}

/// The timestamp of a reading of the clock: there is one where the clock
/// stood at or after the epoch and within the calendar, and it holds the
/// number that was read, in full.
pub fn stamp_of_reading(since_epoch: Option<u128>) -> (stamp: Option<Timestamp>)
    ensures
        stamp is Some <==> (since_epoch matches Some(epoch) && epoch <= MAX_MILLIS),
        stamp matches Some(s) ==> since_epoch == Some(s@.epoch),
{
    match since_epoch {
        Some(epoch) => timestamp_of(epoch),
        None => None,
    }
}

/// The present instant, written out in the local time zone; nothing if the
/// clock stands before the epoch or beyond the calendar.
pub fn get_time() -> (stamp: Option<Timestamp>)
    ensures
        stamp matches Some(s) ==> s@.epoch <= MAX_MILLIS,
{
    let now = clock_now();
    let reading = match since_epoch(&now) {
        Ok(span) => Some(millis_of(&span)),
        Err(_) => None,
    };
    stamp_of_reading(reading)
}

} // verus!
