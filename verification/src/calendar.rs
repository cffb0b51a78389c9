//! Calendar dates, and the instant at which a date begins.

use chrono::NaiveDate;
use vstd::prelude::*;

verus! {

/// A day of the proleptic Gregorian calendar, as the operator writes it.
#[derive(Clone, Copy, Debug, PartialEq, Eq)]
pub struct CalendarDate {
    pub year: i32,
    /// Month of the year, counted from 1.
    pub month: u32,
    /// Day of the month, counted from 1.
    pub day: u32,
}

/// Seconds between the Unix epoch and midnight UTC at the start of the given
/// day, as chrono counts them; `None` where chrono knows no such day.
pub uninterp spec fn utc_midnight_stamp(year: i32, month: u32, day: u32) -> Option<i64>;

/// Asks chrono when a day begins in UTC.
///
/// `NaiveDate::from_ymd_opt` builds the date and yields `None` for a day
/// that the calendar does not have or that is out of chrono's range;
/// `NaiveDate::and_hms_opt(0, 0, 0)` is its midnight, read as UTC by
/// `NaiveDateTime::and_utc`, and `DateTime::timestamp` counts the seconds
/// from the epoch to it. The contract claims no more than that the answer
/// depends on the three numbers alone, and gives it a name.
#[verifier::external_body]
fn utc_midnight(year: i32, month: u32, day: u32) -> (stamp: Option<i64>)
    ensures
        stamp == utc_midnight_stamp(year, month, day),
{
    Some(NaiveDate::from_ymd_opt(year, month, day)?.and_hms_opt(0, 0, 0)?.and_utc().timestamp())
}

/// The instant, in seconds since the epoch, at which a clock that is
/// `offset_seconds` ahead of UTC shows the time that UTC shows at `stamp`;
/// `None` where that instant cannot be told in 64 bits.
pub open spec fn shifted(stamp: i64, offset_seconds: i32) -> Option<i64> {
    if i64::MIN <= stamp - offset_seconds <= i64::MAX {
        Some((stamp - offset_seconds) as i64)
    } else {
        None
    }
}

/// Reads a time of day that was told in UTC as local time instead: a clock
/// ahead of UTC reaches it that much earlier.
pub fn shift_to_local(stamp: i64, offset_seconds: i32) -> (instant: Option<i64>)
    ensures
        instant == shifted(stamp, offset_seconds),
{
    stamp.checked_sub(offset_seconds as i64)
}

impl CalendarDate {
    /// The instant at which the day begins on a clock that is
    /// `offset_seconds` ahead of UTC.
    pub open spec fn local_midnight(self, offset_seconds: i32) -> Option<i64> {
        match utc_midnight_stamp(self.year, self.month, self.day) {
            Some(stamp) => shifted(stamp, offset_seconds),
            None => None,
        }
    }

    /// The instant at which the day begins for an operator whose clock is
    /// `offset_seconds` ahead of UTC, in seconds since the Unix epoch;
    /// `None` for a day that does not exist.
    pub fn begins_at(&self, offset_seconds: i32) -> (instant: Option<i64>)
        ensures
            instant == self.local_midnight(offset_seconds),
    {
        match utc_midnight(self.year, self.month, self.day) {
            Some(stamp) => shift_to_local(stamp, offset_seconds),
            None => None,
        }
    }
}

} // verus!
