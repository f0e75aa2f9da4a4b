//! Dates and times as plain values, read from text through chrono.

use vstd::prelude::*;
use chrono::{Datelike, Timelike};

verus! {

/// A calendar date and time of day with the offset from UTC it was written in.
#[derive(Debug, Clone, Copy, PartialEq, Eq)]
pub struct CalibrationTimestamp {
    pub year: i32,
    pub month: u32,
    pub day: u32,
    pub hour: u32,
    pub minute: u32,
    pub second: u32,
    pub nanosecond: u32,
    pub offset_seconds: i32,
}

/// A time of day without a date.
#[derive(Debug, Clone, Copy, PartialEq, Eq)]
pub struct TimeOfDay {
    pub hour: u32,
    pub minute: u32,
    pub second: u32,
    pub nanosecond: u32,
}

/// A calendar date and time of day without an offset.
#[derive(Debug, Clone, Copy, PartialEq, Eq)]
pub struct LocalDateTime {
    pub year: i32,
    pub month: u32,
    pub day: u32,
    pub hour: u32,
    pub minute: u32,
    pub second: u32,
}

/// What chrono's RFC 3339 reader makes of a text.
pub uninterp spec fn rfc3339_of(s: Seq<char>) -> Option<CalibrationTimestamp>;

/// What chrono's `NaiveTime` reader makes of a text.
pub uninterp spec fn time_of_day_of(s: Seq<char>) -> Option<TimeOfDay>;

/// What chrono's `NaiveDateTime` reader makes of a text under a format.
pub uninterp spec fn local_datetime_of(s: Seq<char>, fmt: Seq<char>) -> Option<LocalDateTime>;

/// Relies on `chrono::DateTime::parse_from_rfc3339`: `None` where it reports
/// an error, else the fields of the `DateTime<FixedOffset>` it returns.
#[verifier::external_body]
pub(crate) fn read_rfc3339(s: &str) -> (r: Option<CalibrationTimestamp>)
    ensures
        r == rfc3339_of(s@),
{
    match chrono::DateTime::parse_from_rfc3339(s) {
        Ok(t) => Some(CalibrationTimestamp {
            year: t.year(), month: t.month(), day: t.day(),
            hour: t.hour(), minute: t.minute(), second: t.second(),
            nanosecond: t.nanosecond(), offset_seconds: t.offset().local_minus_utc(),
        }),
        Err(_) => None,
    }
}

/// Relies on `<chrono::NaiveTime as FromStr>::from_str`: `None` where it
/// reports an error, else the fields of the `NaiveTime` it returns.
#[verifier::external_body]
pub(crate) fn read_time_of_day(s: &str) -> (r: Option<TimeOfDay>)
    ensures
        r == time_of_day_of(s@),
{
    match <chrono::NaiveTime as std::str::FromStr>::from_str(s) {
        Ok(t) => Some(TimeOfDay {
            hour: t.hour(), minute: t.minute(), second: t.second(), nanosecond: t.nanosecond(),
        }),
        Err(_) => None,
    }
}

/// Relies on `chrono::NaiveDateTime::parse_from_str`: `None` where it reports
/// an error, else the fields of the `NaiveDateTime` it returns.
#[verifier::external_body]
pub(crate) fn read_local_datetime(s: &str, fmt: &str) -> (r: Option<LocalDateTime>)
    ensures
        r == local_datetime_of(s@, fmt@),
{
    match chrono::NaiveDateTime::parse_from_str(s, fmt) {
        Ok(t) => Some(LocalDateTime {
            year: t.year(), month: t.month(), day: t.day(),
            hour: t.hour(), minute: t.minute(), second: t.second(),
        }),
        Err(_) => None,
    }
}

} // verus!
