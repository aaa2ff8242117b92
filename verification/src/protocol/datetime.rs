use chrono::{Datelike, NaiveDate, NaiveTime, Timelike};
use vstd::prelude::*;

verus! {

/// The smallest year that `chrono::NaiveDate` accepts.
pub const MIN_CALENDAR_YEAR: i32 = -262143;

/// The largest year that `chrono::NaiveDate` accepts.
pub const MAX_CALENDAR_YEAR: i32 = 262142;

/// Leap years of the proleptic Gregorian calendar.
pub open spec fn is_leap_year(year: int) -> bool {
    (year % 4 == 0 && year % 100 != 0) || year % 400 == 0
}

/// The number of days of `month` (1 to 12) in `year`.
pub open spec fn days_in_month(year: int, month: int) -> int {
    if month == 2 {
        if is_leap_year(year) { 29 } else { 28 }
    } else if month == 4 || month == 6 || month == 9 || month == 11 {
        30
    } else {
        31
    }
}

/// `year-month-day` is a date that `chrono::NaiveDate` can hold.
pub open spec fn is_calendar_date(year: int, month: int, day: int) -> bool {
    &&& MIN_CALENDAR_YEAR <= year <= MAX_CALENDAR_YEAR
    &&& 1 <= month <= 12
    &&& 1 <= day <= days_in_month(year, month)
}

/// `hour:minute:second` is a time of day (without leap second).
pub open spec fn is_clock_time(hour: int, minute: int, second: int) -> bool {
    hour < 24 && minute < 60 && second < 60
}

/// Calls `chrono::NaiveDate::from_ymd_opt` and hands the date back as its year,
/// month and day. The source (0.4) returns `None` exactly on a year outside
/// `MIN_CALENDAR_YEAR..=MAX_CALENDAR_YEAR`, a month outside 1 to 12, or a day
/// that the month of the proleptic Gregorian calendar does not have.
#[verifier::external_body]
fn naive_date_from_ymd(year: i32, month: u32, day: u32) -> (date: Option<(i32, u32, u32)>)
    ensures
        date is Some <==> is_calendar_date(year as int, month as int, day as int),
        date matches Some(d) ==> d == (year, month, day),
{
    NaiveDate::from_ymd_opt(year, month, day).map(|d| (d.year(), d.month(), d.day()))
}

/// Calls `chrono::NaiveTime::from_hms_opt` and hands the time back as its hour,
/// minute and second. The source returns `None` exactly when the hour is 24 or
/// more, or the minute or the second is 60 or more.
#[verifier::external_body]
fn naive_time_from_hms(hour: u32, minute: u32, second: u32) -> (time: Option<(u32, u32, u32)>)
    ensures
        time is Some <==> is_clock_time(hour as int, minute as int, second as int),
        time matches Some(t) ==> t == (hour, minute, second),
{
    NaiveTime::from_hms_opt(hour, minute, second).map(|t| (t.hour(), t.minute(), t.second()))
}

/// A time of day, as `chrono::NaiveTime` holds it.
#[derive(Clone, Copy, Debug, PartialEq, Eq)]
pub struct TimeOfDay {
    pub hour: u32,
    pub minute: u32,
    pub second: u32,
}

impl TimeOfDay {
    pub open spec fn is_valid(self) -> bool {
        is_clock_time(self.hour as int, self.minute as int, self.second as int)
    }

    /// The time `hour:minute:second`, checked by chrono; `None` where chrono
    /// refuses it.
    pub fn from_hms(hour: u32, minute: u32, second: u32) -> (time: Option<TimeOfDay>)
        ensures
            time is Some <==> is_clock_time(hour as int, minute as int, second as int),
            time matches Some(t) ==> t == (TimeOfDay { hour, minute, second }),
    {
        match naive_time_from_hms(hour, minute, second) {
            Some((hour, minute, second)) => Some(TimeOfDay { hour, minute, second }),
            None => None,
        }
    }
}

/// A date and time of day without time zone, as `chrono::NaiveDateTime` holds it.
#[derive(Clone, Copy, Debug, PartialEq, Eq)]
pub struct CalendarDateTime {
    pub year: i32,
    pub month: u32,
    pub day: u32,
    pub hour: u32,
    pub minute: u32,
    pub second: u32,
}

impl CalendarDateTime {
    pub open spec fn is_valid(self) -> bool {
        &&& is_calendar_date(self.year as int, self.month as int, self.day as int)
        &&& is_clock_time(self.hour as int, self.minute as int, self.second as int)
    }

    /// The date and time given by its parts, checked by chrono; `None` where
    /// chrono refuses the date or the time.
    pub fn from_ymd_hms(year: i32, month: u32, day: u32, hour: u32, minute: u32, second: u32) -> (dt: Option<CalendarDateTime>)
        ensures
            dt is Some <==> is_calendar_date(year as int, month as int, day as int)
                && is_clock_time(hour as int, minute as int, second as int),
            dt matches Some(d) ==> d == (CalendarDateTime { year, month, day, hour, minute, second }),
    {
        match (naive_date_from_ymd(year, month, day), TimeOfDay::from_hms(hour, minute, second)) {
            (Some((year, month, day)), Some(time)) => Some(
                CalendarDateTime { year, month, day, hour: time.hour, minute: time.minute, second: time.second },
            ),
            _ => None,
        }
    }
}

/// The remainder of `a / 100` as Rust computes it for an `i32` (toward zero).
pub open spec fn century_rem(a: int) -> int {
    if a >= 0 { a % 100 } else { -((-a) % 100) }
}

/// The quotient of `a / 100` as Rust computes it for an `i32` (toward zero).
pub open spec fn century_div(a: int) -> int {
    if a >= 0 { a / 100 } else { -((-a) / 100) }
}

/// The payload of the command that sets the device clock.
#[derive(Debug)]
pub struct DateTime {
    pub datetime: CalendarDateTime,
}

impl DateTime {
    /// The payload bytes: year within the century, century, month, day, hour,
    /// minute, second, each truncated to a byte.
    pub open spec fn wire_bytes(self) -> Seq<u8> {
        let d = self.datetime;
        seq![
            century_rem(d.year as int) as u8,
            century_div(d.year as int) as u8,
            d.month as u8,
            d.day as u8,
            d.hour as u8,
            d.minute as u8,
            d.second as u8,
        ]
    }

    pub fn serialize(&self) -> (bytes: Vec<u8>)
        ensures
            bytes@ == self.wire_bytes(),
    {
        let d = self.datetime;
        let mut bytes: Vec<u8> = Vec::new();
        bytes.push((d.year % 100) as u8);
        bytes.push((d.year / 100) as u8);
        bytes.push(d.month as u8);
        bytes.push(d.day as u8);
        bytes.push(d.hour as u8);
        bytes.push(d.minute as u8);
        bytes.push(d.second as u8);
        assert(bytes@ =~= self.wire_bytes());
        bytes
    }
}

} // verus!
