use vstd::prelude::*;

verus! {

#[verifier::external_type_specification]
#[verifier::external_body]
pub struct ExNaiveDate(chrono::NaiveDate);

#[verifier::external_type_specification]
#[verifier::external_body]
pub struct ExNaiveTime(chrono::NaiveTime);

/// The earliest and latest years a `chrono::NaiveDate` can hold.
pub const CHRONO_MIN_YEAR: i32 = -262143;
pub const CHRONO_MAX_YEAR: i32 = 262142;

pub open spec fn is_leap_year(y: int) -> bool {
    y % 4 == 0 && (y % 100 != 0 || y % 400 == 0)
}

pub open spec fn days_in_month(y: int, m: int) -> int {
    if m == 2 {
        if is_leap_year(y) {
            29
        } else {
            28
        }
    } else if m == 4 || m == 6 || m == 9 || m == 11 {
        30
    } else {
        31
    }
}

/// A day of the proleptic Gregorian calendar that chrono can represent.
pub open spec fn valid_ymd(y: int, m: int, d: int) -> bool {
    CHRONO_MIN_YEAR <= y <= CHRONO_MAX_YEAR && 1 <= m <= 12 && 1 <= d <= days_in_month(y, m)
}

/// Relies on `chrono::NaiveDate::from_ymd_opt`: it returns `None` exactly when
/// the month or day is invalid, the day does not exist in that month, or the
/// year is out of chrono's range.
pub assume_specification[ chrono::NaiveDate::from_ymd_opt ](year: i32, month: u32, day: u32) -> (r: Option<chrono::NaiveDate>)
    ensures
        r is Some <==> valid_ymd(year as int, month as int, day as int),
;

/// Relies on `chrono::NaiveTime::from_hms_opt`: it returns `None` exactly when
/// the hour, minute or second is out of range.
pub assume_specification[ chrono::NaiveTime::from_hms_opt ](hour: u32, min: u32, sec: u32) -> (r: Option<chrono::NaiveTime>)
    ensures
        r is Some <==> (hour < 24 && min < 60 && sec < 60),
;

/// A calendar date and a time of day, to the minute.
#[derive(Clone, Copy, Debug, PartialEq, Eq, Structural)]
pub struct DateTime {
    pub year: i32,
    pub month: u32,
    pub day: u32,
    pub hour: u32,
    pub minute: u32,
}

pub open spec fn valid_date_time(y: int, mo: int, d: int, h: int, mi: int) -> bool {
    valid_ymd(y, mo, d) && 0 <= h < 24 && 0 <= mi < 60
}

impl DateTime {
    /// The date and time, where it exists.
    pub fn new(year: i32, month: u32, day: u32, hour: u32, minute: u32) -> (r: Option<DateTime>)
        ensures
            r is Some <==> valid_date_time(year as int, month as int, day as int, hour as int, minute as int),
            r matches Some(dt) ==> dt == (DateTime { year, month, day, hour, minute }),
    {
        let date = chrono::NaiveDate::from_ymd_opt(year, month, day);
        let time = chrono::NaiveTime::from_hms_opt(hour, minute, 0);
        if date.is_some() && time.is_some() {
            Some(DateTime { year, month, day, hour, minute })
        } else {
            None
        }
    }
}

} // verus!
