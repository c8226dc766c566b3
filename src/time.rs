//! Calendar dates and the timestamps of posts.
use vstd::prelude::*;
use crate::text::zero_padded;

verus! {

pub open spec fn is_leap_year(year: int) -> bool {
    year % 4 == 0 && (year % 100 != 0 || year % 400 == 0)
}

pub open spec fn days_in_month(year: int, month: int) -> int {
    if month == 2 {
        if is_leap_year(year) { 29 } else { 28 }
    } else if month == 4 || month == 6 || month == 9 || month == 11 {
        30
    } else {
        31
    }
}

/// A date of the proleptic Gregorian calendar, in the range of years that chrono keeps.
pub open spec fn calendar_date(year: i32, month: u32, day: u32) -> bool {
    -262143 <= year <= 262142 && 1 <= month <= 12 && 1 <= day <= days_in_month(
        year as int,
        month as int,
    )
}

/// Relies on `chrono::NaiveDate::from_ymd_opt`, which gives a date exactly for
/// the days of the proleptic Gregorian calendar within its range of years.
#[verifier::external_body]
pub fn date_exists(year: i32, month: u32, day: u32) -> (r: bool)
    ensures
        r == calendar_date(year, month, day),
{
    chrono::NaiveDate::from_ymd_opt(year, month, day).is_some()
}

/// The RFC 3339 text of the UTC instant `seconds` after midnight starting the given date.
pub uninterp spec fn rfc3339_at(year: i32, month: u32, day: u32, seconds: u64) -> Seq<char>;

/// `YYYY-MM-DDThh:mm:ss+00:00`: the RFC 3339 text of a time within the day, in UTC,
/// for a year of four digits.
pub open spec fn day_time_text(year: nat, month: nat, day: nat, seconds: nat) -> Seq<char> {
    zero_padded(year, 4) + seq!['-'] + zero_padded(month, 2) + seq!['-'] + zero_padded(day, 2)
        + seq!['T'] + zero_padded(seconds / 3600, 2) + seq![':'] + zero_padded((seconds % 3600) / 60, 2)
        + seq![':'] + zero_padded(seconds % 60, 2) + seq!['+', '0', '0', ':', '0', '0']
}

/// Relies on chrono: `NaiveDate::from_ymd_opt` (no date off the calendar),
/// `and_hms_opt`, `checked_add_signed` and `DateTime::<Utc>::to_rfc3339`. Within the
/// first day after the date there is no overflow, so the text exists for every
/// calendar date; a year in 0..=9999 is written with four digits, whole seconds
/// with no fraction, and the UTC offset as `+00:00`.
#[verifier::external_body]
fn utc_rfc3339(year: i32, month: u32, day: u32, seconds: u64) -> (r: Option<String>)
    ensures
        r matches Some(s) ==> s@ == rfc3339_at(year, month, day, seconds),
        calendar_date(year, month, day) && seconds < 86400 ==> r is Some,
        !calendar_date(year, month, day) ==> r is None,
        calendar_date(year, month, day) && 0 <= year <= 9999 && seconds < 86400 ==> (r is Some && r->0@ == day_time_text(year as nat, month as nat, day as nat, seconds as nat)),
{
    let start = chrono::NaiveDate::from_ymd_opt(year, month, day)?.and_hms_opt(0, 0, 0)?;
    let delta = chrono::TimeDelta::try_seconds(i64::try_from(seconds).ok()?)?;
    let instant = start.checked_add_signed(delta)?;
    Some(chrono::DateTime::<chrono::Utc>::from_naive_utc_and_offset(instant, chrono::Utc).to_rfc3339())
}

/// An instant given as a date and a count of seconds after its midnight (UTC).
#[derive(Clone, Copy, Debug, PartialEq, Eq, Structural)]
pub struct PostTime {
    pub year: i32,
    pub month: u32,
    pub day: u32,
    pub seconds: u64,
}

impl PostTime {
    /// Midnight at the start of a date.
    pub fn midnight(year: i32, month: u32, day: u32) -> (r: PostTime)
        ensures
            r == (PostTime { year, month, day, seconds: 0 }),
    {
        PostTime { year, month, day, seconds: 0 }
    }

    /// This instant moved `k` seconds later.
    pub fn plus_seconds(&self, k: u64) -> (r: PostTime)
        requires
            self.seconds + k <= u64::MAX,
        ensures
            r == (PostTime { seconds: (self.seconds + k) as u64, ..*self }),
    {
        PostTime { seconds: self.seconds + k, ..*self }
    }

    /// The RFC 3339 text of this instant; `None` where chrono cannot represent it.
    pub fn rfc3339(&self) -> (r: Option<String>)
        ensures
            r matches Some(s) ==> s@ == rfc3339_at(self.year, self.month, self.day, self.seconds),
            calendar_date(self.year, self.month, self.day) && self.seconds < 86400 ==> r is Some,
            !calendar_date(self.year, self.month, self.day) ==> r is None,
            calendar_date(self.year, self.month, self.day) && 0 <= self.year <= 9999 && self.seconds
                < 86400 ==> (r matches Some(s) && s@ == day_time_text(
                self.year as nat,
                self.month as nat,
                self.day as nat,
                self.seconds as nat,
            )),
    {
        utc_rfc3339(self.year, self.month, self.day, self.seconds)
    }
}

} // verus!
