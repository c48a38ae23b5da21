//! Calendar days: parsing and formatting `YYYY-MM-DD` dates, the UTC day of
//! a Unix timestamp, and stepping one day back or forward. The calendar
//! itself is chrono's; this module states what is used of it.
use vstd::prelude::*;
use chrono::Datelike;
use crate::text::{concat_text, push_chars, zero_padded, zero_padded_chars};

verus! {

/// A day of the proleptic Gregorian calendar.
#[derive(Debug, Clone, Copy, PartialEq, Eq, Structural)]
pub struct CivilDay {
    pub year: i32,
    pub month: u32,
    pub day: u32,
}

/// The first year chrono's dates cover.
pub open spec fn first_year() -> int {
    -262143
}

/// The last year chrono's dates cover.
pub open spec fn last_year() -> int {
    262142
}

/// Leap years of the proleptic Gregorian calendar.
pub open spec fn is_leap_year(y: int) -> bool {
    (y % 4 == 0 && y % 100 != 0) || y % 400 == 0
}

/// Number of days in month `m` of year `y`.
pub open spec fn days_in_month(y: int, m: int) -> int {
    if m == 2 {
        if is_leap_year(y) {
            29
        } else {
            28
        }
    } else if m == 4 || m == 6 || m == 9 || m == 11 {
        30
    } else {
        31
    }
}

/// A real calendar day within the years chrono covers.
pub open spec fn valid_day(d: CivilDay) -> bool {
    &&& first_year() <= d.year <= last_year()
    &&& 1 <= d.month <= 12
    &&& 1 <= d.day <= days_in_month(d.year as int, d.month as int)
}

/// The day's fields as a triple.
pub open spec fn day_triple(d: CivilDay) -> (i32, u32, u32) {
    (d.year, d.month, d.day)
}

/// Calendar order of days.
pub open spec fn day_before_or_same(a: CivilDay, b: CivilDay) -> bool {
    a.year < b.year || (a.year == b.year && (a.month < b.month || (a.month == b.month && a.day
        <= b.day)))
}

/// The day before `d`, or `None` on the first day chrono covers.
pub open spec fn previous_day(d: CivilDay) -> Option<CivilDay> {
    if d.day > 1 {
        Some(CivilDay { year: d.year, month: d.month, day: (d.day - 1) as u32 })
    } else if d.month > 1 {
        Some(
            CivilDay {
                year: d.year,
                month: (d.month - 1) as u32,
                day: days_in_month(d.year as int, d.month - 1) as u32,
            },
        )
    } else if d.year > first_year() {
        Some(CivilDay { year: (d.year - 1) as i32, month: 12, day: 31 })
    } else {
        None
    }
}

/// The day after `d`, or `None` on the last day chrono covers.
pub open spec fn next_day(d: CivilDay) -> Option<CivilDay> {
    if d.day < days_in_month(d.year as int, d.month as int) {
        Some(CivilDay { year: d.year, month: d.month, day: (d.day + 1) as u32 })
    } else if d.month < 12 {
        Some(CivilDay { year: d.year, month: (d.month + 1) as u32, day: 1 })
    } else if d.year < last_year() {
        Some(CivilDay { year: (d.year + 1) as i32, month: 1, day: 1 })
    } else {
        None
    }
}

/// What chrono's `NaiveDate::parse_from_str(s, "%Y-%m-%d")` gives for `s`.
pub uninterp spec fn parsed_ymd(s: Seq<char>) -> Option<(i32, u32, u32)>;

/// The proleptic Gregorian `(year, month, day)` of the day `z` days after
/// 1970-01-01 (before it when negative).
pub open spec fn civil_from_days(z: int) -> (int, int, int) {
    let shifted = z + 719468;
    let era = shifted / 146097;
    let day_of_era = shifted - era * 146097;
    let year_of_era = (day_of_era - day_of_era / 1460 + day_of_era / 36524 - day_of_era / 146096)
        / 365;
    let day_of_year = day_of_era - (365 * year_of_era + year_of_era / 4 - year_of_era / 100);
    let shifted_month = (5 * day_of_year + 2) / 153;
    let day = day_of_year - (153 * shifted_month + 2) / 5 + 1;
    let month = if shifted_month < 10 {
        shifted_month + 3
    } else {
        shifted_month - 9
    };
    let year = year_of_era + era * 400;
    (if month <= 2 {
        year + 1
    } else {
        year
    }, month, day)
}

/// The UTC calendar day of the Unix time `secs`: the day of its whole days
/// since the epoch (rounded down), when that day lies in the years chrono
/// covers.
pub open spec fn utc_day_of(secs: i64) -> Option<(i32, u32, u32)> {
    let (y, m, d) = civil_from_days(secs / 86400);
    if first_year() <= y <= last_year() {
        Some((y as i32, m as u32, d as u32))
    } else {
        None
    }
}

/// The year as chrono's `%Y` writes it: zero-padded to four digits, with a
/// leading `+` after 9999 and a leading `-` before year 0.
pub open spec fn year_text(y: int) -> Seq<char> {
    if 0 <= y <= 9999 {
        zero_padded(y as nat, 4)
    } else if y > 9999 {
        "+"@ + zero_padded(y as nat, 4)
    } else {
        "-"@ + zero_padded((-y) as nat, 4)
    }
}

/// `YYYY-MM-DD` with the year as `year_text` writes it and month and day
/// zero-padded to two digits, as chrono writes a day.
pub open spec fn ymd_text(d: CivilDay) -> Seq<char> {
    year_text(d.year as int) + "-"@ + zero_padded(d.month as nat, 2) + "-"@ + zero_padded(
        d.day as nat,
        2,
    )
}

/// chrono's `NaiveDate::parse_from_str` with the format `%Y-%m-%d`. Its
/// result is named by `parsed_ymd`; a day it returns is a valid day. Which
/// texts it accepts (signs, digit counts, white space) is left to that name.
#[verifier::external_body]
pub(crate) fn parse_ymd(s: &str) -> (r: Option<CivilDay>)
    ensures
        match r {
            Some(d) => parsed_ymd(s@) == Some(day_triple(d)) && valid_day(d),
            None => parsed_ymd(s@) is None,
        },
{
    match chrono::NaiveDate::parse_from_str(s, "%Y-%m-%d") {
        Ok(date) => Some(CivilDay { year: date.year(), month: date.month(), day: date.day() }),
        Err(_) => None,
    }
}

/// chrono's `DateTime::from_timestamp(secs, 0)` and `date_naive`: the UTC
/// day of a Unix time, `utc_day_of`: the civil day of its whole days since
/// the epoch, `None` outside chrono's years; a day it returns is valid.
#[verifier::external_body]
pub(crate) fn utc_day(secs: i64) -> (r: Option<CivilDay>)
    ensures
        match r {
            Some(d) => utc_day_of(secs) == Some(day_triple(d)) && valid_day(d),
            None => utc_day_of(secs) is None,
        },
{
    match chrono::DateTime::from_timestamp(secs, 0) {
        Some(dt) => {
            let date = dt.date_naive();
            Some(CivilDay { year: date.year(), month: date.month(), day: date.day() })
        },
        None => None,
    }
}

/// chrono's `format("%Y-%m-%d")` of a valid day: `ymd_text`, as chrono pads
/// the year to four digits (with a sign outside the years 0 to 9999) and
/// month and day to two.
#[verifier::external_body]
pub(crate) fn format_ymd(d: CivilDay) -> (r: String)
    requires
        valid_day(d),
    ensures
        r@ == ymd_text(d),
{
    let date = chrono::NaiveDate::from_ymd_opt(d.year, d.month, d.day).unwrap();
    date.format("%Y-%m-%d").to_string()
}

/// chrono's `NaiveDate::checked_sub_signed` by one day: the previous
/// calendar day, `None` on chrono's first day.
#[verifier::external_body]
pub(crate) fn day_before(d: CivilDay) -> (r: Option<CivilDay>)
    requires
        valid_day(d),
    ensures
        r == previous_day(d),
{
    let date = chrono::NaiveDate::from_ymd_opt(d.year, d.month, d.day).unwrap();
    match date.checked_sub_signed(chrono::Duration::days(1)) {
        Some(p) => Some(CivilDay { year: p.year(), month: p.month(), day: p.day() }),
        None => None,
    }
}

/// chrono's `NaiveDate::succ_opt`: the next calendar day, `None` on
/// chrono's last day.
#[verifier::external_body]
pub(crate) fn day_after(d: CivilDay) -> (r: Option<CivilDay>)
    requires
        valid_day(d),
    ensures
        r == next_day(d),
{
    let date = chrono::NaiveDate::from_ymd_opt(d.year, d.month, d.day).unwrap();
    match date.succ_opt() {
        Some(p) => Some(CivilDay { year: p.year(), month: p.month(), day: p.day() }),
        None => None,
    }
}

/// The day whose fields are the triple `t`.
pub open spec fn civil(t: (i32, u32, u32)) -> CivilDay {
    CivilDay { year: t.0, month: t.1, day: t.2 }
}

/// A date argument that could not be used.
#[derive(Debug, Clone, PartialEq, Eq)]
pub enum DateInputError {
    /// A market's date partition is not a `YYYY-MM-DD` date.
    MarketDate(String),
    /// The start of a range is not a `YYYY-MM-DD` date.
    StartDate(String),
    /// The end of a range is not a `YYYY-MM-DD` date.
    EndDate(String),
    /// The range ends before it starts.
    EndBeforeStart,
    /// chrono has no day after the given one (held formatted).
    DayOverflow(String),
}

impl DateInputError {
    /// The error as a sentence.
    pub fn message(&self) -> (r: String)
        ensures
            match self {
                DateInputError::MarketDate(t) => r@ == "parse market date "@ + t@,
                DateInputError::StartDate(t) => r@ == "parse --start-date "@ + t@,
                DateInputError::EndDate(t) => r@ == "parse --end-date "@ + t@,
                DateInputError::EndBeforeStart => r@ == "--end-date must be >= --start-date"@,
                DateInputError::DayOverflow(t) => r@ == "date overflow after "@ + t@,
            },
    {
        match self {
            DateInputError::MarketDate(t) => concat_text("parse market date ", t.as_str()),
            DateInputError::StartDate(t) => concat_text("parse --start-date ", t.as_str()),
            DateInputError::EndDate(t) => concat_text("parse --end-date ", t.as_str()),
            DateInputError::EndBeforeStart => String::from_str("--end-date must be >= --start-date"),
            DateInputError::DayOverflow(t) => concat_text("date overflow after ", t.as_str()),
        }
    }
}

/// The `YYYY-MM-DD` date before the market date `date`: an error when
/// `date` does not parse, `None` when it is chrono's first day.
pub fn previous_date(date: &str) -> (r: Result<Option<String>, DateInputError>)
    ensures
        match parsed_ymd(date@) {
            None => match r {
                Err(DateInputError::MarketDate(t)) => t@ == date@,
                _ => false,
            },
            Some(t) => match previous_day(civil(t)) {
                None => r == Ok::<Option<String>, DateInputError>(None),
                Some(p) => match r {
                    Ok(Some(text)) => text@ == ymd_text(p),
                    _ => false,
                },
            },
        },
{
    match parse_ymd(date) {
        None => Err(DateInputError::MarketDate(String::from_str(date))),
        Some(d) => {
            assert(civil(parsed_ymd(date@)->0) == d);
            match day_before(d) {
                None => Ok(None),
                Some(p) => {
                    assert(valid_day(p)) by {
                        if d.day == 1 && d.month > 1 {
                            assert(1 <= days_in_month(d.year as int, d.month - 1));
                        }
                    }
                    Ok(Some(format_ymd(p)))
                },
            }
        },
    }
}

/// Markets in one day of five-minute markets.
pub const MARKETS_PER_DAY: usize = 288;

/// The day a market result is grouped under: the UTC date of its close
/// time, or, without one that chrono can place, `day_NNNN` numbering days of
/// `MARKETS_PER_DAY` markets from one by the market's index.
pub open spec fn spec_close_day_key(close_ts: Option<i64>, market_index: nat) -> Seq<char> {
    let day = match close_ts {
        Some(ts) => utc_day_of(ts),
        None => None,
    };
    match day {
        Some(t) => ymd_text(civil(t)),
        None => "day_"@ + zero_padded(market_index / (MARKETS_PER_DAY as nat) + 1, 4),
    }
}

/// The day key of a market result (see `spec_close_day_key`).
pub fn close_day_key(close_ts: Option<i64>, market_index: usize) -> (r: String)
    ensures
        r@ == spec_close_day_key(close_ts, market_index as nat),
{
    let day = match close_ts {
        Some(ts) => utc_day(ts),
        None => None,
    };
    match day {
        Some(d) => format_ymd(d),
        None => {
            let n = market_index / MARKETS_PER_DAY + 1;
            let digits = zero_padded_chars(n as u64, 4);
            let mut out = String::from_str("day_");
            push_chars(&mut out, digits.as_slice());
            out
        },
    }
}

/// The start and end days of a `YYYY-MM-DD` range, which must not end
/// before it starts.
pub fn parse_date_range(start: &str, end: &str) -> (r: Result<(CivilDay, CivilDay), DateInputError>)
    ensures
        match (parsed_ymd(start@), parsed_ymd(end@)) {
            (None, _) => match r {
                Err(DateInputError::StartDate(t)) => t@ == start@,
                _ => false,
            },
            (Some(_), None) => match r {
                Err(DateInputError::EndDate(t)) => t@ == end@,
                _ => false,
            },
            (Some(a), Some(b)) => if day_before_or_same(civil(a), civil(b)) {
                r == Ok::<(CivilDay, CivilDay), DateInputError>((civil(a), civil(b)))
            } else {
                r == Err::<(CivilDay, CivilDay), DateInputError>(DateInputError::EndBeforeStart)
            },
        },
{
    let a = match parse_ymd(start) {
        None => return Err(DateInputError::StartDate(String::from_str(start))),
        Some(a) => a,
    };
    let b = match parse_ymd(end) {
        None => return Err(DateInputError::EndDate(String::from_str(end))),
        Some(b) => b,
    };
    ordered_day_range(a, b)
}

/// The range from `start` to `end`, refused when it ends before it starts.
pub fn ordered_day_range(start: CivilDay, end: CivilDay) -> (r: Result<(CivilDay, CivilDay), DateInputError>)
    ensures
        if day_before_or_same(start, end) {
            r == Ok::<(CivilDay, CivilDay), DateInputError>((start, end))
        } else {
            r == Err::<(CivilDay, CivilDay), DateInputError>(DateInputError::EndBeforeStart)
        },
{
    if end.year < start.year || (end.year == start.year && (end.month < start.month || (end.month
        == start.month && end.day < start.day))) {
        return Err(DateInputError::EndBeforeStart);
    }
    Ok((start, end))
}

/// The next day of a walk over the days up to `end`: the day after `day`
/// while it is not past `end`, `None` once the walk is done, and an error
/// (naming `day`) when chrono has no day after `day`.
pub fn next_day_in_range(day: CivilDay, end: CivilDay) -> (r: Result<Option<CivilDay>, DateInputError>)
    requires
        valid_day(day),
    ensures
        match next_day(day) {
            Some(n) => if day_before_or_same(n, end) {
                r == Ok::<Option<CivilDay>, DateInputError>(Some(n))
            } else {
                r == Ok::<Option<CivilDay>, DateInputError>(None)
            },
            None => match r {
                Err(DateInputError::DayOverflow(t)) => t@ == ymd_text(day),
                _ => false,
            },
        },
{
    match day_after(day) {
        None => Err(DateInputError::DayOverflow(format_ymd(day))),
        Some(n) => {
            if n.year < end.year || (n.year == end.year && (n.month < end.month || (n.month
                == end.month && n.day <= end.day))) {
                Ok(Some(n))
            } else {
                Ok(None)
            }
        },
    }
}

/// Whether `d` is a real day within the years chrono covers.
pub fn is_valid_day(d: CivilDay) -> (r: bool)
    ensures
        r == valid_day(d),
{
    if d.year < -262143 || d.year > 262142 || d.month < 1 || d.month > 12 || d.day < 1 {
        return false;
    }
    let y = d.year;
    let leap = (y % 4 == 0 && y % 100 != 0) || y % 400 == 0;
    let dim: u32 = if d.month == 2 {
        if leap {
            29
        } else {
            28
        }
    } else if d.month == 4 || d.month == 6 || d.month == 9 || d.month == 11 {
        30
    } else {
        31
    };
    d.day <= dim
}

/// The `YYYY-MM-DD` text of a valid day (see `ymd_text`).
pub fn format_day(d: CivilDay) -> (r: String)
    requires
        valid_day(d),
    ensures
        r@ == ymd_text(d),
{
    format_ymd(d)
}

} // verus!
