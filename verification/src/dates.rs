//! Dates of the search filters: ISO dates and months, and Polish and English keywords
//! ("dzisiaj", "last week", "w styczniu", ...) read relative to a given day.
use vstd::prelude::*;
use crate::tags::{lowercase, to_lowercase};
use crate::text::{chars_of, decimal, digit_char, push_str, str_eq, string_of, trim, trim_exec};
use chrono::Datelike;

verus! {

broadcast use vstd::string::group_string_axioms;

/// Earliest year of the calendar (`chrono::NaiveDate::MIN` is January 1 of it).
pub const MIN_YEAR: i32 = -262143;

/// Latest year of the calendar (`chrono::NaiveDate::MAX` is December 31 of it).
pub const MAX_YEAR: i32 = 262142;

/// A day of the proleptic Gregorian calendar.
#[derive(Debug, Clone, Copy, PartialEq, Eq, Structural)]
pub struct CalendarDate {
    pub year: i32,
    pub month: u32,
    pub day: u32,
}

pub open spec fn is_leap_year(y: int) -> bool {
    (y % 4 == 0 && y % 100 != 0) || y % 400 == 0
}

pub open spec fn days_in_month(y: int, m: int) -> int {
    if m == 2 {
        if is_leap_year(y) {
            29
        } else {
            28
        }
    } else if m == 4 || m == 6 || m == 9 || m == 11 {
        30
    } else {
        31
    }
}

/// An existing day within the calendar's range.
pub open spec fn valid_date(d: CalendarDate) -> bool {
    &&& MIN_YEAR <= d.year <= MAX_YEAR
    &&& 1 <= d.month <= 12
    &&& 1 <= d.day <= days_in_month(d.year as int, d.month as int)
}

/// The day number (days since the epoch) of `NaiveDate::MIN`, January 1 of the calendar's
/// first year.
pub const FIRST_DAY: i64 = -96465292;

/// The day number of `NaiveDate::MAX`, December 31 of the calendar's last year.
pub const LAST_DAY: i64 = 95026236;

/// Days from 1970-01-01 to `d` in the proleptic Gregorian calendar (negative before it).
pub open spec fn day_number(d: CalendarDate) -> int {
    let y: int = if d.month <= 2 {
        d.year - 1
    } else {
        d.year as int
    };
    let era = y / 400;
    let yoe = y - era * 400;
    let mp = (d.month + 9) % 12;
    let doy = (153 * mp + 2) / 5 + d.day - 1;
    let doe = yoe * 365 + yoe / 4 - yoe / 100 + doy;
    era * 146097 + doe - 719468
}

/// Context for date parsing - whether the date represents the start or end of a range.
#[derive(Debug, Clone, Copy, PartialEq, Eq, Structural)]
pub enum DateBound {
    /// Start of a date range (earliest moment)
    From,
    /// End of a date range (latest moment)
    To,
}

/// Error returned when a date string cannot be parsed.
#[derive(Debug)]
pub struct DateParseError {
    /// The input that failed to parse, trimmed
    pub input: String,
}

impl DateParseError {
    /// "Unable to parse date: '<input>'".
    pub fn message(&self) -> (r: String)
        ensures
            r@ == "Unable to parse date: '"@ + self.input@ + "'"@,
    {
        let mut v: Vec<char> = Vec::new();
        push_str(&mut v, "Unable to parse date: '");
        push_str(&mut v, self.input.as_str());
        push_str(&mut v, "'");
        string_of(&v)
    }
}

// ---------------------------------------------------------------------------
// What chrono computes
// ---------------------------------------------------------------------------

/// The day `NaiveDate::parse_from_str(s, "%Y-%m-%d")` reads, if it reads one.
pub uninterp spec fn iso_date_of(s: Seq<char>) -> Option<CalendarDate>;

/// `chrono::NaiveDate::parse_from_str` with the format `%Y-%m-%d`. Claimed: the answer depends on
/// `s` alone (named `iso_date_of`), and a day it reads is an existing day of the calendar's range
/// (a `NaiveDate` holds no other).
#[verifier::external_body]
fn parse_iso_date(s: &str) -> (r: Option<CalendarDate>)
    ensures
        r == iso_date_of(s@),
        r matches Some(d) ==> valid_date(d),
{
    match chrono::NaiveDate::parse_from_str(s, "%Y-%m-%d") {
        Ok(nd) => Some(CalendarDate { year: nd.year(), month: nd.month(), day: nd.day() }),
        Err(_) => None,
    }
}

/// The day an ISO date (`YYYY-MM-DD`) names, if it names one.
pub fn parse_date_only(s: &str) -> (r: Option<CalendarDate>)
    ensures
        r == iso_date_of(s@),
        r matches Some(d) ==> valid_date(d),
{
    parse_iso_date(s)
}

/// The day `n` days before `d`, as `NaiveDate - TimeDelta::days(n)` gives it.
pub uninterp spec fn date_minus_days(d: CalendarDate, n: u32) -> CalendarDate;

/// `impl Sub<TimeDelta> for NaiveDate`. It panics only when the result would come before
/// `NaiveDate::MIN` (day number `FIRST_DAY`), which `requires` rules out. Claimed: the result
/// is named `date_minus_days`, is the existing day `n` days before `d` in the proleptic
/// Gregorian calendar (by `day_number`), lies at most two years earlier (one year for at most
/// 28 days) and not after `d`, and, when it falls in the month of `d`, lies `n` days earlier in
/// that month.
#[verifier::external_body]
pub(crate) fn minus_days(d: CalendarDate, n: u32) -> (r: CalendarDate)
    requires
        valid_date(d),
        n <= 366,
        day_number(d) - n >= FIRST_DAY,
    ensures
        r == date_minus_days(d, n),
        valid_date(r),
        d.year - 2 <= r.year <= d.year,
        n <= 28 ==> d.year - 1 <= r.year,
        r.year < d.year || (r.year == d.year && (r.month < d.month || (r.month == d.month
            && r.day <= d.day))),
        r.year == d.year && r.month == d.month ==> r.day + n == d.day,
        day_number(r) == day_number(d) - n,
{
    let nd = chrono::NaiveDate::from_ymd_opt(d.year, d.month, d.day).unwrap();
    let out = nd - chrono::TimeDelta::days(n as i64);
    CalendarDate { year: out.year(), month: out.month(), day: out.day() }
}

/// The day `n` days after `d`, as `NaiveDate + TimeDelta::days(n)` gives it.
pub uninterp spec fn date_plus_days(d: CalendarDate, n: u32) -> CalendarDate;

/// `impl Add<TimeDelta> for NaiveDate`. It panics only when the result leaves the calendar's
/// range (past December 31 of its last year), which `requires` rules out for at most 28 days
/// ahead of any day before December of the last year, or within that December. Claimed: the
/// result is named `date_plus_days`, is the existing day `n` days after `d` (by `day_number`),
/// and lies in the same year or the one after.
#[verifier::external_body]
fn plus_days(d: CalendarDate, n: u32) -> (r: CalendarDate)
    requires
        valid_date(d),
        n <= 28,
        d.year < MAX_YEAR || d.month < 12 || d.day + n <= 31,
    ensures
        r == date_plus_days(d, n),
        valid_date(r),
        day_number(r) == day_number(d) + n,
        d.year <= r.year <= d.year + 1,
{
    let nd = chrono::NaiveDate::from_ymd_opt(d.year, d.month, d.day).unwrap();
    let out = nd + chrono::TimeDelta::days(n as i64);
    CalendarDate { year: out.year(), month: out.month(), day: out.day() }
}

/// Days from Monday to the weekday of `d` (Monday 0, Sunday 6); 1970-01-01 was a Thursday.
pub open spec fn weekday_of(d: CalendarDate) -> u32 {
    ((day_number(d) + 3) % 7) as u32
}

/// `Weekday::num_days_from_monday` of `NaiveDate::weekday`. Claimed: the answer is
/// `weekday_of(d)`, the days from Monday counted from the day number, and is below 7.
#[verifier::external_body]
fn weekday_index(d: CalendarDate) -> (r: u32)
    requires
        valid_date(d),
    ensures
        r == weekday_of(d),
        r < 7,
{
    chrono::NaiveDate::from_ymd_opt(d.year, d.month, d.day).unwrap().weekday().num_days_from_monday()
}

/// Seconds since the epoch of the UTC time `h:m:s` on day `d` (in range of `i64` for every day
/// of the calendar).
pub open spec fn day_time_seconds(d: CalendarDate, h: u32, m: u32, s: u32) -> i64 {
    (day_number(d) * 86400 + h * 3600 + m * 60 + s) as i64
}

/// `NaiveDate::and_hms_opt(h, m, s)` (which makes a time for every `h < 24`, `m < 60`,
/// `s < 60`) followed by `and_utc().timestamp()`. Claimed: the answer is
/// `day_time_seconds(d, h, m, s)`, the seconds of the day number and the time of day.
#[verifier::external_body]
pub(crate) fn timestamp_at(d: CalendarDate, h: u32, m: u32, s: u32) -> (r: i64)
    requires
        valid_date(d),
        h < 24,
        m < 60,
        s < 60,
    ensures
        r == day_time_seconds(d, h, m, s),
{
    let nd = chrono::NaiveDate::from_ymd_opt(d.year, d.month, d.day).unwrap();
    nd.and_hms_opt(h, m, s).unwrap().and_utc().timestamp()
}

/// The four digits of `n` (below 10 000), with leading zeros.
pub open spec fn four_digits(n: nat) -> Seq<char> {
    seq![digit_char(n / 1000), digit_char((n / 100) % 10), digit_char((n / 10) % 10), digit_char(n % 10)]
}

/// The digits of `n`, with leading zeros up to four.
pub open spec fn padded_digits(n: nat) -> Seq<char> {
    if n < 10000 {
        four_digits(n)
    } else {
        decimal(n)
    }
}

/// The two digits of `n` (below 100), with a leading zero.
pub open spec fn two_digits(n: nat) -> Seq<char> {
    seq![digit_char((n / 10) % 10), digit_char(n % 10)]
}

/// How `NaiveDate` writes a day: the year in four digits (outside 0 to 9999 with its sign and
/// at least four digits), then the month and the day in two digits, joined by `-`.
pub open spec fn date_text(d: CalendarDate) -> Seq<char> {
    let y = d.year as int;
    let year = if 0 <= y <= 9999 {
        four_digits(y as nat)
    } else if y < 0 {
        seq!['-'] + padded_digits((-y) as nat)
    } else {
        seq!['+'] + padded_digits(y as nat)
    };
    year + seq!['-'] + two_digits(d.month as nat) + seq!['-'] + two_digits(d.day as nat)
}

/// `NaiveDate`'s `to_string`. Claimed: the text is `date_text(d)`, as its `Debug` writes it
/// (`write_hundreds` for years 0 to 9999, else `{:+05}`, then the month and the day by
/// `write_hundreds`).
#[verifier::external_body]
fn format_date(d: CalendarDate) -> (r: String)
    requires
        valid_date(d),
    ensures
        r@ == date_text(d),
{
    chrono::NaiveDate::from_ymd_opt(d.year, d.month, d.day).unwrap().to_string()
}

impl CalendarDate {
    /// The day written as `NaiveDate` writes it (`YYYY-MM-DD`).
    pub fn to_iso_string(&self) -> (r: String)
        requires
            valid_date(*self),
        ensures
            r@ == date_text(*self),
    {
        format_date(*self)
    }

    /// Days from Monday to this day's weekday (Monday 0, Sunday 6).
    pub fn weekday_from_monday(&self) -> (r: u32)
        requires
            valid_date(*self),
        ensures
            r == weekday_of(*self),
            r < 7,
    {
        weekday_index(*self)
    }
}

// ---------------------------------------------------------------------------
// Months
// ---------------------------------------------------------------------------

/// The first day of the month after `y`-`m`.
pub open spec fn first_of_next_month(y: i32, m: u32) -> CalendarDate {
    if m == 12 {
        CalendarDate { year: (y + 1) as i32, month: 1, day: 1 }
    } else {
        CalendarDate { year: y, month: (m + 1) as u32, day: 1 }
    }
}

/// The last day of month `m` of year `y` (the day before the first of the next month).
pub open spec fn last_day(y: i32, m: u32) -> CalendarDate {
    CalendarDate { year: y, month: m, day: days_in_month(y as int, m as int) as u32 }
}

/// Days from the start of the shifted year `yp` (March to February) of the day-number count.
pub open spec fn year_days(yp: int) -> int {
    let era = yp / 400;
    let yoe = yp - era * 400;
    era * 146097 + yoe * 365 + yoe / 4 - yoe / 100
}

/// A shifted year is one day longer when the February it ends with has 29 days.
proof fn lemma_year_days_step(y: int)
    ensures
        year_days(y) - year_days(y - 1) == 365 + (if is_leap_year(y) {
            1int
        } else {
            0int
        }),
{
    let e = y / 400;
    let r = y % 400;
    assert(y == 400 * e + r && 0 <= r < 400);
    if r > 0 {
        assert((y - 1) / 400 == e);
        assert(y % 4 == r % 4);
        assert(y % 100 == r % 100);
    } else {
        assert((y - 1) / 400 == e - 1);
    }
}

/// The day number of a day is that of the first of its month plus the days before it.
pub(crate) proof fn lemma_day_number_in_month(y: i32, m: u32, d1: u32, d2: u32)
    ensures
        day_number(CalendarDate { year: y, month: m, day: d2 }) - day_number(
            CalendarDate { year: y, month: m, day: d1 },
        ) == d2 - d1,
{
}

/// The first of a month comes the day after the last day of the month before.
proof fn lemma_next_month_day(y: i32, m: u32)
    requires
        1 <= m <= 12,
        MIN_YEAR <= y < MAX_YEAR || m < 12,
    ensures
        day_number(first_of_next_month(y, m)) == day_number(
            CalendarDate { year: y, month: m, day: days_in_month(y as int, m as int) as u32 },
        ) + 1,
{
    if m == 2 {
        lemma_year_days_step(y as int);
    }
}

/// A day of an earlier month has a smaller day number than the first of month `m` of `y`.
pub(crate) proof fn lemma_earlier_month(a: CalendarDate, y: i32, m: u32)
    requires
        valid_date(a),
        1 <= m <= 12,
        MIN_YEAR <= y <= MAX_YEAR,
        a.year < y || (a.year == y && a.month < m),
    ensures
        day_number(a) < day_number(CalendarDate { year: y, month: m, day: 1 }),
    decreases 12 * y + m - 12 * a.year - a.month,
{
    let (py, pm) = if m == 1 {
        ((y - 1) as i32, 12u32)
    } else {
        (y, (m - 1) as u32)
    };
    let last = CalendarDate { year: py, month: pm, day: days_in_month(py as int, pm as int) as u32 };
    lemma_next_month_day(py, pm);
    assert(first_of_next_month(py, pm) == CalendarDate { year: y, month: m, day: 1 });
    if a.year == py && a.month == pm {
        lemma_day_number_in_month(py, pm, a.day, last.day);
    } else {
        lemma_earlier_month(a, py, pm);
        lemma_day_number_in_month(py, pm, 1, last.day);
    }
}

/// The days of the calendar's first January count from `FIRST_DAY`; every later day lies at
/// least 31 days after it.
pub proof fn lemma_first_days(d: CalendarDate)
    requires
        valid_date(d),
    ensures
        d.year == MIN_YEAR && d.month == 1 ==> day_number(d) == FIRST_DAY + d.day - 1,
        !(d.year == MIN_YEAR && d.month == 1) ==> day_number(d) >= FIRST_DAY + 31,
{
    let jan1 = CalendarDate { year: MIN_YEAR, month: 1, day: 1 };
    assert(day_number(jan1) == FIRST_DAY);
    lemma_day_number_in_month(MIN_YEAR, 1, 1, d.day);
    if !(d.year == MIN_YEAR && d.month == 1) {
        let jan31 = CalendarDate { year: MIN_YEAR, month: 1, day: 31 };
        lemma_day_number_in_month(MIN_YEAR, 1, 1, 31);
        lemma_earlier_month(jan31, d.year, d.month);
        lemma_day_number_in_month(d.year, d.month, 1, d.day);
    }
}

/// The last day of a month. December of the calendar's last year has no next month to step
/// back from, and is left out.
pub fn last_day_of_month(year: i32, month: u32) -> (r: CalendarDate)
    requires
        MIN_YEAR <= year <= MAX_YEAR,
        1 <= month <= 12,
        year < MAX_YEAR || month < 12,
    ensures
        r == last_day(year, month),
        r == date_minus_days(first_of_next_month(year, month), 1),
        valid_date(r),
{
    let next = if month == 12 {
        CalendarDate { year: year + 1, month: 1, day: 1 }
    } else {
        CalendarDate { year, month: month + 1, day: 1 }
    };
    proof {
        lemma_first_days(next);
    }
    let r = minus_days(next, 1);
    proof {
        let c = CalendarDate { year, month, day: days_in_month(year as int, month as int) as u32 };
        lemma_next_month_day(year, month);
        assert(next == first_of_next_month(year, month));
        if r.year == year && r.month == month {
            lemma_day_number_in_month(year, month, r.day, c.day);
        } else {
            assert(r.year < year || (r.year == year && r.month < month));
            lemma_earlier_month(r, year, month);
            lemma_day_number_in_month(year, month, 1, c.day);
            assert(false);
        }
    }
    r
}

/// The month a phrase such as "w styczniu" or "in january" names.
pub open spec fn month_phrase(s: Seq<char>) -> Option<u32> {
    if s == "w styczniu"@ || s == "in january"@ {
        Some(1)
    } else if s == "w lutym"@ || s == "in february"@ {
        Some(2)
    } else if s == "w marcu"@ || s == "in march"@ {
        Some(3)
    } else if s == "w kwietniu"@ || s == "in april"@ {
        Some(4)
    } else if s == "w maju"@ || s == "in may"@ {
        Some(5)
    } else if s == "w czerwcu"@ || s == "in june"@ {
        Some(6)
    } else if s == "w lipcu"@ || s == "in july"@ {
        Some(7)
    } else if s == "w sierpniu"@ || s == "in august"@ {
        Some(8)
    } else if s == "we wrześniu"@ || s == "in september"@ {
        Some(9)
    } else if s == "w październiku"@ || s == "in october"@ {
        Some(10)
    } else if s == "w listopadzie"@ || s == "in november"@ {
        Some(11)
    } else if s == "w grudniu"@ || s == "in december"@ {
        Some(12)
    } else {
        None
    }
}

fn month_of_phrase(s: &str) -> (r: Option<u32>)
    ensures
        r == month_phrase(s@),
{
    if str_eq(s, "w styczniu") || str_eq(s, "in january") {
        Some(1)
    } else if str_eq(s, "w lutym") || str_eq(s, "in february") {
        Some(2)
    } else if str_eq(s, "w marcu") || str_eq(s, "in march") {
        Some(3)
    } else if str_eq(s, "w kwietniu") || str_eq(s, "in april") {
        Some(4)
    } else if str_eq(s, "w maju") || str_eq(s, "in may") {
        Some(5)
    } else if str_eq(s, "w czerwcu") || str_eq(s, "in june") {
        Some(6)
    } else if str_eq(s, "w lipcu") || str_eq(s, "in july") {
        Some(7)
    } else if str_eq(s, "w sierpniu") || str_eq(s, "in august") {
        Some(8)
    } else if str_eq(s, "we wrześniu") || str_eq(s, "in september") {
        Some(9)
    } else if str_eq(s, "w październiku") || str_eq(s, "in october") {
        Some(10)
    } else if str_eq(s, "w listopadzie") || str_eq(s, "in november") {
        Some(11)
    } else if str_eq(s, "w grudniu") || str_eq(s, "in december") {
        Some(12)
    } else {
        None
    }
}

// ---------------------------------------------------------------------------
// Parsing
// ---------------------------------------------------------------------------

/// The day a keyword names, relative to `today`; `From` takes the first day of a named
/// period, `To` its last.
pub open spec fn keyword_date(lower: Seq<char>, bound: DateBound, today: CalendarDate) -> Option<
    CalendarDate,
> {
    if lower == "dzisiaj"@ || lower == "today"@ {
        Some(today)
    } else if lower == "wczoraj"@ || lower == "yesterday"@ {
        Some(date_minus_days(today, 1))
    } else if lower == "zeszły tydzień"@ || lower == "last week"@ {
        let monday = date_minus_days(today, (weekday_of(today) + 7) as u32);
        Some(
            match bound {
                DateBound::From => monday,
                DateBound::To => date_plus_days(monday, 6),
            },
        )
    } else if lower == "zeszły miesiąc"@ || lower == "last month"@ {
        let first = if today.month == 1 {
            CalendarDate { year: (today.year - 1) as i32, month: 12, day: 1 }
        } else {
            CalendarDate { year: today.year, month: (today.month - 1) as u32, day: 1 }
        };
        Some(
            match bound {
                DateBound::From => first,
                DateBound::To => last_day(first.year, first.month),
            },
        )
    } else if lower == "zeszły rok"@ || lower == "last year"@ {
        let y = (today.year - 1) as i32;
        Some(
            match bound {
                DateBound::From => CalendarDate { year: y, month: 1, day: 1 },
                DateBound::To => CalendarDate { year: y, month: 12, day: 31 },
            },
        )
    } else {
        match month_phrase(lower) {
            Some(m) => Some(
                match bound {
                    DateBound::From => CalendarDate { year: today.year, month: m, day: 1 },
                    DateBound::To => last_day(today.year, m),
                },
            ),
            None => None,
        }
    }
}

/// The text tried as a month: `YYYY-MM` completed to the first of the month.
pub open spec fn month_probe(t: Seq<char>) -> Seq<char> {
    t + seq!['-', '0', '1']
}

/// What a date string means: an ISO date, an ISO month (its first or last day), or a keyword;
/// else an error holding the trimmed input.
pub open spec fn parsed_date(input: Seq<char>, bound: DateBound, today: CalendarDate) -> Result<
    CalendarDate,
    Seq<char>,
> {
    let t = trim(input);
    match iso_date_of(t) {
        Some(d) => Ok(d),
        None => match iso_date_of(month_probe(t)) {
            Some(ym) => Ok(
                match bound {
                    DateBound::From => ym,
                    DateBound::To => last_day(ym.year, ym.month),
                },
            ),
            None => match keyword_date(lowercase(t), bound, today) {
                Some(d) => Ok(d),
                None => Err(t),
            },
        },
    }
}

/// Whether reading a keyword relative to `today` would step out of the calendar: back before
/// its first day ("yesterday" on that day, "last week" within its first week and a half, as far
/// as the weekday reaches back; "last month" in January of its first year, "last year" in its
/// first year), or to the last day of December of its last year ("in december" as an end, in
/// that year).
pub open spec fn keyword_out_of_reach(lower: Seq<char>, bound: DateBound, today: CalendarDate) -> bool {
    let first_month = today.year == MIN_YEAR && today.month == 1;
    if lower == "dzisiaj"@ || lower == "today"@ {
        false
    } else if lower == "wczoraj"@ || lower == "yesterday"@ {
        first_month && today.day <= 1
    } else if lower == "zeszły tydzień"@ || lower == "last week"@ {
        first_month && today.day <= weekday_of(today) + 7
    } else if lower == "zeszły miesiąc"@ || lower == "last month"@ {
        first_month
    } else if lower == "zeszły rok"@ || lower == "last year"@ {
        today.year == MIN_YEAR
    } else {
        match month_phrase(lower) {
            Some(m) => bound == DateBound::To && today.year == MAX_YEAR && m == 12,
            None => false,
        }
    }
}

/// Whether reading the input relative to `today` would step out of the calendar: an ISO month
/// whose last day is asked for in December of the calendar's last year (there is no next month
/// to step back from), or a keyword out of reach (see `keyword_out_of_reach`).
pub open spec fn date_out_of_reach(input: Seq<char>, bound: DateBound, today: CalendarDate) -> bool {
    let t = trim(input);
    match iso_date_of(t) {
        Some(_) => false,
        None => match iso_date_of(month_probe(t)) {
            Some(ym) => bound == DateBound::To && ym.year == MAX_YEAR && ym.month == 12,
            None => keyword_out_of_reach(lowercase(t), bound, today),
        },
    }
}

/// Parse a date string relative to `today`. Formats are tried in order: ISO 8601
/// (`2025-01-15`), an ISO month (`2025-01`: its first day with `From`, its last with `To`),
/// then the Polish and English keywords, case-insensitively.
pub fn parse_date(input: &str, bound: DateBound, today: CalendarDate) -> (r: Result<
    CalendarDate,
    DateParseError,
>)
    requires
        valid_date(today),
        !date_out_of_reach(input@, bound, today),
    ensures
        match (r, parsed_date(input@, bound, today)) {
            (Ok(d), Ok(e)) => d == e && valid_date(d),
            (Err(err), Err(t)) => err.input@ == t,
            _ => false,
        },
{
    let cs = chars_of(input);
    let t = trim_exec(&cs);
    let ts = string_of(&t);
    if let Some(d) = parse_iso_date(ts.as_str()) {
        return Ok(d);
    }
    let mut probe = crate::text::copy_chars(&t);
    probe.push('-');
    probe.push('0');
    probe.push('1');
    assert(probe@ =~= month_probe(t@));
    let ps = string_of(&probe);
    if let Some(ym) = parse_iso_date(ps.as_str()) {
        return Ok(
            match bound {
                DateBound::From => ym,
                DateBound::To => last_day_of_month(ym.year, ym.month),
            },
        );
    }
    let lower = to_lowercase(ts.as_str());
    let l = lower.as_str();
    if str_eq(l, "dzisiaj") || str_eq(l, "today") {
        return Ok(today);
    }
    proof {
        lemma_first_days(today);
    }
    if str_eq(l, "wczoraj") || str_eq(l, "yesterday") {
        return Ok(minus_days(today, 1));
    }
    if str_eq(l, "zeszły tydzień") || str_eq(l, "last week") {
        let weekday = weekday_index(today);
        let monday = minus_days(today, weekday + 7);
        return Ok(
            match bound {
                DateBound::From => monday,
                DateBound::To => plus_days(monday, 6),
            },
        );
    }
    if str_eq(l, "zeszły miesiąc") || str_eq(l, "last month") {
        let first = if today.month == 1 {
            CalendarDate { year: today.year - 1, month: 12, day: 1 }
        } else {
            CalendarDate { year: today.year, month: today.month - 1, day: 1 }
        };
        return Ok(
            match bound {
                DateBound::From => first,
                DateBound::To => last_day_of_month(first.year, first.month),
            },
        );
    }
    if str_eq(l, "zeszły rok") || str_eq(l, "last year") {
        let y = today.year - 1;
        return Ok(
            match bound {
                DateBound::From => CalendarDate { year: y, month: 1, day: 1 },
                DateBound::To => CalendarDate { year: y, month: 12, day: 31 },
            },
        );
    }
    match month_of_phrase(l) {
        Some(m) => Ok(
            match bound {
                DateBound::From => CalendarDate { year: today.year, month: m, day: 1 },
                DateBound::To => last_day_of_month(today.year, m),
            },
        ),
        None => Err(DateParseError { input: ts }),
    }
}

/// `parse_date`, or nothing for the inputs it leaves out: those that would step out of the
/// calendar (see `date_out_of_reach`).
pub fn parse_date_checked(input: &str, bound: DateBound, today: CalendarDate) -> (r: Option<
    Result<CalendarDate, DateParseError>,
>)
    requires
        valid_date(today),
    ensures
        r is None <==> date_out_of_reach(input@, bound, today),
        match r {
            Some(res) => match (res, parsed_date(input@, bound, today)) {
                (Ok(d), Ok(e)) => d == e && valid_date(d),
                (Err(err), Err(t)) => err.input@ == t,
                _ => false,
            },
            None => true,
        },
{
    if out_of_reach(input, bound, today) {
        None
    } else {
        Some(parse_date(input, bound, today))
    }
}

/// Whether reading the input relative to `today` would step out of the calendar (see
/// `date_out_of_reach`).
pub fn out_of_reach(input: &str, bound: DateBound, today: CalendarDate) -> (r: bool)
    requires
        valid_date(today),
    ensures
        r == date_out_of_reach(input@, bound, today),
{
    let cs = chars_of(input);
    let t = trim_exec(&cs);
    let ts = string_of(&t);
    if parse_iso_date(ts.as_str()).is_some() {
        return false;
    }
    let mut probe = crate::text::copy_chars(&t);
    probe.push('-');
    probe.push('0');
    probe.push('1');
    assert(probe@ =~= month_probe(t@));
    let ps = string_of(&probe);
    if let Some(ym) = parse_iso_date(ps.as_str()) {
        return bound == DateBound::To && ym.year == MAX_YEAR && ym.month == 12;
    }
    let lower = to_lowercase(ts.as_str());
    let l = lower.as_str();
    let first_month = today.year == MIN_YEAR && today.month == 1;
    if str_eq(l, "dzisiaj") || str_eq(l, "today") {
        false
    } else if str_eq(l, "wczoraj") || str_eq(l, "yesterday") {
        first_month && today.day <= 1
    } else if str_eq(l, "zeszły tydzień") || str_eq(l, "last week") {
        first_month && today.day <= weekday_index(today) + 7
    } else if str_eq(l, "zeszły miesiąc") || str_eq(l, "last month") {
        first_month
    } else if str_eq(l, "zeszły rok") || str_eq(l, "last year") {
        today.year == MIN_YEAR
    } else {
        match month_of_phrase(l) {
            Some(m) => bound == DateBound::To && today.year == MAX_YEAR && m == 12,
            None => false,
        }
    }
}

} // verus!
