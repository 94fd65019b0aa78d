//! Calendar dates of the proleptic Gregorian calendar, held as plain year,
//! month and day. The arithmetic that `chrono` performs for the library
//! (day numbers, month steps, parsing and formatting) is reached through the
//! trusted wrappers at the end of this file.
use vstd::prelude::*;

use crate::text::dec;

verus! {

/// Smallest year that `chrono::NaiveDate` represents.
pub const MIN_YEAR: i32 = -262143;

/// Largest year that `chrono::NaiveDate` represents.
pub const MAX_YEAR: i32 = 262142;

/// A calendar date. Only values with `valid()` denote a date; the library's
/// constructors and parsers make no other.
#[derive(Clone, Copy, Debug, PartialEq, Eq, Structural)]
pub struct Date {
    pub year: i32,
    pub month: u32,
    pub day: u32,
}

pub open spec fn is_leap(y: int) -> bool {
    (y % 4 == 0 && y % 100 != 0) || y % 400 == 0
}

/// Number of days of month `m` in year `y`.
pub open spec fn days_in_month(y: int, m: int) -> int {
    if m == 2 {
        if is_leap(y) {
            29
        } else {
            28
        }
    } else if m == 4 || m == 6 || m == 9 || m == 11 {
        30
    } else {
        31
    }
}

pub open spec fn days_in_year(y: int) -> int {
    if is_leap(y) {
        366
    } else {
        365
    }
}

pub open spec fn valid_ymd(y: int, m: int, d: int) -> bool {
    &&& MIN_YEAR <= y <= MAX_YEAR
    &&& 1 <= m <= 12
    &&& 1 <= d <= days_in_month(y, m)
}

/// Days in the years before year `y`, counted from January 1 of year 1.
pub open spec fn days_before_year(y: int) -> int {
    365 * (y - 1) + (y - 1) / 4 - (y - 1) / 100 + (y - 1) / 400
}

/// Days of year `y` before the first of month `m`.
pub open spec fn days_before_month(y: int, m: int) -> int {
    let base: int = if m <= 1 {
        0
    } else if m == 2 {
        31
    } else if m == 3 {
        59
    } else if m == 4 {
        90
    } else if m == 5 {
        120
    } else if m == 6 {
        151
    } else if m == 7 {
        181
    } else if m == 8 {
        212
    } else if m == 9 {
        243
    } else if m == 10 {
        273
    } else if m == 11 {
        304
    } else {
        334
    };
    if m > 2 && is_leap(y) {
        base + 1
    } else {
        base
    }
}

/// Day number of a date: January 1 of year 1 is day 1, as in
/// `chrono::Datelike::num_days_from_ce`.
#[verifier::opaque]
pub open spec fn ord_ymd(y: int, m: int, d: int) -> int {
    days_before_year(y) + days_before_month(y, m) + d
}

pub open spec fn min_ord() -> int {
    ord_ymd(MIN_YEAR as int, 1, 1)
}

pub open spec fn max_ord() -> int {
    ord_ymd(MAX_YEAR as int, 12, 31)
}

impl Date {
    pub open spec fn valid(self) -> bool {
        valid_ymd(self.year as int, self.month as int, self.day as int)
    }

    pub open spec fn ord(self) -> int {
        ord_ymd(self.year as int, self.month as int, self.day as int)
    }

    /// Months since January of year 0: the index that month arithmetic steps.
    pub open spec fn month_index(self) -> int {
        self.year * 12 + self.month - 1
    }

    /// Day of the week, Monday = 0 .. Sunday = 6.
    pub open spec fn weekday(self) -> int {
        (self.ord() - 1) % 7
    }

    /// `NaiveDate::from_ymd_opt`: the date, when it exists.
    pub fn from_ymd(year: i32, month: u32, day: u32) -> (r: Option<Date>)
        ensures
            r is Some <==> valid_ymd(year as int, month as int, day as int),
            r matches Some(d) ==> d.year == year && d.month == month && d.day == day,
    {
        if year < MIN_YEAR || year > MAX_YEAR || month < 1 || month > 12 || day < 1 {
            return None;
        }
        if day > month_length(year, month) {
            return None;
        }
        Some(Date { year, month, day })
    }
}

pub open spec fn lex_lt(a: Date, b: Date) -> bool {
    ||| a.year < b.year
    ||| (a.year == b.year && a.month < b.month)
    ||| (a.year == b.year && a.month == b.month && a.day < b.day)
}

pub fn leap_year(y: i32) -> (r: bool)
    ensures
        r == is_leap(y as int),
{
    let yy: i64 = (y as i64) + 2_160_000_000;
    assert(yy >= 0);
    assert(yy % 4 == (y as int) % 4);
    assert(yy % 100 == (y as int) % 100);
    assert(yy % 400 == (y as int) % 400);
    (yy % 4 == 0 && yy % 100 != 0) || yy % 400 == 0
}

/// Number of days of month `m` (1..=12) in year `y`.
pub fn month_length(y: i32, m: u32) -> (r: u32)
    requires
        1 <= m <= 12,
    ensures
        r == days_in_month(y as int, m as int),
{
    if m == 2 {
        if leap_year(y) {
            29
        } else {
            28
        }
    } else if m == 4 || m == 6 || m == 9 || m == 11 {
        30
    } else {
        31
    }
}

proof fn lemma_days_before_year_step(y: int)
    ensures
        days_before_year(y + 1) == days_before_year(y) + days_in_year(y),
{
}

proof fn lemma_days_before_year_mono(y1: int, y2: int)
    requires
        y1 < y2,
    ensures
        days_before_year(y1) + days_in_year(y1) <= days_before_year(y2),
    decreases y2 - y1,
{
    lemma_days_before_year_step(y1);
    if y1 + 1 < y2 {
        lemma_days_before_year_mono(y1 + 1, y2);
    }
}

proof fn lemma_month_bounds(y: int, m: int)
    requires
        1 <= m <= 12,
    ensures
        days_before_month(y, m) + days_in_month(y, m) <= days_in_year(y),
        m < 12 ==> days_before_month(y, m) + days_in_month(y, m) == days_before_month(y, m + 1),
        days_before_month(y, m) >= 0,
{
}

proof fn lemma_month_mono(y: int, m1: int, m2: int)
    requires
        1 <= m1 < m2 <= 12,
    ensures
        days_before_month(y, m1) + days_in_month(y, m1) <= days_before_month(y, m2),
    decreases m2 - m1,
{
    lemma_month_bounds(y, m1);
    if m1 + 1 < m2 {
        lemma_month_mono(y, m1 + 1, m2);
        lemma_month_bounds(y, m1 + 1);
    }
}

/// Within a month, day numbers grow with the day.
pub proof fn lemma_ord_same_month(y: int, m: int, k: int, n: int)
    requires
        MIN_YEAR <= y <= MAX_YEAR,
        1 <= m <= 12,
        1 <= k <= n,
        n == days_in_month(y, m),
    ensures
        valid_ymd(y, m, k),
        ord_ymd(y, m, k) <= ord_ymd(y, m, n),
{
    reveal(ord_ymd);
}

/// Day numbers grow with the calendar order of dates.
pub proof fn lemma_ord_lex(a: Date, b: Date)
    requires
        a.valid(),
        b.valid(),
    ensures
        lex_lt(a, b) <==> a.ord() < b.ord(),
        a == b <==> a.ord() == b.ord(),
{
    lemma_lex_implies_ord(a, b);
    lemma_lex_implies_ord(b, a);
}

proof fn lemma_lex_implies_ord(a: Date, b: Date)
    requires
        a.valid(),
        b.valid(),
    ensures
        lex_lt(a, b) ==> a.ord() < b.ord(),
{
    reveal(ord_ymd);
    let ya = a.year as int;
    let yb = b.year as int;
    let ma = a.month as int;
    let mb = b.month as int;
    lemma_month_bounds(ya, ma);
    lemma_month_bounds(yb, mb);
    if ya < yb {
        lemma_days_before_year_mono(ya, yb);
    } else if ya == yb && ma < mb {
        lemma_month_mono(ya, ma, mb);
    }
}

/// `a` falls strictly before `b`.
pub fn date_lt(a: &Date, b: &Date) -> (r: bool)
    requires
        a.valid(),
        b.valid(),
    ensures
        r == (a.ord() < b.ord()),
{
    proof {
        lemma_ord_lex(*a, *b);
    }
    a.year < b.year || (a.year == b.year && a.month < b.month) || (a.year == b.year && a.month
        == b.month && a.day < b.day)
}

/// `a` falls on or before `b`.
pub fn date_le(a: &Date, b: &Date) -> (r: bool)
    requires
        a.valid(),
        b.valid(),
    ensures
        r == (a.ord() <= b.ord()),
{
    !date_lt(b, a)
}

/// `b - a` in days.
pub fn days_between(a: &Date, b: &Date) -> (r: i64)
    requires
        a.valid(),
        b.valid(),
    ensures
        r == b.ord() - a.ord(),
{
    let x = days_from_ce(a);
    let y = days_from_ce(b);
    (y as i64) - (x as i64)
}

/// The date `n` days after `d` (before, for negative `n`), when it is in range.
pub fn add_days(d: &Date, n: i64) -> (r: Option<Date>)
    requires
        d.valid(),
    ensures
        r is Some <==> min_ord() <= d.ord() + n <= max_ord(),
        r matches Some(e) ==> e.valid() && e.ord() == d.ord() + n,
{
    let x = days_from_ce(d) as i64;
    let t = x.checked_add(n);
    match t {
        None => {
            proof {
                lemma_ord_range(*d);
            }
            None
        },
        Some(t) => {
            proof {
                lemma_ord_range(*d);
            }
            if t < i32::MIN as i64 || t > i32::MAX as i64 {
                return None;
            }
            from_days_from_ce(t as i32)
        },
    }
}

/// The day numbers of chrono's first and last dates.
pub proof fn lemma_ord_bounds()
    ensures
        min_ord() == -95746129,
        max_ord() == 95745399,
{
    reveal(ord_ymd);
    assert(days_before_year(MIN_YEAR as int) == -95746130);
    assert(days_before_year(MAX_YEAR as int) == 95745034);
}

pub proof fn lemma_ord_range(d: Date)
    requires
        d.valid(),
    ensures
        min_ord() <= d.ord() <= max_ord(),
        i32::MIN < min_ord(),
        max_ord() < i32::MAX,
{
    lemma_ord_bounds();
    let lo = Date { year: MIN_YEAR, month: 1, day: 1 };
    let hi = Date { year: MAX_YEAR, month: 12, day: 31 };
    lemma_ord_lex(lo, d);
    lemma_ord_lex(d, hi);
}

/// Day of the week of `d`, Monday = 0 .. Sunday = 6.
pub fn weekday_from_monday(d: &Date) -> (r: u32)
    requires
        d.valid(),
    ensures
        r == d.weekday(),
        r < 7,
{
    let n = days_from_ce(d) as i64;
    let w = (n - 1) % 7;
    let w2 = if w < 0 {
        w + 7
    } else {
        w
    };
    w2 as u32
}

/// The first day of the month of `d`.
pub fn first_of_month(d: &Date) -> (r: Date)
    requires
        d.valid(),
    ensures
        r.valid(),
        r.year == d.year && r.month == d.month && r.day == 1,
{
    Date { year: d.year, month: d.month, day: 1 }
}

/// The last day of the month of `d`.
pub fn last_of_month(d: &Date) -> (r: Date)
    requires
        d.valid(),
    ensures
        r.valid(),
        r.year == d.year && r.month == d.month,
        r.day == days_in_month(d.year as int, d.month as int),
{
    Date { year: d.year, month: d.month, day: month_length(d.year, d.month) }
}

/// What `NaiveDate::checked_add_months` returns: `k` months after `d`, the day
/// clamped to the length of the resulting month; `None` when out of range.
pub open spec fn add_months_spec(d: Date, k: int) -> Option<Date> {
    if k == 0 {
        Some(d)
    } else if k > i32::MAX || d.month_index() + k > i32::MAX {
        None
    } else {
        let total = d.month_index() + k;
        let y = total / 12;
        let m = total % 12 + 1;
        let day = if d.day <= days_in_month(y, m) {
            d.day as int
        } else {
            days_in_month(y, m)
        };
        if valid_ymd(y, m, day) {
            Some(Date { year: y as i32, month: m as u32, day: day as u32 })
        } else {
            None
        }
    }
}

/// `n` in decimal, padded with leading zeros to at least `w` digits.
pub open spec fn zero_padded(n: nat, w: nat) -> Seq<char> {
    let d = dec(n);
    Seq::new(if d.len() < w { (w - d.len()) as nat } else { 0 }, |_i: int| '0') + d
}

/// A year as chrono's `%Y` and `Display` write it: four digits from 0 to
/// 9999, else its sign and at least four digits.
pub open spec fn year_text(y: int) -> Seq<char> {
    if 0 <= y <= 9999 {
        zero_padded(y as nat, 4)
    } else if y < 0 {
        seq!['-'] + zero_padded((-y) as nat, 4)
    } else {
        seq!['+'] + zero_padded(y as nat, 4)
    }
}

/// English short names of the days, Monday first (chrono's `%a`).
pub open spec fn short_weekday_name(w: int) -> Seq<char> {
    if w == 0 { "Mon"@ } else if w == 1 { "Tue"@ } else if w == 2 { "Wed"@ } else if w == 3 { "Thu"@ }
    else if w == 4 { "Fri"@ } else if w == 5 { "Sat"@ } else { "Sun"@ }
}

/// English short names of the months (chrono's `%b`).
pub open spec fn short_month_name(m: int) -> Seq<char> {
    if m == 1 { "Jan"@ } else if m == 2 { "Feb"@ } else if m == 3 { "Mar"@ } else if m == 4 { "Apr"@ }
    else if m == 5 { "May"@ } else if m == 6 { "Jun"@ } else if m == 7 { "Jul"@ } else if m == 8 { "Aug"@ }
    else if m == 9 { "Sep"@ } else if m == 10 { "Oct"@ } else if m == 11 { "Nov"@ } else { "Dec"@ }
}

/// English full names of the months (chrono's `%B`).
pub open spec fn long_month_name(m: int) -> Seq<char> {
    if m == 1 { "January"@ } else if m == 2 { "February"@ } else if m == 3 { "March"@ }
    else if m == 4 { "April"@ } else if m == 5 { "May"@ } else if m == 6 { "June"@ }
    else if m == 7 { "July"@ } else if m == 8 { "August"@ } else if m == 9 { "September"@ }
    else if m == 10 { "October"@ } else if m == 11 { "November"@ } else { "December"@ }
}

/// The `strftime` patterns the library formats dates with.
pub open spec fn date_pattern(fmt: Seq<char>) -> bool {
    fmt == "%a"@ || fmt == "%b %-d"@ || fmt == "%b %-d, %Y"@ || fmt == "%B %Y"@ || fmt == "%b %Y"@
}

/// The text that `chrono` formats for a date with one of the patterns of
/// `date_pattern`: `%a` the short weekday, `%b` the short month, `%B` the
/// full month, `%-d` the day without padding, `%Y` the year.
pub open spec fn chrono_format(y: int, m: int, d: int, fmt: Seq<char>) -> Seq<char> {
    if fmt == "%a"@ {
        short_weekday_name((ord_ymd(y, m, d) - 1) % 7)
    } else if fmt == "%b %-d"@ {
        short_month_name(m) + seq![' '] + dec(d as nat)
    } else if fmt == "%b %-d, %Y"@ {
        short_month_name(m) + seq![' '] + dec(d as nat) + seq![',', ' '] + year_text(y)
    } else if fmt == "%B %Y"@ {
        long_month_name(m) + seq![' '] + year_text(y)
    } else {
        short_month_name(m) + seq![' '] + year_text(y)
    }
}

/// The date that `NaiveDate::parse_from_str(s, "%Y-%m-%d")` reads, as (year, month, day).
pub uninterp spec fn chrono_parse_ymd(s: Seq<char>) -> Option<(int, int, int)>;

/// `Datelike::num_days_from_ce` of a valid date: chrono's documentation
/// defines it as the day count with January 1 of year 1 as day 1, which
/// `ord_ymd` states.
#[verifier::external_body]
pub(crate) fn days_from_ce(d: &Date) -> (r: i32)
    requires
        d.valid(),
    ensures
        r == d.ord(),
{
    let nd = chrono::NaiveDate::from_ymd_opt(d.year, d.month, d.day).unwrap();
    chrono::Datelike::num_days_from_ce(&nd)
}

/// `NaiveDate::from_num_days_from_ce_opt`: the date with day number `n`,
/// `None` outside chrono's range of dates (year MIN_YEAR to MAX_YEAR).
#[verifier::external_body]
pub(crate) fn from_days_from_ce(n: i32) -> (r: Option<Date>)
    ensures
        r is Some <==> min_ord() <= n <= max_ord(),
        r matches Some(e) ==> e.valid() && e.ord() == n,
{
    chrono::NaiveDate::from_num_days_from_ce_opt(n).map(
        |nd| Date {
            year: chrono::Datelike::year(&nd),
            month: chrono::Datelike::month(&nd),
            day: chrono::Datelike::day(&nd),
        },
    )
}

/// `NaiveDate::checked_add_months`: the claim restates chrono's `diff_months`
/// (month index plus `k`, day clamped to the new month, `None` out of range).
#[verifier::external_body]
pub(crate) fn add_months(d: &Date, k: u32) -> (r: Option<Date>)
    requires
        d.valid(),
    ensures
        r == add_months_spec(*d, k as int),
{
    let nd = chrono::NaiveDate::from_ymd_opt(d.year, d.month, d.day).unwrap();
    nd.checked_add_months(chrono::Months::new(k)).map(
        |r| Date {
            year: chrono::Datelike::year(&r),
            month: chrono::Datelike::month(&r),
            day: chrono::Datelike::day(&r),
        },
    )
}

/// `NaiveDate::format(fmt).to_string()` of a valid date, for the patterns
/// of `date_pattern` (an unknown item would make `to_string` panic), with
/// chrono's default English names.
#[verifier::external_body]
pub(crate) fn format_date(d: &Date, fmt: &str) -> (r: String)
    requires
        d.valid(),
        date_pattern(fmt@),
    ensures
        r@ == chrono_format(d.year as int, d.month as int, d.day as int, fmt@),
{
    let nd = chrono::NaiveDate::from_ymd_opt(d.year, d.month, d.day).unwrap();
    nd.format(fmt).to_string()
}

/// `NaiveDate::parse_from_str(s, "%Y-%m-%d")`, its result named by
/// `chrono_parse_ymd`; a date that chrono returns is one it can represent.
#[verifier::external_body]
pub(crate) fn parse_ymd(s: &str) -> (r: Option<Date>)
    ensures
        r matches Some(e) ==> e.valid() && chrono_parse_ymd(s@) == Some(
            (e.year as int, e.month as int, e.day as int),
        ),
        r is None ==> chrono_parse_ymd(s@) is None,
{
    match chrono::NaiveDate::parse_from_str(s, "%Y-%m-%d") {
        Ok(nd) => Some(
            Date {
                year: chrono::Datelike::year(&nd),
                month: chrono::Datelike::month(&nd),
                day: chrono::Datelike::day(&nd),
            },
        ),
        Err(_) => None,
    }
}

} // verus!
