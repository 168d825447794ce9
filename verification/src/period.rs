//! Periods: keys, granularities, ancestors, calendar validation and closing
//! times.

use vstd::prelude::*;
use vstd::string::*;
use vstd::utf8::*;

use crate::error::{ErrorView, InoxSetError};
use crate::text::{
    ascii_bytes, decimal, lemma_ascii_encoding, lemma_padded_parses, padded,
    parse_unsigned, parse_unsigned_spec, push_decimal, push_padded, str_eq,
};
use crate::types::{Granularity, Period};

verus! {

// ---------------------------------------------------------------------------
// The calendar
// ---------------------------------------------------------------------------

/// Whether `y` is a leap year of the Gregorian calendar.
pub open spec fn is_leap(y: int) -> bool {
    y % 4 == 0 && (y % 100 != 0 || y % 400 == 0)
}

/// The number of days of a month; 30 for a number that is no month.
pub open spec fn month_days(y: int, m: int) -> int {
    if m == 1 || m == 3 || m == 5 || m == 7 || m == 8 || m == 10 || m == 12 {
        31
    } else if m == 2 {
        if is_leap(y) {
            29
        } else {
            28
        }
    } else {
        30
    }
}

/// The number of days of a year.
pub open spec fn year_days(y: int) -> int {
    if is_leap(y) {
        366
    } else {
        365
    }
}

/// The number of days from 1 January of year 0 to 1 January of year `y`.
pub open spec fn days_before_year(y: int) -> int
    decreases y,
{
    if y <= 0 {
        0
    } else {
        days_before_year(y - 1) + year_days(y - 1)
    }
}

/// The number of days from 1 January to the first of month `m` of the same
/// year. Month 0 is the December before.
pub open spec fn days_before_month(y: int, m: int) -> int
    decreases m,
{
    if m <= 0 {
        -31
    } else if m == 1 {
        0
    } else {
        days_before_month(y, m - 1) + month_days(y, m - 1)
    }
}

/// Days from 1 January of year 0 to 1 January 1970.
pub open spec fn epoch_offset() -> int {
    719528
}

/// The number of days from 1 January 1970 to the first of a month.
pub open spec fn month_start(y: int, m: int) -> int {
    days_before_year(y) + days_before_month(y, m) - epoch_offset()
}

/// The number of days from 1 January 1970 to day `d` of month `m`, where a day
/// past the end of its month and a month past the end of its year run on into
/// the next. A month number of 0 stands for the December before when the day is
/// at most 30; its later days count from 1 January.
pub open spec fn day_number(y: int, m: int, d: int) -> int
    decreases m,
{
    if m > 12 {
        day_number(y + 1, m - 12, d)
    } else if m == 0 && d > 30 {
        month_start(y, 1) + d - 31
    } else {
        month_start(y, m) + d - 1
    }
}

/// Unix time in seconds of the start of hour `h` of a day, where hours past the
/// end of the day run on into the next. Days before 1970 give 0.
pub open spec fn unix_seconds(y: int, m: int, d: int, h: int) -> int {
    let days = day_number(y, m, d + h / 24);
    if days < 0 {
        0
    } else {
        days * 86400 + (h % 24) * 3600
    }
}

/// How many multiples of 4, 100 and 400 lie below a number, step by step.
proof fn lemma_ceiling_steps(x: int)
    requires
        0 <= x,
    ensures
        (x + 4) / 4 == (x + 3) / 4 + (if x % 4 == 0 { 1int } else { 0int }),
        (x + 100) / 100 == (x + 99) / 100 + (if x % 100 == 0 { 1int } else { 0int }),
        (x + 400) / 400 == (x + 399) / 400 + (if x % 400 == 0 { 1int } else { 0int }),
{
    assert((x + 4) / 4 == (x + 3) / 4 + (if x % 4 == 0 { 1int } else { 0int })) by {
        assert(x == 4 * (x / 4) + x % 4);
    }
    assert((x + 100) / 100 == (x + 99) / 100 + (if x % 100 == 0 { 1int } else { 0int })) by {
        assert(x == 100 * (x / 100) + x % 100);
    }
    assert((x + 400) / 400 == (x + 399) / 400 + (if x % 400 == 0 { 1int } else { 0int })) by {
        assert(x == 400 * (x / 400) + x % 400);
    }
}

/// A multiple of 400 is one of 100, and a multiple of 100 is one of 4.
proof fn lemma_multiples(x: int)
    requires
        0 <= x,
    ensures
        x % 400 == 0 ==> x % 100 == 0,
        x % 100 == 0 ==> x % 4 == 0,
{
    if x % 400 == 0 {
        assert(x == 400 * (x / 400));
    }
    if x % 100 == 0 {
        assert(x == 100 * (x / 100));
    }
}

proof fn lemma_days_before_year_closed(y: int)
    requires
        0 <= y,
    ensures
        days_before_year(y) == 365 * y + (y + 3) / 4 - (y + 99) / 100 + (y + 399) / 400,
    decreases y,
{
    if y > 0 {
        lemma_days_before_year_closed(y - 1);
        lemma_ceiling_steps(y - 1);
        lemma_multiples(y - 1);
    }
}

proof fn lemma_days_before_month_table(y: int)
    ensures
        days_before_month(y, 0) == -31,
        days_before_month(y, 1) == 0,
        days_before_month(y, 2) == 31,
        forall|m: int|
            3 <= m <= 13 ==> #[trigger] days_before_month(y, m) == year_days(y) - 306 + (153 * (m
                - 3) + 2) / 5,
{
    reveal_with_fuel(days_before_month, 15);
    assert forall|m: int| 3 <= m <= 13 implies #[trigger] days_before_month(y, m) == year_days(y)
        - 306 + (153 * (m - 3) + 2) / 5 by {
        assert(m == 3 || m == 4 || m == 5 || m == 6 || m == 7 || m == 8 || m == 9 || m == 10 || m
            == 11 || m == 12 || m == 13);
    }
}

/// The first of a month is the day after the last of the month before.
proof fn lemma_next_month(y: int, m: int)
    requires
        0 <= y,
        1 <= m <= 12,
    ensures
        m < 12 ==> month_start(y, m + 1) == month_start(y, m) + month_days(y, m),
        m == 12 ==> month_start(y + 1, 1) == month_start(y, m) + month_days(y, m),
{
    lemma_days_before_month_table(y);
    lemma_days_before_month_table(y + 1);
    assert(days_before_month(y, m + 1) == days_before_month(y, m) + month_days(y, m));
    if m == 12 {
        assert(days_before_month(y, 13) == year_days(y));
        assert(days_before_year(y + 1) == days_before_year(y) + year_days(y));
    }
}

/// Returns the number of days in a month of a year; 30 for a number that is no
/// month.
pub fn days_in_month(y: u32, m: u32) -> (r: u32)
    ensures
        r == month_days(y as int, m as int),
        28 <= r <= 31,
{
    match m {
        1 | 3 | 5 | 7 | 8 | 10 | 12 => 31,
        4 | 6 | 9 | 11 => 30,
        2 => {
            if y % 4 == 0 && (y % 100 != 0 || y % 400 == 0) {
                29
            } else {
                28
            }
        },
        _ => 30,
    }
}

/// Days before year `q` counted in cycles of 400 years, and counted whole.
proof fn lemma_cycle_days(q: int)
    requires
        0 <= q,
    ensures
        (q / 400) * 146097 + (q % 400) * 365 + (q % 400) / 4 - (q % 400) / 100 == 365 * q + q / 4
            - q / 100 + q / 400,
        (q % 400) / 4 >= (q % 400) / 100,
{
    let e = q / 400;
    let r = q % 400;
    assert(q == 400 * e + r);
    assert(q / 4 == 100 * e + r / 4);
    assert(q / 100 == 4 * e + r / 100);
}

/// Years that start in March against years that start in January.
proof fn lemma_march_years(y: int)
    requires
        0 <= y,
    ensures
        ({
            let q = y + 400;
            365 * q + q / 4 - q / 100 + q / 400 == days_before_year(y) + year_days(y) - 366
                + 146097
        }),
        ({
            let q = y + 399;
            365 * q + q / 4 - q / 100 + q / 400 == days_before_year(y) - 366 + 146097
        }),
{
    lemma_days_before_year_closed(y);
    let a = y / 4;
    let b = y / 100;
    let c = y / 400;
    assert((y + 400) / 4 == a + 100);
    assert((y + 400) / 100 == b + 4);
    assert((y + 400) / 400 == c + 1);
    assert((y + 399) / 4 == (y + 3) / 4 + 99);
    assert((y + 399) / 100 == (y + 99) / 100 + 3);
    lemma_ceiling_steps(y);
    lemma_multiples(y);
}

/// Converts a calendar date to days since 1 January 1970.
///
/// Years are taken to start in March, so that the leap day ends the year, and
/// are grouped in cycles of 400 years of 146097 days each.
fn days_from_civil(y: u32, m: u32, d: u32) -> (r: i64)
    requires
        y <= 100_000,
        m <= 12,
        d <= 1000,
    ensures
        r == month_start(y as int, m as int) + d - 1,
{
    let march_year: u64 = if m <= 2 {
        y as u64 + 399
    } else {
        y as u64 + 400
    };
    let era: u64 = march_year / 400;
    let yoe: u64 = march_year % 400;
    let shifted: u64 = if m > 2 {
        m as u64 - 3
    } else {
        m as u64 + 9
    };
    let doy: u64 = (153 * shifted + 2) / 5 + d as u64;
    let doe: u64 = yoe * 365 + yoe / 4 - yoe / 100 + doy;
    let total: u64 = era * 146097 + doe;
    proof {
        lemma_cycle_days(march_year as int);
        lemma_march_years(y as int);
        lemma_days_before_month_table(y as int);
    }
    total as i64 - 865_566
}

/// Carries hours into days, months into years and days into months until each
/// component is in its calendar range.
fn normalize(y: u32, m: u32, d: u32, h: u32) -> (r: (u32, u32, u32, u32))
    requires
        y <= 70_000,
        m <= 300,
        d <= 300,
        h <= 300,
    ensures
        r.0 <= 71_000,
        r.1 <= 12,
        r.2 <= 31,
        r.3 == h % 24,
        m >= 1 && d >= 1 ==> 1 <= r.1 && 1 <= r.2 <= month_days(r.0 as int, r.1 as int),
        month_start(r.0 as int, r.1 as int) + r.2 - 1 == day_number(
            y as int,
            m as int,
            d + h / 24,
        ),
{
    let mut year: u32 = y;
    let mut month: u32 = m;
    let mut day: u32 = d + h / 24;
    let hour: u32 = h % 24;
    let ghost target = day_number(y as int, m as int, d + h / 24);
    while month > 12
        invariant
            year <= 70_000 + (300 - month),
            month <= 300,
            m >= 1 ==> month >= 1,
            target == day_number(year as int, month as int, day as int),
        decreases month,
    {
        month = month - 12;
        year = year + 1;
    }
    if month == 0 && day > 30 {
        day = day - 30;
        month = 1;
    }
    assert(target == month_start(year as int, month as int) + day - 1);
    let mut dim: u32 = days_in_month(year, month);
    while day > dim
        invariant
            year <= 70_700 - day,
            month <= 12,
            month == 0 ==> day <= 30,
            m >= 1 ==> month >= 1,
            d >= 1 ==> day >= 1,
            dim == month_days(year as int, month as int),
            28 <= dim <= 31,
            target == month_start(year as int, month as int) + day - 1,
        decreases day,
    {
        proof {
            lemma_next_month(year as int, month as int);
        }
        day = day - dim;
        month = month + 1;
        if month > 12 {
            month = month - 12;
            year = year + 1;
        }
        dim = days_in_month(year, month);
    }
    (year, month, day, hour)
}

/// Converts calendar components to Unix time in seconds. Components past their
/// range carry over; times before 1970 give 0.
fn datetime_to_unix(y: u32, m: u32, d: u32, h: u32) -> (r: u64)
    requires
        y <= 70_000,
        m <= 300,
        d <= 300,
        h <= 300,
    ensures
        r == unix_seconds(y as int, m as int, d as int, h as int),
{
    let (y, m, d, h) = normalize(y, m, d, h);
    let days: i64 = days_from_civil(y, m, d);
    if days < 0 {
        return 0;
    }
    proof {
        lemma_days_before_year_closed(y as int);
        lemma_days_before_month_table(y as int);
        assert(days <= 40_000_000);
    }
    days as u64 * 86400 + h as u64 * 3600
}

// ---------------------------------------------------------------------------
// Periods
// ---------------------------------------------------------------------------

/// The key of a period: `_static`, `YYYY-MM-DDTHH`, `YYYY-MM-DD`, `YYYY-MM` or
/// `YYYY`, with a longer year kept whole.
pub open spec fn key_text(p: Period) -> Seq<char> {
    match p {
        Period::Static => "_static"@,
        Period::Hour(y, m, d, h) => padded(y as nat, 4) + "-"@ + padded(m as nat, 2) + "-"@
            + padded(d as nat, 2) + "T"@ + padded(h as nat, 2),
        Period::Day(y, m, d) => padded(y as nat, 4) + "-"@ + padded(m as nat, 2) + "-"@ + padded(
            d as nat,
            2,
        ),
        Period::Month(y, m) => padded(y as nat, 4) + "-"@ + padded(m as nat, 2),
        Period::Year(y) => padded(y as nat, 4),
    }
}

/// The granularity of a period.
pub open spec fn granularity_of(p: Period) -> Granularity {
    match p {
        Period::Static => Granularity::Static,
        Period::Hour(..) => Granularity::Hour,
        Period::Day(..) => Granularity::Day,
        Period::Month(..) => Granularity::Month,
        Period::Year(..) => Granularity::Year,
    }
}

/// The period one level coarser.
pub open spec fn parent_of(p: Period) -> Option<Period> {
    match p {
        Period::Static => None,
        Period::Year(_) => None,
        Period::Hour(y, m, d, _) => Some(Period::Day(y, m, d)),
        Period::Day(y, m, _) => Some(Period::Month(y, m)),
        Period::Month(y, _) => Some(Period::Year(y)),
    }
}

/// All coarser periods that enclose `p`, from its parent up to the year.
pub open spec fn ancestors_of(p: Period) -> Seq<Period> {
    match p {
        Period::Static => Seq::empty(),
        Period::Year(_) => Seq::empty(),
        Period::Hour(y, m, d, _) => seq![Period::Day(y, m, d), Period::Month(y, m), Period::Year(y)],
        Period::Day(y, m, _) => seq![Period::Month(y, m), Period::Year(y)],
        Period::Month(y, _) => seq![Period::Year(y)],
    }
}

/// The first Unix second after a period; `None` for the static period, which
/// never ends.
pub open spec fn close_boundary(p: Period) -> Option<int> {
    match p {
        Period::Static => None,
        Period::Hour(y, m, d, h) => Some(unix_seconds(y as int, m as int, d as int, h + 1)),
        Period::Day(y, m, d) => Some(unix_seconds(y as int, m as int, d + 1, 0)),
        Period::Month(y, m) => if m >= 12 {
            Some(unix_seconds(y + 1, 1, 1, 0))
        } else {
            Some(unix_seconds(y as int, m + 1, 1, 0))
        },
        Period::Year(y) => Some(unix_seconds(y + 1, 1, 1, 0)),
    }
}

/// Whether a period has elapsed at Unix time `now`.
pub open spec fn closed_at(p: Period, now: int) -> bool {
    match close_boundary(p) {
        Some(boundary) => now >= boundary,
        None => false,
    }
}

/// What is wrong with a month number.
pub open spec fn month_fault(m: u8) -> Option<Seq<char>> {
    if 1 <= m <= 12 {
        None
    } else {
        Some("month "@ + decimal(m as nat) + " out of range 1..=12"@)
    }
}

/// What is wrong with a day of a month.
pub open spec fn day_fault(y: u16, m: u8, d: u8) -> Option<Seq<char>> {
    if 1 <= d <= month_days(y as int, m as int) {
        None
    } else {
        Some(
            "day "@ + decimal(d as nat) + " out of range 1..="@ + decimal(
                month_days(y as int, m as int) as nat,
            ) + " for "@ + padded(y as nat, 4) + "-"@ + padded(m as nat, 2),
        )
    }
}

/// What is wrong with an hour.
pub open spec fn hour_fault(h: u8) -> Option<Seq<char>> {
    if h <= 23 {
        None
    } else {
        Some("hour "@ + decimal(h as nat) + " out of range 0..=23"@)
    }
}

/// The first component of a period that is out of range, from the month down.
pub open spec fn period_fault(p: Period) -> Option<Seq<char>> {
    match p {
        Period::Static => None,
        Period::Year(_) => None,
        Period::Month(_, m) => month_fault(m),
        Period::Day(y, m, d) => if month_fault(m) is Some {
            month_fault(m)
        } else {
            day_fault(y, m, d)
        },
        Period::Hour(y, m, d, h) => if month_fault(m) is Some {
            month_fault(m)
        } else if day_fault(y, m, d) is Some {
            day_fault(y, m, d)
        } else {
            hour_fault(h)
        },
    }
}

/// Whether all components of a period are in their calendar range.
pub open spec fn valid_period(p: Period) -> bool {
    match p {
        Period::Static => true,
        Period::Year(_) => true,
        Period::Month(_, m) => 1 <= m <= 12,
        Period::Day(y, m, d) => 1 <= m <= 12 && 1 <= d <= month_days(y as int, m as int),
        Period::Hour(y, m, d, h) => 1 <= m <= 12 && 1 <= d <= month_days(y as int, m as int) && h
            <= 23,
    }
}

fn check_month(m: u8) -> (r: Result<(), String>)
    ensures
        match r {
            Ok(()) => month_fault(m) is None,
            Err(reason) => month_fault(m) == Some(reason@),
        },
{
    if 1 <= m && m <= 12 {
        return Ok(());
    }
    let mut reason = String::new();
    reason.append("month ");
    push_decimal(&mut reason, m as u64);
    reason.append(" out of range 1..=12");
    assert(reason@ =~= "month "@ + decimal(m as nat) + " out of range 1..=12"@);
    Err(reason)
}

fn check_day(y: u16, m: u8, d: u8) -> (r: Result<(), String>)
    ensures
        match r {
            Ok(()) => day_fault(y, m, d) is None,
            Err(reason) => day_fault(y, m, d) == Some(reason@),
        },
{
    let dim: u32 = days_in_month(y as u32, m as u32);
    if 1 <= d && d as u32 <= dim {
        return Ok(());
    }
    let mut reason = String::new();
    reason.append("day ");
    push_decimal(&mut reason, d as u64);
    reason.append(" out of range 1..=");
    push_decimal(&mut reason, dim as u64);
    reason.append(" for ");
    push_padded(&mut reason, y as u64, 4);
    reason.append("-");
    push_padded(&mut reason, m as u64, 2);
    assert(reason@ =~= "day "@ + decimal(d as nat) + " out of range 1..="@ + decimal(
        month_days(y as int, m as int) as nat,
    ) + " for "@ + padded(y as nat, 4) + "-"@ + padded(m as nat, 2));
    Err(reason)
}

fn check_hour(h: u8) -> (r: Result<(), String>)
    ensures
        match r {
            Ok(()) => hour_fault(h) is None,
            Err(reason) => hour_fault(h) == Some(reason@),
        },
{
    if h <= 23 {
        return Ok(());
    }
    let mut reason = String::new();
    reason.append("hour ");
    push_decimal(&mut reason, h as u64);
    reason.append(" out of range 0..=23");
    assert(reason@ =~= "hour "@ + decimal(h as nat) + " out of range 0..=23"@);
    Err(reason)
}

impl Period {
    /// Returns the key used in file paths and catalog keys.
    pub fn key(&self) -> (r: String)
        ensures
            r@ == key_text(*self),
    {
        let mut out = String::new();
        match *self {
            Period::Static => {
                out.append("_static");
            },
            Period::Hour(y, m, d, h) => {
                push_padded(&mut out, y as u64, 4);
                out.append("-");
                push_padded(&mut out, m as u64, 2);
                out.append("-");
                push_padded(&mut out, d as u64, 2);
                out.append("T");
                push_padded(&mut out, h as u64, 2);
            },
            Period::Day(y, m, d) => {
                push_padded(&mut out, y as u64, 4);
                out.append("-");
                push_padded(&mut out, m as u64, 2);
                out.append("-");
                push_padded(&mut out, d as u64, 2);
            },
            Period::Month(y, m) => {
                push_padded(&mut out, y as u64, 4);
                out.append("-");
                push_padded(&mut out, m as u64, 2);
            },
            Period::Year(y) => {
                push_padded(&mut out, y as u64, 4);
            },
        }
        assert(out@ =~= key_text(*self));
        out
    }

    /// Returns the granularity of this period.
    pub fn granularity(&self) -> (r: Granularity)
        ensures
            r == granularity_of(*self),
    {
        match self {
            Period::Static => Granularity::Static,
            Period::Hour(..) => Granularity::Hour,
            Period::Day(..) => Granularity::Day,
            Period::Month(..) => Granularity::Month,
            Period::Year(..) => Granularity::Year,
        }
    }

    /// Returns the period one level coarser, or `None` for years and the
    /// static period.
    pub fn parent(&self) -> (r: Option<Period>)
        ensures
            r == parent_of(*self),
    {
        match *self {
            Period::Static | Period::Year(_) => None,
            Period::Hour(y, m, d, _) => Some(Period::Day(y, m, d)),
            Period::Day(y, m, _) => Some(Period::Month(y, m)),
            Period::Month(y, _) => Some(Period::Year(y)),
        }
    }

    /// Returns the walk over all coarser periods, from the parent up to the
    /// year.
    pub fn ancestors(&self) -> (r: PeriodAncestors)
        ensures
            r@ == ancestors_of(*self),
    {
        PeriodAncestors { current: self.parent() }
    }

    /// Checks that the month is in 1..=12, the day exists in its month and the
    /// hour is in 0..=23, and otherwise names the first component out of range.
    pub fn validate(&self) -> (r: Result<(), InoxSetError>)
        ensures
            r is Ok <==> valid_period(*self),
            match r {
                Ok(()) => period_fault(*self) is None,
                Err(e) => period_fault(*self) matches Some(reason) && e@
                    == (ErrorView::InvalidPeriod { period: *self, reason }),
            },
    {
        let checked = match *self {
            Period::Static | Period::Year(_) => Ok(()),
            Period::Month(_, m) => check_month(m),
            Period::Day(y, m, d) => match check_month(m) {
                Ok(()) => check_day(y, m, d),
                Err(reason) => Err(reason),
            },
            Period::Hour(y, m, d, h) => match check_month(m) {
                Ok(()) => match check_day(y, m, d) {
                    Ok(()) => check_hour(h),
                    Err(reason) => Err(reason),
                },
                Err(reason) => Err(reason),
            },
        };
        match checked {
            Ok(()) => Ok(()),
            Err(reason) => Err(InoxSetError::InvalidPeriod { period: *self, reason }),
        }
    }

    /// Returns whether this period has elapsed at `now_unix`, in seconds since
    /// the Unix epoch. The static period never closes.
    pub fn is_closed(&self, now_unix: u64) -> (r: bool)
        ensures
            r == closed_at(*self, now_unix as int),
    {
        match self.close_boundary_unix() {
            Some(boundary) => now_unix >= boundary,
            None => false,
        }
    }

    fn close_boundary_unix(&self) -> (r: Option<u64>)
        ensures
            match r {
                Some(boundary) => close_boundary(*self) == Some(boundary as int),
                None => close_boundary(*self) is None,
            },
    {
        match *self {
            Period::Static => None,
            Period::Hour(y, m, d, h) => {
                Some(datetime_to_unix(y as u32, m as u32, d as u32, h as u32 + 1))
            },
            Period::Day(y, m, d) => Some(datetime_to_unix(y as u32, m as u32, d as u32 + 1, 0)),
            Period::Month(y, m) => {
                if m >= 12 {
                    Some(datetime_to_unix(y as u32 + 1, 1, 1, 0))
                } else {
                    Some(datetime_to_unix(y as u32, m as u32 + 1, 1, 0))
                }
            },
            Period::Year(y) => Some(datetime_to_unix(y as u32 + 1, 1, 1, 0)),
        }
    }
}

/// The year of a period; 0 for the static period.
pub open spec fn year_of(p: Period) -> u16 {
    match p {
        Period::Static => 0,
        Period::Hour(y, _, _, _) => y,
        Period::Day(y, _, _) => y,
        Period::Month(y, _) => y,
        Period::Year(y) => y,
    }
}

/// Whether `text` is the key of `p`, and `p` is a valid period with a year of
/// four digits.
pub open spec fn names_period(text: Seq<char>, p: Period) -> bool {
    valid_period(p) && year_of(p) <= 9999 && text == key_text(p)
}

/// The period that a key names: the inverse of `key_text` on valid periods with
/// a year of four digits.
pub open spec fn parse_key(text: Seq<char>) -> Option<Period> {
    if exists|p: Period| names_period(text, p) {
        Some(choose|p: Period| names_period(text, p))
    } else {
        None
    }
}

/// The first position of `sep` from `from` on; the length without one.
spec fn first_at(b: Seq<u8>, from: int, sep: u8) -> int
    decreases b.len() - from,
{
    if from >= b.len() {
        b.len() as int
    } else if b[from] == sep {
        from
    } else {
        first_at(b, from + 1, sep)
    }
}

/// The number not above `max` that `b[from..to]` writes.
spec fn number_in(b: Seq<u8>, from: int, to: int, max: nat) -> Option<nat> {
    parse_unsigned_spec(b.subrange(from, to), max)
}

/// The period whose components stand between the separators of `b`.
spec fn split_key(b: Seq<u8>) -> Option<Period> {
    let n = b.len() as int;
    let i = first_at(b, 0, 45);
    match number_in(b, 0, i, 65535) {
        None => None,
        Some(y) => if i == n {
            Some(Period::Year(y as u16))
        } else {
            let j = first_at(b, i + 1, 45);
            match number_in(b, i + 1, j, 255) {
                None => None,
                Some(m) => if j == n {
                    Some(Period::Month(y as u16, m as u8))
                } else {
                    let k = first_at(b, j + 1, 84);
                    match number_in(b, j + 1, k, 255) {
                        None => None,
                        Some(d) => if k == n {
                            Some(Period::Day(y as u16, m as u8, d as u8))
                        } else {
                            match number_in(b, k + 1, n, 255) {
                                None => None,
                                Some(h) => Some(
                                    Period::Hour(y as u16, m as u8, d as u8, h as u8),
                                ),
                            }
                        },
                    }
                },
            }
        },
    }
}

proof fn lemma_first_at(b: Seq<u8>, from: int, sep: u8, at: int)
    requires
        0 <= from <= at <= b.len(),
        at < b.len() ==> b[at] == sep,
        forall|i: int| from <= i < at ==> b[i] != sep,
    ensures
        first_at(b, from, sep) == at,
    decreases at - from,
{
    if from < at {
        lemma_first_at(b, from + 1, sep, at);
    }
}

/// Where `digits` stand in `b`, their number is read, and no separator occurs.
proof fn lemma_digits_in(b: Seq<u8>, from: int, digits: Seq<char>, n: nat, width: nat, max: nat)
    requires
        digits == padded(n, width),
        n <= max,
        0 <= from,
        from + digits.len() <= b.len(),
        forall|i: int| 0 <= i < digits.len() ==> b[from + i] == #[trigger] digits[i] as u8,
    ensures
        number_in(b, from, from + digits.len(), max) == Some(n),
        forall|i: int| from <= i < from + digits.len() ==> 48 <= #[trigger] b[i] <= 57,
{
    lemma_padded_parses(n, width, max);
    assert(b.subrange(from, from + digits.len()) =~= ascii_bytes(digits)) by {
        assert forall|i: int| 0 <= i < digits.len() implies b.subrange(
            from,
            from + digits.len(),
        )[i] == ascii_bytes(digits)[i] by {
            assert(b[from + i] == digits[i] as u8);
        }
    }
    assert forall|i: int| from <= i < from + digits.len() implies 48 <= #[trigger] b[i] <= 57 by {
        assert('0' <= digits[i - from] <= '9');
        assert(b[from + (i - from)] == digits[i - from] as u8);
    }
}

/// A key is made of ASCII characters other than dots and slashes.
pub proof fn lemma_key_chars(p: Period)
    ensures
        is_ascii_chars(key_text(p)),
        forall|i: int|
            0 <= i < key_text(p).len() ==> #[trigger] key_text(p)[i] != '.' && key_text(p)[i]
                != '/',
        p != Period::Static ==> key_text(p).len() > 0 && '0' <= key_text(p)[0] <= '9',
{
    reveal_strlit("_static");
    reveal_strlit("-");
    reveal_strlit("T");
    let t = key_text(p);
    let (y, m, d, h) = match p {
        Period::Static => (0nat, 0nat, 0nat, 0nat),
        Period::Year(y) => (y as nat, 0nat, 0nat, 0nat),
        Period::Month(y, m) => (y as nat, m as nat, 0nat, 0nat),
        Period::Day(y, m, d) => (y as nat, m as nat, d as nat, 0nat),
        Period::Hour(y, m, d, h) => (y as nat, m as nat, d as nat, h as nat),
    };
    let ty = padded(y, 4);
    let tm = padded(m, 2);
    let td = padded(d, 2);
    let th = padded(h, 2);
    lemma_padded_parses(y, 4, y);
    lemma_padded_parses(m, 2, m);
    lemma_padded_parses(d, 2, d);
    lemma_padded_parses(h, 2, h);
    let a = ty.len() as int;
    let b = a + 1 + tm.len();
    let c = b + 1 + td.len();
    if p != Period::Static {
        assert forall|i: int| 0 <= i < t.len() implies ('0' <= #[trigger] t[i] <= '9') || t[i]
            == '-' || t[i] == 'T' by {
            if i < a {
                assert(t[i] == ty[i]);
            } else if a < i < b {
                assert(t[i] == tm[i - a - 1]);
            } else if b < i < c {
                assert(t[i] == td[i - b - 1]);
            } else if c < i {
                assert(t[i] == th[i - c - 1]);
            }
        }
        assert(t[0] == ty[0]);
    }
}

/// The components are read back from the key of every period.
#[verifier::spinoff_prover]
#[verifier::rlimit(60)]
proof fn lemma_split_key(p: Period)
    requires
        p != Period::Static,
    ensures
        split_key(encode_utf8(key_text(p))) == Some(p),
{
    reveal_strlit("-");
    reveal_strlit("T");
    let t = key_text(p);
    lemma_key_chars(p);
    lemma_ascii_encoding(t);
    let b = encode_utf8(t);
    let n = b.len() as int;
    let (y, m, d, h) = match p {
        Period::Static => (0nat, 0nat, 0nat, 0nat),
        Period::Year(y) => (y as nat, 0nat, 0nat, 0nat),
        Period::Month(y, m) => (y as nat, m as nat, 0nat, 0nat),
        Period::Day(y, m, d) => (y as nat, m as nat, d as nat, 0nat),
        Period::Hour(y, m, d, h) => (y as nat, m as nat, d as nat, h as nat),
    };
    let ty = padded(y, 4);
    let tm = padded(m, 2);
    let td = padded(d, 2);
    let th = padded(h, 2);
    let i = ty.len() as int;
    let j = i + 1 + tm.len();
    let k = j + 1 + td.len();
    assert forall|x: int| 0 <= x < ty.len() implies b[0 + x] == #[trigger] ty[x] as u8 by {
        assert(t[x] == ty[x]);
    }
    lemma_digits_in(b, 0, ty, y, 4, 65535);
    lemma_first_at(b, 0, 45, i);
    if i < n {
        assert(t[i] == '-');
        assert forall|x: int| 0 <= x < tm.len() implies b[i + 1 + x] == #[trigger] tm[x] as u8 by {
            assert(t[i + 1 + x] == tm[x]);
        }
        lemma_digits_in(b, i + 1, tm, m, 2, 255);
        lemma_first_at(b, i + 1, 45, j);
        if j < n {
            assert(t[j] == '-');
            assert forall|x: int| 0 <= x < td.len() implies b[j + 1 + x] == #[trigger] td[x]
                as u8 by {
                assert(t[j + 1 + x] == td[x]);
            }
            lemma_digits_in(b, j + 1, td, d, 2, 255);
            lemma_first_at(b, j + 1, 84, k);
            if k < n {
                assert(t[k] == 'T');
                assert forall|x: int| 0 <= x < th.len() implies b[k + 1 + x] == #[trigger] th[x]
                    as u8 by {
                    assert(t[k + 1 + x] == th[x]);
                }
                lemma_digits_in(b, k + 1, th, h, 2, 255);
                assert(k + 1 + th.len() == n);
            }
        }
    }
}

/// Different periods have different keys.
pub proof fn law_key_injective(a: Period, b: Period)
    requires
        key_text(a) == key_text(b),
    ensures
        a == b,
{
    reveal_strlit("_static");
    lemma_key_chars(a);
    lemma_key_chars(b);
    assert("_static"@[0] == '_');
    if a != Period::Static && b != Period::Static {
        lemma_split_key(a);
        lemma_split_key(b);
    }
}

fn find_byte(b: &[u8], from: usize, sep: u8) -> (r: usize)
    requires
        from <= b.len(),
    ensures
        r == first_at(b@, from as int, sep),
        from <= r <= b.len(),
{
    let mut i: usize = from;
    while i < b.len() && b[i] != sep
        invariant
            from <= i <= b.len(),
            first_at(b@, from as int, sep) == first_at(b@, i as int, sep),
        decreases b.len() - i,
    {
        i = i + 1;
    }
    i
}

fn read_number(b: &[u8], from: usize, to: usize, max: u64) -> (r: Option<u64>)
    requires
        from <= to <= b.len(),
    ensures
        match r {
            Some(v) => number_in(b@, from as int, to as int, max as nat) == Some(v as nat) && v
                <= max,
            None => number_in(b@, from as int, to as int, max as nat) is None,
        },
{
    parse_unsigned(vstd::slice::slice_subrange(b, from, to), max)
}

fn read_components(b: &[u8]) -> (r: Option<Period>)
    ensures
        r == split_key(b@),
{
    let n: usize = b.len();
    let i: usize = find_byte(b, 0, 45);
    let y: u16 = match read_number(b, 0, i, 65535) {
        Some(v) => v as u16,
        None => {
            return None;
        },
    };
    if i == n {
        return Some(Period::Year(y));
    }
    let j: usize = find_byte(b, i + 1, 45);
    let m: u8 = match read_number(b, i + 1, j, 255) {
        Some(v) => v as u8,
        None => {
            return None;
        },
    };
    if j == n {
        return Some(Period::Month(y, m));
    }
    let k: usize = find_byte(b, j + 1, 84);
    let d: u8 = match read_number(b, j + 1, k, 255) {
        Some(v) => v as u8,
        None => {
            return None;
        },
    };
    if k == n {
        return Some(Period::Day(y, m, d));
    }
    match read_number(b, k + 1, n, 255) {
        Some(h) => Some(Period::Hour(y, m, d, h as u8)),
        None => None,
    }
}

/// Returns the period with this key, valid or not.
pub fn period_with_key(s: &str) -> (r: Option<Period>)
    ensures
        match r {
            Some(p) => key_text(p) == s@,
            None => forall|p: Period| #[trigger] key_text(p) != s@,
        },
{
    if str_eq(s, "_static") {
        return Some(Period::Static);
    }
    let found = read_components(s.as_bytes());
    proof {
        assert forall|p: Period| #[trigger] key_text(p) == s@ implies found == Some(p) by {
            lemma_split_key(p);
        }
    }
    match found {
        Some(p) => {
            if str_eq(p.key().as_str(), s) {
                Some(p)
            } else {
                None
            }
        },
        None => None,
    }
}

/// Parses a period key, the inverse of [`Period::key`]. Any text that is not
/// the key of a valid period with a year of four digits gives `None`.
pub fn parse_period_key(s: &str) -> (r: Option<Period>)
    ensures
        r == parse_key(s@),
        forall|p: Period| #[trigger] names_period(s@, p) <==> r == Some(p),
{
    let found = period_with_key(s);
    let r = match found {
        Some(p) => {
            if has_short_year(p) && p.validate().is_ok() {
                Some(p)
            } else {
                None
            }
        },
        None => None,
    };
    proof {
        assert forall|p: Period| #[trigger] names_period(s@, p) <==> r == Some(p) by {
            if names_period(s@, p) {
                assert(key_text(p) == s@);
                law_key_injective(p, found->0);
            }
        }
        if r is Some {
            assert(names_period(s@, r->0));
        }
    }
    r
}

fn has_short_year(p: Period) -> (r: bool)
    ensures
        r == (year_of(p) <= 9999),
{
    match p {
        Period::Static => true,
        Period::Hour(y, _, _, _) | Period::Day(y, _, _) | Period::Month(y, _) | Period::Year(y) => y
            <= 9999,
    }
}

/// The catalog key of a period of an event: `event/granularity/period`.
pub open spec fn catalog_key_text(event: Seq<char>, gran: Granularity, period: Period) -> Seq<char> {
    event + "/"@ + gran.dir_text() + "/"@ + key_text(period)
}

/// Builds the catalog key `event/granularity/period`.
pub fn catalog_key(event: &str, gran: Granularity, period: &Period) -> (r: String)
    ensures
        r@ == catalog_key_text(event@, gran, *period),
{
    let mut out = event.to_owned();
    out.append("/");
    out.append(gran.dir_name());
    out.append("/");
    out.append(period.key().as_str());
    out
}

/// A walk over the ancestors of a period, made by [`Period::ancestors`].
pub struct PeriodAncestors {
    current: Option<Period>,
}

impl View for PeriodAncestors {
    type V = Seq<Period>;

    /// The periods still to come.
    closed spec fn view(&self) -> Seq<Period> {
        match self.current {
            Some(p) => seq![p] + ancestors_of(p),
            None => Seq::empty(),
        }
    }
}

impl PeriodAncestors {
    /// Returns the next ancestor, or `None` after the year.
    pub fn next(&mut self) -> (r: Option<Period>)
        ensures
            match r {
                Some(p) => old(self)@ == seq![p] + final(self)@,
                None => old(self)@ == Seq::<Period>::empty() && final(self)@ == old(self)@,
            },
    {
        match self.current {
            Some(p) => {
                self.current = p.parent();
                assert(old(self)@ =~= seq![p] + self@);
                Some(p)
            },
            None => None,
        }
    }

    /// Returns the periods still to come.
    pub fn collect(self) -> (r: Vec<Period>)
        ensures
            r@ == self@,
    {
        let mut walk = self;
        let mut out: Vec<Period> = Vec::new();
        let ghost all = self@;
        assert(out@ + walk@ =~= all);
        loop
            invariant
                all == out@ + walk@,
            ensures
                all == out@,
            decreases walk@.len(),
        {
            match walk.next() {
                Some(p) => {
                    out.push(p);
                    assert(all =~= out@ + walk@);
                },
                None => {
                    assert(all =~= out@);
                    break;
                },
            }
        }
        out
    }
}

// ---------------------------------------------------------------------------
// Laws
// ---------------------------------------------------------------------------

/// Parsing is the inverse of rendering: exactly the keys of valid periods with a
/// year of four digits are read, each as its period.
pub proof fn law_parse_inverts_key(text: Seq<char>, p: Period)
    ensures
        parse_key(text) == Some(p) <==> names_period(text, p),
{
    if names_period(text, p) {
        let q = choose|q: Period| names_period(text, q);
        law_key_injective(p, q);
    }
}

/// Every period that passes validation, with a year of four digits, can be
/// read back from its key.
pub proof fn law_key_round_trip(p: Period)
    requires
        valid_period(p),
        year_of(p) <= 9999,
    ensures
        parse_key(key_text(p)) == Some(p),
{
    law_parse_inverts_key(key_text(p), p);
}

/// The key of a period that fails validation is not read back.
pub proof fn law_invalid_key_is_rejected(p: Period)
    requires
        !valid_period(p),
    ensures
        parse_key(key_text(p)) is None,
{
    if parse_key(key_text(p)) is Some {
        let q = parse_key(key_text(p))->0;
        law_parse_inverts_key(key_text(p), q);
        law_key_injective(p, q);
    }
}

/// Whether `text` holds no slash.
pub open spec fn no_slash(text: Seq<char>) -> bool {
    forall|i: int| 0 <= i < text.len() ==> #[trigger] text[i] != '/'
}

proof fn lemma_split_at_slash(a: Seq<char>, b: Seq<char>, x: Seq<char>, y: Seq<char>)
    requires
        no_slash(a),
        no_slash(b),
        a + "/"@ + x == b + "/"@ + y,
    ensures
        a == b,
        x == y,
{
    reveal_strlit("/");
    let s = a + "/"@ + x;
    assert(s[a.len() as int] == '/');
    assert(s[b.len() as int] == '/') by {
        assert((b + "/"@ + y)[b.len() as int] == '/');
    }
    if a.len() < b.len() {
        assert((b + "/"@ + y)[a.len() as int] == b[a.len() as int]);
        assert(false);
    }
    if b.len() < a.len() {
        assert(s[b.len() as int] == a[b.len() as int]);
        assert(false);
    }
    assert forall|i: int| 0 <= i < a.len() implies a[i] == b[i] by {
        assert(s[i] == a[i]);
        assert((b + "/"@ + y)[i] == b[i]);
    }
    assert(a =~= b);
    assert(s.len() == a.len() + 1 + x.len());
    assert(x =~= s.subrange(a.len() as int + 1, s.len() as int));
    assert(y =~= s.subrange(a.len() as int + 1, s.len() as int));
}

/// Directory names hold no slash and tell granularities apart.
pub proof fn lemma_dir_text(a: Granularity, b: Granularity)
    ensures
        no_slash(a.dir_text()),
        a.dir_text() == b.dir_text() ==> a == b,
{
    reveal_strlit("none");
    reveal_strlit("hour");
    reveal_strlit("day");
    reveal_strlit("month");
    reveal_strlit("year");
    if a != b {
        assert(a.dir_text().len() != b.dir_text().len() || a.dir_text()[0] != b.dir_text()[0]);
    }
}

/// Different events, granularities or periods never share a catalog key, as
/// long as event names hold no slash.
pub proof fn law_catalog_key_injective(
    event_a: Seq<char>,
    gran_a: Granularity,
    a: Period,
    event_b: Seq<char>,
    gran_b: Granularity,
    b: Period,
)
    requires
        no_slash(event_a),
        no_slash(event_b),
        catalog_key_text(event_a, gran_a, a) == catalog_key_text(event_b, gran_b, b),
    ensures
        event_a == event_b,
        gran_a == gran_b,
        a == b,
{
    let rest_a = gran_a.dir_text() + "/"@ + key_text(a);
    let rest_b = gran_b.dir_text() + "/"@ + key_text(b);
    assert(catalog_key_text(event_a, gran_a, a) =~= event_a + "/"@ + rest_a);
    assert(catalog_key_text(event_b, gran_b, b) =~= event_b + "/"@ + rest_b);
    lemma_split_at_slash(event_a, event_b, rest_a, rest_b);
    lemma_dir_text(gran_a, gran_b);
    lemma_dir_text(gran_b, gran_a);
    lemma_split_at_slash(gran_a.dir_text(), gran_b.dir_text(), key_text(a), key_text(b));
    law_key_injective(a, b);
}

/// A legal event name holds no slash, so it stays one segment of a catalog key
/// and of a path.
pub proof fn law_event_name_is_one_segment(name: Seq<char>)
    requires
        crate::error::valid_event_name(name),
    ensures
        no_slash(name),
{
    assert forall|i: int| 0 <= i < name.len() implies #[trigger] name[i] != '/' by {
        assert(crate::error::is_event_char(name[i]));
    }
}

/// A closed period stays closed.
pub proof fn law_closed_stays_closed(p: Period, earlier: int, later: int)
    requires
        earlier <= later,
        closed_at(p, earlier),
    ensures
        closed_at(p, later),
{
}

/// A period closes no later than the period that encloses it.
pub proof fn law_child_closes_first(p: Period, now: int)
    requires
        valid_period(p),
        parent_of(p) is Some,
        closed_at(parent_of(p)->0, now),
    ensures
        closed_at(p, now),
{
    match p {
        Period::Hour(y, m, d, h) => {
            reveal_with_fuel(day_number, 2);
        },
        Period::Day(y, m, d) => {
            reveal_with_fuel(day_number, 2);
            lemma_next_month(y as int, m as int);
        },
        Period::Month(y, m) => {
            reveal_with_fuel(day_number, 2);
            lemma_days_before_month_table(y as int);
            lemma_days_before_month_table(y + 1);
            assert(days_before_year(y + 1) == days_before_year(y as int) + year_days(y as int));
        },
        _ => {},
    }
}

/// The last hour of a day closes with the day, the last day of a month with the
/// month, and December with the year.
pub proof fn law_last_child_closes_with_parent(y: u16, m: u8, d: u8)
    requires
        1 <= m <= 12,
        1 <= d,
    ensures
        close_boundary(Period::Hour(y, m, d, 23)) == close_boundary(Period::Day(y, m, d)),
        d == month_days(y as int, m as int) ==> close_boundary(Period::Day(y, m, d))
            == close_boundary(Period::Month(y, m)),
        close_boundary(Period::Month(y, 12)) == close_boundary(Period::Year(y)),
{
    reveal_with_fuel(day_number, 2);
    lemma_next_month(y as int, m as int);
}

/// An hour lasts 3600 seconds: the next hour of the same day closes that much
/// later.
pub proof fn law_hours_follow_each_other(y: u16, m: u8, d: u8, h: u8)
    requires
        valid_period(Period::Hour(y, m, d, h)),
        h < 23,
        day_number(y as int, m as int, d as int) >= 0,
    ensures
        close_boundary(Period::Hour(y, m, d, (h + 1) as u8))->0 == close_boundary(
            Period::Hour(y, m, d, h),
        )->0 + 3600,
{
    reveal_with_fuel(day_number, 2);
}

/// The static period never closes.
pub proof fn law_static_never_closes(now: int)
    ensures
        !closed_at(Period::Static, now),
{
}

/// The ancestors of a period are its parent followed by the parent's
/// ancestors, each one level coarser than the one before.
pub proof fn law_ancestors_chain(p: Period)
    ensures
        match parent_of(p) {
            Some(q) => ancestors_of(p) == seq![q] + ancestors_of(q) && granularity_of(q).code()
                == granularity_of(p).code() + 1,
            None => ancestors_of(p) == Seq::<Period>::empty(),
        },
        forall|i: int|
            0 <= i < ancestors_of(p).len() ==> granularity_of(p).code() + 1 + i == granularity_of(
                #[trigger] ancestors_of(p)[i],
            ).code(),
{
    match parent_of(p) {
        Some(q) => {
            assert(ancestors_of(p) =~= seq![q] + ancestors_of(q));
        },
        None => {},
    }
}

/// The components of a period, from the year down.
pub open spec fn components(p: Period) -> Seq<int> {
    match p {
        Period::Static => Seq::empty(),
        Period::Year(y) => seq![y as int],
        Period::Month(y, m) => seq![y as int, m as int],
        Period::Day(y, m, d) => seq![y as int, m as int, d as int],
        Period::Hour(y, m, d, h) => seq![y as int, m as int, d as int, h as int],
    }
}

/// The ancestors of a period are exactly the periods of time that share its
/// components from the year down and leave out at least one: they have its year,
/// and its month and day where they have one. The parent leaves out one.
pub proof fn law_ancestors_enclose(p: Period, q: Period)
    ensures
        ancestors_of(p).contains(q) <==> 0 < components(q).len() < components(p).len()
            && components(p).subrange(0, components(q).len() as int) == components(q),
        parent_of(p) == Some(q) <==> components(q).len() > 0 && components(p).len()
            == components(q).len() + 1 && components(p).drop_last() == components(q),
        ancestors_of(p).len() == if components(p).len() == 0 {
            0
        } else {
            components(p).len() - 1
        },
{
    let a = components(p);
    let b = components(q);
    let all = ancestors_of(p);
    if 0 < b.len() < a.len() && a.subrange(0, b.len() as int) == b {
        assert forall|i: int| 0 <= i < b.len() implies a[i] == b[i] by {
            assert(a.subrange(0, b.len() as int)[i] == b[i]);
        }
        assert(all[a.len() - 1 - b.len()] == q);
    }
    if all.contains(q) {
        let k = choose|k: int| 0 <= k < all.len() && all[k] == q;
        assert(k == 0 || k == 1 || k == 2);
        assert(a.subrange(0, b.len() as int) =~= b);
    }
    if parent_of(p) == Some(q) {
        assert(a.drop_last() =~= b);
    }
    if b.len() > 0 && a.len() == b.len() + 1 && a.drop_last() == b {
        assert forall|i: int| 0 <= i < b.len() implies a[i] == b[i] by {
            assert(a.drop_last()[i] == b[i]);
        }
    }
}

/// The components of a period are the numbers that it was made of, and tell it.
pub proof fn law_components(y: u16, m: u8, d: u8, h: u8)
    ensures
        components(Period::Static).len() == 0,
        components(Period::Year(y)) == seq![y as int],
        components(Period::Month(y, m)) == seq![y as int, m as int],
        components(Period::Day(y, m, d)) == seq![y as int, m as int, d as int],
        components(Period::Hour(y, m, d, h)) == seq![y as int, m as int, d as int, h as int],
{
}

/// A period lies within each of its ancestors in time: it starts no earlier and
/// ends no later.
pub proof fn law_ancestors_span(p: Period, q: Period)
    requires
        valid_period(p),
        ancestors_of(p).contains(q),
    ensures
        close_boundary(p) matches Some(end) && (close_boundary(q) matches Some(outer) && end
            <= outer),
        start_of(q) <= start_of(p),
        valid_period(q),
{
    let all = ancestors_of(p);
    let k = choose|k: int| 0 <= k < all.len() && all[k] == q;
    reveal_with_fuel(day_number, 2);
    match p {
        Period::Hour(y, m, d, h) => {
            law_closing_times(y, m, d, h);
            lemma_next_month(y as int, m as int);
            lemma_days_before_month_table(y as int);
            lemma_days_before_month_table(y + 1);
            assert(days_before_year(y + 1) == days_before_year(y as int) + year_days(y as int));
        },
        Period::Day(y, m, d) => {
            lemma_next_month(y as int, m as int);
            lemma_days_before_month_table(y as int);
            lemma_days_before_month_table(y + 1);
            assert(days_before_year(y + 1) == days_before_year(y as int) + year_days(y as int));
        },
        Period::Month(y, m) => {
            lemma_days_before_month_table(y as int);
            lemma_days_before_month_table(y + 1);
            assert(days_before_year(y + 1) == days_before_year(y as int) + year_days(y as int));
        },
        _ => {},
    }
}

/// Unix time in seconds of the start of a period; 0 for the static period.
pub open spec fn start_of(p: Period) -> int {
    match p {
        Period::Static => 0,
        Period::Year(y) => unix_seconds(y as int, 1, 1, 0),
        Period::Month(y, m) => unix_seconds(y as int, m as int, 1, 0),
        Period::Day(y, m, d) => unix_seconds(y as int, m as int, d as int, 0),
        Period::Hour(y, m, d, h) => unix_seconds(y as int, m as int, d as int, h as int),
    }
}

/// The lengths of months: February has 29 days in leap years and 28 in others;
/// the others alternate between 31 and 30, with July and August both long.
pub proof fn law_month_lengths(y: int, m: int)
    requires
        1 <= m <= 12,
    ensures
        m != 2 ==> month_days(y, m) == 30 + (m + m / 8) % 2,
        m == 2 && (y % 400 == 0 || (y % 4 == 0 && y % 100 != 0)) ==> month_days(y, m) == 29,
        m == 2 && !(y % 400 == 0 || (y % 4 == 0 && y % 100 != 0)) ==> month_days(y, m) == 28,
{
    assert(m == 1 || m == 2 || m == 3 || m == 4 || m == 5 || m == 6 || m == 7 || m == 8 || m == 9
        || m == 10 || m == 11 || m == 12);
}

/// A period is valid exactly if its month is one of twelve, its day is one of the
/// month and its hour is one of 24.
pub proof fn law_valid_periods(y: u16, m: u8, d: u8, h: u8)
    ensures
        valid_period(Period::Static),
        valid_period(Period::Year(y)),
        valid_period(Period::Month(y, m)) <==> 0 < m < 13,
        valid_period(Period::Day(y, m, d)) <==> 0 < m < 13 && 0 < d && d <= if m == 2 {
            if y % 400 == 0 || (y % 4 == 0 && y % 100 != 0) {
                29int
            } else {
                28int
            }
        } else {
            30 + (m + m / 8) % 2
        },
        valid_period(Period::Hour(y, m, d, h)) <==> valid_period(Period::Day(y, m, d)) && h < 24,
{
    if 0 < m < 13 {
        law_month_lengths(y as int, m as int);
    }
}

/// When valid periods close. A day closes a day's seconds after it started, an
/// hour 3600 seconds after the one before, a month with its last day and a year
/// with its last month. What lies before 1970 closes at 0.
pub proof fn law_closing_times(y: u16, m: u8, d: u8, h: u8)
    requires
        valid_period(Period::Hour(y, m, d, h)),
    ensures
        y >= 1970 ==> {
            let first = 365 * (y - 1970) + ((y - 1) / 4 - 492) - ((y - 1) / 100 - 19) + ((y - 1)
                / 400 - 4);
            let leap = if y % 400 == 0 || (y % 4 == 0 && y % 100 != 0) {
                1int
            } else {
                0int
            };
            let before = if m <= 2 {
                31 * (m - 1)
            } else {
                59 + leap + (153 * (m - 3) + 2) / 5
            };
            &&& close_boundary(Period::Day(y, m, d)) == Some(86400 * (first + before + d))
            &&& close_boundary(Period::Hour(y, m, d, h)) == Some(
                86400 * (first + before + d - 1) + 3600 * (h + 1),
            )
            &&& close_boundary(Period::Month(y, m)) == Some(
                86400 * (first + before + month_days(y as int, m as int)),
            )
            &&& close_boundary(Period::Year(y)) == Some(86400 * (first + 365 + leap))
        },
        y < 1970 ==> close_boundary(Period::Day(y, m, d)) == Some(0int) && close_boundary(
            Period::Hour(y, m, d, h),
        ) == Some(0int) && close_boundary(Period::Month(y, m)) == Some(0int) && close_boundary(
            Period::Year(y),
        ) == Some(0int),
        close_boundary(Period::Static) is None,
{
    reveal_with_fuel(day_number, 2);
    let yy = y as int;
    lemma_days_before_year_closed(yy);
    lemma_days_before_year_closed(yy + 1);
    lemma_days_before_month_table(yy);
    lemma_days_before_month_table(yy + 1);
    lemma_next_month(yy, m as int);
    law_month_lengths(yy, m as int);
    assert(days_before_year(yy + 1) == days_before_year(yy) + year_days(yy));
    if y >= 1970 {
        assert((yy + 3) / 4 == (yy - 1) / 4 + 1);
        assert((yy + 99) / 100 == (yy - 1) / 100 + 1);
        assert((yy + 399) / 400 == (yy - 1) / 400 + 1);
    } else {
        lemma_years_grow(yy + 1, 1970);
        lemma_days_before_year_closed(1970);
    }
}

proof fn lemma_years_grow(a: int, b: int)
    requires
        0 <= a <= b,
    ensures
        days_before_year(a) <= days_before_year(b),
    decreases b,
{
    if a < b {
        lemma_years_grow(a, b - 1);
    }
}

/// A period is closed from the second on at which it closes, and not before.
pub proof fn law_closed_exactly_from_boundary(p: Period, now: int)
    ensures
        p != Period::Static ==> (close_boundary(p) matches Some(end) && (closed_at(p, now) <==> end
            <= now)),
        p == Period::Static ==> !closed_at(p, now),
{
}

/// Components past their range run on: an hour past the end of its day is one of
/// the next day, a day past the end of its month one of the next month, and a
/// month past the end of its year one of the next year.
pub proof fn law_out_of_range_runs_on(y: u16, m: u8, d: u8, h: u8)
    requires
        1 <= m,
        1 <= d,
        y < 65535,
    ensures
        h >= 24 && d < 255 ==> close_boundary(Period::Hour(y, m, d, h)) == close_boundary(
            Period::Hour(y, m, (d + 1) as u8, (h - 24) as u8),
        ),
        m <= 11 && d > month_days(y as int, m as int) ==> close_boundary(Period::Day(y, m, d))
            == close_boundary(
            Period::Day(y, (m + 1) as u8, (d - month_days(y as int, m as int)) as u8),
        ),
        m == 12 && d > 31 ==> close_boundary(Period::Day(y, m, d)) == close_boundary(
            Period::Day((y + 1) as u16, 1, (d - 31) as u8),
        ),
        m > 12 ==> close_boundary(Period::Day(y, m, d)) == close_boundary(
            Period::Day((y + 1) as u16, (m - 12) as u8, d),
        ),
        m > 12 ==> close_boundary(Period::Hour(y, m, d, h)) == close_boundary(
            Period::Hour((y + 1) as u16, (m - 12) as u8, d, h),
        ),
{
    reveal_with_fuel(day_number, 2);
    if m <= 12 {
        lemma_next_month(y as int, m as int);
    }
}

/// A granularity says which components a period has.
pub proof fn law_granularity_of_period(p: Period)
    ensures
        components(p).len() == 0 <==> granularity_of(p) == Granularity::Static,
        components(p).len() == 1 <==> granularity_of(p) == Granularity::Year,
        components(p).len() == 2 <==> granularity_of(p) == Granularity::Month,
        components(p).len() == 3 <==> granularity_of(p) == Granularity::Day,
        components(p).len() == 4 <==> granularity_of(p) == Granularity::Hour,
{
}

/// How the keys of periods are written, character by character: four digits of
/// the year, then two digits each behind `-`, `-` and `T`.
pub proof fn law_key_format(y: u16, m: u8, d: u8, h: u8)
    requires
        y <= 9999,
        m <= 99,
        d <= 99,
        h <= 99,
    ensures
        ({
            let year = seq![
                (48 + y / 1000) as char,
                (48 + y / 100 % 10) as char,
                (48 + y / 10 % 10) as char,
                (48 + y % 10) as char,
            ];
            let month = seq!['-', (48 + m / 10) as char, (48 + m % 10) as char];
            let day = seq!['-', (48 + d / 10) as char, (48 + d % 10) as char];
            let hour = seq!['T', (48 + h / 10) as char, (48 + h % 10) as char];
            &&& key_text(Period::Year(y)) == year
            &&& key_text(Period::Month(y, m)) == year + month
            &&& key_text(Period::Day(y, m, d)) == year + month + day
            &&& key_text(Period::Hour(y, m, d, h)) == year + month + day + hour
            &&& key_text(Period::Static) == "_static"@
        }),
{
    reveal_strlit("-");
    reveal_strlit("T");
    crate::text::law_padded_short(y as nat);
    crate::text::law_padded_short(m as nat);
    crate::text::law_padded_short(d as nat);
    crate::text::law_padded_short(h as nat);
    let year = seq![
        (48 + y / 1000) as char,
        (48 + y / 100 % 10) as char,
        (48 + y / 10 % 10) as char,
        (48 + y % 10) as char,
    ];
    let month = seq!['-', (48 + m / 10) as char, (48 + m % 10) as char];
    let day = seq!['-', (48 + d / 10) as char, (48 + d % 10) as char];
    let hour = seq!['T', (48 + h / 10) as char, (48 + h % 10) as char];
    assert(padded(y as nat, 4) =~= year);
    assert("-"@ + padded(m as nat, 2) =~= month);
    assert("-"@ + padded(d as nat, 2) =~= day);
    assert("T"@ + padded(h as nat, 2) =~= hour);
    assert(key_text(Period::Month(y, m)) =~= year + month);
    assert(key_text(Period::Day(y, m, d)) =~= year + month + day);
    assert(key_text(Period::Hour(y, m, d, h)) =~= year + month + day + hour);
}

/// The key of a finer period starts with that of each period that encloses it,
/// whatever the size of the components, and each further component stands behind
/// its separator.
pub proof fn law_key_extends_that_of_the_parent(p: Period)
    ensures
        parent_of(p) matches Some(q) ==> key_text(p) == key_text(q) + (if p is Hour {
            "T"@
        } else {
            "-"@
        }) + padded(components(p).last() as nat, 2),
        p is Year ==> key_text(p) == padded(components(p).last() as nat, 4),
{
}

/// A catalog key is the event, the name of the granularity and the key of the
/// period, with slashes between them.
pub proof fn law_catalog_key_segments(event: Seq<char>, gran: Granularity, period: Period)
    ensures
        ({
            let key = catalog_key_text(event, gran, period);
            let rest = gran.dir_text() + "/"@ + key_text(period);
            &&& key.len() == event.len() + 1 + rest.len()
            &&& key.subrange(0, event.len() as int) == event
            &&& key[event.len() as int] == '/'
            &&& key.subrange(event.len() as int + 1, key.len() as int) == rest
        }),
{
    reveal_strlit("/");
    let key = catalog_key_text(event, gran, period);
    let rest = gran.dir_text() + "/"@ + key_text(period);
    assert(key =~= event + "/"@ + rest);
    assert(key.subrange(0, event.len() as int) =~= event);
    assert(key.subrange(event.len() as int + 1, key.len() as int) =~= rest);
}

/// Validation names the first component out of range, from the month down, with
/// its value and the range.
pub proof fn law_named_fault(y: u16, m: u8, d: u8, h: u8)
    ensures
        ({
            let hour = Period::Hour(y, m, d, h);
            let day = Period::Day(y, m, d);
            let month = Period::Month(y, m);
            let of_month = "month "@ + decimal(m as nat) + " out of range 1..=12"@;
            &&& period_fault(month) is None <==> valid_period(month)
            &&& period_fault(day) is None <==> valid_period(day)
            &&& period_fault(hour) is None <==> valid_period(hour)
            &&& !valid_period(month) ==> period_fault(month) == Some(of_month) && period_fault(day)
                == Some(of_month) && period_fault(hour) == Some(of_month)
            &&& valid_period(month) && !valid_period(day) ==> period_fault(hour) == period_fault(
                day,
            ) && period_fault(day) == Some(
                "day "@ + decimal(d as nat) + " out of range 1..="@ + decimal(
                    month_days(y as int, m as int) as nat,
                ) + " for "@ + padded(y as nat, 4) + "-"@ + padded(m as nat, 2),
            )
            &&& valid_period(day) && h > 23 ==> period_fault(hour) == Some(
                "hour "@ + decimal(h as nat) + " out of range 0..=23"@,
            )
        }),
{
}

/// The year of a period is its first component, and a text has no slash exactly if
/// no character of it is one.
pub proof fn law_year_and_slash(p: Period, text: Seq<char>)
    ensures
        p != Period::Static ==> year_of(p) == components(p)[0],
        no_slash(text) <==> forall|i: int| 0 <= i < text.len() ==> #[trigger] text[i] != '/',
        year_of(Period::Static) == 0,
{
}

/// A text names a period exactly if it is the key of that period, which is valid
/// and has a year of four digits.
pub proof fn law_names_period(text: Seq<char>, p: Period)
    ensures
        names_period(text, p) <==> text == key_text(p) && valid_period(p) && (p == Period::Static
            || components(p)[0] <= 9999),
{
}

/// What the odd components stand for: a month past the end of the year closes with
/// the year; day 0 is the day before the first; month 0 is the December before as
/// far as its 30th day, and its later days are those of January.
pub proof fn law_odd_components(y: u16, m: u8, d: u8)
    requires
        y >= 1971,
    ensures
        m >= 12 ==> close_boundary(Period::Month(y, m)) == close_boundary(Period::Year(y)),
        close_boundary(Period::Month(y, 0)) == close_boundary(Period::Year((y - 1) as u16)),
        1 <= m <= 12 ==> close_boundary(Period::Day(y, m, 0))->0 + 86400 == close_boundary(
            Period::Day(y, m, 1),
        )->0,
        d < 30 ==> close_boundary(Period::Day(y, 0, d)) == close_boundary(
            Period::Day((y - 1) as u16, 12, d),
        ),
        d >= 30 ==> close_boundary(Period::Day(y, 0, d)) == close_boundary(
            Period::Day(y, 1, (d - 30) as u8),
        ),
{
    reveal_with_fuel(day_number, 2);
    let yy = y as int;
    lemma_days_before_month_table(yy);
    lemma_days_before_month_table(yy - 1);
    lemma_days_before_year_closed(yy);
    lemma_days_before_year_closed(yy - 1);
    lemma_years_grow(1971, yy);
    lemma_days_before_year_closed(1971);
    assert(days_before_year(yy) == days_before_year(yy - 1) + year_days(yy - 1));
}

} // verus!
