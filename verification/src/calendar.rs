//! The proleptic Gregorian calendar counted from 1970-01-01 (day 0).

use vstd::prelude::*;

verus! {

/// Leap years: divisible by 4 but not by 100, or divisible by 400.
pub open spec fn is_leap_year(y: nat) -> bool {
    (y % 4 == 0 && y % 100 != 0) || y % 400 == 0
}

/// Number of days in year `y`.
pub open spec fn year_length(y: nat) -> nat {
    if is_leap_year(y) {
        366
    } else {
        365
    }
}

/// Number of days in month `m` (1 = January) of year `y`.
pub open spec fn month_length(y: nat, m: nat) -> nat {
    if m == 2 {
        if is_leap_year(y) {
            29
        } else {
            28
        }
    } else if m == 4 || m == 6 || m == 9 || m == 11 {
        30
    } else {
        31
    }
}

/// Days from 1970-01-01 to the first day of year `y` (`y >= 1970`).
pub open spec fn days_before_year(y: nat) -> nat
    decreases y,
{
    if y <= 1970 {
        0
    } else {
        days_before_year((y - 1) as nat) + year_length((y - 1) as nat)
    }
}

/// Days from the first day of year `y` to the first day of month `m`.
pub open spec fn days_before_month(y: nat, m: nat) -> nat
    decreases m,
{
    if m <= 1 {
        0
    } else {
        days_before_month(y, (m - 1) as nat) + month_length(y, (m - 1) as nat)
    }
}

/// `y-m-d` is a valid date from 1970 on, and it is day number `days`
/// counted from 1970-01-01 (day 0).
pub open spec fn is_calendar_date(days: nat, y: nat, m: nat, d: nat) -> bool {
    &&& 1970 <= y
    &&& 1 <= m <= 12
    &&& 1 <= d <= month_length(y, m)
    &&& days == days_before_year(y) + days_before_month(y, m) + (d - 1)
}

/// The date (year, month, day) of day number `days` since 1970-01-01.
pub open spec fn calendar_date(days: nat) -> (nat, nat, nat) {
    choose|t: (nat, nat, nat)| is_calendar_date(days, t.0, t.1, t.2)
}

/// The twelve months fill the year exactly.
pub proof fn lemma_months_fill_year(y: nat)
    ensures
        days_before_month(y, 13) == year_length(y),
{
    reveal_with_fuel(days_before_month, 13);
}

/// The start of a month lies after the end of every earlier month.
pub proof fn lemma_days_before_month_increasing(y: nat, m1: nat, m2: nat)
    requires
        1 <= m1 < m2,
    ensures
        days_before_month(y, m1) + month_length(y, m1) <= days_before_month(y, m2),
    decreases m2,
{
    if m2 > m1 + 1 {
        lemma_days_before_month_increasing(y, m1, (m2 - 1) as nat);
    }
}

/// The start of a year lies after the end of every earlier year.
pub proof fn lemma_days_before_year_increasing(y1: nat, y2: nat)
    requires
        1970 <= y1 < y2,
    ensures
        days_before_year(y1) + year_length(y1) <= days_before_year(y2),
    decreases y2,
{
    if y2 > y1 + 1 {
        lemma_days_before_year_increasing(y1, (y2 - 1) as nat);
    }
}

/// The day offset of a valid date within its year is below the year's length.
pub proof fn lemma_offset_within_year(y: nat, m: nat, d: nat)
    requires
        1 <= m <= 12,
        1 <= d <= month_length(y, m),
    ensures
        days_before_month(y, m) + (d - 1) < year_length(y),
{
    lemma_months_fill_year(y);
    if m < 12 {
        lemma_days_before_month_increasing(y, m, 13);
    }
}

/// A day number has at most one date.
pub proof fn lemma_calendar_date_unique(days: nat, y1: nat, m1: nat, d1: nat, y2: nat, m2: nat, d2: nat)
    requires
        is_calendar_date(days, y1, m1, d1),
        is_calendar_date(days, y2, m2, d2),
    ensures
        y1 == y2 && m1 == m2 && d1 == d2,
{
    lemma_offset_within_year(y1, m1, d1);
    lemma_offset_within_year(y2, m2, d2);
    if y1 < y2 {
        lemma_days_before_year_increasing(y1, y2);
    } else if y2 < y1 {
        lemma_days_before_year_increasing(y2, y1);
    } else {
        if m1 < m2 {
            lemma_days_before_month_increasing(y1, m1, m2);
        } else if m2 < m1 {
            lemma_days_before_month_increasing(y1, m2, m1);
        }
    }
}

proof fn lemma_year_containing(days: nat, y: nat) -> (r: nat)
    requires
        1970 <= y,
        days_before_year(y) <= days,
    ensures
        1970 <= r,
        days_before_year(r) <= days < days_before_year(r) + year_length(r),
    decreases days - days_before_year(y),
{
    if days < days_before_year(y) + year_length(y) {
        y
    } else {
        lemma_year_containing(days, y + 1)
    }
}

proof fn lemma_month_containing(y: nat, offset: nat, m: nat) -> (r: nat)
    requires
        1 <= m <= 12,
        days_before_month(y, m) <= offset < year_length(y),
    ensures
        1 <= r <= 12,
        days_before_month(y, r) <= offset < days_before_month(y, r) + month_length(y, r),
    decreases 12 - m,
{
    lemma_months_fill_year(y);
    if offset < days_before_month(y, m) + month_length(y, m) {
        m
    } else {
        if m == 12 {
            assert(days_before_month(y, 13) == days_before_month(y, 12) + month_length(y, 12));
        }
        lemma_month_containing(y, offset, m + 1)
    }
}

/// Every day number from 1970-01-01 on has a date, and `calendar_date`
/// gives it.
pub proof fn lemma_calendar_date_exists(days: nat)
    ensures
        is_calendar_date(days, calendar_date(days).0, calendar_date(days).1, calendar_date(days).2),
{
    let y = lemma_year_containing(days, 1970);
    let offset = (days - days_before_year(y)) as nat;
    let m = lemma_month_containing(y, offset, 1);
    let d = (offset - days_before_month(y, m) + 1) as nat;
    assert(is_calendar_date(days, y, m, d));
    let t = (y, m, d);
    assert(is_calendar_date(days, t.0, t.1, t.2));
}

/// A later day number has a later date.
pub proof fn lemma_calendar_date_order(n1: nat, y1: nat, m1: nat, d1: nat, n2: nat, y2: nat, m2: nat, d2: nat)
    requires
        is_calendar_date(n1, y1, m1, d1),
        is_calendar_date(n2, y2, m2, d2),
        n1 < n2,
    ensures
        y1 < y2 || (y1 == y2 && (m1 < m2 || (m1 == m2 && d1 < d2))),
{
    lemma_offset_within_year(y1, m1, d1);
    lemma_offset_within_year(y2, m2, d2);
    if y2 < y1 {
        lemma_days_before_year_increasing(y2, y1);
    } else if y1 == y2 && m2 < m1 {
        lemma_days_before_month_increasing(y1, m2, m1);
    }
}

/// Leap years counted by `x`'s multiples of 4, 100 and 400.
spec fn leap_count(x: int) -> int {
    x / 4 - x / 100 + x / 400
}

/// One year more adds one leap day exactly when that year is a leap year.
proof fn lemma_leap_count_step(x: int)
    requires
        x >= 1,
    ensures
        year_length(x as nat) == 365 + leap_count(x) - leap_count(x - 1),
{
    assert(x / 4 - (x - 1) / 4 == if x % 4 == 0 { 1int } else { 0int });
    assert(x / 100 - (x - 1) / 100 == if x % 100 == 0 { 1int } else { 0int });
    assert(x / 400 - (x - 1) / 400 == if x % 400 == 0 { 1int } else { 0int });
    assert(x % 400 == 0 ==> x % 100 == 0);
    assert(x % 100 == 0 ==> x % 4 == 0);
}

/// The days before a year: 365 a year, plus the leap days.
proof fn lemma_days_before_year_closed(y: nat)
    requires
        y >= 1970,
    ensures
        days_before_year(y) == 365 * (y - 1970) + leap_count(y - 1) - leap_count(1969),
    decreases y,
{
    if y > 1970 {
        lemma_days_before_year_closed((y - 1) as nat);
        lemma_leap_count_step(y - 1);
    }
}

/// The day numbers before 10000-01-01 have years of at most four digits.
pub proof fn lemma_four_digit_years(n: nat, y: nat, m: nat, d: nat)
    requires
        is_calendar_date(n, y, m, d),
        n < 2932897,
    ensures
        y <= 9999,
{
    lemma_days_before_year_closed(10000);
    assert(leap_count(9999) == 2424);
    assert(leap_count(1969) == 477);
    if y > 10000 {
        lemma_days_before_year_increasing(10000, y);
    }
}

/// The Gregorian month lengths, January first: thirty days have
/// September, April, June and November; February has 28, or 29 in a leap
/// year; the rest have 31.
pub open spec fn gregorian_month_days(leap: bool) -> Seq<nat> {
    seq![31, if leap { 29 } else { 28 }, 31, 30, 31, 30, 31, 31, 30, 31, 30, 31]
}

/// Every month has its Gregorian length.
pub proof fn lemma_month_lengths(y: nat, m: nat)
    requires
        1 <= m <= 12,
    ensures
        month_length(y, m) == gregorian_month_days(is_leap_year(y))[m - 1],
{
}

/// No date has a day beyond its month's Gregorian length (no September
/// 31st, no February 29th outside leap years).
pub proof fn lemma_dates_within_month(days: nat)
    ensures
        1 <= calendar_date(days).1 <= 12,
        1 <= calendar_date(days).2 <= gregorian_month_days(is_leap_year(calendar_date(days).0))[calendar_date(days).1 - 1],
{
    lemma_calendar_date_exists(days);
    lemma_month_lengths(calendar_date(days).0, calendar_date(days).1);
}

/// Whether `y` is a leap year.
pub fn leap_year(y: u64) -> (b: bool)
    ensures
        b == is_leap_year(y as nat),
{
    (y % 4 == 0 && y % 100 != 0) || y % 400 == 0
}

/// Number of days in year `y`.
pub fn days_in_year(y: u64) -> (n: u64)
    ensures
        n == year_length(y as nat),
{
    if leap_year(y) {
        366
    } else {
        365
    }
}

/// Number of days in month `m` of year `y`.
pub fn days_in_month(y: u64, m: u64) -> (n: u64)
    ensures
        n == month_length(y as nat, m as nat),
{
    if m == 2 {
        if leap_year(y) {
            29
        } else {
            28
        }
    } else if m == 4 || m == 6 || m == 9 || m == 11 {
        30
    } else {
        31
    }
}

/// The date of day number `days` since 1970-01-01, as (year, month, day).
pub fn date_of_day(days: u64) -> (r: (u64, u64, u64))
    ensures
        is_calendar_date(days as nat, r.0 as nat, r.1 as nat, r.2 as nat),
        (r.0 as nat, r.1 as nat, r.2 as nat) == calendar_date(days as nat),
{
    let mut year: u64 = 1970;
    let mut day_count: u64 = days;
    while day_count >= days_in_year(year)
        invariant
            1970 <= year,
            day_count <= days,
            365 * (year - 1970) <= days - day_count,
            days_before_year(year as nat) + day_count == days,
        decreases day_count,
    {
        day_count = day_count - days_in_year(year);
        year = year + 1;
    }
    let ghost offset = day_count;
    let mut month: u64 = 1;
    while day_count >= days_in_month(year, month)
        invariant
            1 <= month <= 12,
            offset < year_length(year as nat),
            days_before_month(year as nat, month as nat) + day_count == offset,
        decreases 12 - month,
    {
        proof {
            if month == 12 {
                lemma_months_fill_year(year as nat);
                assert(days_before_month(year as nat, 13) == days_before_month(year as nat, 12)
                    + month_length(year as nat, 12));
            }
        }
        day_count = day_count - days_in_month(year, month);
        month = month + 1;
    }
    let day = day_count + 1;
    proof {
        assert(is_calendar_date(days as nat, year as nat, month as nat, day as nat));
        lemma_calendar_date_exists(days as nat);
        let t = calendar_date(days as nat);
        lemma_calendar_date_unique(days as nat, year as nat, month as nat, day as nat, t.0, t.1, t.2);
    }
    (year, month, day)
}

} // verus!
