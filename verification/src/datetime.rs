//! A calendar model with minute resolution.
//!
//! Wall-clock instants are held as plain fields (year, month, day, hour,
//! minute) under a validity invariant, with a day-number/weekday model and
//! the successor operations that calendar carry propagation needs.

use vstd::prelude::*;

verus! {

/// Earliest representable year (the weekday anchor: 1970-01-01 was a Thursday).
pub const MIN_YEAR: u32 = 1970;

/// Latest representable year; mirrors the bounded year range of wall-clock
/// libraries and keeps calendar arithmetic free of overflow.
pub const MAX_YEAR: u32 = 275000;

/// A wall-clock instant, truncated to whole minutes.
#[derive(Clone, Copy, Debug, PartialEq, Eq, Structural)]
pub struct DateTime {
    pub year: u32,
    pub month: u32,
    pub day: u32,
    pub hour: u32,
    pub minute: u32,
}

pub open spec fn spec_is_leap_year(year: u32) -> bool {
    (year % 4 == 0 && year % 100 != 0) || year % 400 == 0
}

pub fn is_leap_year(year: u32) -> (r: bool)
    ensures
        r == spec_is_leap_year(year),
{
    (year % 4 == 0 && year % 100 != 0) || year % 400 == 0
}

/// Number of days in the given month: 31 for {1,3,5,7,8,10,12}, 30 for
/// {4,6,9,11}, and 28 or 29 for February depending on the leap year rule.
pub open spec fn spec_month_length(year: u32, month: u32) -> u32 {
    if month == 2 {
        if spec_is_leap_year(year) {
            29
        } else {
            28
        }
    } else if month == 4 || month == 6 || month == 9 || month == 11 {
        30
    } else {
        31
    }
}

pub fn month_length(year: u32, month: u32) -> (r: u32)
    requires
        1 <= month <= 12,
    ensures
        r == spec_month_length(year, month),
{
    match month {
        1 | 3 | 5 | 7 | 8 | 10 | 12 => 31,
        4 | 6 | 9 | 11 => 30,
        _ => if is_leap_year(year) {
            29
        } else {
            28
        },
    }
}

/// Does the month of the given year reach the given day of month?
pub fn month_has_day(year: u32, month: u32, day: u32) -> (r: bool)
    requires
        1 <= month <= 12,
    ensures
        r == (day <= spec_month_length(year, month)),
{
    month_length(year, month) >= day
}

impl DateTime {
    /// A valid instant: fields in range and the day present in its month.
    pub open spec fn valid(self) -> bool {
        &&& MIN_YEAR <= self.year <= MAX_YEAR
        &&& 1 <= self.month <= 12
        &&& 1 <= self.day <= spec_month_length(self.year, self.month)
        &&& self.hour < 24
        &&& self.minute < 60
    }

    /// Checked constructor: `Some` exactly when the fields form a valid instant.
    pub fn new(year: u32, month: u32, day: u32, hour: u32, minute: u32) -> (r: Option<DateTime>)
        ensures
            r matches Some(d) ==> d == (DateTime { year, month, day, hour, minute }) && d.valid(),
            r is None ==> !(DateTime { year, month, day, hour, minute }).valid(),
    {
        if MIN_YEAR <= year && year <= MAX_YEAR && 1 <= month && month <= 12 && 1 <= day
            && day <= month_length(year, month) && hour < 24 && minute < 60 {
            Some(DateTime { year, month, day, hour, minute })
        } else {
            None
        }
    }
}

/// Days from MIN_YEAR-01-01 to year-01-01.
pub open spec fn days_before_year(year: u32) -> int
    decreases year,
{
    if year <= MIN_YEAR {
        0
    } else {
        days_before_year((year - 1) as u32) + if spec_is_leap_year((year - 1) as u32) {
            366int
        } else {
            365int
        }
    }
}

/// Days from the first of January to the first of the given month.
pub open spec fn days_before_month(year: u32, month: u32) -> int
    decreases month,
{
    if month <= 1 {
        0
    } else {
        days_before_month(year, (month - 1) as u32) + spec_month_length(year, (month - 1) as u32)
    }
}

/// Days since MIN_YEAR-01-01 (which has index 0).
pub open spec fn day_index(d: DateTime) -> int {
    days_before_year(d.year) + days_before_month(d.year, d.month) + d.day - 1
}

/// Minutes since MIN_YEAR-01-01 00:00.
pub open spec fn time_key(d: DateTime) -> int {
    day_index(d) * 1440 + d.hour * 60 + d.minute
}

/// Day of week, Sunday = 0 through Saturday = 6.
pub open spec fn weekday_of(d: DateTime) -> int {
    (day_index(d) + 4) % 7
}

/// Strict lexicographic order on the date part alone.
pub open spec fn date_lt(a: DateTime, b: DateTime) -> bool {
    if a.year != b.year {
        a.year < b.year
    } else if a.month != b.month {
        a.month < b.month
    } else {
        a.day < b.day
    }
}

/// Equal date parts (the time of day may differ).
pub open spec fn date_eq(a: DateTime, b: DateTime) -> bool {
    a.year == b.year && a.month == b.month && a.day == b.day
}

/// Strict chronological order on instants.
pub open spec fn spec_lt(a: DateTime, b: DateTime) -> bool {
    if !date_eq(a, b) {
        date_lt(a, b)
    } else if a.hour != b.hour {
        a.hour < b.hour
    } else {
        a.minute < b.minute
    }
}

pub open spec fn spec_le(a: DateTime, b: DateTime) -> bool {
    spec_lt(a, b) || a == b
}

/// A full year holds 365 or 366 days, as the cumulative month lengths show.
pub proof fn lemma_days_before_month_full(year: u32)
    ensures
        days_before_month(year, 13) == if spec_is_leap_year(year) {
            366int
        } else {
            365int
        },
{
    reveal_with_fuel(days_before_month, 14);
}

pub proof fn lemma_days_before_month_monotone(year: u32, m1: u32, m2: u32)
    requires
        m1 <= m2,
    ensures
        days_before_month(year, m1) <= days_before_month(year, m2),
    decreases m2,
{
    if m1 < m2 {
        lemma_days_before_month_monotone(year, m1, (m2 - 1) as u32);
    }
}

pub proof fn lemma_days_before_year_monotone(y1: u32, y2: u32)
    requires
        MIN_YEAR <= y1 <= y2,
    ensures
        days_before_year(y1) + 365 * (y2 - y1) <= days_before_year(y2) <= days_before_year(y1)
            + 366 * (y2 - y1),
    decreases y2,
{
    if y1 < y2 {
        let y = (y2 - 1) as u32;
        lemma_days_before_year_monotone(y1, y);
        assert(days_before_year(y2) == days_before_year(y) + if spec_is_leap_year(y) {
            366int
        } else {
            365int
        });
        assert(365 * (y2 - y1) == 365 * (y - y1) + 365) by (nonlinear_arith)
            requires y == y2 - 1 && y1 <= y;
        assert(366 * (y2 - y1) == 366 * (y - y1) + 366) by (nonlinear_arith)
            requires y == y2 - 1 && y1 <= y;
    }
}

/// A valid date's day index lies within its year's span of days.
pub proof fn lemma_day_index_range(d: DateTime)
    requires
        d.valid(),
    ensures
        days_before_year(d.year) <= day_index(d),
        day_index(d) < days_before_year(d.year) + if spec_is_leap_year(d.year) {
            366int
        } else {
            365int
        },
        day_index(d) >= 0,
{
    lemma_days_before_month_monotone(d.year, 1, d.month);
    assert(days_before_month(d.year, (d.month + 1) as u32) == days_before_month(d.year, d.month)
        + spec_month_length(d.year, d.month));
    lemma_days_before_month_monotone(d.year, (d.month + 1) as u32, 13);
    lemma_days_before_month_full(d.year);
    lemma_days_before_year_monotone(MIN_YEAR, d.year);
}

/// The date order agrees with the day index: for valid dates, `a` is an
/// earlier date than `b` exactly when its day index is smaller, and the dates
/// are equal exactly when the indices are.
pub proof fn lemma_date_order(a: DateTime, b: DateTime)
    requires
        a.valid(),
        b.valid(),
    ensures
        date_lt(a, b) <==> day_index(a) < day_index(b),
        date_eq(a, b) <==> day_index(a) == day_index(b),
{
    if date_lt(a, b) {
        lemma_date_lt_index(a, b);
    }
    if date_lt(b, a) {
        lemma_date_lt_index(b, a);
    }
}

proof fn lemma_date_lt_index(a: DateTime, b: DateTime)
    requires
        a.valid(),
        b.valid(),
        date_lt(a, b),
    ensures
        day_index(a) < day_index(b),
{
    if a.year < b.year {
        lemma_day_index_range(a);
        lemma_day_index_range(b);
        lemma_days_before_year_monotone((a.year + 1) as u32, b.year);
        assert(days_before_year((a.year + 1) as u32) == days_before_year(a.year)
            + if spec_is_leap_year(a.year) {
                366int
            } else {
                365int
            });
    } else if a.month < b.month {
        assert(days_before_month(a.year, (a.month + 1) as u32) == days_before_month(a.year, a.month)
            + spec_month_length(a.year, a.month));
        lemma_days_before_month_monotone(a.year, (a.month + 1) as u32, b.month);
    }
}

/// The chronological order agrees with the minute count.
pub proof fn lemma_time_order(a: DateTime, b: DateTime)
    requires
        a.valid(),
        b.valid(),
    ensures
        spec_lt(a, b) <==> time_key(a) < time_key(b),
        a == b <==> time_key(a) == time_key(b),
{
    lemma_date_order(a, b);
}

/// The latest valid instant bounds every valid instant's minute count.
pub proof fn lemma_time_key_bounds(d: DateTime)
    requires
        d.valid(),
    ensures
        0 <= time_key(d),
        time_key(d) <= time_key(
            DateTime { year: MAX_YEAR, month: 12, day: 31, hour: 23, minute: 59 },
        ),
{
    let top = DateTime { year: MAX_YEAR, month: 12, day: 31, hour: 23, minute: 59 };
    assert(top.valid());
    lemma_day_index_range(d);
    lemma_time_order(d, top);
}

/// The calendar successor of a day, keeping the time of day.
pub fn next_day(d: &DateTime) -> (r: DateTime)
    requires
        d.valid(),
        d.year < MAX_YEAR || !(d.month == 12 && d.day == 31),
    ensures
        r.valid(),
        day_index(r) == day_index(*d) + 1,
        r == (if d.day < spec_month_length(d.year, d.month) {
            DateTime { day: (d.day + 1) as u32, ..*d }
        } else if d.month < 12 {
            DateTime { month: (d.month + 1) as u32, day: 1, ..*d }
        } else {
            DateTime { year: (d.year + 1) as u32, month: 1, day: 1, ..*d }
        }),
{
    let ml = month_length(d.year, d.month);
    if d.day < ml {
        DateTime { year: d.year, month: d.month, day: d.day + 1, hour: d.hour, minute: d.minute }
    } else if d.month < 12 {
        let r = DateTime { year: d.year, month: d.month + 1, day: 1, hour: d.hour, minute: d.minute };
        proof {
            assert(days_before_month(d.year, (d.month + 1) as u32) == days_before_month(
                d.year,
                d.month,
            ) + spec_month_length(d.year, d.month));
        }
        r
    } else {
        let r = DateTime { year: d.year + 1, month: 1, day: 1, hour: d.hour, minute: d.minute };
        proof {
            assert(days_before_year((d.year + 1) as u32) == days_before_year(d.year)
                + if spec_is_leap_year(d.year) {
                    366int
                } else {
                    365int
                });
            assert(days_before_month(d.year, 13) == days_before_month(d.year, 12)
                + spec_month_length(d.year, 12));
            lemma_days_before_month_full(d.year);
        }
        r
    }
}

/// Advance a small number of days, keeping the time of day.
#[verifier::loop_isolation(false)]
pub fn add_days(d: &DateTime, n: u32) -> (r: DateTime)
    requires
        d.valid(),
        n <= 6,
        d.year < MAX_YEAR,
    ensures
        r.valid(),
        day_index(r) == day_index(*d) + n,
        r.hour == d.hour,
        r.minute == d.minute,
        r.year <= d.year + 1,
{
    let mut cur: DateTime = *d;
    let mut i: u32 = 0;
    while i < n
        invariant
            i <= n,
            cur.valid(),
            day_index(cur) == day_index(*d) + i,
            cur.hour == d.hour,
            cur.minute == d.minute,
            cur.year == d.year || (cur.year == d.year + 1 && cur.month == 1 && cur.day <= 1 + i),
        decreases n - i,
    {
        cur = next_day(&cur);
        i += 1;
    }
    cur
}

/// One hour later, carrying into the next day at midnight; the minute is kept.
pub fn add_one_hour(d: &DateTime) -> (r: DateTime)
    requires
        d.valid(),
        d.year < MAX_YEAR,
    ensures
        r.valid(),
        r.minute == d.minute,
        time_key(r) == time_key(*d) + 60,
        r.year <= d.year + 1,
{
    if d.hour < 23 {
        DateTime { year: d.year, month: d.month, day: d.day, hour: d.hour + 1, minute: d.minute }
    } else {
        let r = next_day(&DateTime { year: d.year, month: d.month, day: d.day, hour: 0, minute: d.minute });
        r
    }
}

/// The first day of the following month at midnight.
pub fn first_of_next_month(d: &DateTime) -> (r: DateTime)
    requires
        d.valid(),
        d.year < MAX_YEAR,
    ensures
        r.valid(),
        r.day == 1,
        r.hour == 0,
        r.minute == 0,
        d.month < 12 ==> r.year == d.year && r.month == d.month + 1,
        d.month == 12 ==> r.year == d.year + 1 && r.month == 1,
    {
    if d.month < 12 {
        DateTime { year: d.year, month: d.month + 1, day: 1, hour: 0, minute: 0 }
    } else {
        DateTime { year: d.year + 1, month: 1, day: 1, hour: 0, minute: 0 }
    }
}

/// One minute later, carrying through hour, day, month and year.
pub fn add_one_minute(d: &DateTime) -> (r: DateTime)
    requires
        d.valid(),
        d.year < MAX_YEAR,
    ensures
        r.valid(),
        time_key(r) == time_key(*d) + 1,
        r.year <= d.year + 1,
{
    if d.minute < 59 {
        DateTime { year: d.year, month: d.month, day: d.day, hour: d.hour, minute: d.minute + 1 }
    } else if d.hour < 23 {
        DateTime { year: d.year, month: d.month, day: d.day, hour: d.hour + 1, minute: 0 }
    } else {
        let r = next_day(&DateTime { year: d.year, month: d.month, day: d.day, hour: 0, minute: 0 });
        r
    }
}

/// Day of week of a valid instant, Sunday = 0 through Saturday = 6.
#[verifier::loop_isolation(false)]
pub fn day_of_week(d: &DateTime) -> (r: u32)
    requires
        d.valid(),
    ensures
        r == weekday_of(*d),
        r < 7,
{
    let mut y: u32 = MIN_YEAR;
    let mut days: u64 = 0;
    while y < d.year
        invariant
            MIN_YEAR <= y <= d.year,
            days == days_before_year(y),
            days <= 366 * (y - MIN_YEAR),
        decreases d.year - y,
    {
        days = days + if is_leap_year(y) {
            366
        } else {
            365
        };
        y = y + 1;
    }
    let mut m: u32 = 1;
    while m < d.month
        invariant
            1 <= m <= d.month,
            days == days_before_year(d.year) + days_before_month(d.year, m),
        decreases d.month - m,
    {
        proof {
            lemma_days_before_year_monotone(MIN_YEAR, d.year);
            lemma_days_before_month_monotone(d.year, m, 13);
            lemma_days_before_month_full(d.year);
            lemma_days_before_month_monotone(d.year, 1, m);
            assert(days_before_month(d.year, (m + 1) as u32) == days_before_month(d.year, m)
                + spec_month_length(d.year, m));
        }
        days = days + month_length(d.year, m) as u64;
        m = m + 1;
    }
    proof {
        lemma_day_index_range(*d);
        lemma_days_before_year_monotone(MIN_YEAR, d.year);
        lemma_days_before_month_monotone(d.year, 1, d.month);
        lemma_days_before_month_monotone(d.year, d.month, 13);
        lemma_days_before_month_full(d.year);
    }
    let days_total: u64 = days + (d.day - 1) as u64;
    ((days_total + 4) % 7) as u32
}

} // verus!
