//! Calendar dates and timestamps.

use vstd::prelude::*;

verus! {

/// Whether a year of the Gregorian calendar has a leap day.
pub open spec fn is_leap(year: int) -> bool {
    year % 4 == 0 && (year % 100 != 0 || year % 400 == 0)
}

/// The number of days of a month.
pub open spec fn month_length(year: int, month: int) -> int {
    if month == 2 {
        if is_leap(year) {
            29
        } else {
            28
        }
    } else if month == 4 || month == 6 || month == 9 || month == 11 {
        30
    } else {
        31
    }
}

/// Whether there is such a date.
pub open spec fn is_date(year: int, month: int, day: int) -> bool {
    1 <= month <= 12 && 1 <= day <= month_length(year, month)
}

/// The days between the first day of the year 1 and that of `year`.
pub open spec fn days_before_year(year: int) -> int {
    365 * (year - 1) + (year - 1) / 4 - (year - 1) / 100 + (year - 1) / 400
}

/// The days of a year before the first day of `month`.
pub open spec fn days_before_month(year: int, month: int) -> int
    decreases month,
{
    if month <= 1 {
        0
    } else {
        days_before_month(year, month - 1) + month_length(year, month - 1)
    }
}

/// The days between 1970-01-01 and a date.
pub open spec fn day_number(year: int, month: int, day: int) -> int {
    days_before_year(year) + days_before_month(year, month) + day - 1 - days_before_year(1970)
}

/// The days before each month, month by month.
proof fn lemma_months(year: int)
    ensures
        days_before_month(year, 1) == 0,
        days_before_month(year, 2) == 31,
        days_before_month(year, 3) == 31 + month_length(year, 2),
        days_before_month(year, 4) == 62 + month_length(year, 2),
        days_before_month(year, 5) == 92 + month_length(year, 2),
        days_before_month(year, 6) == 123 + month_length(year, 2),
        days_before_month(year, 7) == 153 + month_length(year, 2),
        days_before_month(year, 8) == 184 + month_length(year, 2),
        days_before_month(year, 9) == 215 + month_length(year, 2),
        days_before_month(year, 10) == 245 + month_length(year, 2),
        days_before_month(year, 11) == 276 + month_length(year, 2),
        days_before_month(year, 12) == 306 + month_length(year, 2),
        days_before_month(year, 13) == 337 + month_length(year, 2),
{
    reveal_with_fuel(days_before_month, 14);
}

/// A year has 365 days, and one more in a leap year.
proof fn lemma_year_length(year: int)
    ensures
        days_before_year(year + 1) - days_before_year(year) == if is_leap(year) {
            366int
        } else {
            365int
        },
{
    let y = year - 1;
    assert(year / 4 - y / 4 == if year % 4 == 0 {
        1int
    } else {
        0int
    });
    assert(year / 100 - y / 100 == if year % 100 == 0 {
        1int
    } else {
        0int
    });
    assert(year / 400 - y / 400 == if year % 400 == 0 {
        1int
    } else {
        0int
    });
    assert(year % 400 == 0 ==> year % 100 == 0);
    assert(year % 100 == 0 ==> year % 4 == 0);
}

/// The last day of a year is before the first day of any later year.
proof fn lemma_years_ascend(a: int, b: int)
    requires
        a <= b,
    ensures
        days_before_year(a) + 365 * (b - a) <= days_before_year(b),
    decreases b - a,
{
    if a < b {
        lemma_years_ascend(a, b - 1);
        lemma_year_length(b - 1);
    }
}

/// Two dates with the same day number are the same date.
pub proof fn law_day_number_is_unique(
    y1: int,
    m1: int,
    d1: int,
    y2: int,
    m2: int,
    d2: int,
)
    requires
        is_date(y1, m1, d1),
        is_date(y2, m2, d2),
        day_number(y1, m1, d1) == day_number(y2, m2, d2),
    ensures
        y1 == y2,
        m1 == m2,
        d1 == d2,
{
    lemma_months(y1);
    lemma_months(y2);
    lemma_year_length(y1);
    lemma_year_length(y2);
    if y1 < y2 {
        lemma_years_ascend(y1 + 1, y2);
    } else if y2 < y1 {
        lemma_years_ascend(y2 + 1, y1);
    }
}

/// Four hundred years that begin with March, and the days in them: the year
/// `100 * c + 4 * q + k` of the era begins after `36524 * c + 1461 * q + 365 *
/// k` days.
proof fn lemma_march_year(era: int, c: int, q: int, k: int)
    requires
        0 <= c <= 3,
        0 <= q <= 24,
        0 <= k <= 3,
    ensures
        ({
            let y = 400 * era + 100 * c + 4 * q + k;
            days_before_year(y + 1) == 146097 * era + 36524 * c + 1461 * q + 365 * k
        }),
{
    let y = 400 * era + 100 * c + 4 * q + k;
    assert(y / 4 == 100 * era + 25 * c + q);
    assert(y / 100 == 4 * era + c);
    assert(y / 400 == era);
}

/// A date that is not before 1970-01-01 has no earlier year.
pub proof fn lemma_after_epoch(year: int, month: int, day: int)
    requires
        is_date(year, month, day),
        day_number(year, month, day) >= 0,
    ensures
        year >= 1970,
{
    if year < 1970 {
        lemma_months(year);
        lemma_year_length(year);
        lemma_years_ascend(year + 1, 1970);
    }
}

/// The era of four hundred years that a day is in, and the day within it.
fn era_of(shifted: i64) -> (r: (i64, i64))
    requires
        i64::MIN + 146096 <= shifted,
    ensures
        0 <= r.1 < 146097,
        shifted == 146097 * r.0 + r.1,
{
    let era: i64 = if shifted >= 0 {
        shifted / 146097
    } else {
        (shifted - 146096) / 146097
    };
    (era, shifted - era * 146097)
}

/// The century, the four years and the year of an era that a day is in, and
/// the day of the year.
fn year_of_era(doe: i64) -> (r: (i64, i64, i64, i64))
    requires
        0 <= doe < 146097,
    ensures
        0 <= r.0 <= 3,
        0 <= r.1 <= 24,
        0 <= r.2 <= 3,
        0 <= r.3 <= 365,
        doe == 36524 * r.0 + 1461 * r.1 + 365 * r.2 + r.3,
        r.3 == 365 ==> r.2 == 3 && (r.1 < 24 || r.0 == 3),
{
    let c: i64 = if doe >= 109572 {
        3
    } else {
        doe / 36524
    };
    let doc: i64 = doe - c * 36524;
    let q: i64 = doc / 1461;
    let doq: i64 = doc - q * 1461;
    let k: i64 = if doq >= 1095 {
        3
    } else {
        doq / 365
    };
    (c, q, k, doq - k * 365)
}

/// The days of a year that begins with March before its month `mp`.
spec fn march_offset(mp: int) -> int {
    (153 * mp + 2) / 5
}

/// The month of a year that begins with March that a day is in, and the day of
/// the month.
fn month_of_year(doy: i64) -> (r: (i64, i64))
    requires
        0 <= doy <= 365,
    ensures
        0 <= r.0 <= 11,
        r.1 >= 1,
        doy == march_offset(r.0 as int) + r.1 - 1,
        doy < march_offset(r.0 + 1),
        r.0 == 11 ==> r.1 == doy - 336,
{
    let mp: i64 = (5 * doy + 2) / 153;
    let day: i64 = doy - (153 * mp + 2) / 5 + 1;
    (mp, day)
}

/// A month counted from March, as a date.
proof fn lemma_march_month(year: int, mp: int, day: int)
    requires
        0 <= mp <= 11,
        day >= 1,
        march_offset(mp) + day - 1 < march_offset(mp + 1),
        mp == 11 ==> day <= month_length(year + 1, 2),
    ensures
        mp < 10 ==> is_date(year, mp + 3, day) && days_before_year(year) + days_before_month(
            year,
            mp + 3,
        ) == days_before_year(year + 1) + march_offset(mp) - 306,
        mp >= 10 ==> is_date(year + 1, mp - 9, day) && days_before_month(year + 1, mp - 9)
            == march_offset(mp) - 306,
{
    lemma_months(year);
    lemma_months(year + 1);
    lemma_year_length(year);
}

/// The date that is `days` days after 1970-01-01.
pub fn days_to_ymd(days: i64) -> (r: (i64, i64, i64))
    requires
        i64::MIN + 146096 <= days + 719468 <= i64::MAX,
    ensures
        is_date(r.0 as int, r.1 as int, r.2 as int),
        day_number(r.0 as int, r.1 as int, r.2 as int) == days,
{
    let (era, doe) = era_of(days + 719468);
    let (c, q, k, doy) = year_of_era(doe);
    let year: i64 = era * 400 + c * 100 + q * 4 + k;
    let (mp, day) = month_of_year(doy);
    proof {
        lemma_march_year(era as int, c as int, q as int, k as int);
        lemma_leap_end(era as int, c as int, q as int, k as int);
        lemma_march_month(year as int, mp as int, day as int);
    }
    if mp < 10 {
        (year, mp + 3, day)
    } else {
        (year + 1, mp - 9, day)
    }
}

/// Which years of an era have a leap day at their end: every fourth, but for
/// the last of a century, but for the last century.
proof fn lemma_leap_end(era: int, c: int, q: int, k: int)
    requires
        0 <= c <= 3,
        0 <= q <= 24,
        0 <= k <= 3,
    ensures
        is_leap(400 * era + 100 * c + 4 * q + k + 1) <==> k == 3 && (q < 24 || c == 3),
{
    let y = 400 * era + 100 * c + 4 * q + k + 1;
    if k < 3 {
        assert(y == 4 * (100 * era + 25 * c + q) + (k + 1));
    } else if q < 24 {
        assert(y == 4 * (100 * era + 25 * c + q + 1));
        assert(y == 100 * (4 * era + c) + 4 * (q + 1));
    } else if c < 3 {
        assert(y == 400 * era + 100 * (c + 1));
        assert(y == 100 * (4 * era + c + 1));
    } else {
        assert(y == 400 * (era + 1));
        assert(y == 4 * (100 * (era + 1)));
    }
}

// ---------------------------------------------------------------------------
// Laws of the calendar
// ---------------------------------------------------------------------------

/// The lengths of the months. February has 29 days exactly in the years that
/// four divides and a hundred does not, and in those that four hundred divides.
pub proof fn law_month_lengths(year: int, month: int)
    requires
        1 <= month <= 12,
    ensures
        seq![1int, 3, 5, 7, 8, 10, 12].contains(month) <==> month_length(year, month) == 31,
        seq![4int, 6, 9, 11].contains(month) <==> month_length(year, month) == 30,
        month == 2 ==> (month_length(year, month) == 29 <==> year % 400 == 0 || (year % 4 == 0
            && year % 100 != 0)),
        month == 2 ==> month_length(year, month) == 28 || month_length(year, month) == 29,
{
    let long = seq![1int, 3, 5, 7, 8, 10, 12];
    let short = seq![4int, 6, 9, 11];
    assert(long[0] == 1 && long[1] == 3 && long[2] == 5 && long[3] == 7 && long[4] == 8 && long[5]
        == 10 && long[6] == 12);
    assert(short[0] == 4 && short[1] == 6 && short[2] == 9 && short[3] == 11);
}

/// The day after a date has the next number, within a month, over the end of a
/// month and over the end of a year; the first day of 1970 has the number zero.
pub proof fn law_days_are_counted_one_by_one(year: int, month: int, day: int)
    requires
        is_date(year, month, day),
    ensures
        day < month_length(year, month) ==> day_number(year, month, day + 1) == day_number(
            year,
            month,
            day,
        ) + 1,
        day == month_length(year, month) && month < 12 ==> day_number(year, month + 1, 1)
            == day_number(year, month, day) + 1,
        day == month_length(year, month) && month == 12 ==> day_number(year + 1, 1, 1)
            == day_number(year, month, day) + 1,
        day_number(1970, 1, 1) == 0,
{
    lemma_months(year);
    lemma_months(year + 1);
    lemma_months(1970);
    lemma_year_length(year);
}

/// A date before the first day of a year has an earlier year.
pub proof fn lemma_before_year(year: int, month: int, day: int, limit: int)
    requires
        is_date(year, month, day),
        day_number(year, month, day) < day_number(limit, 1, 1),
    ensures
        year < limit,
{
    lemma_months(year);
    lemma_months(limit);
    if year >= limit {
        lemma_years_ascend(limit, year);
    }
}

} // verus!
