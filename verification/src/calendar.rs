//! Days and dates.

use vstd::prelude::*;

verus! {

pub open spec fn is_leap(year: int) -> bool {
    year % 4 == 0 && (year % 100 != 0 || year % 400 == 0)
}

/// The days of a month.
pub open spec fn month_days(year: int, month: int) -> int {
    if month == 2 {
        if is_leap(year) {
            29
        } else {
            28
        }
    } else if month == 4 || month == 6 || month == 9 || month == 11 {
        30
    } else {
        31
    }
}

/// The days of a year before a month begins.
pub open spec fn days_before(year: int, month: int) -> int
    decreases month,
{
    if month <= 1 {
        0
    } else {
        days_before(year, month - 1) + month_days(year, month - 1)
    }
}

/// The days from the first day of the year 0 to the first day of a year.
pub open spec fn year_start(year: int) -> int {
    365 * year + (year + 3) / 4 - (year + 99) / 100 + (year + 399) / 400
}

/// The days from the first of January 1970 to a date.
pub open spec fn day_number(year: int, month: int, day: int) -> int {
    year_start(year) + days_before(year, month) + day - 1 - 719528
}

/// Whether a date stands in the calendar.
pub open spec fn is_date(year: int, month: int, day: int) -> bool {
    1 <= month <= 12 && 1 <= day <= month_days(year, month)
}

/// A year has as many days as its months.
pub proof fn lemma_year_days(year: int)
    ensures
        days_before(year, 13) == 365 + (if is_leap(year) {
            1int
        } else {
            0int
        }),
        year_start(year + 1) == year_start(year) + days_before(year, 13),
{
    reveal_with_fuel(days_before, 14);
}

proof fn lemma_days_before(year: int)
    ensures
        days_before(year, 1) == 0,
        days_before(year, 2) == 31,
        ({
            let f = month_days(year, 2);
            &&& days_before(year, 3) == 31 + f
            &&& days_before(year, 4) == 62 + f
            &&& days_before(year, 5) == 92 + f
            &&& days_before(year, 6) == 123 + f
            &&& days_before(year, 7) == 153 + f
            &&& days_before(year, 8) == 184 + f
            &&& days_before(year, 9) == 215 + f
            &&& days_before(year, 10) == 245 + f
            &&& days_before(year, 11) == 276 + f
            &&& days_before(year, 12) == 306 + f
        }),
{
    reveal_with_fuel(days_before, 14);
}

/// The year of an era of 400 years that a day of it falls in; years begin in
/// March.
proof fn lemma_year_of_era(doe: int, yoe: int)
    requires
        0 <= doe < 146097,
        yoe == (doe - doe / 1460 + doe / 36524 - doe / 146096) / 365,
    ensures
        0 <= yoe < 400,
        365 * yoe + yoe / 4 - yoe / 100 <= doe,
        yoe < 399 ==> doe < 365 * (yoe + 1) + (yoe + 1) / 4 - (yoe + 1) / 100,
        doe - (365 * yoe + yoe / 4 - yoe / 100) <= 365,
{
    let c = doe / 36524;
    let q = doe / 1460;
    let l = doe / 146096;
    assert(0 <= c <= 4);
    assert(l == 0 || l == 1);
    assert(l == 1 ==> doe == 146096);
    let h = yoe / 100;
    let f = yoe / 4;
    assert(0 <= yoe < 400);
}

/// An era of 400 years has 146097 days.
proof fn lemma_era(year: int, era: int)
    ensures
        year_start(year + 400 * era) == year_start(year) + 146097 * era,
        is_leap(year + 400 * era) == is_leap(year),
{
    let y = year + 400 * era;
    assert((y + 3) / 4 == (year + 3) / 4 + 100 * era);
    assert((y + 99) / 100 == (year + 99) / 100 + 4 * era);
    assert((y + 399) / 400 == (year + 399) / 400 + era);
    assert(y % 4 == year % 4);
    assert(y % 100 == year % 100);
    assert(y % 400 == year % 400);
}

/// The first of March of a year of an era.
proof fn lemma_march(yoe: int)
    requires
        0 <= yoe < 400,
    ensures
        year_start(yoe) + 31 + month_days(yoe, 2) == 365 * yoe + yoe / 4 - yoe / 100 + 60,
        year_start(yoe + 1) == 365 * yoe + yoe / 4 - yoe / 100 + 60 + 306,
{
    lemma_year_days(yoe);
    lemma_days_before(yoe);
    let h = yoe / 100;
    let f = yoe / 4;
    assert(yoe == 4 * f + yoe % 4);
    assert(yoe == 100 * h + yoe % 100);
    assert(0 <= h < 4);
    if yoe == 0 {
    } else {
        assert((yoe + 399) / 400 == 1);
        if yoe % 4 == 0 {
            assert((yoe + 3) / 4 == f);
        } else {
            assert((yoe + 3) / 4 == f + 1);
        }
        if yoe % 100 == 0 {
            assert((yoe + 99) / 100 == h);
            assert(yoe % 4 == 0);
        } else {
            assert((yoe + 99) / 100 == h + 1);
        }
        assert(yoe % 400 == yoe);
    }
    assert(days_before(yoe, 13) == days_before(yoe, 12) + month_days(yoe, 12)) by {
        reveal_with_fuel(days_before, 2);
    }
}

/// A day whose year begins in March is followed by at most a leap day.
proof fn lemma_last_day(doe: int, yoe: int)
    requires
        0 <= doe < 146097,
        yoe == (doe - doe / 1460 + doe / 36524 - doe / 146096) / 365,
        doe - (365 * yoe + yoe / 4 - yoe / 100) == 365,
    ensures
        is_leap(yoe + 1),
{
    lemma_year_of_era(doe, yoe);
    if yoe < 399 {
        let y = yoe + 1;
        assert(y / 4 - y / 100 - yoe / 4 + yoe / 100 >= 1);
        if y % 4 != 0 {
            assert(y / 4 == yoe / 4);
        } else {
            assert(y / 4 == yoe / 4 + 1);
            if y % 100 == 0 {
                assert(y / 100 == yoe / 100 + 1);
            }
        }
    }
}

/// The date that a day number is given by the year of its era, the day of
/// that year and the month, all counted from March.
proof fn lemma_date(era: int, doe: int, yoe: int, doy: int, mp: int)
    requires
        0 <= doe < 146097,
        yoe == (doe - doe / 1460 + doe / 36524 - doe / 146096) / 365,
        doy == doe - (365 * yoe + yoe / 4 - yoe / 100),
        mp == (5 * doy + 2) / 153,
    ensures
        0 <= yoe < 400,
        0 <= doy <= 365,
        0 <= mp < 12,
        ({
            let d = doy - (153 * mp + 2) / 5 + 1;
            let m = if mp < 10 {
                mp + 3
            } else {
                mp - 9
            };
            let y = yoe + 400 * era + (if m <= 2 {
                1int
            } else {
                0int
            });
            &&& is_date(y, m, d)
            &&& day_number(y, m, d) == era * 146097 + doe - 719468
        }),
{
    lemma_year_of_era(doe, yoe);
    lemma_march(yoe);
    lemma_era(yoe, era);
    lemma_era(yoe + 1, era);
    if doy == 365 {
        lemma_last_day(doe, yoe);
    }
    let d = doy - (153 * mp + 2) / 5 + 1;
    let m = if mp < 10 {
        mp + 3
    } else {
        mp - 9
    };
    let y = yoe + 400 * era + (if m <= 2 {
        1int
    } else {
        0int
    });
    lemma_days_before(y);
    assert(0 <= mp < 12);
    if mp == 0 {
    } else if mp == 1 {
    } else if mp == 2 {
    } else if mp == 3 {
    } else if mp == 4 {
    } else if mp == 5 {
    } else if mp == 6 {
    } else if mp == 7 {
    } else if mp == 8 {
    } else if mp == 9 {
    } else if mp == 10 {
    } else {
        assert(mp == 11);
    }
}

/// Finds the date of a day, counted from the first of January 1970.
pub fn civil_from_days(days: i64) -> (r: (i64, u32, u32))
    requires
        -200_000_000_000_000 <= days <= 200_000_000_000_000,
    ensures
        is_date(r.0 as int, r.1 as int, r.2 as int),
        day_number(r.0 as int, r.1 as int, r.2 as int) == days,
        -1_000_000_000_000 < r.0 < 1_000_000_000_000,
{
    let z: i64 = days + 719_468;
    let shifted: u64 = (z + 146_097 * 2_000_000_000) as u64;
    let doe: u64 = shifted % 146_097;
    let era: i64 = (shifted / 146_097) as i64 - 2_000_000_000;
    proof {
        assert(z == 146_097 * era + doe);
    }
    let yoe: u64 = (doe - doe / 1460 + doe / 36_524 - doe / 146_096) / 365;
    proof {
        lemma_year_of_era(doe as int, yoe as int);
    }
    let doy: u64 = doe - (365 * yoe + yoe / 4 - yoe / 100);
    let mp: u64 = (5 * doy + 2) / 153;
    proof {
        lemma_date(era as int, doe as int, yoe as int, doy as int, mp as int);
    }
    let day: u32 = (doy + 1 - (153 * mp + 2) / 5) as u32;
    let month: u32 = if mp < 10 {
        (mp + 3) as u32
    } else {
        (mp - 9) as u32
    };
    let year: i64 = yoe as i64 + era * 400 + (if month <= 2 {
        1
    } else {
        0
    });
    (year, month, day)
}

/// A date has one day number: later dates have greater ones.
pub proof fn lemma_dates_ascend(y1: int, m1: int, d1: int, y2: int, m2: int, d2: int)
    requires
        is_date(y1, m1, d1),
        is_date(y2, m2, d2),
        y1 < y2 || y1 == y2 && (m1 < m2 || m1 == m2 && d1 < d2),
    ensures
        day_number(y1, m1, d1) < day_number(y2, m2, d2),
{
    lemma_days_before(y1);
    lemma_days_before(y2);
    if y1 < y2 {
        lemma_years_ascend(y1, y2);
        lemma_year_days(y1);
        assert(days_before(y1, 13) == days_before(y1, 12) + 31) by {
            reveal_with_fuel(days_before, 2);
        }
    }
}

proof fn lemma_years_ascend(a: int, b: int)
    requires
        a < b,
    ensures
        year_start(a + 1) <= year_start(b),
    decreases b - a,
{
    if a + 1 < b {
        lemma_years_ascend(a, b - 1);
        lemma_year_days(b - 1);
    }
}

} // verus!
