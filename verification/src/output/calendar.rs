//! The civil calendar: days since 1970-01-01 and the dates they fall on.

use vstd::prelude::*;

verus! {

/// Whether `y` is a leap year of the Gregorian calendar.
pub open spec fn is_leap(y: int) -> bool {
    y % 4 == 0 && (y % 100 != 0 || y % 400 == 0)
}

/// The number of days in the year `y`.
pub open spec fn days_in_year(y: int) -> int {
    if is_leap(y) {
        366
    } else {
        365
    }
}

/// The number of days in month `m`, counted from 1, of the year `y`.
pub open spec fn days_in_month(y: int, m: int) -> int {
    if m == 2 {
        if is_leap(y) {
            29
        } else {
            28
        }
    } else if m == 4 || m == 6 || m == 9 || m == 11 {
        30
    } else {
        31
    }
}

/// The number of days of the year `y` that pass before month `m` begins.
pub open spec fn days_before_month(y: int, m: int) -> int
    decreases m,
{
    if m <= 1 {
        0
    } else {
        days_before_month(y, m - 1) + days_in_month(y, m - 1)
    }
}

/// The number of days from 1970-01-01 to the first day of the year `y`,
/// negative for years before 1970.
pub open spec fn days_before_year(y: int) -> int
    decreases
        (if y >= 1970 {
            y - 1970
        } else {
            1970 - y
        }),
{
    if y > 1970 {
        days_before_year(y - 1) + days_in_year(y - 1)
    } else if y < 1970 {
        days_before_year(y + 1) - days_in_year(y)
    } else {
        0
    }
}

/// A year, a month from 1 to 12 and a day of that month from 1.
pub open spec fn valid_date(y: int, m: int, d: int) -> bool {
    1 <= m <= 12 && 1 <= d <= days_in_month(y, m)
}

/// The number of days from 1970-01-01 to the given date.
pub open spec fn day_number(y: int, m: int, d: int) -> int {
    days_before_year(y) + days_before_month(y, m) + d - 1
}

/// Whether the day `days` after 1970-01-01 falls on the given date.
pub open spec fn falls_on(days: int, y: int, m: int, d: int) -> bool {
    valid_date(y, m, d) && day_number(y, m, d) == days
}

/// The number of leap days before the year `y`, up to a constant.
spec fn leap_days(y: int) -> int {
    (y - 1) / 4 - (y - 1) / 100 + (y - 1) / 400
}

/// The closed form of `days_before_year`.
proof fn lemma_days_before_year(y: int)
    ensures
        days_before_year(y) == 365 * (y - 1970) + leap_days(y) - leap_days(1970),
    decreases
        (if y >= 1970 {
            y - 1970
        } else {
            1970 - y
        }),
{
    if y > 1970 {
        lemma_days_before_year(y - 1);
    } else if y < 1970 {
        lemma_days_before_year(y + 1);
    }
}

/// The months' first days, as numbers.
proof fn lemma_month_starts(y: int)
    ensures
        days_before_month(y, 1) == 0,
        days_before_month(y, 2) == 31,
        ({
            let f: int = if is_leap(y) { 29 } else { 28 };
            &&& days_before_month(y, 3) == 31 + f
            &&& days_before_month(y, 4) == 62 + f
            &&& days_before_month(y, 5) == 92 + f
            &&& days_before_month(y, 6) == 123 + f
            &&& days_before_month(y, 7) == 153 + f
            &&& days_before_month(y, 8) == 184 + f
            &&& days_before_month(y, 9) == 215 + f
            &&& days_before_month(y, 10) == 245 + f
            &&& days_before_month(y, 11) == 276 + f
            &&& days_before_month(y, 12) == 306 + f
        }),
{
    reveal_with_fuel(days_before_month, 13);
}

/// The number of days from the first of March of the year 0 of a cycle of 400
/// years to the first of March of its year `y`.
spec fn march_days(y: int) -> int {
    365 * y + y / 4 - y / 100
}

/// Day `doe` of a cycle of 400 years that begin in March lies in the year that
/// the formula gives.
proof fn lemma_year_of_cycle(doe: int, yoe: int)
    requires
        0 <= doe <= 146_096,
        yoe == (doe - doe / 1460 + doe / 36524 - doe / 146_096) / 365,
    ensures
        0 <= yoe <= 399,
        march_days(yoe) <= doe,
        yoe < 399 ==> doe < march_days(yoe + 1),
{
}

/// The leap days of `yoe` years of a cycle and `era` whole cycles.
proof fn lemma_cycle_leaps(yoe: int, era: int)
    requires
        0 <= yoe <= 399,
    ensures
        (yoe + 400 * era) / 4 == yoe / 4 + 100 * era,
        (yoe + 400 * era) / 100 == yoe / 100 + 4 * era,
        (yoe + 400 * era) / 400 == era,
{
}

/// The number of the first of March.
proof fn lemma_first_of_march(yoe: int, era: int)
    requires
        0 <= yoe <= 399,
    ensures
        ({
            let y = yoe + 400 * era;
            day_number(y, 3, 1) == 146_097 * era + march_days(yoe) - 719_468
        }),
{
    let y = yoe + 400 * era;
    lemma_days_before_year(y);
    lemma_month_starts(y);
    lemma_cycle_leaps(yoe, era);
    assert(leap_days(y) + (if is_leap(y) {
        1int
    } else {
        0
    }) == y / 4 - y / 100 + y / 400) by {
        lemma_leap_step(y);
    }
    assert(leap_days(1970) == 477);
}

/// A year adds one leap day when it is a leap year.
proof fn lemma_leap_step(y: int)
    ensures
        leap_days(y) + (if is_leap(y) {
            1int
        } else {
            0
        }) == y / 4 - y / 100 + y / 400,
{
    assert(y / 4 == (y - 1) / 4 + (if y % 4 == 0 { 1int } else { 0 }));
    assert(y / 100 == (y - 1) / 100 + (if y % 100 == 0 { 1int } else { 0 }));
    assert(y / 400 == (y - 1) / 400 + (if y % 400 == 0 { 1int } else { 0 }));
    assert(y % 100 == 0 ==> y % 4 == 0);
    assert(y % 400 == 0 ==> y % 100 == 0);
}

/// The last day of a year that begins in March: it has 366 days when the next
/// February has 29.
proof fn lemma_day_of_year(doe: int, yoe: int, era: int)
    requires
        0 <= doe <= 146_096,
        0 <= yoe <= 399,
        march_days(yoe) <= doe,
        yoe < 399 ==> doe < march_days(yoe + 1),
    ensures
        0 <= doe - march_days(yoe) <= 365,
        doe - march_days(yoe) == 365 ==> is_leap(yoe + 400 * era + 1),
{
    let next = yoe + 1;
    assert((next + 400 * era) % 4 == next % 4);
    assert((next + 400 * era) % 100 == next % 100);
    assert((next + 400 * era) % 400 == next % 400);
    assert(next / 4 == yoe / 4 + (if next % 4 == 0 { 1int } else { 0 }));
    assert(next / 100 == yoe / 100 + (if next % 100 == 0 { 1int } else { 0 }));
    assert(next % 100 == 0 ==> next % 4 == 0);
}

/// Day `doy`, counted from the first of March of the year `y`, is day `d` of
/// the month `mp` places after March.
proof fn lemma_date_in_march_year(y: int, doy: int, mp: int, d: int)
    requires
        0 <= doy <= 365,
        doy == 365 ==> is_leap(y + 1),
        mp == (5 * doy + 2) / 153,
        d == doy - (153 * mp + 2) / 5 + 1,
    ensures
        0 <= mp <= 11,
        mp < 10 ==> falls_on(day_number(y, 3, 1) + doy, y, mp + 3, d),
        mp >= 10 ==> falls_on(day_number(y, 3, 1) + doy, y + 1, mp - 9, d),
{
    lemma_month_starts(y);
    lemma_month_starts(y + 1);
    assert(days_before_year(y + 1) == days_before_year(y) + days_in_year(y)) by {
        if y < 1970 {
            reveal_with_fuel(days_before_year, 2);
        }
    }
    if mp == 0 {
    } else if mp == 1 {
    } else if mp == 2 {
    } else if mp == 3 {
    } else if mp == 4 {
    } else if mp == 5 {
    } else if mp == 6 {
    } else if mp == 7 {
    } else if mp == 8 {
    } else if mp == 9 {
    } else if mp == 10 {
    } else {
        assert(mp == 11);
    }
}

/// The date on which the day `days_since_epoch` after 1970-01-01 falls, as
/// year, month and day. A year outside the range of `i32` keeps its low bits.
pub fn days_to_ymd(days_since_epoch: i64) -> (r: (i32, u32, u32))
    requires
        days_since_epoch <= i64::MAX - 719_468,
    ensures
        exists|y: i64|
            #![trigger falls_on(days_since_epoch as int, y as int, r.1 as int, r.2 as int)]
            falls_on(days_since_epoch as int, y as int, r.1 as int, r.2 as int) && r.0 == y as i32,
{
    // Days since the first of March of the year 0.
    let z: i64 = days_since_epoch + 719_468;
    let era: i64 = if z >= 0 {
        z / 146_097
    } else {
        -((146_096 - z) / 146_097)
    };
    assert(0 <= z - era * 146_097 <= 146_096);
    let doe: u32 = (z - era * 146_097) as u32;
    let yoe: u32 = (doe - doe / 1460 + doe / 36524 - doe / 146_096) / 365;
    proof {
        lemma_year_of_cycle(doe as int, yoe as int);
    }
    let march_year: i64 = (yoe as i64) + era * 400;
    let doy: u32 = doe - (365 * yoe + yoe / 4 - yoe / 100);
    proof {
        lemma_first_of_march(yoe as int, era as int);
        lemma_day_of_year(doe as int, yoe as int, era as int);
    }
    let mp: u32 = (5 * doy + 2) / 153;
    let d: u32 = doy - (153 * mp + 2) / 5 + 1;
    proof {
        lemma_date_in_march_year(march_year as int, doy as int, mp as int, d as int);
    }
    let m: u32 = if mp < 10 {
        mp + 3
    } else {
        mp - 9
    };
    let y: i64 = if m <= 2 {
        march_year + 1
    } else {
        march_year
    };
    let r: (i32, u32, u32) = (y as i32, m, d);
    proof {
        assert(r.0 == y as i32);
        assert(falls_on(days_since_epoch as int, y as int, r.1 as int, r.2 as int));
    }
    r
}

/// The days of a date lie within its year.
proof fn lemma_within_year(y: int, m: int, d: int)
    requires
        valid_date(y, m, d),
    ensures
        days_before_year(y) <= day_number(y, m, d) < days_before_year(y) + days_in_year(y),
{
    lemma_month_starts(y);
}

/// Years come one after the other.
proof fn lemma_years_in_order(y1: int, y2: int)
    requires
        y1 < y2,
    ensures
        days_before_year(y1) + days_in_year(y1) <= days_before_year(y2),
{
    lemma_days_before_year(y1);
    lemma_days_before_year(y2);
    lemma_leap_step(y1);
}

/// No day falls on two dates: the date of a day is unique.
pub proof fn law_date_is_unique(days: int, y1: int, m1: int, d1: int, y2: int, m2: int, d2: int)
    requires
        falls_on(days, y1, m1, d1),
        falls_on(days, y2, m2, d2),
    ensures
        y1 == y2,
        m1 == m2,
        d1 == d2,
{
    lemma_within_year(y1, m1, d1);
    lemma_within_year(y2, m2, d2);
    if y1 < y2 {
        lemma_years_in_order(y1, y2);
    } else if y2 < y1 {
        lemma_years_in_order(y2, y1);
    }
    lemma_month_starts(y1);
}

/// Days are counted from the first of January 1970.
pub proof fn law_epoch()
    ensures
        falls_on(0, 1970, 1, 1),
{
}

/// The next day is the next of the month, or the first of the next month, or the first of
/// January of the next year.
pub proof fn law_next_day(days: int, y: int, m: int, d: int)
    requires
        falls_on(days, y, m, d),
    ensures
        d < days_in_month(y, m) ==> falls_on(days + 1, y, m, d + 1),
        d == days_in_month(y, m) && m < 12 ==> falls_on(days + 1, y, m + 1, 1),
        d == days_in_month(y, m) && m == 12 ==> falls_on(days + 1, y + 1, 1, 1),
{
    lemma_month_starts(y);
    lemma_days_before_year(y);
    lemma_days_before_year(y + 1);
    lemma_leap_step(y);
}

/// April, June, September and November have 30 days, February 28 or in a leap year 29, and
/// every other month has 31. Every fourth year is a leap year, but of the centuries only
/// every fourth.
pub proof fn law_months(y: int, m: int)
    requires
        1 <= m <= 12,
    ensures
        days_in_month(y, m) == 30 <==> m == 4 || m == 6 || m == 9 || m == 11,
        m == 2 ==> days_in_month(y, m) == if y % 4 == 0 && !(y % 100 == 0 && y % 400 != 0) {
            29int
        } else {
            28
        },
        m == 1 || m == 3 || m == 5 || m == 7 || m == 8 || m == 10 || m == 12 ==> days_in_month(y, m)
            == 31,
{
}

} // verus!
