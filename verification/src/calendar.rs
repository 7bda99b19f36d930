//! The proleptic Gregorian calendar.

use vstd::arithmetic::div_mod::{
    lemma_fundamental_div_mod, lemma_fundamental_div_mod_converse, lemma_mod_bound,
};
use vstd::prelude::*;

verus! {

pub open spec fn is_leap(y: int) -> bool {
    y % 4 == 0 && (y % 100 != 0 || y % 400 == 0)
}

/// The leap years from year 1 up to `y`; fewer than none before year 1.
pub open spec fn leap_years(y: int) -> int {
    y / 4 - y / 100 + y / 400
}

pub open spec fn month_days(y: int, m: int) -> int {
    if m == 2 {
        if is_leap(y) {
            29
        } else {
            28
        }
    } else if m == 4 || m == 6 || m == 9 || m == 11 {
        30
    } else {
        31
    }
}

/// The days of the year before month `m`.
pub open spec fn days_before(y: int, m: int) -> int
    decreases m,
{
    if m <= 1 {
        0
    } else {
        days_before(y, m - 1) + month_days(y, m - 1)
    }
}

/// A day of the proleptic Gregorian calendar.
pub open spec fn is_date(y: int, m: int, d: int) -> bool {
    1 <= m <= 12 && 1 <= d <= month_days(y, m)
}

/// The days from 1970-01-01 to a date.
pub open spec fn day_number(y: int, m: int, d: int) -> int {
    365 * (y - 1970) + leap_years(y - 1) - leap_years(1969) + days_before(y, m) + d - 1
}

/// The quotient, rounded down, and the remainder of a division.
pub fn floor_div(a: i64, b: i64) -> (r: (i64, i64))
    requires
        b > 0,
    ensures
        r.0 == a as int / b as int,
        r.1 == a as int % b as int,
{
    if a >= 0 {
        (a / b, a % b)
    } else {
        let n: i64 = -(a + 1);
        let q: i64 = -(n / b) - 1;
        let m: i64 = b - 1 - n % b;
        proof {
            let x = n as int / b as int;
            let y = n as int % b as int;
            assert(n == x * b + y) by (nonlinear_arith)
                requires
                    x == n as int / b as int,
                    y == n as int % b as int,
                    b > 0,
            ;
            assert(a as int / b as int == -x - 1 && a as int % b as int == b - 1 - y)
                by (nonlinear_arith)
                requires
                    a == -n - 1,
                    n == x * b + y,
                    0 <= y < b,
                    b > 0,
            ;
        }
        (q, m)
    }
}

/// The year of a 400-year era that starts on 1 March, by its day.
spec fn era_year(doe: int) -> int {
    (doe - doe / 1460 + doe / 36524 - doe / 146096) / 365
}

/// The days of an era before one of its years.
spec fn era_days(yoe: int) -> int {
    365 * yoe + yoe / 4 - yoe / 100
}

proof fn era_year_is_right(doe: int)
    requires
        0 <= doe < 146097,
    ensures
        0 <= era_year(doe) < 400,
        era_days(era_year(doe)) <= doe,
        era_year(doe) < 399 ==> doe < era_days(era_year(doe) + 1),
{
    let b = doe / 36524;
    assert(b == 0 || b == 1 || b == 2 || b == 3 || b == 4);
}

/// Days since 1970-01-01 to the date (Howard Hinnant's algorithm: years that
/// start on 1 March, in eras of 400 years).
pub fn civil_from_days(z: i64) -> (r: (i64, u32, u32))
    requires
        z <= i64::MAX - 719468,
    ensures
        is_date(r.0 as int, r.1 as int, r.2 as int),
        day_number(r.0 as int, r.1 as int, r.2 as int) == z,
{
    let (era, doe) = floor_div(z + 719468, 146097);
    proof {
        era_year_is_right(doe as int);
    }
    let yoe: i64 = (doe - doe / 1460 + doe / 36524 - doe / 146096) / 365;
    let y: i64 = yoe + era * 400;
    let doy: i64 = doe - (365 * yoe + yoe / 4 - yoe / 100);
    assert(0 <= doy <= 365);
    let mp: i64 = (5 * doy + 2) / 153;
    let d: i64 = doy - (153 * mp + 2) / 5 + 1;
    let m: i64 = if mp < 10 {
        mp + 3
    } else {
        mp - 9
    };
    let year: i64 = if m <= 2 {
        y + 1
    } else {
        y
    };
    proof {
        era_date_is_right(era as int, yoe as int, doy as int);
    }
    (year, m as u32, d as u32)
}

/// One number more is one multiple of `n` more, or none.
proof fn multiples_step(y: int, n: int)
    requires
        n > 1,
    ensures
        y / n == (y - 1) / n + if y % n == 0 {
            1int
        } else {
            0int
        },
{
    lemma_fundamental_div_mod(y, n);
    let q = y / n;
    let r = y % n;
    assert(0 <= r < n) by {
        lemma_mod_bound(y, n);
    }
    if r == 0 {
        assert((q - 1) * n == n * q - n) by (nonlinear_arith);
        lemma_fundamental_div_mod_converse(y - 1, n, q - 1, n - 1);
    } else {
        assert(q * n == n * q) by (nonlinear_arith);
        lemma_fundamental_div_mod_converse(y - 1, n, q, r - 1);
    }
}

proof fn multiples_nest(y: int)
    ensures
        y % 400 == 0 ==> y % 100 == 0,
        y % 100 == 0 ==> y % 4 == 0,
{
    if y % 400 == 0 {
        lemma_fundamental_div_mod(y, 400);
        lemma_fundamental_div_mod_converse(y, 100, 4 * (y / 400), 0);
    }
    if y % 100 == 0 {
        lemma_fundamental_div_mod(y, 100);
        lemma_fundamental_div_mod_converse(y, 4, 25 * (y / 100), 0);
    }
}

/// One year more is one leap year more, or none.
pub(crate) proof fn leap_years_step(y: int)
    ensures
        leap_years(y) == leap_years(y - 1) + if is_leap(y) {
            1int
        } else {
            0int
        },
{
    multiples_step(y, 4);
    multiples_step(y, 100);
    multiples_step(y, 400);
    multiples_nest(y);
}

/// The first day of a year that starts on 1 March.
proof fn march_first(era: int, yoe: int)
    requires
        0 <= yoe < 400,
    ensures
        day_number(yoe + era * 400, 3, 1) == era * 146097 + era_days(yoe) - 719468,
{
    let y = yoe + era * 400;
    leap_years_step(y);
    assert(y / 4 == yoe / 4 + era * 100);
    assert(y / 100 == yoe / 100 + era * 4);
    assert(y / 400 == era);
    assert(leap_years(1969) == 477);
    assert(days_before(y, 3) == 59 + if is_leap(y) {
        1int
    } else {
        0int
    }) by {
        reveal_with_fuel(days_before, 4);
    }
}

/// The 366th day of a year that starts on 1 March is a leap day.
proof fn last_day_is_leap(era: int, yoe: int)
    requires
        0 <= yoe < 400,
        yoe < 399 ==> era_days(yoe) + 365 < era_days(yoe + 1),
    ensures
        is_leap(yoe + era * 400 + 1),
{
    let next = yoe + era * 400 + 1;
    vstd::arithmetic::div_mod::lemma_mod_multiples_vanish(era * 100, yoe + 1, 4);
    vstd::arithmetic::div_mod::lemma_mod_multiples_vanish(era * 4, yoe + 1, 100);
    vstd::arithmetic::div_mod::lemma_mod_multiples_vanish(era, yoe + 1, 400);
    assert(next % 4 == (yoe + 1) % 4);
    assert(next % 100 == (yoe + 1) % 100);
    assert(next % 400 == (yoe + 1) % 400);
    if yoe < 399 {
        long_year(yoe);
    }
}

proof fn long_year(yoe: int)
    requires
        0 <= yoe < 399,
        era_days(yoe) + 365 < era_days(yoe + 1),
    ensures
        (yoe + 1) % 4 == 0,
        (yoe + 1) % 100 != 0,
{
}

/// The months from March on, by the days before them.
proof fn months_from_march(y: int)
    ensures
        forall|mp: int|
            0 <= mp < 10 ==> #[trigger] days_before(y, mp + 3) == days_before(y, 3) + (153 * mp + 2)
                / 5,
        days_before(y, 1) == 0,
        days_before(y, 2) == 31,
        days_before(y, 12) + 31 == days_before(y, 3) + 306,
{
    reveal_with_fuel(days_before, 13);
    assert forall|mp: int| 0 <= mp < 10 implies #[trigger] days_before(y, mp + 3) == days_before(
        y,
        3,
    ) + (153 * mp + 2) / 5 by {
        assert(mp == 0 || mp == 1 || mp == 2 || mp == 3 || mp == 4 || mp == 5 || mp == 6 || mp == 7
            || mp == 8 || mp == 9);
    }
}

/// The day of a year that starts on 1 March is the date that it stands for.
proof fn era_date_is_right(era: int, yoe: int, doy: int)
    requires
        0 <= yoe < 400,
        0 <= doy <= 365,
        yoe < 399 ==> era_days(yoe) + doy < era_days(yoe + 1),
    ensures
        ({
            let mp = (5 * doy + 2) / 153;
            let d = doy - (153 * mp + 2) / 5 + 1;
            let m = if mp < 10 {
                mp + 3
            } else {
                mp - 9
            };
            let y = yoe + era * 400 + if m <= 2 {
                1int
            } else {
                0int
            };
            &&& is_date(y, m, d)
            &&& day_number(y, m, d) == era * 146097 + era_days(yoe) + doy - 719468
        }),
{
    let start = yoe + era * 400;
    let mp = (5 * doy + 2) / 153;
    let d = doy - (153 * mp + 2) / 5 + 1;
    march_first(era, yoe);
    if doy == 365 {
        last_day_is_leap(era, yoe);
    }
    months_from_march(start);
    months_from_march(start + 1);
    leap_years_step(start);
    assert(0 <= mp <= 11);
    if mp < 10 {
        assert(days_before(start, mp + 3) == days_before(start, 3) + (153 * mp + 2) / 5);
        assert(mp == 0 || mp == 1 || mp == 2 || mp == 3 || mp == 4 || mp == 5 || mp == 6 || mp == 7
            || mp == 8 || mp == 9);
    } else {
        assert(days_before(start, 3) == 59 + if is_leap(start) {
            1int
        } else {
            0int
        }) by {
            reveal_with_fuel(days_before, 4);
        }
        assert(mp == 10 || mp == 11);
    }
}

/// Two dates with the same day number are the same date.
pub proof fn day_number_is_unique(y1: int, m1: int, d1: int, y2: int, m2: int, d2: int)
    requires
        is_date(y1, m1, d1),
        is_date(y2, m2, d2),
        day_number(y1, m1, d1) == day_number(y2, m2, d2),
    ensures
        y1 == y2 && m1 == m2 && d1 == d2,
{
    year_has_days(y1, m1, d1);
    year_has_days(y2, m2, d2);
    if y1 < y2 {
        years_are_apart(y1, y2);
    } else if y2 < y1 {
        years_are_apart(y2, y1);
    } else if m1 < m2 {
        months_are_apart(y1, m1, m2);
    } else if m2 < m1 {
        months_are_apart(y1, m2, m1);
    }
}

proof fn months_are_apart(y: int, m1: int, m2: int)
    requires
        1 <= m1 < m2,
    ensures
        days_before(y, m1) + month_days(y, m1) <= days_before(y, m2),
        days_before(y, m1) >= 0,
    decreases m2,
{
    if m1 + 1 < m2 {
        months_are_apart(y, m1, m2 - 1);
    } else if m1 > 1 {
        months_are_apart(y, m1 - 1, m1);
    }
}

proof fn year_has_days(y: int, m: int, d: int)
    requires
        is_date(y, m, d),
    ensures
        1 <= days_before(y, m) + d <= 365 + if is_leap(y) {
            1int
        } else {
            0int
        },
{
    months_are_apart(y, m, 13);
    assert(days_before(y, 13) == 365 + if is_leap(y) {
        1int
    } else {
        0int
    }) by {
        reveal_with_fuel(days_before, 13);
    }
}

proof fn years_are_apart(y1: int, y2: int)
    requires
        y1 < y2,
    ensures
        365 * y1 + leap_years(y1 - 1) + 365 + if is_leap(y1) {
            1int
        } else {
            0int
        } <= 365 * y2 + leap_years(y2 - 1),
    decreases y2 - y1,
{
    leap_years_step(y1);
    if y1 + 1 < y2 {
        years_are_apart(y1, y2 - 1);
        leap_years_step(y2 - 1);
    }
}

} // verus!
