//! The day count of the proleptic Gregorian calendar grows by one from each day to the next,
//! so that it orders dates as the calendar does.

use vstd::prelude::*;

use crate::zone::{days_from_civil, days_in_month_spec, is_leap_year_spec, valid_date};

verus! {

/// Days from 1 January 1970 to 1 March of year `x`.
pub open spec fn march_first(x: int) -> int {
    let era = x / 400;
    let yoe = x % 400;
    era * 146097 + yoe * 365 + yoe / 4 - yoe / 100 + 306 - 719468
}

/// The days from 1 March of a year to the first of month `m` (March 0, ..., February 11).
pub open spec fn month_offset(m: int) -> int {
    let mp = if m > 2 {
        m - 3
    } else {
        m + 9
    };
    (153 * mp + 2) / 5 - 306
}

proof fn lemma_civil_parts(y: int, m: int, d: int)
    ensures
        days_from_civil(y, m, d) == march_first(if m <= 2 {
            y - 1
        } else {
            y
        }) + month_offset(m) + d - 1,
{
}

/// From 1 March of one year to 1 March of the next: 365 days, or 366 when the next year is a
/// leap year.
proof fn lemma_year_step(x: int)
    ensures
        march_first(x + 1) == march_first(x) + 365 + if is_leap_year_spec(x + 1) {
            1int
        } else {
            0int
        },
{
    let era = x / 400;
    let yoe = x % 400;
    assert(x == era * 400 + yoe);
    if yoe < 399 {
        assert((x + 1) / 400 == era && (x + 1) % 400 == yoe + 1) by {
            assert(x + 1 == era * 400 + (yoe + 1));
            vstd::arithmetic::div_mod::lemma_fundamental_div_mod_converse(x + 1, 400, era, yoe + 1);
        }
        let a = yoe + 1;
        assert((a / 4 - yoe / 4 == 1) == (a % 4 == 0)) by (nonlinear_arith)
            requires
                a == yoe + 1,
                0 <= yoe < 399,
        ;
        assert((a / 100 - yoe / 100 == 1) == (a % 100 == 0)) by (nonlinear_arith)
            requires
                a == yoe + 1,
                0 <= yoe < 399,
        ;
        assert(a / 4 - yoe / 4 == 0 || a / 4 - yoe / 4 == 1) by (nonlinear_arith)
            requires
                a == yoe + 1,
                0 <= yoe,
        ;
        assert(a / 100 - yoe / 100 == 0 || a / 100 - yoe / 100 == 1) by (nonlinear_arith)
            requires
                a == yoe + 1,
                0 <= yoe,
        ;
        assert((x + 1) % 4 == a % 4 && (x + 1) % 100 == a % 100 && (x + 1) % 400 == a) by {
            assert(x + 1 == era * 400 + a);
            vstd::arithmetic::div_mod::lemma_fundamental_div_mod_converse(x + 1, 4, era * 100 + a / 4, a % 4);
            vstd::arithmetic::div_mod::lemma_fundamental_div_mod_converse(x + 1, 100, era * 4 + a / 100, a % 100);
        }
        assert(a % 100 == 0 ==> a % 4 == 0) by (nonlinear_arith)
            requires
                0 < a < 400,
        ;
    } else {
        assert((x + 1) / 400 == era + 1 && (x + 1) % 400 == 0) by {
            assert(x + 1 == (era + 1) * 400 + 0);
            vstd::arithmetic::div_mod::lemma_fundamental_div_mod_converse(x + 1, 400, era + 1, 0);
        }
        assert((x + 1) % 4 == 0 && (x + 1) % 100 == 0) by {
            assert(x + 1 == (era + 1) * 400);
            vstd::arithmetic::div_mod::lemma_fundamental_div_mod_converse(x + 1, 4, (era + 1) * 100, 0);
            vstd::arithmetic::div_mod::lemma_fundamental_div_mod_converse(x + 1, 100, (era + 1) * 4, 0);
        }
    }
}

/// The month after month `m` of year `y`, as (year, month).
pub open spec fn next_month(y: int, m: int) -> (int, int) {
    if m == 12 {
        (y + 1, 1)
    } else {
        (y, m + 1)
    }
}

/// The first of the next month comes the month's length after the first of the month.
proof fn lemma_month_step(y: int, m: int)
    requires
        1 <= m <= 12,
    ensures
        days_from_civil(next_month(y, m).0, next_month(y, m).1, 1) == days_from_civil(y, m, 1)
            + days_in_month_spec(y, m),
{
    let (y1, m1) = next_month(y, m);
    lemma_civil_parts(y, m, 1);
    lemma_civil_parts(y1, m1, 1);
    if m == 2 {
        lemma_year_step(y - 1);
    }
}

/// A month's position counted in months.
pub open spec fn month_index(y: int, m: int) -> int {
    y * 12 + m - 1
}

/// The first of a later month comes at least the earlier month's length after the first of
/// the earlier month.
proof fn lemma_month_starts(y: int, m: int, y2: int, m2: int)
    requires
        1 <= m <= 12,
        1 <= m2 <= 12,
        month_index(y, m) < month_index(y2, m2),
    ensures
        days_from_civil(y2, m2, 1) >= days_from_civil(y, m, 1) + days_in_month_spec(y, m),
    decreases month_index(y2, m2) - month_index(y, m),
{
    let (y1, m1) = next_month(y, m);
    lemma_month_step(y, m);
    if month_index(y1, m1) < month_index(y2, m2) {
        lemma_month_starts(y1, m1, y2, m2);
    } else {
        assert(y1 == y2 && m1 == m2) by (nonlinear_arith)
            requires
                month_index(y1, m1) == month_index(y, m) + 1,
                month_index(y, m) < month_index(y2, m2),
                month_index(y1, m1) >= month_index(y2, m2),
                1 <= m1 <= 12,
                1 <= m2 <= 12,
        ;
    }
}

/// A date that comes before another, year first, has the smaller day count.
pub proof fn lemma_days_strict(y: int, m: int, d: int, y2: int, m2: int, d2: int)
    requires
        valid_date(y, m, d),
        valid_date(y2, m2, d2),
        y < y2 || (y == y2 && m < m2) || (y == y2 && m == m2 && d < d2),
    ensures
        days_from_civil(y, m, d) < days_from_civil(y2, m2, d2),
{
    lemma_civil_parts(y, m, d);
    lemma_civil_parts(y, m, 1);
    lemma_civil_parts(y2, m2, d2);
    lemma_civil_parts(y2, m2, 1);
    if y == y2 && m == m2 {
    } else {
        assert(month_index(y, m) < month_index(y2, m2)) by (nonlinear_arith)
            requires
                y < y2 || (y == y2 && m < m2),
                1 <= m <= 12,
                1 <= m2 <= 12,
        ;
        lemma_month_starts(y, m, y2, m2);
    }
}

} // verus!
