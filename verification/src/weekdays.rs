//! Zeller's congruence follows the calendar: each day falls on the day of the
//! week after the one before it.
use vstd::prelude::*;

use crate::date::{days_in_month_spec, is_leap_spec, valid_ymd, weekday_spec};

verus! {

/// The date after `y-m-d`.
pub open spec fn next_day(y: int, m: int, d: int) -> (int, int, int) {
    if d < days_in_month_spec(y, m) {
        (y, m, d + 1)
    } else if m < 12 {
        (y, m + 1, 1)
    } else {
        (y + 1, 1, 1)
    }
}

/// The year part of Zeller's sum.
spec fn year_part(yy: int) -> int {
    let k = yy % 100;
    let j = yy / 100;
    k + k / 4 + j / 4 + 5 * j
}

/// Zeller's sum.
spec fn zeller_sum(y: int, m: int, d: int) -> int {
    let mm = if m < 3 { m + 12 } else { m };
    let yy = if m < 3 { y - 1 } else { y };
    d + (13 * (mm + 1)) / 5 + year_part(yy)
}

proof fn lemma_weekday_sum(y: int, m: int, d: int)
    ensures
        weekday_spec(y, m, d) == (zeller_sum(y, m, d) % 7 + 6) % 7,
{
}

/// Stepping back by one moves the quotient by `n` down by one exactly when
/// the remainder was zero.
proof fn lemma_div_step(x: int, n: int)
    requires
        n > 0,
    ensures
        x == n * (x / n) + x % n,
        0 <= x % n < n,
        x / n - (x - 1) / n == if x % n == 0 { 1int } else { 0int },
        (x - 1) % n == if x % n == 0 { n - 1 } else { x % n - 1 },
{
    let q = x / n;
    let r = x % n;
    vstd::arithmetic::div_mod::lemma_fundamental_div_mod(x, n);
    vstd::arithmetic::div_mod::lemma_mod_bound(x, n);
    assert(x == q * n + r) by (nonlinear_arith)
        requires x == n * (x / n) + x % n, q == x / n, r == x % n;
    if r == 0 {
        assert(x - 1 == (q - 1) * n + (n - 1)) by (nonlinear_arith)
            requires x == q * n + r, r == 0;
        vstd::arithmetic::div_mod::lemma_fundamental_div_mod_converse(x - 1, n, q - 1, n - 1);
    } else {
        vstd::arithmetic::div_mod::lemma_fundamental_div_mod_converse(x - 1, n, q, r - 1);
    }
}

/// From one shifted year to the next, the year part moves by one day of the
/// week, two when the new year is a leap year.
proof fn lemma_year_step(y: int)
    ensures
        (year_part(y) - year_part(y - 1) - 1 - if is_leap_spec(y) { 1int } else { 0int }) % 7 == 0,
{
    let j = y / 100;
    let k = y % 100;
    lemma_div_step(y, 100);
    if k != 0 {
        lemma_div_step(k, 4);
        assert(y == 4 * (25 * j + k / 4) + k % 4);
        vstd::arithmetic::div_mod::lemma_fundamental_div_mod_converse(y, 4, 25 * j + k / 4, k % 4);
        assert(is_leap_spec(y) == (k % 4 == 0));
        assert(year_part(y) - year_part(y - 1) == 1 + (k / 4 - (k - 1) / 4));
    } else {
        lemma_div_step(j, 4);
        assert(y == 4 * (25 * j));
        vstd::arithmetic::div_mod::lemma_fundamental_div_mod_converse(y, 4, 25 * j, 0);
        assert(y == 400 * (j / 4) + 100 * (j % 4));
        vstd::arithmetic::div_mod::lemma_fundamental_div_mod_converse(y, 400, j / 4, 100 * (j % 4));
        assert(is_leap_spec(y) == (j % 4 == 0));
        assert(year_part(y) - year_part(y - 1) == (j / 4 - (j - 1) / 4) - 118);
    }
}

/// Zeller's sum moves by one, modulo a week, from each day to the next.
proof fn lemma_sum_step(y: int, m: int, d: int)
    requires
        valid_ymd(y, m, d),
    ensures
        (zeller_sum(next_day(y, m, d).0, next_day(y, m, d).1, next_day(y, m, d).2) - zeller_sum(
            y,
            m,
            d,
        ) - 1) % 7 == 0,
{
    let (y2, m2, d2) = next_day(y, m, d);
    let dim = days_in_month_spec(y, m);
    if d < dim {
        assert(zeller_sum(y2, m2, d2) == zeller_sum(y, m, d) + 1);
    } else if m == 2 {
        lemma_year_step(y);
        assert((13 * (3 + 1)) / 5 == 10);
        assert((13 * (14 + 1)) / 5 == 39);
        assert(zeller_sum(y2, m2, d2) == 1 + 10 + year_part(y));
        assert(zeller_sum(y, m, d) == dim + 39 + year_part(y - 1));
    } else {
        let mm = if m < 3 { m + 12 } else { m };
        let yy = if m < 3 { y - 1 } else { y };
        let mm2 = if m2 < 3 { m2 + 12 } else { m2 };
        let yy2 = if m2 < 3 { y2 - 1 } else { y2 };
        assert(yy2 == yy);
        assert(mm2 == mm + 1);
        let f1 = (13 * (mm + 1)) / 5;
        let f2 = (13 * (mm2 + 1)) / 5;
        assert(zeller_sum(y2, m2, d2) - zeller_sum(y, m, d) == 1 - dim + f2 - f1);
        if mm == 3 {
            assert(f1 == 10 && f2 == 13);
        } else if mm == 4 {
            assert(f1 == 13 && f2 == 15);
        } else if mm == 5 {
            assert(f1 == 15 && f2 == 18);
        } else if mm == 6 {
            assert(f1 == 18 && f2 == 20);
        } else if mm == 7 {
            assert(f1 == 20 && f2 == 23);
        } else if mm == 8 {
            assert(f1 == 23 && f2 == 26);
        } else if mm == 9 {
            assert(f1 == 26 && f2 == 28);
        } else if mm == 10 {
            assert(f1 == 28 && f2 == 31);
        } else if mm == 11 {
            assert(f1 == 31 && f2 == 33);
        } else if mm == 12 {
            assert(f1 == 33 && f2 == 36);
        } else {
            assert(mm == 13);
            assert(f1 == 36 && f2 == 39);
        }
    }
}

proof fn lemma_mod_step(s1: int, s2: int)
    requires
        (s2 - s1 - 1) % 7 == 0,
    ensures
        (s2 % 7 + 6) % 7 == ((s1 % 7 + 6) % 7 + 1) % 7,
{
    let q = (s2 - s1 - 1) / 7;
    assert(s2 == s1 + 1 + 7 * q);
    assert(s2 % 7 == (s1 % 7 + 1) % 7);
}

/// Weekdays follow the calendar: the day after any date falls on the next day
/// of the week, in every year of the proleptic calendar.
pub proof fn lemma_weekday_next(y: int, m: int, d: int)
    requires
        valid_ymd(y, m, d),
    ensures
        weekday_spec(next_day(y, m, d).0, next_day(y, m, d).1, next_day(y, m, d).2) == (weekday_spec(
            y,
            m,
            d,
        ) + 1) % 7,
{
    let (y2, m2, d2) = next_day(y, m, d);
    lemma_weekday_sum(y, m, d);
    lemma_weekday_sum(y2, m2, d2);
    lemma_sum_step(y, m, d);
    let s1 = zeller_sum(y, m, d);
    let s2 = zeller_sum(y2, m2, d2);
    lemma_mod_step(s1, s2);
}

} // verus!
