//! The Gregorian to Jalali date conversion and the facts proved about it.

use vstd::arithmetic::div_mod::{
    lemma_div_is_ordered, lemma_div_pos_is_pos, lemma_fundamental_div_mod, lemma_mod_bound, lemma_mod_multiples_vanish, lemma_small_mod,
};
use vstd::prelude::*;

verus! {

/// Number of Gregorian leap years in `[0, y)` (proleptic calendar, floor division).
pub open spec fn leap_days_before(y: int) -> int {
    (y + 3) / 4 - (y + 99) / 100 + (y + 399) / 400
}

/// Days before the first day of month `m` in a common Gregorian year.
pub open spec fn month_start(m: int) -> int {
    if m <= 1 {
        0
    } else if m == 2 {
        31
    } else if m == 3 {
        59
    } else if m == 4 {
        90
    } else if m == 5 {
        120
    } else if m == 6 {
        151
    } else if m == 7 {
        181
    } else if m == 8 {
        212
    } else if m == 9 {
        243
    } else if m == 10 {
        273
    } else if m == 11 {
        304
    } else {
        334
    }
}

/// Running day number of a Gregorian date: one more for each following day.
pub open spec fn gregorian_day_number(y: int, m: int, d: int) -> int {
    365 * y + leap_days_before(if m > 2 { y + 1 } else { y }) + month_start(m) + d
}

/// The day count on which the Jalali split works, anchored at Jalali year -1595.
pub open spec fn jalali_day_count(y: int, m: int, d: int) -> int {
    355666 + gregorian_day_number(y, m, d)
}

pub open spec fn is_gregorian_leap(y: int) -> bool {
    y % 4 == 0 && (y % 100 != 0 || y % 400 == 0)
}

pub open spec fn gregorian_month_length(y: int, m: int) -> int {
    if m == 2 {
        if is_gregorian_leap(y) {
            29
        } else {
            28
        }
    } else if m == 4 || m == 6 || m == 9 || m == 11 {
        30
    } else {
        31
    }
}

pub open spec fn is_valid_gregorian(y: int, m: int, d: int) -> bool {
    1 <= m <= 12 && 1 <= d <= gregorian_month_length(y, m)
}

/// Jalali year and zero-based day of that year for a day count: 33-year
/// cycles of 12053 days, then 4-year groups of 1461 days whose first year
/// has 366 days, then single years of 365 days.
pub open spec fn jalali_year_and_day(days: int) -> (int, int) {
    let d1 = days % 12053;
    let d2 = d1 % 1461;
    let y = -1595 + 33 * (days / 12053) + 4 * (d1 / 1461);
    if d2 > 365 {
        (y + (d2 - 1) / 365, (d2 - 1) % 365)
    } else {
        (y, d2)
    }
}

/// Jalali month and day for a zero-based day of the year: six months of 31
/// days, then months of 30 days.
pub open spec fn jalali_month_and_day(doy: int) -> (int, int) {
    if doy < 186 {
        (1 + doy / 31, 1 + doy % 31)
    } else {
        (7 + (doy - 186) / 30, 1 + (doy - 186) % 30)
    }
}

/// The Jalali (year, month, day) that the conversion gives for a Gregorian
/// (year, month, day).
pub open spec fn jalali_of(y: int, m: int, d: int) -> (int, int, int) {
    let (jy, doy) = jalali_year_and_day(jalali_day_count(y, m, d));
    let (jm, jd) = jalali_month_and_day(doy);
    (jy, jm, jd)
}

/// A Jalali year is a leap year when it opens one of the 4-year groups of its
/// 33-year cycle; the last year of a cycle stands alone and is common.
pub open spec fn is_jalali_leap(y: int) -> bool {
    let r = (y + 1595) % 33;
    r % 4 == 0 && r < 32
}

pub open spec fn jalali_month_length(y: int, m: int) -> int {
    if m <= 6 {
        31
    } else if m <= 11 {
        30
    } else if is_jalali_leap(y) {
        30
    } else {
        29
    }
}

pub open spec fn is_valid_jalali(y: int, m: int, d: int) -> bool {
    1 <= m <= 12 && 1 <= d <= jalali_month_length(y, m)
}

/// `(y1, m1, d1)` is not later than `(y2, m2, d2)`.
pub open spec fn date_le(y1: int, m1: int, d1: int, y2: int, m2: int, d2: int) -> bool {
    y1 < y2 || (y1 == y2 && (m1 < m2 || (m1 == m2 && d1 <= d2)))
}

proof fn lemma_quotient_bounds(a: int, b: int)
    requires
        b > 0,
    ensures
        a >= 0 ==> 0 <= a / b <= a,
        a < 0 ==> a <= a / b < 0,
{
    let q = a / b;
    let r = a % b;
    lemma_fundamental_div_mod(a, b);
    lemma_mod_bound(a, b);
    if a >= 0 {
        assert(0 <= q <= a) by (nonlinear_arith)
            requires b * q + r == a, 0 <= r < b, a >= 0;
    } else {
        assert(a <= q < 0) by (nonlinear_arith)
            requires b * q + r == a, 0 <= r < b, a < 0;
    }
}

proof fn lemma_year_and_day_bounds(days: int)
    ensures
        0 <= jalali_year_and_day(days).1 <= 365,
        jalali_year_and_day(days).1 == 365 ==> is_jalali_leap(jalali_year_and_day(days).0),
{
    let k = days / 12053;
    let d1 = days % 12053;
    let q2 = d1 / 1461;
    let d2 = d1 % 1461;
    lemma_fundamental_div_mod(days, 12053);
    lemma_mod_bound(days, 12053);
    lemma_fundamental_div_mod(d1, 1461);
    lemma_mod_bound(d1, 1461);
    assert(0 <= q2 <= 8);
    assert(q2 == 8 ==> d2 <= 364);
    let (jy, doy) = jalali_year_and_day(days);
    if doy == 365 {
        assert(d2 == 365);
        assert(jy + 1595 == 33 * k + 4 * q2);
        assert(q2 <= 7);
        lemma_mod_multiples_vanish(k, 4 * q2, 33);
        lemma_small_mod(4 * q2 as nat, 33);
    }
}

/// Every Gregorian (year, month, day) within the syntactic ranges converts to
/// a valid Jalali date: the month lies in 1..=12 and the day within that
/// month's length.
pub proof fn lemma_conversion_gives_valid_jalali(y: int, m: int, d: int)
    ensures
        is_valid_jalali(jalali_of(y, m, d).0, jalali_of(y, m, d).1, jalali_of(y, m, d).2),
{
    let days = jalali_day_count(y, m, d);
    lemma_year_and_day_bounds(days);
    let (jy, doy) = jalali_year_and_day(days);
    if doy < 186 {
        lemma_fundamental_div_mod(doy, 31);
        lemma_mod_bound(doy, 31);
    } else {
        lemma_fundamental_div_mod(doy - 186, 30);
        lemma_mod_bound(doy - 186, 30);
    }
}

proof fn lemma_div_step(y: int, k: int)
    requires
        k > 0,
    ensures
        (y + k) / k - (y + k - 1) / k == if y % k == 0 { 1int } else { 0int },
{
    lemma_fundamental_div_mod(y, k);
    lemma_mod_bound(y, k);
    lemma_fundamental_div_mod(y + k, k);
    lemma_mod_bound(y + k, k);
    lemma_fundamental_div_mod(y + k - 1, k);
    lemma_mod_bound(y + k - 1, k);
    let q = y / k;
    let r = y % k;
    assert(k * (q + 1) + r == y + k && k * q + (r + k - 1) == y + k - 1) by (nonlinear_arith)
        requires y == k * q + r;
    lemma_div_plus_multiple(r, q + 1, k);
    lemma_div_plus_multiple(r + k - 1, q, k);
}

proof fn lemma_div_plus_multiple(r: int, q: int, k: int)
    requires
        k > 0,
        0 <= r < 2 * k,
    ensures
        (k * q + r) / k == q + (if r >= k { 1int } else { 0int }),
{
    let t = if r >= k { r - k } else { r };
    let q2 = q + (if r >= k { 1int } else { 0int });
    assert(k * q + r == k * q2 + t) by (nonlinear_arith)
        requires q2 == q + (if r >= k { 1int } else { 0int }), t == (if r >= k { r - k } else { r });
    lemma_mod_multiples_vanish(q2, t, k);
    lemma_small_mod(t as nat, k as nat);
    lemma_fundamental_div_mod(k * q2 + t, k);
    assert(k * ((k * q2 + t) / k) == k * q2);
    lemma_mul_cancel(k, (k * q2 + t) / k, q2);
}

proof fn lemma_mul_cancel(k: int, a: int, b: int)
    requires
        k > 0,
        k * a == k * b,
    ensures
        a == b,
{
    assert(a == b) by (nonlinear_arith)
        requires k > 0, k * a == k * b;
}

/// `leap_days_before` grows by one exactly past a leap year.
pub(crate) proof fn lemma_leap_step(y: int)
    ensures
        leap_days_before(y + 1) == leap_days_before(y) + (if is_gregorian_leap(y) { 1int } else { 0int }),
{
    lemma_div_step(y, 4);
    lemma_div_step(y, 100);
    lemma_div_step(y, 400);
    lemma_fundamental_div_mod(y, 400);
    lemma_mod_bound(y, 400);
    lemma_fundamental_div_mod(y, 100);
    lemma_mod_bound(y, 100);
    lemma_fundamental_div_mod(y, 4);
    lemma_mod_bound(y, 4);
    assert(y % 100 == 0 ==> y % 4 == 0) by {
        if y % 100 == 0 {
            lemma_mod_multiples_vanish(25 * (y / 100), 0, 4);
        }
    }
    assert(y % 400 == 0 ==> y % 100 == 0) by {
        if y % 400 == 0 {
            lemma_mod_multiples_vanish(4 * (y / 400), 0, 100);
        }
    }
}

proof fn lemma_leap_monotone(a: int, b: int)
    requires
        a <= b,
    ensures
        leap_days_before(a) <= leap_days_before(b),
    decreases b - a,
{
    if a < b {
        lemma_leap_step(a);
        lemma_leap_monotone(a + 1, b);
    }
}

proof fn lemma_day_number_year_bounds(y: int, m: int, d: int)
    requires
        is_valid_gregorian(y, m, d),
    ensures
        365 * y + leap_days_before(y) + 1 <= gregorian_day_number(y, m, d),
        gregorian_day_number(y, m, d) <= 365 * y + leap_days_before(y + 1) + 365,
{
    lemma_leap_step(y);
}

/// Gregorian day numbers increase strictly along valid dates.
pub(crate) proof fn lemma_day_number_increasing(y1: int, m1: int, d1: int, y2: int, m2: int, d2: int)
    requires
        is_valid_gregorian(y1, m1, d1),
        is_valid_gregorian(y2, m2, d2),
        date_le(y1, m1, d1, y2, m2, d2),
        !(y1 == y2 && m1 == m2 && d1 == d2),
    ensures
        gregorian_day_number(y1, m1, d1) < gregorian_day_number(y2, m2, d2),
{
    if y1 < y2 {
        lemma_day_number_year_bounds(y1, m1, d1);
        lemma_day_number_year_bounds(y2, m2, d2);
        lemma_leap_monotone(y1 + 1, y2);
    } else {
        lemma_leap_step(y1);
    }
}

proof fn lemma_div_mod_ordered(a: int, b: int, k: int)
    requires
        a <= b,
        k > 0,
    ensures
        a / k <= b / k,
        a / k == b / k ==> a % k <= b % k,
{
    lemma_div_is_ordered(a, b, k);
    lemma_fundamental_div_mod(a, k);
    lemma_fundamental_div_mod(b, k);
}

proof fn lemma_year_within_group(d1: int)
    requires
        0 <= d1 < 12053,
    ensures
        ({
            let q2 = d1 / 1461;
            let d2 = d1 % 1461;
            &&& 0 <= q2 <= 8
            &&& 0 <= d2 < 1461
            &&& q2 == 8 ==> d2 <= 364
            &&& d2 > 365 ==> 1 <= (d2 - 1) / 365 <= 3
        }),
{
    lemma_fundamental_div_mod(d1, 1461);
    lemma_mod_bound(d1, 1461);
    let d2 = d1 % 1461;
    if d2 > 365 {
        lemma_fundamental_div_mod(d2 - 1, 365);
        lemma_mod_bound(d2 - 1, 365);
    }
}

/// Later day counts never give an earlier Jalali (year, day of year).
proof fn lemma_year_and_day_monotone(a: int, b: int)
    requires
        a <= b,
    ensures
        ({
            let (ya, da) = jalali_year_and_day(a);
            let (yb, db) = jalali_year_and_day(b);
            ya < yb || (ya == yb && da <= db)
        }),
{
    lemma_div_mod_ordered(a, b, 12053);
    lemma_mod_bound(a, 12053);
    lemma_mod_bound(b, 12053);
    let a1 = a % 12053;
    let b1 = b % 12053;
    lemma_year_within_group(a1);
    lemma_year_within_group(b1);
    if a / 12053 == b / 12053 {
        lemma_div_mod_ordered(a1, b1, 1461);
        let a2 = a1 % 1461;
        let b2 = b1 % 1461;
        if a1 / 1461 == b1 / 1461 && a2 > 365 {
            lemma_div_mod_ordered(a2 - 1, b2 - 1, 365);
        }
    }
}

/// Later days of a Jalali year never give an earlier (month, day).
proof fn lemma_month_and_day_monotone(a: int, b: int)
    requires
        0 <= a <= b,
    ensures
        ({
            let (ma, da) = jalali_month_and_day(a);
            let (mb, db) = jalali_month_and_day(b);
            ma < mb || (ma == mb && da <= db)
        }),
{
    if b < 186 {
        lemma_div_mod_ordered(a, b, 31);
    } else if a >= 186 {
        lemma_div_mod_ordered(a - 186, b - 186, 30);
    } else {
        lemma_div_is_ordered(a, 185, 31);
        lemma_div_pos_is_pos(b - 186, 30);
    }
}

/// Order is kept: a valid Gregorian date that is not later than another
/// converts to a Jalali date that is not later than the other's.
pub proof fn lemma_conversion_monotonic(y1: int, m1: int, d1: int, y2: int, m2: int, d2: int)
    requires
        is_valid_gregorian(y1, m1, d1),
        is_valid_gregorian(y2, m2, d2),
        date_le(y1, m1, d1, y2, m2, d2),
    ensures
        date_le(
            jalali_of(y1, m1, d1).0,
            jalali_of(y1, m1, d1).1,
            jalali_of(y1, m1, d1).2,
            jalali_of(y2, m2, d2).0,
            jalali_of(y2, m2, d2).1,
            jalali_of(y2, m2, d2).2,
        ),
{
    if !(y1 == y2 && m1 == m2 && d1 == d2) {
        lemma_day_number_increasing(y1, m1, d1, y2, m2, d2);
    }
    let a = jalali_day_count(y1, m1, d1);
    let b = jalali_day_count(y2, m2, d2);
    lemma_year_and_day_monotone(a, b);
    lemma_year_and_day_bounds(a);
    lemma_year_and_day_bounds(b);
    let (ya, da) = jalali_year_and_day(a);
    let (yb, db) = jalali_year_and_day(b);
    if ya == yb {
        lemma_month_and_day_monotone(da, db);
    }
}

proof fn lemma_leap_days_bounds(y: int)
    requires
        -1_000_000 <= y <= 1_000_001,
    ensures
        -300_000 <= leap_days_before(y) <= 300_000,
{
    let a = (y + 3) / 4;
    let b = (y + 99) / 100;
    let c = (y + 399) / 400;
    lemma_fundamental_div_mod(y + 3, 4);
    lemma_mod_bound(y + 3, 4);
    lemma_fundamental_div_mod(y + 99, 100);
    lemma_mod_bound(y + 99, 100);
    lemma_fundamental_div_mod(y + 399, 400);
    lemma_mod_bound(y + 399, 400);
    assert(-250_000 <= a <= 250_001);
    assert(-10_000 <= b <= 10_002);
    assert(-2_500 <= c <= 2_502);
}

proof fn lemma_year_from_days_bounds(days: int)
    requires
        -366_000_000 <= days <= 366_000_000,
    ensures
        -2_000_000 <= jalali_year_and_day(days).0 <= 2_000_000,
{
    lemma_fundamental_div_mod(days, 12053);
    lemma_mod_bound(days, 12053);
    let k = days / 12053;
    assert(-30_368 <= k <= 30_367);
    let d1 = days % 12053;
    lemma_year_within_group(d1);
    let q2 = d1 / 1461;
    let d2 = d1 % 1461;
    let jy = jalali_year_and_day(days).0;
    if d2 > 365 {
        assert(jy == -1595 + 33 * k + 4 * q2 + (d2 - 1) / 365);
    } else {
        assert(jy == -1595 + 33 * k + 4 * q2);
    }
}

/// For years within `[-1_000_000, 1_000_000]` the Jalali year stays within
/// `[-2_000_000, 2_000_000]`.
pub(crate) proof fn lemma_jalali_year_bounds(y: int, m: int, d: int)
    requires
        -1_000_000 <= y <= 1_000_000,
        1 <= m <= 12,
        1 <= d <= 31,
    ensures
        -2_000_000 <= jalali_of(y, m, d).0 <= 2_000_000,
{
    let y2 = if m > 2 { y + 1 } else { y };
    lemma_leap_days_bounds(y2);
    assert(0 <= month_start(m) <= 334);
    let days = jalali_day_count(y, m, d);
    assert(-366_000_000 <= days <= 366_000_000);
    lemma_year_from_days_bounds(days);
}

fn floor_div(a: i64, b: i64) -> (q: i64)
    requires
        b > 0,
    ensures
        q == a / b,
{
    proof {
        lemma_quotient_bounds(a as int, b as int);
    }
    a.checked_div_euclid(b).unwrap()
}

fn floor_mod(a: i64, b: i64) -> (r: i64)
    requires
        b > 0,
    ensures
        r == a % b,
{
    a.checked_rem_euclid(b).unwrap()
}

fn days_before_month(m: u32) -> (r: i64)
    requires
        1 <= m <= 12,
    ensures
        r == month_start(m as int),
{
    match m {
        1 => 0,
        2 => 31,
        3 => 59,
        4 => 90,
        5 => 120,
        6 => 151,
        7 => 181,
        8 => 212,
        9 => 243,
        10 => 273,
        11 => 304,
        _ => 334,
    }
}

/// Converts a Gregorian (year, month, day) to the Jalali (year, month, day).
/// The day is not checked against the month's length.
pub fn gregorian_to_jalali(gy: i32, gm: u32, gd: u32) -> (r: (i32, u32, u32))
    requires
        1 <= gm <= 12,
        1 <= gd <= 31,
        i32::MIN <= jalali_of(gy as int, gm as int, gd as int).0 <= i32::MAX,
    ensures
        r.0 as int == jalali_of(gy as int, gm as int, gd as int).0,
        r.1 as int == jalali_of(gy as int, gm as int, gd as int).1,
        r.2 as int == jalali_of(gy as int, gm as int, gd as int).2,
{
    let y: i64 = gy as i64;
    let gy2: i64 = if gm > 2 { y + 1 } else { y };
    let mut days: i64 = 355666 + 365 * y + floor_div(gy2 + 3, 4) - floor_div(gy2 + 99, 100)
        + floor_div(gy2 + 399, 400) + gd as i64 + days_before_month(gm);
    let ghost total = days as int;
    assert(total == jalali_day_count(gy as int, gm as int, gd as int));
    let mut jy: i64 = -1595 + 33 * floor_div(days, 12053);
    days = floor_mod(days, 12053);
    jy = jy + 4 * (days / 1461);
    days = days % 1461;
    if days > 365 {
        jy = jy + (days - 1) / 365;
        days = (days - 1) % 365;
    }
    assert(jalali_year_and_day(total) == (jy as int, days as int));
    let jm: i64 = if days < 186 { 1 + days / 31 } else { 7 + (days - 186) / 30 };
    let jd: i64 = if days < 186 { 1 + days % 31 } else { 1 + (days - 186) % 30 };
    (jy as i32, jm as u32, jd as u32)
}

} // verus!
