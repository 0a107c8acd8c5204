//! Plain date and time values, the instants they denote, and the shift by a
//! fixed offset that chrono performs on them.

use crate::calendar::{
    date_le, gregorian_day_number, gregorian_month_length, is_valid_gregorian,
    lemma_day_number_increasing, lemma_leap_step,
};
use chrono::{Datelike, Timelike};
use vstd::arithmetic::div_mod::{
    lemma_fundamental_div_mod, lemma_mod_bound, lemma_mod_mod, lemma_mod_multiples_vanish,
    lemma_small_mod,
};
use vstd::prelude::*;

verus! {

/// First year that a date value may hold.
pub const MIN_YEAR: i32 = -262143;

/// Last year that a date value may hold.
pub const MAX_YEAR: i32 = 262142;

/// A calendar date; which calendar it belongs to is given by context.
#[derive(Clone, Copy, Debug, PartialEq, Eq, Structural)]
pub struct CivilDate {
    pub year: i32,
    pub month: u32,
    pub day: u32,
}

/// A clock time. A nanosecond of 1_000_000_000 or more marks a leap second,
/// which only second 59 may carry.
#[derive(Clone, Copy, Debug, PartialEq, Eq, Structural)]
pub struct TimeOfDay {
    pub hour: u32,
    pub minute: u32,
    pub second: u32,
    pub nanosecond: u32,
}

/// A date and a clock time with no time zone attached.
#[derive(Clone, Copy, Debug, PartialEq, Eq, Structural)]
pub struct NaiveDateTime {
    pub date: CivilDate,
    pub time: TimeOfDay,
}

/// An instant, given by its wall clock at UTC.
#[derive(Clone, Copy, Debug, PartialEq, Eq, Structural)]
pub struct UtcDateTime {
    pub datetime: NaiveDateTime,
}

/// An instant, given by its wall clock at UTC, together with the offset in
/// seconds east of UTC at which it is shown.
#[derive(Clone, Copy, Debug, PartialEq, Eq, Structural)]
pub struct LocalDateTime {
    pub utc: NaiveDateTime,
    pub offset_secs: i32,
}

impl CivilDate {
    /// A real Gregorian date within `MIN_YEAR..=MAX_YEAR`.
    pub open spec fn is_gregorian(self) -> bool {
        &&& MIN_YEAR <= self.year <= MAX_YEAR
        &&& is_valid_gregorian(self.year as int, self.month as int, self.day as int)
    }

    pub open spec fn day_number(self) -> int {
        gregorian_day_number(self.year as int, self.month as int, self.day as int)
    }
}

impl TimeOfDay {
    pub open spec fn is_valid(self) -> bool {
        &&& self.hour < 24
        &&& self.minute < 60
        &&& self.second < 60
        &&& self.nanosecond < 2_000_000_000
        &&& self.nanosecond >= 1_000_000_000 ==> self.second == 59
    }

    /// Whole seconds since midnight.
    pub open spec fn seconds(self) -> int {
        self.hour * 3600 + self.minute * 60 + self.second
    }
}

impl NaiveDateTime {
    /// A real Gregorian date within the year range and a valid clock time.
    pub open spec fn is_valid(self) -> bool {
        self.date.is_gregorian() && self.time.is_valid()
    }

    /// Whole seconds on the Gregorian time line, ignoring the fraction.
    pub open spec fn instant(self) -> int {
        self.date.day_number() * 86400 + self.time.seconds()
    }
}

/// First second of `MIN_YEAR`-01-01.
pub open spec fn min_instant() -> int {
    gregorian_day_number(MIN_YEAR as int, 1, 1) * 86400
}

/// Last second of `MAX_YEAR`-12-31.
pub open spec fn max_instant() -> int {
    gregorian_day_number(MAX_YEAR as int, 12, 31) * 86400 + 86399
}

/// `dt` is valid and moving it by `secs` seconds stays within the range.
pub open spec fn shift_in_range(dt: NaiveDateTime, secs: int) -> bool {
    dt.is_valid() && min_instant() <= dt.instant() + secs <= max_instant()
}

/// `v` is `dt` moved by `secs` seconds, keeping the fraction of a second.
pub open spec fn is_shift_of(v: NaiveDateTime, dt: NaiveDateTime, secs: int) -> bool {
    v.is_valid() && v.instant() == dt.instant() + secs && v.time.nanosecond == dt.time.nanosecond
}

/// The wall clock of `dt` moved by `secs` seconds. It exists where
/// `shift_in_range(dt, secs)` holds and `secs` is a whole number of minutes
/// (`lemma_shift_exists`), and is then unique (`lemma_instant_unique`).
pub open spec fn shifted(dt: NaiveDateTime, secs: int) -> NaiveDateTime {
    choose|v: NaiveDateTime| is_shift_of(v, dt, secs)
}

/// Relies on chrono's `NaiveDateTime::checked_add_offset`: the wall clock
/// moves by the offset, the fraction of a second is kept, and the result is
/// `None` only where the date leaves chrono's range. `NaiveDate::from_ymd_opt`
/// and `NaiveTime::from_hms_nano_opt` accept exactly the valid values. A
/// shift by whole minutes keeps a leap second on second 59.
#[verifier::external_body]
pub(crate) fn checked_add_offset(dt: &NaiveDateTime, secs: i32) -> (r: Option<NaiveDateTime>)
    requires
        -86400 < secs < 86400,
        secs % 60 == 0,
    ensures
        r.is_some() <==> shift_in_range(*dt, secs as int),
        r matches Some(v) ==> is_shift_of(v, *dt, secs as int),
{
    let (d, t) = (dt.date, dt.time);
    let date = chrono::NaiveDate::from_ymd_opt(d.year, d.month, d.day)?;
    let time = chrono::NaiveTime::from_hms_nano_opt(t.hour, t.minute, t.second, t.nanosecond)?;
    let offset = chrono::FixedOffset::east_opt(secs)?;
    let v = chrono::NaiveDateTime::new(date, time).checked_add_offset(offset)?;
    Some(NaiveDateTime {
        date: CivilDate { year: v.year(), month: v.month(), day: v.day() },
        time: TimeOfDay { hour: v.hour(), minute: v.minute(), second: v.second(), nanosecond: v.nanosecond() },
    })
}

proof fn lemma_seconds_unique(a: TimeOfDay, b: TimeOfDay)
    requires
        a.is_valid(),
        b.is_valid(),
        a.seconds() == b.seconds(),
    ensures
        a.hour == b.hour && a.minute == b.minute && a.second == b.second,
{
    let (ah, am, as_) = (a.hour as int, a.minute as int, a.second as int);
    let (bh, bm, bs) = (b.hour as int, b.minute as int, b.second as int);
    assert(ah == bh) by (nonlinear_arith)
        requires
            ah * 3600 + am * 60 + as_ == bh * 3600 + bm * 60 + bs,
            0 <= am < 60, 0 <= as_ < 60, 0 <= bm < 60, 0 <= bs < 60, 0 <= ah, 0 <= bh;
    assert(am == bm) by (nonlinear_arith)
        requires am * 60 + as_ == bm * 60 + bs, 0 <= as_ < 60, 0 <= bs < 60, 0 <= am, 0 <= bm;
}

/// Two valid date-times with the same instant and fraction are equal.
pub proof fn lemma_instant_unique(a: NaiveDateTime, b: NaiveDateTime)
    requires
        a.is_valid(),
        b.is_valid(),
        a.instant() == b.instant(),
        a.time.nanosecond == b.time.nanosecond,
    ensures
        a == b,
{
    let (na, nb) = (a.date.day_number(), b.date.day_number());
    let (sa, sb) = (a.time.seconds(), b.time.seconds());
    assert(na == nb) by (nonlinear_arith)
        requires na * 86400 + sa == nb * 86400 + sb, 0 <= sa < 86400, 0 <= sb < 86400;
    let (da, db) = (a.date, b.date);
    if da != db {
        if date_le(da.year as int, da.month as int, da.day as int, db.year as int, db.month as int, db.day as int) {
            lemma_day_number_increasing(da.year as int, da.month as int, da.day as int, db.year as int, db.month as int, db.day as int);
        } else {
            lemma_day_number_increasing(db.year as int, db.month as int, db.day as int, da.year as int, da.month as int, da.day as int);
        }
    }
    lemma_seconds_unique(a.time, b.time);
}

/// What `checked_add_offset` returns is the shifted wall clock.
pub proof fn lemma_shift_is_shifted(v: NaiveDateTime, dt: NaiveDateTime, secs: int)
    requires
        is_shift_of(v, dt, secs),
    ensures
        v == shifted(dt, secs),
{
    let w = shifted(dt, secs);
    assert(is_shift_of(w, dt, secs));
    lemma_instant_unique(v, w);
}

/// The Gregorian date after `(y, m, d)`.
pub open spec fn next_day(y: int, m: int, d: int) -> (int, int, int) {
    if d < gregorian_month_length(y, m) {
        (y, m, d + 1)
    } else if m < 12 {
        (y, m + 1, 1)
    } else {
        (y + 1, 1, 1)
    }
}

proof fn lemma_next_day(y: int, m: int, d: int)
    requires
        is_valid_gregorian(y, m, d),
    ensures
        is_valid_gregorian(next_day(y, m, d).0, next_day(y, m, d).1, next_day(y, m, d).2),
        gregorian_day_number(next_day(y, m, d).0, next_day(y, m, d).1, next_day(y, m, d).2)
            == gregorian_day_number(y, m, d) + 1,
        next_day(y, m, d).0 == y || (m == 12 && d == 31 && next_day(y, m, d).0 == y + 1),
{
    lemma_leap_step(y);
}

/// Every day number from `MIN_YEAR`-01-01 to `MAX_YEAR`-12-31 is that of a date.
proof fn lemma_day_exists(n: int)
    requires
        gregorian_day_number(MIN_YEAR as int, 1, 1) <= n <= gregorian_day_number(MAX_YEAR as int, 12, 31),
    ensures
        exists|c: CivilDate| c.is_gregorian() && c.day_number() == n,
    decreases n - gregorian_day_number(MIN_YEAR as int, 1, 1),
{
    if n == gregorian_day_number(MIN_YEAR as int, 1, 1) {
        let c = CivilDate { year: MIN_YEAR, month: 1, day: 1 };
        assert(c.is_gregorian() && c.day_number() == n);
    } else {
        lemma_day_exists(n - 1);
        let c = choose|c: CivilDate| c.is_gregorian() && c.day_number() == n - 1;
        let (y, m, d) = (c.year as int, c.month as int, c.day as int);
        lemma_next_day(y, m, d);
        if y == MAX_YEAR && !(m == 12 && d == 31) {
            lemma_day_number_increasing(y, m, d, MAX_YEAR as int, 12, 31);
        }
        let (y2, m2, d2) = next_day(y, m, d);
        let c2 = CivilDate { year: y2 as i32, month: m2 as u32, day: d2 as u32 };
        assert(c2.is_gregorian() && c2.day_number() == n);
    }
}

/// Where a shift by whole minutes stays in range, the shifted wall clock
/// exists.
pub proof fn lemma_shift_exists(dt: NaiveDateTime, secs: int)
    requires
        shift_in_range(dt, secs),
        secs % 60 == 0,
    ensures
        is_shift_of(shifted(dt, secs), dt, secs),
{
    let t = dt.instant() + secs;
    let n = t / 86400;
    let sod = t % 86400;
    lemma_fundamental_div_mod(t, 86400);
    lemma_mod_bound(t, 86400);
    let lo = gregorian_day_number(MIN_YEAR as int, 1, 1);
    let hi = gregorian_day_number(MAX_YEAR as int, 12, 31);
    assert(lo <= n <= hi) by (nonlinear_arith)
        requires t == 86400 * n + sod, 0 <= sod < 86400, lo * 86400 <= t <= hi * 86400 + 86399;
    lemma_day_exists(n);
    let c = choose|c: CivilDate| c.is_gregorian() && c.day_number() == n;
    let h = sod / 3600;
    let mi = (sod % 3600) / 60;
    let sec = sod % 60;
    lemma_fundamental_div_mod(sod, 3600);
    lemma_mod_bound(sod, 3600);
    lemma_fundamental_div_mod(sod % 3600, 60);
    lemma_mod_bound(sod % 3600, 60);
    lemma_fundamental_div_mod(sod, 60);
    assert(sod % 3600 % 60 == sec) by {
        lemma_mod_mod(sod, 60, 60);
    }
    assert(h < 24) by (nonlinear_arith)
        requires sod == 3600 * h + sod % 3600, 0 <= sod % 3600, sod < 86400;
    let tm = dt.time;
    let k = dt.date.day_number() * 1440 + tm.hour * 60 + tm.minute + secs / 60;
    lemma_fundamental_div_mod(secs, 60);
    assert(t == 60 * k + tm.second);
    lemma_mod_multiples_vanish(k, tm.second as int, 60);
    lemma_small_mod(tm.second as nat, 60);
    assert(t % 60 == tm.second);
    assert(sod % 60 == t % 60) by {
        lemma_mod_mod(t, 60, 1440);
    }
    let v = NaiveDateTime {
        date: c,
        time: TimeOfDay { hour: h as u32, minute: mi as u32, second: sec as u32, nanosecond: tm.nanosecond },
    };
    assert(v.time.seconds() == sod);
    assert(is_shift_of(v, dt, secs));
}

/// Of two valid date-times, the one with the earlier or equal instant has the
/// earlier or equal date.
pub(crate) proof fn lemma_instant_order_gives_date_order(a: NaiveDateTime, b: NaiveDateTime)
    requires
        a.is_valid(),
        b.is_valid(),
        a.instant() <= b.instant(),
    ensures
        date_le(a.date.year as int, a.date.month as int, a.date.day as int, b.date.year as int, b.date.month as int, b.date.day as int),
{
    let (da, db) = (a.date, b.date);
    if !date_le(da.year as int, da.month as int, da.day as int, db.year as int, db.month as int, db.day as int) {
        lemma_day_number_increasing(db.year as int, db.month as int, db.day as int, da.year as int, da.month as int, da.day as int);
    }
}

} // verus!
