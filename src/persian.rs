//! The Persian equivalent of each temporal representation: the instant is
//! seen at the reference offset (+03:30), its date is converted to the Jalali
//! calendar, and the time of day is kept.

use crate::calendar::{
    date_le, gregorian_to_jalali, is_valid_jalali, jalali_of, lemma_conversion_gives_valid_jalali,
    lemma_conversion_monotonic, lemma_jalali_year_bounds,
};
use crate::datetime::{
    checked_add_offset, lemma_shift_exists,
    lemma_instant_order_gives_date_order, lemma_shift_is_shifted, shift_in_range, shifted, CivilDate,
    LocalDateTime, NaiveDateTime, UtcDateTime,
};
use vstd::prelude::*;

verus! {

/// Offset of the reference time zone, Iran Standard Time, in seconds east of UTC.
pub const REFERENCE_OFFSET_SECS: i32 = 12600;

/// Offset at which the Persian equivalent of a `LocalDateTime` is shown.
pub const ZERO_OFFSET_SECS: i32 = 0;

/// The Jalali date of a Gregorian date.
pub open spec fn jalali_date_of(d: CivilDate) -> CivilDate {
    let (y, m, dd) = jalali_of(d.year as int, d.month as int, d.day as int);
    CivilDate { year: y as i32, month: m as u32, day: dd as u32 }
}

/// The Jalali date of `v` with the time of day of `v`.
pub open spec fn persian_of(v: NaiveDateTime) -> NaiveDateTime {
    NaiveDateTime { date: jalali_date_of(v.date), time: v.time }
}

/// Replaces the Gregorian date of a wall clock by its Jalali date, keeping
/// the time of day.
pub fn persian_datetime(v: &NaiveDateTime) -> (r: NaiveDateTime)
    requires
        v.date.is_gregorian(),
    ensures
        r == persian_of(*v),
        r.time == v.time,
        is_valid_jalali(r.date.year as int, r.date.month as int, r.date.day as int),
{
    let d = v.date;
    proof {
        lemma_jalali_year_bounds(d.year as int, d.month as int, d.day as int);
        lemma_conversion_gives_valid_jalali(d.year as int, d.month as int, d.day as int);
    }
    let (y, m, dd) = gregorian_to_jalali(d.year, d.month, d.day);
    NaiveDateTime { date: CivilDate { year: y, month: m, day: dd }, time: v.time }
}

/// Conversion of a temporal value to its Persian (Jalali) equivalent, of the
/// same kind.
pub trait ToPersian: Sized {
    /// The Persian equivalent, or `None` where there is none.
    spec fn persian_equivalent(&self) -> Option<Self>;

    fn to_persian(&self) -> (r: Option<Self>)
        ensures
            r == self.persian_equivalent(),
    ;
}

impl ToPersian for NaiveDateTime {
    /// The wall clock is taken at the reference offset, which it can be
    /// where the instant it then denotes lies within the range.
    open spec fn persian_equivalent(&self) -> Option<NaiveDateTime> {
        if shift_in_range(*self, -REFERENCE_OFFSET_SECS as int) {
            Some(persian_of(*self))
        } else {
            None
        }
    }

    fn to_persian(&self) -> (r: Option<NaiveDateTime>) {
        match checked_add_offset(self, -REFERENCE_OFFSET_SECS) {
            Some(_) => Some(persian_datetime(self)),
            None => None,
        }
    }
}

impl ToPersian for UtcDateTime {
    /// The wall clock at the reference offset, with its date made Jalali,
    /// labelled as UTC.
    open spec fn persian_equivalent(&self) -> Option<UtcDateTime> {
        if shift_in_range(self.datetime, REFERENCE_OFFSET_SECS as int) {
            Some(UtcDateTime { datetime: persian_of(shifted(self.datetime, REFERENCE_OFFSET_SECS as int)) })
        } else {
            None
        }
    }

    fn to_persian(&self) -> (r: Option<UtcDateTime>) {
        match checked_add_offset(&self.datetime, REFERENCE_OFFSET_SECS) {
            Some(v) => {
                proof {
                    lemma_shift_is_shifted(v, self.datetime, REFERENCE_OFFSET_SECS as int);
                }
                Some(UtcDateTime { datetime: persian_datetime(&v) })
            },
            None => None,
        }
    }
}

impl ToPersian for LocalDateTime {
    /// The wall clock at the reference offset, with its date made Jalali,
    /// shown at a zero offset.
    open spec fn persian_equivalent(&self) -> Option<LocalDateTime> {
        if shift_in_range(self.utc, REFERENCE_OFFSET_SECS as int) {
            Some(LocalDateTime { utc: persian_of(shifted(self.utc, REFERENCE_OFFSET_SECS as int)), offset_secs: ZERO_OFFSET_SECS })
        } else {
            None
        }
    }

    fn to_persian(&self) -> (r: Option<LocalDateTime>) {
        match checked_add_offset(&self.utc, REFERENCE_OFFSET_SECS) {
            Some(v) => {
                proof {
                    lemma_shift_is_shifted(v, self.utc, REFERENCE_OFFSET_SECS as int);
                }
                Some(LocalDateTime { utc: persian_datetime(&v), offset_secs: ZERO_OFFSET_SECS })
            },
            None => None,
        }
    }
}

/// The time of day is kept: the Persian equivalent of a naive value has its
/// clock time, and that of an instant has the clock time of the instant's
/// wall clock at the reference offset. The date that comes out is always a
/// valid Jalali date.
pub proof fn lemma_time_of_day_kept(n: NaiveDateTime, u: UtcDateTime, l: LocalDateTime)
    ensures
        n.persian_equivalent() matches Some(r) ==> r.time == n.time
            && is_valid_jalali(r.date.year as int, r.date.month as int, r.date.day as int),
        u.persian_equivalent() matches Some(r) ==> r.datetime.time == shifted(
            u.datetime,
            REFERENCE_OFFSET_SECS as int,
        ).time,
        l.persian_equivalent() matches Some(r) ==> r.utc.time == shifted(
            l.utc,
            REFERENCE_OFFSET_SECS as int,
        ).time,
{
    if n.persian_equivalent() is Some {
        let d = n.date;
        lemma_jalali_year_bounds(d.year as int, d.month as int, d.day as int);
        lemma_conversion_gives_valid_jalali(d.year as int, d.month as int, d.day as int);
    }
}

/// Date `a` is not later than date `b`.
pub open spec fn date_not_after(a: CivilDate, b: CivilDate) -> bool {
    date_le(a.year as int, a.month as int, a.day as int, b.year as int, b.month as int, b.day as int)
}

proof fn lemma_jalali_date_monotone(a: CivilDate, b: CivilDate)
    requires
        a.is_gregorian(),
        b.is_gregorian(),
        date_not_after(a, b),
    ensures
        date_not_after(jalali_date_of(a), jalali_date_of(b)),
{
    lemma_jalali_year_bounds(a.year as int, a.month as int, a.day as int);
    lemma_jalali_year_bounds(b.year as int, b.month as int, b.day as int);
    lemma_conversion_gives_valid_jalali(a.year as int, a.month as int, a.day as int);
    lemma_conversion_gives_valid_jalali(b.year as int, b.month as int, b.day as int);
    lemma_conversion_monotonic(
        a.year as int,
        a.month as int,
        a.day as int,
        b.year as int,
        b.month as int,
        b.day as int,
    );
}

/// Order is kept for naive values: of two that convert, the one whose date
/// is not later gets a Jalali date that is not later.
pub proof fn lemma_naive_order_kept(a: NaiveDateTime, b: NaiveDateTime)
    requires
        a.persian_equivalent() is Some,
        b.persian_equivalent() is Some,
        date_not_after(a.date, b.date),
    ensures
        date_not_after(a.persian_equivalent()->Some_0.date, b.persian_equivalent()->Some_0.date),
{
    lemma_jalali_date_monotone(a.date, b.date);
}

/// Order is kept for UTC instants: of two that convert, the one that is not
/// later gets a Jalali date that is not later.
pub proof fn lemma_utc_order_kept(a: UtcDateTime, b: UtcDateTime)
    requires
        a.persian_equivalent() is Some,
        b.persian_equivalent() is Some,
        a.datetime.instant() <= b.datetime.instant(),
    ensures
        date_not_after(a.persian_equivalent()->Some_0.datetime.date, b.persian_equivalent()->Some_0.datetime.date),
{
    let secs = REFERENCE_OFFSET_SECS as int;
    let (va, vb) = (shifted(a.datetime, secs), shifted(b.datetime, secs));
    lemma_shift_exists(a.datetime, secs);
    lemma_shift_exists(b.datetime, secs);
    lemma_instant_order_gives_date_order(va, vb);
    lemma_jalali_date_monotone(va.date, vb.date);
}

/// Order is kept for instants given with an offset: of two that convert, the
/// one that is not later gets a Jalali date that is not later.
pub proof fn lemma_local_order_kept(a: LocalDateTime, b: LocalDateTime)
    requires
        a.persian_equivalent() is Some,
        b.persian_equivalent() is Some,
        a.utc.instant() <= b.utc.instant(),
    ensures
        date_not_after(a.persian_equivalent()->Some_0.utc.date, b.persian_equivalent()->Some_0.utc.date),
{
    lemma_utc_order_kept(UtcDateTime { datetime: a.utc }, UtcDateTime { datetime: b.utc });
}

/// Converting the same value twice gives the same result.
pub proof fn lemma_conversion_repeatable<T: ToPersian>(a: T, b: T)
    requires
        a == b,
    ensures
        a.persian_equivalent() == b.persian_equivalent(),
{
}

} // verus!
