use chrono_persian::calendar::gregorian_to_jalali;
use chrono_persian::datetime::{CivilDate, LocalDateTime, NaiveDateTime, TimeOfDay, UtcDateTime, MAX_YEAR, MIN_YEAR};
use chrono_persian::persian::{persian_datetime, ToPersian};

fn dt(year: i32, month: u32, day: u32, hour: u32, minute: u32, second: u32) -> NaiveDateTime {
    NaiveDateTime {
        date: CivilDate { year, month, day },
        time: TimeOfDay { hour, minute, second, nanosecond: 0 },
    }
}

fn gregorian_len(y: i32, m: u32) -> u32 {
    let leap = y % 4 == 0 && (y % 100 != 0 || y % 400 == 0);
    match m {
        2 => if leap { 29 } else { 28 },
        4 | 6 | 9 | 11 => 30,
        _ => 31,
    }
}

fn jalali_len(y: i32, m: u32) -> u32 {
    let r = (y + 1595).rem_euclid(33);
    if m <= 6 {
        31
    } else if m <= 11 {
        30
    } else if r % 4 == 0 && r < 32 {
        30
    } else {
        29
    }
}

#[test]
fn utc_vector() {
    let input = UtcDateTime { datetime: dt(2024, 11, 9, 22, 38, 28) };
    let out = input.to_persian().unwrap();
    assert_eq!(out, UtcDateTime { datetime: dt(1403, 8, 20, 2, 8, 28) });
}

#[test]
fn local_vector() {
    // 2024-11-10 02:17:54 +03:30 is 2024-11-09 22:47:54 at UTC.
    let input = LocalDateTime { utc: dt(2024, 11, 9, 22, 47, 54), offset_secs: 12600 };
    let out = input.to_persian().unwrap();
    assert_eq!(out, LocalDateTime { utc: dt(1403, 8, 20, 2, 17, 54), offset_secs: 0 });
}

#[test]
fn local_vector_other_offset() {
    // The same instant shown at UTC converts the same way.
    let input = LocalDateTime { utc: dt(2024, 11, 9, 22, 47, 54), offset_secs: 0 };
    let out = input.to_persian().unwrap();
    assert_eq!(out, LocalDateTime { utc: dt(1403, 8, 20, 2, 17, 54), offset_secs: 0 });
}

#[test]
fn naive_vector() {
    let out = dt(2024, 11, 9, 23, 7, 0).to_persian().unwrap();
    assert_eq!(out, dt(1403, 8, 19, 23, 7, 0));
}

#[test]
fn utc_midnight_boundary() {
    // 20:30 UTC is midnight at +03:30: the reference day is the next one.
    let after = UtcDateTime { datetime: dt(2024, 11, 9, 20, 30, 0) }.to_persian().unwrap();
    assert_eq!(after.datetime, dt(1403, 8, 20, 0, 0, 0));
    let before = UtcDateTime { datetime: dt(2024, 11, 9, 20, 29, 59) }.to_persian().unwrap();
    assert_eq!(before.datetime, dt(1403, 8, 19, 23, 59, 59));
    let raw_utc_day = gregorian_to_jalali(2024, 11, 9);
    assert_ne!((after.datetime.date.year, after.datetime.date.month, after.datetime.date.day), raw_utc_day);
}

#[test]
fn utc_crosses_year_end() {
    let out = UtcDateTime { datetime: dt(2024, 12, 31, 21, 0, 0) }.to_persian().unwrap();
    assert_eq!(out.datetime, dt(1403, 10, 12, 0, 30, 0));
}

#[test]
fn time_of_day_kept() {
    let mut input = dt(2016, 12, 31, 23, 59, 59);
    input.time.nanosecond = 1_500_000_000;
    let out = input.to_persian().unwrap();
    assert_eq!(out.time, input.time);
    let u = UtcDateTime { datetime: dt(2024, 6, 1, 5, 6, 7) }.to_persian().unwrap();
    assert_eq!(u.datetime.time, TimeOfDay { hour: 8, minute: 36, second: 7, nanosecond: 0 });
}

#[test]
fn repeated_calls_agree() {
    let u = UtcDateTime { datetime: dt(2024, 11, 9, 22, 38, 28) };
    assert_eq!(u.to_persian(), u.to_persian());
    let n = dt(2000, 2, 29, 12, 0, 0);
    assert_eq!(n.to_persian(), n.to_persian());
    assert_eq!(gregorian_to_jalali(1999, 12, 31), gregorian_to_jalali(1999, 12, 31));
}

#[test]
fn known_dates() {
    assert_eq!(gregorian_to_jalali(2024, 11, 9), (1403, 8, 19));
    assert_eq!(gregorian_to_jalali(2024, 3, 20), (1403, 1, 1));
    assert_eq!(gregorian_to_jalali(2024, 3, 19), (1402, 12, 29));
    assert_eq!(gregorian_to_jalali(2025, 3, 20), (1403, 12, 30));
    assert_eq!(gregorian_to_jalali(2025, 3, 21), (1404, 1, 1));
    assert_eq!(gregorian_to_jalali(2024, 5, 20), (1403, 2, 31));
    assert_eq!(gregorian_to_jalali(1979, 2, 11), (1357, 11, 22));
    assert_eq!(gregorian_to_jalali(1, 1, 1), (-621, 10, 11));
}

#[test]
fn negative_years_use_floor_division() {
    assert_eq!(gregorian_to_jalali(-1000, 1, 1), (-1622, 10, 11));
}

#[test]
fn day_past_month_end_is_not_rejected() {
    assert_eq!(gregorian_to_jalali(2024, 2, 30), (1402, 12, 11));
}

#[test]
fn thirty_first_of_second_month_is_kept() {
    let out = dt(2024, 5, 20, 10, 0, 0).to_persian().unwrap();
    assert_eq!(out.date, CivilDate { year: 1403, month: 2, day: 31 });
}

#[test]
fn valid_gregorian_gives_valid_jalali() {
    for y in [1, 3, 399, 400, 1399, 1900, 2000, 2023, 2024, 2100] {
        for m in 1..=12u32 {
            for d in 1..=gregorian_len(y, m) {
                let (jy, jm, jd) = gregorian_to_jalali(y, m, d);
                assert!((1..=12).contains(&jm));
                assert!(jd >= 1 && jd <= jalali_len(jy, jm), "{}-{}-{}", y, m, d);
            }
        }
    }
}

#[test]
fn order_is_kept() {
    let mut prev = gregorian_to_jalali(1999, 1, 1);
    for y in 1999..=2026 {
        for m in 1..=12u32 {
            for d in 1..=gregorian_len(y, m) {
                let cur = gregorian_to_jalali(y, m, d);
                assert!(prev <= cur);
                prev = cur;
            }
        }
    }
}

#[test]
fn persian_datetime_replaces_date() {
    let out = persian_datetime(&dt(2024, 3, 20, 1, 2, 3));
    assert_eq!(out, dt(1403, 1, 1, 1, 2, 3));
}

#[test]
fn invalid_naive_date_has_no_equivalent() {
    assert_eq!(dt(2023, 2, 29, 0, 0, 0).to_persian(), None);
    assert_eq!(dt(2024, 13, 1, 0, 0, 0).to_persian(), None);
    assert_eq!(dt(2024, 1, 1, 24, 0, 0).to_persian(), None);
}

#[test]
fn range_edges() {
    // Attaching +03:30 to the first moment leaves the range.
    assert_eq!(dt(MIN_YEAR, 1, 1, 0, 0, 0).to_persian(), None);
    assert!(dt(MIN_YEAR, 1, 1, 3, 30, 0).to_persian().is_some());
    // Seen at +03:30, the last evening moves past the range.
    assert_eq!(UtcDateTime { datetime: dt(MAX_YEAR, 12, 31, 21, 0, 0) }.to_persian(), None);
    assert!(UtcDateTime { datetime: dt(MAX_YEAR, 12, 31, 20, 29, 59) }.to_persian().is_some());
}
