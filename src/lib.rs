//! Conversion of Gregorian civil timestamps to the Solar Hijri (Jalali)
//! calendar, keeping the time of day.

pub mod calendar;
pub mod datetime;
pub mod persian;
