//! Conversion of calendar dates between the Gregorian and the Ethiopian
//! calendar, with the Julian Day Number (JDN) as the common intermediate
//! day count.

pub mod calendar;
pub mod date;
pub mod ethiopian;
pub mod gregorian;
