//! The date value shared by both converters, and the error taxonomy.

use vstd::prelude::*;

verus! {

/// Failure cases of the library.
#[derive(Clone, Copy, Debug, PartialEq, Eq, Structural)]
pub enum CalendarError {
    /// A month or weekday index lies outside its calendar's domain.
    OutOfRange,
    /// The day (or year) does not denote an existing date of its calendar.
    InvalidDate,
}

/// Largest year either converter accepts; it keeps every Julian Day Number
/// of a valid date within `u32`.
pub const MAX_YEAR: u32 = 4000000;

/// Weekday index of a Julian Day Number, Monday-first: 1 = Monday .. 7 = Sunday.
pub open spec fn weekday_of_jdn(jd: int) -> int {
    jd % 7 + 1
}

/// Chronological order of two dates of one calendar: year, then month,
/// then day.
pub open spec fn ymd_before(y1: int, m1: int, d1: int, y2: int, m2: int, d2: int) -> bool {
    ||| y1 < y2
    ||| (y1 == y2 && m1 < m2)
    ||| (y1 == y2 && m1 == m2 && d1 < d2)
}

/// Weekday index of a day number, for either calendar's weekday table.
pub fn weekday_from_jdn(jd: u32) -> (r: u32)
    ensures
        r as int == weekday_of_jdn(jd as int),
        1 <= r <= 7,
{
    jd % 7 + 1
}

/// Mathematical content of a `Date`.
pub ghost struct DateModel {
    pub year: int,
    pub month: int,
    pub day: int,
    pub month_name: Seq<char>,
    pub day_name: Seq<char>,
}

/// An immutable calendar date in some calendar system, together with the
/// display names derived from its month and its weekday.
#[derive(Debug)]
pub struct Date {
    pub(crate) month_name: String,
    pub(crate) day_name: String,
    pub(crate) month: u32,
    pub(crate) year: u32,
    pub(crate) day: u32,
}

impl View for Date {
    type V = DateModel;

    closed spec fn view(&self) -> DateModel {
        DateModel {
            year: self.year as int,
            month: self.month as int,
            day: self.day as int,
            month_name: self.month_name@,
            day_name: self.day_name@,
        }
    }
}

impl Clone for Date {
    fn clone(&self) -> (r: Self)
        ensures
            r == *self,
    {
        Date {
            month_name: self.month_name.clone(),
            day_name: self.day_name.clone(),
            month: self.month,
            year: self.year,
            day: self.day,
        }
    }
}

impl Date {
    /// Assembles a date; only the converters build dates, so that the
    /// name fields always match the numeric fields.
    pub(crate) fn make(year: u32, month: u32, day: u32, month_name: String, day_name: String) -> (r:
        Date)
        ensures
            r@ == (DateModel {
                year: year as int,
                month: month as int,
                day: day as int,
                month_name: month_name@,
                day_name: day_name@,
            }),
    {
        Date { month_name, day_name, month, year, day }
    }

    pub fn year(&self) -> (r: u32)
        ensures
            r as int == self@.year,
    {
        self.year
    }

    pub fn month(&self) -> (r: u32)
        ensures
            r as int == self@.month,
    {
        self.month
    }

    pub fn day(&self) -> (r: u32)
        ensures
            r as int == self@.day,
    {
        self.day
    }

    pub fn month_name(&self) -> (r: &String)
        ensures
            r@ == self@.month_name,
    {
        &self.month_name
    }

    pub fn day_name(&self) -> (r: &String)
        ensures
            r@ == self@.day_name,
    {
        &self.day_name
    }
}

} // verus!
