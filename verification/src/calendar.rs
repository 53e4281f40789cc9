//! The capability shared by the two calendar systems: a date-to-JDN
//! conversion, its inverse, and the two localized name tables.

use vstd::prelude::*;
use crate::date::{CalendarError, Date, DateModel, weekday_of_jdn};

verus! {

/// A calendar system: conversions between its dates and Julian Day Numbers,
/// plus its month and weekday name tables.
///
/// A value of an implementing type carries one date of its calendar (the
/// "current" date); `jdn` converts that date, `jdn_to_date` converts any
/// day number back into a fully named date.
pub trait Calendar: Sized {
    /// The date this calendar value holds.
    spec fn current(&self) -> DateModel;

    /// The held date is a valid date of this calendar and its name fields
    /// match its month and its weekday.
    spec fn wf(&self) -> bool;

    /// Which (year, month, day) triples denote dates of this calendar.
    spec fn valid_ymd(y: int, m: int, d: int) -> bool;

    /// The Julian Day Number of a date of this calendar.
    spec fn jdn_of(y: int, m: int, d: int) -> int;

    /// The (year, month, day) triple this calendar assigns to a day number.
    spec fn ymd_of_jdn(jd: int) -> (int, int, int);

    /// How many months a year of this calendar has.
    spec fn month_count() -> int;

    /// The month name table, indexed 1 ..= month_count().
    spec fn month_name_of(m: int) -> Seq<char>;

    /// The weekday name table, indexed Monday-first 1 ..= 7.
    spec fn day_name_of(w: int) -> Seq<char>;

    /// Smallest day number `jdn_to_date` accepts (the calendar's first day).
    spec fn min_jdn() -> int;

    /// The Julian Day Number of the held date.
    fn jdn(&self) -> (r: u32)
        requires
            self.wf(),
        ensures
            r as int == Self::jdn_of(self.current().year, self.current().month, self.current().day),
    ;

    /// The date of day number `jd`, with both names filled in from the
    /// name tables.
    fn jdn_to_date(&self, jd: u32) -> (r: Date)
        requires
            jd as int >= Self::min_jdn(),
        ensures
            ({
                let (y, m, d) = Self::ymd_of_jdn(jd as int);
                &&& r@.year == y
                &&& r@.month == m
                &&& r@.day == d
                &&& r@.month_name == Self::month_name_of(m)
                &&& r@.day_name == Self::day_name_of(weekday_of_jdn(jd as int))
            }),
    ;

    /// The name of month `month_n`, or `OutOfRange` outside
    /// 1 ..= month_count().
    fn month_name(month_n: u32) -> (r: Result<String, CalendarError>)
        ensures
            1 <= month_n as int <= Self::month_count() ==> r is Ok && r->Ok_0@
                == Self::month_name_of(month_n as int),
            !(1 <= month_n as int <= Self::month_count()) ==> r == Err::<
                String,
                CalendarError,
            >(CalendarError::OutOfRange),
    ;

    /// The name of weekday `day_n` (Monday-first), or `OutOfRange` outside
    /// 1 ..= 7.
    fn day_name(day_n: u32) -> (r: Result<String, CalendarError>)
        ensures
            1 <= day_n <= 7 ==> r is Ok && r->Ok_0@ == Self::day_name_of(day_n as int),
            !(1 <= day_n <= 7) ==> r == Err::<String, CalendarError>(CalendarError::OutOfRange),
    ;
}

} // verus!
