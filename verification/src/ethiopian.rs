//! The Ethiopian calendar: thirteen months (twelve of thirty days and the
//! short Pagume month), a flat four-year leap cycle, and a fixed epoch
//! offset against the Julian Day Number line.

use vstd::prelude::*;
use vstd::arithmetic::div_mod::{
    lemma_fundamental_div_mod,
    lemma_fundamental_div_mod_converse_div,
    lemma_fundamental_div_mod_converse_mod,
    lemma_div_is_ordered,
};
use crate::calendar::Calendar;
use crate::date::{
    CalendarError,
    Date,
    DateModel,
    MAX_YEAR,
    weekday_of_jdn,
    weekday_from_jdn,
    ymd_before,
};
use crate::gregorian::{GREG_MAX_JDN, GregorianCalendar, greg_jdn_of, lemma_greg_jdn_in_range};

verus! {

/// Day-count origin of the Ethiopian calendar: the Julian Day Number from
/// which Ethiopian years are counted (year 1 begins 365 days later).
pub const ETH_JDN_OFFSET: u32 = 1723856;

/// Julian Day Number of Ethiopian 1 Meskerem of year 1, the smallest day
/// number the Ethiopian converter decomposes.
pub const ETH_MIN_JDN: u32 = 1724221;

/// The Ethiopian leap-year rule: every fourth year, with no century
/// exception.
pub open spec fn eth_is_leap(y: int) -> bool {
    y % 4 == 3
}

/// Length of an Ethiopian month: thirty days, except Pagume (month 13)
/// with five or, in a leap year, six.
pub open spec fn eth_days_in_month(y: int, m: int) -> int {
    if m <= 12 {
        30
    } else if eth_is_leap(y) {
        6
    } else {
        5
    }
}

/// The (year, month, day) triples that denote Ethiopian dates the
/// converter accepts.
pub open spec fn eth_valid_ymd(y: int, m: int, d: int) -> bool {
    &&& 1 <= y <= MAX_YEAR
    &&& 1 <= m <= 13
    &&& 1 <= d <= eth_days_in_month(y, m)
}

/// The Ethiopian date-to-JDN formula: 365 days a year, one intercalary
/// day every four years, thirty-day months.
pub open spec fn eth_jdn_of(y: int, m: int, d: int) -> int {
    ETH_JDN_OFFSET as int + 365 * y + y / 4 + 30 * (m - 1) + d - 1
}

/// The Ethiopian JDN-to-date decomposition over the 1461-day leap cycle.
pub open spec fn eth_ymd_of_jdn(jd: int) -> (int, int, int) {
    let t = jd - ETH_JDN_OFFSET as int;
    let r = t % 1461;
    let n = r % 365 + 365 * (r / 1460);
    let y = 4 * (t / 1461) + r / 365 - r / 1460;
    let m = n / 30 + 1;
    let d = n % 30 + 1;
    (y, m, d)
}

/// Ethiopian month names, 1 = Meskerem .. 13 = Pagume.
pub open spec fn eth_month_name_of(m: int) -> Seq<char> {
    if m == 1 {
        "መስከረም"@
    } else if m == 2 {
        "ጥቅምት"@
    } else if m == 3 {
        "ኅዳር"@
    } else if m == 4 {
        "ታኅሣሥ"@
    } else if m == 5 {
        "ጥር"@
    } else if m == 6 {
        "የካቲት"@
    } else if m == 7 {
        "መጋቢት"@
    } else if m == 8 {
        "ሚያዝያ"@
    } else if m == 9 {
        "ግንቦት"@
    } else if m == 10 {
        "ሰኔ"@
    } else if m == 11 {
        "ሐምሌ"@
    } else if m == 12 {
        "ነሐሴ"@
    } else if m == 13 {
        "ጳጉሜን"@
    } else {
        Seq::empty()
    }
}

/// Ethiopian weekday names, Monday-first.
pub open spec fn eth_day_name_of(w: int) -> Seq<char> {
    if w == 1 {
        "ሰኞ"@
    } else if w == 2 {
        "ማክሰኞ"@
    } else if w == 3 {
        "ረቡዕ"@
    } else if w == 4 {
        "ኀሙስ"@
    } else if w == 5 {
        "ዐርብ"@
    } else if w == 6 {
        "ቅዳሜ"@
    } else if w == 7 {
        "እሁድ"@
    } else {
        Seq::empty()
    }
}

/// The Ethiopian converter; it carries one Ethiopian date.
pub struct EthiopianCalendar {
    pub date: Date,
}

fn eth_month_label(m: u32) -> (r: String)
    requires
        1 <= m <= 13,
    ensures
        r@ == eth_month_name_of(m as int),
{
    match m {
        1 => "መስከረም".to_owned(),
        2 => "ጥቅምት".to_owned(),
        3 => "ኅዳር".to_owned(),
        4 => "ታኅሣሥ".to_owned(),
        5 => "ጥር".to_owned(),
        6 => "የካቲት".to_owned(),
        7 => "መጋቢት".to_owned(),
        8 => "ሚያዝያ".to_owned(),
        9 => "ግንቦት".to_owned(),
        10 => "ሰኔ".to_owned(),
        11 => "ሐምሌ".to_owned(),
        12 => "ነሐሴ".to_owned(),
        _ => "ጳጉሜን".to_owned(),
    }
}

fn eth_day_label(w: u32) -> (r: String)
    requires
        1 <= w <= 7,
    ensures
        r@ == eth_day_name_of(w as int),
{
    match w {
        1 => "ሰኞ".to_owned(),
        2 => "ማክሰኞ".to_owned(),
        3 => "ረቡዕ".to_owned(),
        4 => "ኀሙስ".to_owned(),
        5 => "ዐርብ".to_owned(),
        6 => "ቅዳሜ".to_owned(),
        _ => "እሁድ".to_owned(),
    }
}

/// Everything the decomposition of a day number at or past the epoch
/// guarantees: it inverts the date-to-JDN formula, its fields lie in
/// range, and a sixth Pagume day appears only in leap years.
pub proof fn lemma_eth_decompose(jd: int)
    requires
        jd >= ETH_JDN_OFFSET as int,
    ensures
        ({
            let (y, m, d) = eth_ymd_of_jdn(jd);
            &&& eth_jdn_of(y, m, d) == jd
            &&& 0 <= y
            &&& 1 <= m <= 13
            &&& 1 <= d <= 30
            &&& (m == 13 ==> d <= 6)
            &&& (m == 13 && d == 6 ==> y % 4 == 3)
            &&& (jd >= ETH_MIN_JDN as int ==> y >= 1)
            &&& (jd <= GREG_MAX_JDN as int ==> y <= MAX_YEAR as int)
        }),
{
    let off = ETH_JDN_OFFSET as int;
    let t = jd - off;
    lemma_fundamental_div_mod(t, 1461);
    let q = t / 1461;
    let r = t % 1461;
    assert(0 <= r < 1461);
    assert(q >= 0);
    lemma_fundamental_div_mod(r, 365);
    let r365 = r / 365;
    let rr = r % 365;
    assert(0 <= rr < 365);
    lemma_div_is_ordered(0, r, 365);
    assert(0int / 365 == 0);
    let y = 4 * q + r365 - r / 1460;
    let n = rr + 365 * (r / 1460);
    if r <= 1459 {
        lemma_div_is_ordered(0, r, 1460);
        lemma_div_is_ordered(r, 1459, 1460);
        assert(0int / 1460 == 0);
        assert(1459int / 1460 == 0);
        assert(r / 1460 == 0);
        lemma_div_is_ordered(r, 1459, 365);
        assert(1459int / 365 == 3);
        assert(0 <= r365 <= 3);
        assert(y == 4 * q + r365);
        lemma_fundamental_div_mod_converse_div(y, 4, q, r365);
        lemma_fundamental_div_mod_converse_mod(y, 4, q, r365);
        assert(y / 4 == q);
        assert(n == rr);
        assert(365 * y == 1460 * q + 365 * r365);
        assert(365 * y + y / 4 + n == 1461 * q + 365 * r365 + rr);
        assert(365 * y + y / 4 + n == t);
    } else {
        assert(r == 1460);
        assert(1460int / 1460 == 1);
        assert(1460int / 365 == 4);
        assert(1460int % 365 == 0);
        assert(r365 == 4);
        assert(rr == 0);
        assert(y == 4 * q + 3);
        lemma_fundamental_div_mod_converse_div(y, 4, q, 3);
        lemma_fundamental_div_mod_converse_mod(y, 4, q, 3);
        assert(y / 4 == q);
        assert(y % 4 == 3);
        assert(n == 365);
        assert(365 * y == 1460 * q + 1095);
        assert(365 * y + y / 4 + n == t);
    }
    assert(0 <= n <= 365);
    let m = n / 30 + 1;
    let d = n % 30 + 1;
    lemma_fundamental_div_mod(n, 30);
    assert(0 <= n % 30 < 30);
    lemma_div_is_ordered(0, n, 30);
    lemma_div_is_ordered(n, 365, 30);
    assert(0int / 30 == 0);
    assert(365int / 30 == 12);
    assert(1 <= m <= 13);
    assert(1 <= d <= 30);
    assert(30 * (m - 1) + (d - 1) == n);
    assert(eth_jdn_of(y, m, d) == off + 365 * y + y / 4 + n);
    assert(eth_jdn_of(y, m, d) == jd);
    if m == 13 {
        assert(n / 30 == 12);
        assert(n >= 360);
        assert(d <= 6);
        if d == 6 {
            assert(n == 365);
            assert(r == 1460);
            assert(y % 4 == 3);
        }
    }
    if jd >= ETH_MIN_JDN as int {
        assert(t >= 365);
        if q == 0 {
            assert(r == t);
            lemma_div_is_ordered(365, r, 365);
            assert(365int / 365 == 1);
            assert(r365 >= 1);
            assert(y >= 1);
        } else {
            assert(q >= 1);
            assert(y >= 1);
        }
    }
    if jd <= GREG_MAX_JDN as int {
        assert(t <= 1460967569);
        lemma_div_is_ordered(t, 1460967569, 1461);
        assert(1460967569int / 1461 == 999977);
        assert(y <= MAX_YEAR as int);
    }
}

/// Decomposing the day number of a valid Ethiopian date gives that date
/// back: the two conversion formulas are mutually inverse.
pub proof fn lemma_ethiopian_round_trip(y: int, m: int, d: int)
    requires
        eth_valid_ymd(y, m, d),
    ensures
        eth_ymd_of_jdn(eth_jdn_of(y, m, d)) == (y, m, d),
{
    let o = 30 * (m - 1) + d - 1;
    assert(0 <= o <= 365);
    assert(o == 365 ==> m == 13 && d == 6);
    lemma_fundamental_div_mod(y, 4);
    let q = y / 4;
    let s4 = y % 4;
    assert(0 <= s4 <= 3);
    assert(q >= 0);
    let t = 365 * y + y / 4 + o;
    let u = 365 * s4 + o;
    assert(t == 1461 * q + u);
    assert(o == 365 ==> eth_is_leap(y));
    if s4 <= 2 {
        assert(o <= 364);
        assert(u <= 1094);
    } else {
        assert(u <= 1460);
    }
    lemma_fundamental_div_mod_converse_div(t, 1461, q, u);
    lemma_fundamental_div_mod_converse_mod(t, 1461, q, u);
    assert(t / 1461 == q);
    assert(t % 1461 == u);
    if o <= 364 {
        lemma_fundamental_div_mod_converse_div(u, 365, s4, o);
        lemma_fundamental_div_mod_converse_mod(u, 365, s4, o);
        assert(u / 365 == s4);
        assert(u % 365 == o);
        lemma_div_is_ordered(0, u, 1460);
        lemma_div_is_ordered(u, 1459, 1460);
        assert(0int / 1460 == 0);
        assert(1459int / 1460 == 0);
        assert(u / 1460 == 0);
        assert(4 * (t / 1461) + t % 1461 / 365 - t % 1461 / 1460 == y);
        let n = u % 365 + 365 * (u / 1460);
        assert(n == o);
        lemma_fundamental_div_mod_converse_div(o, 30, m - 1, d - 1);
        lemma_fundamental_div_mod_converse_mod(o, 30, m - 1, d - 1);
        assert(n / 30 + 1 == m);
        assert(n % 30 + 1 == d);
    } else {
        assert(o == 365 && s4 == 3);
        assert(u == 1460);
        assert(1460int / 365 == 4);
        assert(1460int % 365 == 0);
        assert(1460int / 1460 == 1);
        assert(4 * (t / 1461) + t % 1461 / 365 - t % 1461 / 1460 == 4 * q + 4 - 1);
        assert(4 * q + 3 == y);
        let n = u % 365 + 365 * (u / 1460);
        assert(n == 365);
        assert(365int / 30 == 12);
        assert(365int % 30 == 5);
        assert(n / 30 + 1 == 13);
        assert(n % 30 + 1 == 6);
        assert(m == 13 && d == 6);
    }
}

proof fn lemma_eth_lt(y1: int, m1: int, d1: int, y2: int, m2: int, d2: int)
    requires
        eth_valid_ymd(y1, m1, d1),
        eth_valid_ymd(y2, m2, d2),
        ymd_before(y1, m1, d1, y2, m2, d2),
    ensures
        eth_jdn_of(y1, m1, d1) < eth_jdn_of(y2, m2, d2),
{
    let o1 = 30 * (m1 - 1) + d1 - 1;
    let o2 = 30 * (m2 - 1) + d2 - 1;
    if y1 == y2 {
        assert(o1 < o2);
    } else {
        assert(y1 < y2);
        lemma_div_is_ordered(y1, y2, 4);
        assert(0 <= o1 <= 365);
        if o1 == 365 {
            assert(m1 == 13 && d1 == 6);
            assert(eth_is_leap(y1));
            lemma_fundamental_div_mod(y1, 4);
            assert(y1 == 4 * (y1 / 4) + 3);
            lemma_fundamental_div_mod_converse_div(y1 + 1, 4, y1 / 4 + 1, 0);
            assert((y1 + 1) / 4 == y1 / 4 + 1);
            lemma_div_is_ordered(y1 + 1, y2, 4);
            assert(y2 / 4 >= y1 / 4 + 1);
        }
    }
}

/// One Ethiopian date lies chronologically before another exactly when
/// its Julian Day Number is smaller.
pub proof fn lemma_ethiopian_monotonic(y1: int, m1: int, d1: int, y2: int, m2: int, d2: int)
    requires
        eth_valid_ymd(y1, m1, d1),
        eth_valid_ymd(y2, m2, d2),
    ensures
        ymd_before(y1, m1, d1, y2, m2, d2) <==> eth_jdn_of(y1, m1, d1) < eth_jdn_of(y2, m2, d2),
{
    if ymd_before(y1, m1, d1, y2, m2, d2) {
        lemma_eth_lt(y1, m1, d1, y2, m2, d2);
    } else if y1 == y2 && m1 == m2 && d1 == d2 {
        assert(eth_jdn_of(y1, m1, d1) == eth_jdn_of(y2, m2, d2));
    } else {
        assert(ymd_before(y2, m2, d2, y1, m1, d1));
        lemma_eth_lt(y2, m2, d2, y1, m1, d1);
    }
}

fn eth_jdn_exec(y: u32, m: u32, d: u32) -> (r: u32)
    requires
        eth_valid_ymd(y as int, m as int, d as int),
    ensures
        r as int == eth_jdn_of(y as int, m as int, d as int),
{
    proof {
        lemma_div_is_ordered(y as int, MAX_YEAR as int, 4);
        assert(4000000int / 4 == 1000000);
    }
    let r: u64 = ETH_JDN_OFFSET as u64 + 365 * (y as u64) + (y as u64) / 4 + 30 * (m as u64 - 1)
        + d as u64 - 1;
    r as u32
}

fn eth_date_of_jdn(jd: u32) -> (r: Date)
    requires
        jd >= ETH_MIN_JDN,
    ensures
        ({
            let (y, m, d) = eth_ymd_of_jdn(jd as int);
            &&& r@.year == y
            &&& r@.month == m
            &&& r@.day == d
            &&& r@.month_name == eth_month_name_of(m)
            &&& r@.day_name == eth_day_name_of(weekday_of_jdn(jd as int))
            &&& eth_jdn_of(y, m, d) == jd as int
            &&& (jd <= GREG_MAX_JDN ==> eth_valid_ymd(y, m, d))
        }),
{
    proof {
        lemma_eth_decompose(jd as int);
    }
    let t: u64 = jd as u64 - ETH_JDN_OFFSET as u64;
    let q: u64 = t / 1461;
    let r: u64 = t % 1461;
    proof {
        lemma_div_is_ordered(t as int, 4294967295, 1461);
        assert(4294967295int / 1461 == 2939744);
    }
    let n: u64 = r % 365 + 365 * (r / 1460);
    let y: u64 = 4 * q + r / 365 - r / 1460;
    let m: u64 = n / 30 + 1;
    let d: u64 = n % 30 + 1;
    let mn = eth_month_label(m as u32);
    let dn = eth_day_label(weekday_from_jdn(jd));
    Date::make(y as u32, m as u32, d as u32, mn, dn)
}

impl EthiopianCalendar {
    /// Builds the converter holding the Ethiopian date of the same day as
    /// the Gregorian date that `today` holds: the caller supplies "today"
    /// from whatever clock it trusts, and the two conversions compose
    /// through the day number. The Gregorian date must not lie before the
    /// first Ethiopian day.
    pub fn new(today: &GregorianCalendar) -> (r: EthiopianCalendar)
        requires
            today.wf(),
            greg_jdn_of(today.current().year, today.current().month, today.current().day)
                >= ETH_MIN_JDN as int,
        ensures
            r.wf(),
            ({
                let (yv, mv, dv) = eth_ymd_of_jdn(
                    greg_jdn_of(today.current().year, today.current().month, today.current().day),
                );
                &&& r.current().year == yv
                &&& r.current().month == mv
                &&& r.current().day == dv
            }),
    {
        proof {
            lemma_greg_jdn_in_range(
                today.current().year,
                today.current().month,
                today.current().day,
            );
        }
        let jd = today.jdn();
        let date = eth_date_of_jdn(jd);
        EthiopianCalendar { date }
    }

    /// Builds the converter around a given Ethiopian date, rejecting a
    /// month outside 1..=13 as `OutOfRange` and any other non-date
    /// (a sixth Pagume day outside a leap year, year 0 or past
    /// `MAX_YEAR`) as `InvalidDate`.
    pub fn from_ymd(year: u32, month: u32, day: u32) -> (r: Result<
        EthiopianCalendar,
        CalendarError,
    >)
        ensures
            r is Ok <==> eth_valid_ymd(year as int, month as int, day as int),
            r is Ok ==> ({
                let c = r->Ok_0;
                &&& c.wf()
                &&& c.current().year == year as int
                &&& c.current().month == month as int
                &&& c.current().day == day as int
            }),
            !(1 <= month <= 13) ==> r == Err::<EthiopianCalendar, CalendarError>(
                CalendarError::OutOfRange,
            ),
            (1 <= month <= 13 && !eth_valid_ymd(year as int, month as int, day as int)) ==> r
                == Err::<EthiopianCalendar, CalendarError>(CalendarError::InvalidDate),
    {
        if month < 1 || month > 13 {
            return Err(CalendarError::OutOfRange);
        }
        if year < 1 || year > MAX_YEAR {
            return Err(CalendarError::InvalidDate);
        }
        let dim: u32 = if month <= 12 {
            30
        } else if year % 4 == 3 {
            6
        } else {
            5
        };
        if day < 1 || day > dim {
            return Err(CalendarError::InvalidDate);
        }
        let jd = eth_jdn_exec(year, month, day);
        let mn = eth_month_label(month);
        let dn = eth_day_label(weekday_from_jdn(jd));
        Ok(EthiopianCalendar { date: Date::make(year, month, day, mn, dn) })
    }

    /// The held date, as a fresh value.
    pub fn today(&self) -> (r: Date)
        ensures
            r@ == self.current(),
    {
        self.date.clone()
    }
}

impl Calendar for EthiopianCalendar {
    open spec fn current(&self) -> DateModel {
        self.date@
    }

    open spec fn wf(&self) -> bool {
        &&& eth_valid_ymd(self.date@.year, self.date@.month, self.date@.day)
        &&& self.date@.month_name == eth_month_name_of(self.date@.month)
        &&& self.date@.day_name == eth_day_name_of(
            weekday_of_jdn(eth_jdn_of(self.date@.year, self.date@.month, self.date@.day)),
        )
    }

    open spec fn valid_ymd(y: int, m: int, d: int) -> bool {
        eth_valid_ymd(y, m, d)
    }

    open spec fn jdn_of(y: int, m: int, d: int) -> int {
        eth_jdn_of(y, m, d)
    }

    open spec fn ymd_of_jdn(jd: int) -> (int, int, int) {
        eth_ymd_of_jdn(jd)
    }

    open spec fn month_count() -> int {
        13
    }

    open spec fn month_name_of(m: int) -> Seq<char> {
        eth_month_name_of(m)
    }

    open spec fn day_name_of(w: int) -> Seq<char> {
        eth_day_name_of(w)
    }

    open spec fn min_jdn() -> int {
        ETH_MIN_JDN as int
    }

    fn jdn(&self) -> (r: u32) {
        eth_jdn_exec(self.date.year(), self.date.month(), self.date.day())
    }

    fn jdn_to_date(&self, jd: u32) -> (r: Date) {
        eth_date_of_jdn(jd)
    }

    fn month_name(month_n: u32) -> (r: Result<String, CalendarError>) {
        if 1 <= month_n && month_n <= 13 {
            Ok(eth_month_label(month_n))
        } else {
            Err(CalendarError::OutOfRange)
        }
    }

    fn day_name(day_n: u32) -> (r: Result<String, CalendarError>) {
        if 1 <= day_n && day_n <= 7 {
            Ok(eth_day_label(day_n))
        } else {
            Err(CalendarError::OutOfRange)
        }
    }
}

} // verus!
