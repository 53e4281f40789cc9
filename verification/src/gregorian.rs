//! The proleptic Gregorian calendar: date-to-JDN and JDN-to-date
//! conversion by the standard integer formulas, plus its name tables.

use vstd::prelude::*;
use vstd::arithmetic::div_mod::{
    lemma_fundamental_div_mod,
    lemma_fundamental_div_mod_converse_div,
    lemma_fundamental_div_mod_converse_mod,
    lemma_div_is_ordered,
};
use crate::calendar::Calendar;
use crate::date::{CalendarError, Date, DateModel, MAX_YEAR, weekday_of_jdn, weekday_from_jdn, ymd_before};

verus! {

/// Julian Day Number of Gregorian 1 January of year 1, the smallest day
/// number the Gregorian converter decomposes.
pub const GREG_MIN_JDN: u32 = 1721426;

/// Julian Day Number of Gregorian 31 December of `MAX_YEAR`, the largest
/// day number a valid Gregorian date reaches.
pub const GREG_MAX_JDN: u32 = 1462691425;

/// The Gregorian leap-year rule.
pub open spec fn greg_is_leap(y: int) -> bool {
    y % 4 == 0 && (y % 100 != 0 || y % 400 == 0)
}

/// Length of a Gregorian month.
pub open spec fn greg_days_in_month(y: int, m: int) -> int {
    if m == 2 {
        if greg_is_leap(y) {
            29
        } else {
            28
        }
    } else if m == 4 || m == 6 || m == 9 || m == 11 {
        30
    } else {
        31
    }
}

/// The (year, month, day) triples that denote proleptic Gregorian dates
/// the converter accepts.
pub open spec fn greg_valid_ymd(y: int, m: int, d: int) -> bool {
    &&& 1 <= y <= MAX_YEAR
    &&& 1 <= m <= 12
    &&& 1 <= d <= greg_days_in_month(y, m)
}

/// The standard proleptic-Gregorian date-to-JDN formula, over a year that
/// is shifted to start in March (so the leap day falls last).
pub open spec fn greg_jdn_of(y: int, m: int, d: int) -> int {
    let a = if m <= 2 {
        1int
    } else {
        0int
    };
    let yy = y + 4800 - a;
    let mm = m + 12 * a - 3;
    d + (153 * mm + 2) / 5 + 365 * yy + yy / 4 - yy / 100 + yy / 400 - 32045
}

/// The Fliegel–Van Flandern JDN-to-date decomposition: successive integer
/// divisions recover century, year, month and day.
pub open spec fn greg_ymd_of_jdn(jd: int) -> (int, int, int) {
    let l0 = jd + 68569;
    let n = 4 * l0 / 146097;
    let l1 = l0 - (146097 * n + 3) / 4;
    let i = 4000 * (l1 + 1) / 1461001;
    let l2 = l1 - 1461 * i / 4 + 31;
    let j = 80 * l2 / 2447;
    let d = l2 - 2447 * j / 80;
    let l3 = j / 11;
    let m = j + 2 - 12 * l3;
    let y = 100 * (n - 49) + i + l3;
    (y, m, d)
}

/// Days counted by the date-to-JDN formula for whole shifted years: the
/// part of `greg_jdn_of` that depends on the shifted year alone.
pub open spec fn g_days(yy: int) -> int {
    365 * yy + yy / 4 - yy / 100 + yy / 400
}

/// A shifted year spans 365 or 366 counted days, and exactly 366 when it
/// ends in the leap day of Gregorian year `yy - 4799`.
proof fn lemma_g_succ(yy: int)
    requires
        yy >= 0,
    ensures
        g_days(yy) + 365 <= g_days(yy + 1) <= g_days(yy) + 366,
        yy >= 4799 && greg_is_leap(yy - 4799) ==> g_days(yy + 1) == g_days(yy) + 366,
{
    lemma_fundamental_div_mod(yy, 4);
    let q4 = yy / 4;
    let r4 = yy % 4;
    lemma_fundamental_div_mod(yy, 100);
    let q100 = yy / 100;
    let r100 = yy % 100;
    lemma_fundamental_div_mod(yy, 400);
    let q400 = yy / 400;
    let r400 = yy % 400;
    assert(0 <= r4 < 4 && 0 <= r100 < 100 && 0 <= r400 < 400);
    if r4 == 3 {
        lemma_fundamental_div_mod_converse_div(yy + 1, 4, q4 + 1, 0);
    } else {
        lemma_fundamental_div_mod_converse_div(yy + 1, 4, q4, r4 + 1);
    }
    if r100 == 99 {
        lemma_fundamental_div_mod_converse_div(yy + 1, 100, q100 + 1, 0);
        lemma_fundamental_div_mod_converse_mod(yy, 4, 25 * q100 + 24, 3);
        assert(r4 == 3);
    } else {
        lemma_fundamental_div_mod_converse_div(yy + 1, 100, q100, r100 + 1);
    }
    if r400 == 399 {
        lemma_fundamental_div_mod_converse_div(yy + 1, 400, q400 + 1, 0);
        lemma_fundamental_div_mod_converse_mod(yy, 100, 4 * q400 + 3, 99);
        assert(r100 == 99);
    } else {
        lemma_fundamental_div_mod_converse_div(yy + 1, 400, q400, r400 + 1);
    }
    if yy >= 4799 && greg_is_leap(yy - 4799) {
        let y = yy - 4799;
        lemma_fundamental_div_mod(y, 4);
        lemma_fundamental_div_mod_converse_mod(yy, 4, y / 4 + 1199, 3);
        assert(r4 == 3);
        if r100 == 99 {
            lemma_fundamental_div_mod_converse_mod(y, 100, q100 - 47, 0);
            assert(y % 100 == 0);
            assert(y % 400 == 0);
            lemma_fundamental_div_mod(y, 400);
            lemma_fundamental_div_mod_converse_mod(yy, 400, y / 400 + 11, 399);
            assert(r400 == 399);
        }
        assert(g_days(yy + 1) == g_days(yy) + 366);
    }
}

/// The day count grows by at least 365 for each further shifted year.
proof fn lemma_g_mono(lo: int, hi: int)
    requires
        0 <= lo <= hi,
    ensures
        g_days(lo) + 365 * (hi - lo) <= g_days(hi),
    decreases hi - lo,
{
    if lo < hi {
        lemma_g_succ(hi - 1);
        lemma_g_mono(lo, hi - 1);
    }
}

/// Every valid Gregorian date has its Julian Day Number between those of
/// 1 January of year 1 and 31 December of `MAX_YEAR`.
pub proof fn lemma_greg_jdn_in_range(y: int, m: int, d: int)
    requires
        greg_valid_ymd(y, m, d),
    ensures
        GREG_MIN_JDN as int <= greg_jdn_of(y, m, d) <= GREG_MAX_JDN as int,
{
    let a = if m <= 2 {
        1int
    } else {
        0int
    };
    let yy = y + 4800 - a;
    let mm = m + 12 * a - 3;
    let f = (153 * mm + 2) / 5;
    assert(greg_jdn_of(y, m, d) == d + f + g_days(yy) - 32045);
    lemma_div_is_ordered(2, 153 * mm + 2, 5);
    assert(2int / 5 == 0);
    if a == 1 {
        if mm == 10 {
            assert(f == 306);
        } else {
            assert(mm == 11);
            assert(f == 337);
        }
        assert(4800 <= yy <= MAX_YEAR as int + 4799);
        lemma_g_mono(4800, yy);
        assert(g_days(4800) == 1753164);
        lemma_g_mono(yy, 4004799);
        assert(g_days(4004799) == 1462722798);
    } else {
        assert(0 <= mm <= 9);
        lemma_div_is_ordered(153 * mm + 2, 1379, 5);
        assert(1379int / 5 == 275);
        assert(4801 <= yy <= 4004800);
        lemma_g_mono(4801, yy);
        assert(g_days(4801) == 1753529);
        lemma_g_mono(yy, 4004800);
        assert(g_days(4004800) == 1462723164);
    }
}

/// Everything the decomposition of a day number in the supported range
/// guarantees: it yields a valid Gregorian date, and `greg_jdn_of` of
/// that date gives the day number back, so the two conversion formulas
/// are mutually inverse in this direction too.
#[verifier::rlimit(60)]
pub proof fn lemma_greg_decompose(jd: int)
    requires
        GREG_MIN_JDN as int <= jd <= GREG_MAX_JDN as int,
    ensures
        ({
            let (y, m, d) = greg_ymd_of_jdn(jd);
            &&& greg_valid_ymd(y, m, d)
            &&& greg_jdn_of(y, m, d) == jd
        }),
{
    let l0 = jd + 68569;
    lemma_fundamental_div_mod(4 * l0, 146097);
    let n = 4 * l0 / 146097;
    let rem = 4 * l0 - 146097 * n;
    assert(0 <= rem < 146097);
    lemma_div_is_ordered(7158753, 4 * l0, 146097);
    assert(7158753int / 146097 == 49);
    assert(n >= 49);
    let c = n - 1;
    lemma_fundamental_div_mod(c, 4);
    let cq = c / 4;
    let c4 = c % 4;
    assert(0 <= c4 <= 3);
    lemma_fundamental_div_mod_converse_div(146097 * n + 3, 4, 36524 * (c + 1) + cq + 1, c4);
    let l1 = l0 - (146097 * n + 3) / 4;
    assert(rem == 3 + 4 * l1 - c4);
    assert(0 <= l1 <= 36524);
    lemma_fundamental_div_mod(4000 * (l1 + 1), 1461001);
    let i = 4000 * (l1 + 1) / 1461001;
    let ri = 4000 * (l1 + 1) - 1461001 * i;
    assert(0 <= ri < 1461001);
    lemma_div_is_ordered(4000 * (l1 + 1), 146100000, 1461001);
    assert(146100000int / 1461001 == 99);
    assert(0 <= i <= 99);
    let s = i;
    lemma_fundamental_div_mod(s, 4);
    let sq = s / 4;
    let s4 = s % 4;
    assert(0 <= s4 <= 3);
    lemma_fundamental_div_mod_converse_div(1461 * s, 4, 365 * s + sq, s4);
    let l2 = l1 - 1461 * i / 4 + 31;
    let w = l2 - 31;
    assert(l1 == 365 * s + sq + w);
    assert(1461 * s < 4 * (l1 + 1)) by {
        if 1461 * s >= 4 * (l1 + 1) {
            assert(1461000 * s >= 4000 * (l1 + 1));
            assert(1461001 * s == 1461000 * s + s);
            assert(s <= 0);
            assert(s == 0);
            assert(false);
        }
    };
    assert(w >= 0);
    assert(4000 * l1 <= 1461001 * s + 1457000);
    assert(4000 * w <= s + 1000 * s4 + 1457000);
    assert(w <= 365);
    if w == 365 {
        assert(1000 * s4 >= 2901);
        assert(s4 == 3);
        if s == 99 {
            assert(sq == 24);
            assert(l1 == 36524);
            assert(rem == 146099 - c4);
            assert(c4 == 3);
        }
    }
    assert(31 <= l2 <= 396);
    lemma_fundamental_div_mod(80 * l2, 2447);
    let j = 80 * l2 / 2447;
    assert(2447 * j <= 80 * l2 < 2447 * (j + 1));
    lemma_div_is_ordered(2447, 80 * l2, 2447);
    assert(2447int / 2447 == 1);
    lemma_div_is_ordered(80 * l2, 31680, 2447);
    assert(31680int / 2447 == 12);
    assert(1 <= j <= 12);
    let mm = j - 1;
    lemma_fundamental_div_mod(153 * mm + 2, 5);
    let f = (153 * mm + 2) / 5;
    let rf = (153 * mm + 2) % 5;
    assert(0 <= rf < 5);
    assert(80 * f == 2448 * mm + 32 - 16 * rf);
    lemma_fundamental_div_mod_converse_div(2447 * (mm + 1), 80, f + 30, 15 - mm + 16 * rf);
    let d = l2 - 2447 * j / 80;
    assert(2447 * j / 80 == f + 30);
    assert(w == f + d - 1);
    assert(d >= 1) by {
        if d <= 0 {
            assert(80 * l2 <= 80 * (f + 30));
            assert(2447 * (mm + 1) == 80 * (f + 30) + 15 - mm + 16 * rf);
            assert(15 - mm + 16 * rf >= 4);
            assert(false);
        }
    };
    assert(80 * d < 2462 - mm + 16 * rf);
    assert(d <= 31);
    let l3 = j / 11;
    if j <= 10 {
        lemma_div_is_ordered(0, j, 11);
        lemma_div_is_ordered(j, 10, 11);
        assert(0int / 11 == 0);
        assert(10int / 11 == 0);
        assert(l3 == 0);
    } else {
        assert(j == 11 || j == 12);
        assert(11int / 11 == 1);
        assert(12int / 11 == 1);
        assert(l3 == 1);
    }
    let m = j + 2 - 12 * l3;
    assert(1 <= m <= 12);
    let y = 100 * (n - 49) + i + l3;
    let a = if m <= 2 {
        1int
    } else {
        0int
    };
    assert(a == l3);
    assert(mm == m + 12 * a - 3);
    let yy = y + 4800 - a;
    assert(yy == 100 * c + s);
    lemma_fundamental_div_mod_converse_div(yy, 100, c, s);
    lemma_fundamental_div_mod_converse_mod(yy, 100, c, s);
    lemma_fundamental_div_mod_converse_div(yy, 4, 25 * c + sq, s4);
    lemma_fundamental_div_mod_converse_mod(yy, 4, 25 * c + sq, s4);
    lemma_fundamental_div_mod_converse_div(yy, 400, cq, 100 * c4 + s);
    lemma_fundamental_div_mod_converse_mod(yy, 400, cq, 100 * c4 + s);
    assert(g_days(yy) == 365 * yy + 25 * c + sq - c + cq);
    assert(greg_jdn_of(y, m, d) == d + f + g_days(yy) - 32045);
    assert(4 * g_days(yy) == 146097 * c + 1461 * s - s4 - c4);
    assert(4 * greg_jdn_of(y, m, d) == 4 * jd);
    assert(greg_jdn_of(y, m, d) == jd);
    // the day lies within its month
    if m == 2 {
        assert(mm == 11);
        assert(rf == 0);
        assert(f == 337);
        assert(d <= 29);
        if d == 29 {
            assert(w == 365);
            assert(yy % 4 == 3);
            lemma_fundamental_div_mod_converse_mod(y, 4, yy / 4 - 1199, 0);
            assert(y % 4 == 0);
            if y % 100 == 0 {
                assert(s == 99) by {
                    if s <= 98 {
                        lemma_fundamental_div_mod_converse_mod(y, 100, c - 48, s + 1);
                        assert(y % 100 == s + 1);
                        assert(false);
                    }
                };
                assert(c4 == 3);
                assert(yy % 400 == 399);
                lemma_fundamental_div_mod_converse_mod(y, 400, yy / 400 - 11, 0);
                assert(y % 400 == 0);
            }
            assert(greg_is_leap(y));
        }
        assert(1 <= d <= greg_days_in_month(y, m));
    } else if m == 4 || m == 6 || m == 9 || m == 11 {
        assert(mm == 1 || mm == 3 || mm == 6 || mm == 8);
        assert(rf == 0 || rf == 1);
        assert(d <= 30);
        assert(1 <= d <= greg_days_in_month(y, m));
    } else {
        assert(1 <= d <= greg_days_in_month(y, m));
    }
    // the year lies within the supported span
    assert(y >= 0);
    assert(y >= 1) by {
        if y == 0 {
            assert(n == 49 && i == 0 && l3 == 0);
            assert(a == 0);
            assert(yy == 4800);
            assert(0 <= mm <= 9);
            lemma_div_is_ordered(153 * mm + 2, 1379, 5);
            assert(1379int / 5 == 275);
            assert(f <= 275);
            assert(g_days(4800) == 1753164);
            assert(jd <= 31 + 275 + 1753164 - 32045);
            assert(false);
        }
    };
    assert(y <= MAX_YEAR as int) by {
        if y > MAX_YEAR as int {
            if a == 1 {
                assert(mm == 10 || mm == 11);
                assert(f >= 306);
                assert(yy >= 4004800);
                lemma_g_mono(4004800, yy);
                assert(g_days(4004800) == 1462723164);
                assert(jd >= 1 + 306 + 1462723164 - 32045);
                assert(false);
            } else {
                assert(yy >= 4004801);
                lemma_div_is_ordered(2, 153 * mm + 2, 5);
                assert(2int / 5 == 0);
                assert(f >= 0);
                lemma_g_mono(4004801, yy);
                assert(g_days(4004801) == 1462723529);
                assert(jd >= 1 + 1462723529 - 32045);
                assert(false);
            }
        }
    };
    assert(greg_valid_ymd(y, m, d));
    assert(greg_ymd_of_jdn(jd) == (y, m, d));
}

/// Division facts for one month slot of the decomposition: with the day
/// offset `w` inside the month of shifted index `mmv`, the `2447/80`
/// divisions recover the month index and the day.
proof fn lemma_greg_slot(mmv: int, fv: int, dmax: int, d: int, w: int, l2: int)
    requires
        0 <= mmv <= 11,
        fv == (153 * mmv + 2) / 5,
        w == fv + d - 1,
        1 <= d <= dmax,
        80 * (fv + dmax + 30) < 2447 * (mmv + 2),
        l2 == w + 31,
    ensures
        80 * l2 / 2447 == mmv + 1,
        2447 * (mmv + 1) / 80 == fv + 30,
        l2 - 2447 * (mmv + 1) / 80 == d,
{
    lemma_fundamental_div_mod(153 * mmv + 2, 5);
    let rf = (153 * mmv + 2) % 5;
    assert(0 <= rf < 5);
    assert(80 * fv == 2448 * mmv + 32 - 16 * rf);
    assert(2447 * (mmv + 1) <= 80 * l2);
    assert(80 * l2 < 2447 * (mmv + 2));
    lemma_fundamental_div_mod_converse_div(80 * l2, 2447, mmv + 1, 80 * l2 - 2447 * (mmv + 1));
    lemma_fundamental_div_mod_converse_div(2447 * (mmv + 1), 80, fv + 30, 15 - mmv + 16 * rf);
}

/// Decomposing the day number of a valid Gregorian date gives that date
/// back: the two conversion formulas are mutually inverse.
#[verifier::rlimit(60)]
pub proof fn lemma_gregorian_round_trip(y: int, m: int, d: int)
    requires
        greg_valid_ymd(y, m, d),
    ensures
        greg_ymd_of_jdn(greg_jdn_of(y, m, d)) == (y, m, d),
{
    let a = if m <= 2 {
        1int
    } else {
        0int
    };
    let yy = y + 4800 - a;
    let mm = m + 12 * a - 3;
    let f = (153 * mm + 2) / 5;
    let w = f + d - 1;
    let jd = greg_jdn_of(y, m, d);
    assert(jd == w + 1 + g_days(yy) - 32045);
    assert(0 <= w <= 365 && (w == 365 ==> m == 2 && d == 29 && greg_is_leap(y))) by {
        if m == 1 {
            assert(mm == 10);
        } else if m == 2 {
            assert(mm == 11);
        } else if m == 3 {
            assert(mm == 0);
        } else if m == 4 {
            assert(mm == 1);
        } else if m == 5 {
            assert(mm == 2);
        } else if m == 6 {
            assert(mm == 3);
        } else if m == 7 {
            assert(mm == 4);
        } else if m == 8 {
            assert(mm == 5);
        } else if m == 9 {
            assert(mm == 6);
        } else if m == 10 {
            assert(mm == 7);
        } else if m == 11 {
            assert(mm == 8);
        } else {
            assert(mm == 9);
        }
    };
    // the century decomposition of the shifted year
    lemma_fundamental_div_mod(yy, 100);
    let c = yy / 100;
    let s = yy % 100;
    assert(0 <= s <= 99);
    lemma_fundamental_div_mod(s, 4);
    let sq = s / 4;
    let s4 = s % 4;
    lemma_fundamental_div_mod(c, 4);
    let cq = c / 4;
    let c4 = c % 4;
    assert(c >= 47);
    lemma_fundamental_div_mod_converse_div(yy, 4, 25 * c + sq, s4);
    lemma_fundamental_div_mod_converse_mod(yy, 4, 25 * c + sq, s4);
    lemma_fundamental_div_mod_converse_div(yy, 400, cq, 100 * c4 + s);
    lemma_fundamental_div_mod_converse_mod(yy, 400, cq, 100 * c4 + s);
    assert(g_days(yy) == 365 * yy + 25 * c + sq - c + cq);
    if w == 365 {
        lemma_fundamental_div_mod(y, 4);
        assert(y % 4 == 0);
        lemma_fundamental_div_mod_converse_mod(yy, 4, y / 4 + 1199, 3);
        assert(s4 == 3);
        if s == 99 {
            lemma_fundamental_div_mod_converse_mod(y, 100, c - 47, 0);
            assert(y % 100 == 0);
            assert(y % 400 == 0);
            lemma_fundamental_div_mod(y, 400);
            lemma_fundamental_div_mod_converse_mod(yy, 400, y / 400 + 11, 399);
            assert(100 * c4 + s == 399);
            assert(c4 == 3);
        }
    }
    // century recovery
    let l0 = jd + 68569;
    let e = 4 * l0 - 146097 * (c + 1);
    assert(e == 3 + 1461 * s + 4 * w - s4 - c4);
    assert(0 <= e < 146097) by {
        if s == 0 {
            assert(s4 == 0);
        }
        if s == 99 {
            assert(s4 == 3);
        }
    };
    lemma_fundamental_div_mod_converse_div(4 * l0, 146097, c + 1, e);
    let n = 4 * l0 / 146097;
    assert(n == c + 1);
    // within-century day offset
    lemma_fundamental_div_mod_converse_div(
        146097 * (c + 1) + 3,
        4,
        36524 * (c + 1) + cq + 1,
        c4,
    );
    let l1 = l0 - (146097 * n + 3) / 4;
    assert(l1 == 365 * s + sq + w);
    // year-of-century recovery
    let x2 = 4000 * (l1 + 1);
    let r2 = x2 - 1461001 * s;
    assert(r2 == 4000 * w + 4000 - s - 1000 * s4);
    assert(0 <= r2 < 1461001) by {
        if w == 365 {
            assert(s4 == 3);
        }
    };
    lemma_fundamental_div_mod_converse_div(x2, 1461001, s, r2);
    let i = x2 / 1461001;
    assert(i == s);
    // within-year day offset
    lemma_fundamental_div_mod_converse_div(1461 * s, 4, 365 * s + sq, s4);
    let l2 = l1 - 1461 * i / 4 + 31;
    assert(l2 == w + 31);
    // month and day recovery, one slot per month
    if m == 1 {
        lemma_greg_slot(10, 306, 31, d, w, l2);
    } else if m == 2 {
        lemma_greg_slot(11, 337, 29, d, w, l2);
    } else if m == 3 {
        lemma_greg_slot(0, 0, 31, d, w, l2);
    } else if m == 4 {
        lemma_greg_slot(1, 31, 30, d, w, l2);
    } else if m == 5 {
        lemma_greg_slot(2, 61, 31, d, w, l2);
    } else if m == 6 {
        lemma_greg_slot(3, 92, 30, d, w, l2);
    } else if m == 7 {
        lemma_greg_slot(4, 122, 31, d, w, l2);
    } else if m == 8 {
        lemma_greg_slot(5, 153, 31, d, w, l2);
    } else if m == 9 {
        lemma_greg_slot(6, 184, 30, d, w, l2);
    } else if m == 10 {
        lemma_greg_slot(7, 214, 31, d, w, l2);
    } else if m == 11 {
        lemma_greg_slot(8, 245, 30, d, w, l2);
    } else {
        lemma_greg_slot(9, 275, 31, d, w, l2);
    }
    let j = 80 * l2 / 2447;
    assert(j == mm + 1);
    let dd = l2 - 2447 * j / 80;
    assert(dd == d);
    let l3 = j / 11;
    if mm <= 9 {
        lemma_div_is_ordered(0, j, 11);
        lemma_div_is_ordered(j, 10, 11);
        assert(0int / 11 == 0);
        assert(10int / 11 == 0);
        assert(l3 == 0);
        assert(a == 0);
    } else {
        assert(j == 11 || j == 12);
        assert(11int / 11 == 1);
        assert(12int / 11 == 1);
        assert(l3 == 1);
        assert(a == 1);
    }
    assert(j + 2 - 12 * l3 == m);
    assert(100 * (n - 49) + i + l3 == y);
    assert(greg_ymd_of_jdn(jd) == (y, m, d));
}

proof fn lemma_greg_lt(y1: int, m1: int, d1: int, y2: int, m2: int, d2: int)
    requires
        greg_valid_ymd(y1, m1, d1),
        greg_valid_ymd(y2, m2, d2),
        ymd_before(y1, m1, d1, y2, m2, d2),
    ensures
        greg_jdn_of(y1, m1, d1) < greg_jdn_of(y2, m2, d2),
{
    let a1 = if m1 <= 2 {
        1int
    } else {
        0int
    };
    let yy1 = y1 + 4800 - a1;
    let mm1 = m1 + 12 * a1 - 3;
    let f1 = (153 * mm1 + 2) / 5;
    let w1 = f1 + d1 - 1;
    let a2 = if m2 <= 2 {
        1int
    } else {
        0int
    };
    let yy2 = y2 + 4800 - a2;
    let mm2 = m2 + 12 * a2 - 3;
    let f2 = (153 * mm2 + 2) / 5;
    let w2 = f2 + d2 - 1;
    assert(greg_jdn_of(y1, m1, d1) == w1 + 1 + g_days(yy1) - 32045);
    assert(greg_jdn_of(y2, m2, d2) == w2 + 1 + g_days(yy2) - 32045);
    assert(0 <= w1 <= 365 && (w1 == 365 ==> m1 == 2 && d1 == 29 && greg_is_leap(y1))) by {
        if m1 == 1 {
            assert(mm1 == 10);
        } else if m1 == 2 {
            assert(mm1 == 11);
        } else {
            assert(3 <= m1 <= 12);
            assert(0 <= mm1 <= 9);
            lemma_div_is_ordered(153 * mm1 + 2, 1379, 5);
            assert(1379int / 5 == 275);
            lemma_div_is_ordered(2, 153 * mm1 + 2, 5);
            assert(2int / 5 == 0);
        }
    };
    assert(w2 >= 0) by {
        lemma_div_is_ordered(2, 153 * mm2 + 2, 5);
        assert(2int / 5 == 0);
    };
    if yy1 == yy2 {
        if m1 == m2 {
            assert(d1 < d2);
            assert(w1 < w2);
        } else {
            assert(mm1 < mm2);
            lemma_div_is_ordered(153 * (mm1 + 1) + 2, 153 * mm2 + 2, 5);
            assert(f1 + d1 <= (153 * (mm1 + 1) + 2) / 5) by {
                if m1 == 1 {
                    assert(mm1 == 10);
                } else if m1 == 2 {
                    assert(mm1 == 11);
                } else if m1 == 3 {
                    assert(mm1 == 0);
                } else if m1 == 4 {
                    assert(mm1 == 1);
                } else if m1 == 5 {
                    assert(mm1 == 2);
                } else if m1 == 6 {
                    assert(mm1 == 3);
                } else if m1 == 7 {
                    assert(mm1 == 4);
                } else if m1 == 8 {
                    assert(mm1 == 5);
                } else if m1 == 9 {
                    assert(mm1 == 6);
                } else if m1 == 10 {
                    assert(mm1 == 7);
                } else if m1 == 11 {
                    assert(mm1 == 8);
                } else {
                    assert(mm1 == 9);
                }
            };
            assert(w1 < w2);
        }
        assert(greg_jdn_of(y1, m1, d1) < greg_jdn_of(y2, m2, d2));
    } else {
        assert(yy1 < yy2);
        if w1 == 365 {
            assert(yy1 == y1 + 4799);
            lemma_g_succ(yy1);
            assert(g_days(yy1 + 1) == g_days(yy1) + 366);
            lemma_g_mono(yy1 + 1, yy2);
        } else {
            lemma_g_mono(yy1, yy2);
        }
        assert(greg_jdn_of(y1, m1, d1) < greg_jdn_of(y2, m2, d2));
    }
}

/// One Gregorian date lies chronologically before another exactly when
/// its Julian Day Number is smaller.
pub proof fn lemma_gregorian_monotonic(y1: int, m1: int, d1: int, y2: int, m2: int, d2: int)
    requires
        greg_valid_ymd(y1, m1, d1),
        greg_valid_ymd(y2, m2, d2),
    ensures
        ymd_before(y1, m1, d1, y2, m2, d2) <==> greg_jdn_of(y1, m1, d1) < greg_jdn_of(y2, m2, d2),
{
    if ymd_before(y1, m1, d1, y2, m2, d2) {
        lemma_greg_lt(y1, m1, d1, y2, m2, d2);
    } else if y1 == y2 && m1 == m2 && d1 == d2 {
        assert(greg_jdn_of(y1, m1, d1) == greg_jdn_of(y2, m2, d2));
    } else {
        assert(ymd_before(y2, m2, d2, y1, m1, d1));
        lemma_greg_lt(y2, m2, d2, y1, m1, d1);
    }
}

/// English month names, 1 = January .. 12 = December.
pub open spec fn greg_month_name_of(m: int) -> Seq<char> {
    if m == 1 {
        "January"@
    } else if m == 2 {
        "February"@
    } else if m == 3 {
        "March"@
    } else if m == 4 {
        "April"@
    } else if m == 5 {
        "May"@
    } else if m == 6 {
        "June"@
    } else if m == 7 {
        "July"@
    } else if m == 8 {
        "August"@
    } else if m == 9 {
        "September"@
    } else if m == 10 {
        "October"@
    } else if m == 11 {
        "November"@
    } else if m == 12 {
        "December"@
    } else {
        Seq::empty()
    }
}

/// English weekday names, Monday-first.
pub open spec fn greg_day_name_of(w: int) -> Seq<char> {
    if w == 1 {
        "Monday"@
    } else if w == 2 {
        "Tuesday"@
    } else if w == 3 {
        "Wednesday"@
    } else if w == 4 {
        "Thursday"@
    } else if w == 5 {
        "Friday"@
    } else if w == 6 {
        "Saturday"@
    } else if w == 7 {
        "Sunday"@
    } else {
        Seq::empty()
    }
}

/// The Gregorian converter; it carries one Gregorian date.
pub struct GregorianCalendar {
    pub date: Date,
}

fn greg_month_label(m: u32) -> (r: String)
    requires
        1 <= m <= 12,
    ensures
        r@ == greg_month_name_of(m as int),
{
    match m {
        1 => "January".to_owned(),
        2 => "February".to_owned(),
        3 => "March".to_owned(),
        4 => "April".to_owned(),
        5 => "May".to_owned(),
        6 => "June".to_owned(),
        7 => "July".to_owned(),
        8 => "August".to_owned(),
        9 => "September".to_owned(),
        10 => "October".to_owned(),
        11 => "November".to_owned(),
        _ => "December".to_owned(),
    }
}

fn greg_day_label(w: u32) -> (r: String)
    requires
        1 <= w <= 7,
    ensures
        r@ == greg_day_name_of(w as int),
{
    match w {
        1 => "Monday".to_owned(),
        2 => "Tuesday".to_owned(),
        3 => "Wednesday".to_owned(),
        4 => "Thursday".to_owned(),
        5 => "Friday".to_owned(),
        6 => "Saturday".to_owned(),
        _ => "Sunday".to_owned(),
    }
}

fn greg_leap_exec(y: u32) -> (r: bool)
    ensures
        r == greg_is_leap(y as int),
{
    y % 4 == 0 && (y % 100 != 0 || y % 400 == 0)
}

fn greg_days_in_month_exec(y: u32, m: u32) -> (r: u32)
    requires
        1 <= m <= 12,
    ensures
        r as int == greg_days_in_month(y as int, m as int),
{
    if m == 2 {
        if greg_leap_exec(y) {
            29
        } else {
            28
        }
    } else if m == 4 || m == 6 || m == 9 || m == 11 {
        30
    } else {
        31
    }
}

fn greg_jdn_exec(y: u32, m: u32, d: u32) -> (r: u32)
    requires
        greg_valid_ymd(y as int, m as int, d as int),
    ensures
        r as int == greg_jdn_of(y as int, m as int, d as int),
{
    let a: u64 = if m <= 2 {
        1
    } else {
        0
    };
    let yy: u64 = y as u64 + 4800 - a;
    let mm: u64 = m as u64 + 12 * a - 3;
    let r: u64 = d as u64 + (153 * mm + 2) / 5 + 365 * yy + yy / 4 - yy / 100 + yy / 400 - 32045;
    r as u32
}

impl GregorianCalendar {
    /// Builds the converter around the given Gregorian date, rejecting a
    /// month outside 1..=12 as `OutOfRange` and any other non-date
    /// (day 30 in February, year 0 or past `MAX_YEAR`) as `InvalidDate`.
    pub fn new(year: u32, month: u32, day: u32) -> (r: Result<GregorianCalendar, CalendarError>)
        ensures
            r is Ok <==> greg_valid_ymd(year as int, month as int, day as int),
            r is Ok ==> ({
                let c = r->Ok_0;
                &&& c.wf()
                &&& c.current().year == year as int
                &&& c.current().month == month as int
                &&& c.current().day == day as int
            }),
            !(1 <= month <= 12) ==> r == Err::<GregorianCalendar, CalendarError>(
                CalendarError::OutOfRange,
            ),
            (1 <= month <= 12 && !greg_valid_ymd(year as int, month as int, day as int)) ==> r
                == Err::<GregorianCalendar, CalendarError>(CalendarError::InvalidDate),
    {
        if month < 1 || month > 12 {
            return Err(CalendarError::OutOfRange);
        }
        if year < 1 || year > MAX_YEAR {
            return Err(CalendarError::InvalidDate);
        }
        let dim = greg_days_in_month_exec(year, month);
        if day < 1 || day > dim {
            return Err(CalendarError::InvalidDate);
        }
        let jd = greg_jdn_exec(year, month, day);
        let mn = greg_month_label(month);
        let dn = greg_day_label(weekday_from_jdn(jd));
        Ok(GregorianCalendar { date: Date::make(year, month, day, mn, dn) })
    }

    /// The held date, as a fresh value.
    pub fn today(&self) -> (r: Date)
        ensures
            r@ == self.current(),
    {
        self.date.clone()
    }
}

impl Calendar for GregorianCalendar {
    open spec fn current(&self) -> DateModel {
        self.date@
    }

    open spec fn wf(&self) -> bool {
        &&& greg_valid_ymd(self.date@.year, self.date@.month, self.date@.day)
        &&& self.date@.month_name == greg_month_name_of(self.date@.month)
        &&& self.date@.day_name == greg_day_name_of(
            weekday_of_jdn(greg_jdn_of(self.date@.year, self.date@.month, self.date@.day)),
        )
    }

    open spec fn valid_ymd(y: int, m: int, d: int) -> bool {
        greg_valid_ymd(y, m, d)
    }

    open spec fn jdn_of(y: int, m: int, d: int) -> int {
        greg_jdn_of(y, m, d)
    }

    open spec fn ymd_of_jdn(jd: int) -> (int, int, int) {
        greg_ymd_of_jdn(jd)
    }

    open spec fn month_count() -> int {
        12
    }

    open spec fn month_name_of(m: int) -> Seq<char> {
        greg_month_name_of(m)
    }

    open spec fn day_name_of(w: int) -> Seq<char> {
        greg_day_name_of(w)
    }

    open spec fn min_jdn() -> int {
        GREG_MIN_JDN as int
    }

    fn jdn(&self) -> (r: u32) {
        greg_jdn_exec(self.date.year(), self.date.month(), self.date.day())
    }

    fn jdn_to_date(&self, jd: u32) -> (r: Date) {
        let l0: u64 = jd as u64 + 68569;
        let n: u64 = 4 * l0 / 146097;
        proof {
            lemma_fundamental_div_mod(4 * l0 as int, 146097);
        }
        let q1: u64 = (146097 * n + 3) / 4;
        proof {
            let rem = 4 * (l0 as int) - 146097 * (n as int);
            assert(0 <= rem < 146097);
            let t = 3 - rem;
            lemma_fundamental_div_mod(t, 4);
            lemma_fundamental_div_mod_converse_div(
                4 * (l0 as int) + t,
                4,
                l0 as int + t / 4,
                t % 4,
            );
            assert(146097 * (n as int) + 3 == 4 * (l0 as int) + t);
            assert(q1 as int == l0 as int + t / 4);
            lemma_div_is_ordered(-146093, t, 4);
            assert((-146093) / 4 == -36524);
            lemma_div_is_ordered(t, 3, 4);
            assert(3int / 4 == 0);
            assert(-36524 <= t / 4 <= 0);
        }
        let l1: u64 = l0 - q1;
        assert(l1 <= 36524);
        let i: u64 = 4000 * (l1 + 1) / 1461001;
        proof {
            lemma_div_is_ordered(4000 * (l1 as int + 1), 146100000, 1461001);
            assert(146100000int / 1461001 == 99);
            lemma_fundamental_div_mod(4000 * (l1 as int + 1), 1461001);
            assert(1461001 * (i as int) <= 4000 * (l1 as int + 1));
            assert(1461 * (i as int) < 4 * (l1 as int + 1)) by {
                if 1461 * (i as int) >= 4 * (l1 as int + 1) {
                    assert(1461000 * (i as int) >= 4000 * (l1 as int + 1));
                    assert(1461001 * (i as int) == 1461000 * (i as int) + i as int);
                    assert(i as int <= 0);
                    assert(i == 0);
                    assert(false);
                }
            };
        }
        assert(i <= 99);
        let p: u64 = 1461 * i / 4;
        proof {
            lemma_fundamental_div_mod(1461 * (i as int), 4);
            lemma_div_is_ordered(1461 * (i as int), 4 * (l1 as int) + 3, 4);
            lemma_fundamental_div_mod_converse_div(4 * (l1 as int) + 3, 4, l1 as int, 3);
            assert(p <= l1);
            // upper bound: l1 - p <= 365
            assert(4000 * (l1 as int) < 1461001 * (i as int) + 1457001);
            assert(4 * (p as int) >= 1461 * (i as int) - 3);
            assert(4000 * (p as int) >= 1461000 * (i as int) - 3000);
            assert(4000 * (l1 as int - p as int) <= i as int + 1460000);
            assert(l1 as int - p as int <= 365);
        }
        let l2: u64 = l1 + 31 - p;
        assert(31 <= l2 <= 396);
        let j: u64 = 80 * l2 / 2447;
        proof {
            lemma_div_is_ordered(2447, 80 * (l2 as int), 2447);
            assert(2447int / 2447 == 1);
            lemma_div_is_ordered(80 * (l2 as int), 31680, 2447);
            assert(31680int / 2447 == 12);
            lemma_fundamental_div_mod(80 * (l2 as int), 2447);
            assert(2447 * (j as int) <= 80 * (l2 as int));
            lemma_div_is_ordered(2447 * (j as int), 80 * (l2 as int), 80);
            lemma_fundamental_div_mod_converse_div(80 * (l2 as int), 80, l2 as int, 0);
        }
        assert(1 <= j <= 12);
        let q2: u64 = 2447 * j / 80;
        assert(q2 <= l2);
        let dd: u64 = l2 - q2;
        let l3: u64 = j / 11;
        proof {
            lemma_div_is_ordered(0, j as int, 11);
            lemma_div_is_ordered(j as int, 12, 11);
            assert(12int / 11 == 1);
            assert(0int / 11 == 0);
            if j <= 10 {
                lemma_div_is_ordered(j as int, 10, 11);
                assert(10int / 11 == 0);
            } else {
                lemma_div_is_ordered(11, j as int, 11);
                assert(11int / 11 == 1);
            }
        }
        let m: u64 = j + 2 - 12 * l3;
        assert(1 <= m <= 12);
        proof {
            lemma_div_is_ordered(7158753, 4 * (l0 as int), 146097);
            assert(7158753int / 146097 == 49);
            lemma_div_is_ordered(4 * (l0 as int), 17180143456, 146097);
            assert(17180143456int / 146097 == 117594);
        }
        let y: u64 = 100 * (n - 49) + i + l3;
        assert(y < 0x1_0000_0000);
        let mn = greg_month_label(m as u32);
        let dn = greg_day_label(weekday_from_jdn(jd));
        Date::make(y as u32, m as u32, dd as u32, mn, dn)
    }

    fn month_name(month_n: u32) -> (r: Result<String, CalendarError>) {
        if 1 <= month_n && month_n <= 12 {
            Ok(greg_month_label(month_n))
        } else {
            Err(CalendarError::OutOfRange)
        }
    }

    fn day_name(day_n: u32) -> (r: Result<String, CalendarError>) {
        if 1 <= day_n && day_n <= 7 {
            Ok(greg_day_label(day_n))
        } else {
            Err(CalendarError::OutOfRange)
        }
    }
}

} // verus!
