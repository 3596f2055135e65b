//! Calendar dates for the PTO calculator.
//!
//! A [`Date`] holds the day number of a Gregorian calendar date: the count
//! of days since 1970-01-01. Construction goes through year, month and day
//! with full validity checking; afterwards ordering, stepping a day forward
//! and the weekday are plain integer work, so the calculator's loop can be
//! verified without ever consulting a calendar again.

use vstd::prelude::*;
use vstd::arithmetic::div_mod::lemma_div_is_ordered;
use vstd::arithmetic::div_mod::lemma_div_is_ordered_by_denominator;
use vstd::arithmetic::div_mod::lemma_div_pos_is_pos;
use vstd::arithmetic::div_mod::lemma_fundamental_div_mod;
use vstd::arithmetic::div_mod::lemma_mod_bound;

verus! {

/// The first supported year.
pub const MIN_YEAR: i32 = 1;

/// The last supported year.
pub const MAX_YEAR: i32 = 9999;

/// The day number of January 1st of year 1.
pub const MIN_DAY_NUMBER: i64 = -719162;

/// The day number of December 31st of year 9999.
pub const MAX_DAY_NUMBER: i64 = 2932896;

/// Whether a year has a February 29th.
pub open spec fn is_leap_year(y: int) -> bool {
    y % 4 == 0 && (y % 100 != 0 || y % 400 == 0)
}

/// How many days the given month of the given year has.
pub open spec fn days_in_month(y: int, m: int) -> int
    recommends
        1 <= m <= 12,
{
    if m == 2 {
        if is_leap_year(y) {
            29
        } else {
            28
        }
    } else if m == 4 || m == 6 || m == 9 || m == 11 {
        30
    } else {
        31
    }
}

/// A valid calendar date in the supported range of years.
pub open spec fn valid_ymd(y: int, m: int, d: int) -> bool {
    &&& MIN_YEAR <= y <= MAX_YEAR
    &&& 1 <= m <= 12
    &&& 1 <= d <= days_in_month(y, m)
}

/// The day number of a calendar date: days since 1970-01-01, by the usual
/// shifted-civil-year reckoning that starts years in March.
pub open spec fn day_number_of(y: int, m: int, d: int) -> int
    recommends
        valid_ymd(y, m, d),
{
    let yy = if m <= 2 {
        y - 1
    } else {
        y
    };
    let era = yy / 400;
    let yoe = yy - era * 400;
    let mp = if m > 2 {
        m - 3
    } else {
        m + 9
    };
    let doy = (153 * mp + 2) / 5 + d - 1;
    let doe = yoe * 365 + yoe / 4 - yoe / 100 + doy;
    era * 146097 + doe - 719468
}

/// The weekday of a day number: 0 is Monday through 6 is Sunday.
pub open spec fn weekday_of(n: int) -> int
    recommends
        n >= MIN_DAY_NUMBER,
{
    (n + 719225) % 7
}

/// Whether the day number falls on a Monday through Friday.
pub open spec fn is_workday(n: int) -> bool {
    weekday_of(n) < 5
}

/// A Gregorian calendar date, held as its day number.
#[derive(Clone, Copy)]
pub struct Date {
    days: i64,
}

impl View for Date {
    type V = int;

    /// The date's day number.
    closed spec fn view(&self) -> int {
        self.days as int
    }
}

impl Date {
    #[verifier::type_invariant]
    spec fn wf(self) -> bool {
        MIN_DAY_NUMBER <= self.days <= MAX_DAY_NUMBER
    }

    /// The date of the given year, month and day, or `None` when they name
    /// no valid date in the supported range.
    pub fn from_ymd(year: i32, month: u32, day: u32) -> (r: Option<Date>)
        ensures
            r is Some <==> valid_ymd(year as int, month as int, day as int),
            r is Some ==> r->0@ == day_number_of(year as int, month as int, day as int),
    {
        if year < MIN_YEAR || year > MAX_YEAR || month < 1 || month > 12 {
            return None;
        }
        let dim: u32 = if month == 2 {
            let leap = year % 4 == 0 && (year % 100 != 0 || year % 400 == 0);
            if leap {
                29
            } else {
                28
            }
        } else if month == 4 || month == 6 || month == 9 || month == 11 {
            30
        } else {
            31
        };
        if day < 1 || day > dim {
            return None;
        }
        let y: i64 = year as i64;
        let m: i64 = month as i64;
        let d: i64 = day as i64;
        let yy: i64 = if m <= 2 {
            y - 1
        } else {
            y
        };
        let era: i64 = yy / 400;
        proof {
            lemma_div_pos_is_pos(yy as int, 400);
            lemma_div_is_ordered(yy as int, 9999, 400);
            assert(9999int / 400 == 24);
        }
        let yoe: i64 = yy - era * 400;
        proof {
            lemma_fundamental_div_mod(yy as int, 400);
            lemma_mod_bound(yy as int, 400);
        }
        let mp: i64 = if m > 2 {
            m - 3
        } else {
            m + 9
        };
        let quot: i64 = (153 * mp + 2) / 5;
        proof {
            lemma_div_pos_is_pos(153 * (mp as int) + 2, 5);
            lemma_div_is_ordered(153 * (mp as int) + 2, 1685, 5);
            assert(1685int / 5 == 337);
        }
        let doy: i64 = quot + d - 1;
        proof {
            lemma_div_pos_is_pos(yoe as int, 4);
            lemma_div_is_ordered(yoe as int, 399, 4);
            lemma_div_pos_is_pos(yoe as int, 100);
            lemma_div_is_ordered(yoe as int, 399, 100);
            assert(399int / 4 == 99);
            assert(399int / 100 == 3);
        }
        let doe: i64 = yoe * 365 + yoe / 4 - yoe / 100 + doy;
        let days: i64 = era * 146097 + doe - 719468;
        proof {
            lemma_day_number_bounds(year as int, month as int, day as int);
        }
        Some(Date { days })
    }

    /// The day number, as run-time data.
    pub fn day_number(&self) -> (r: i64)
        ensures
            r == self@,
            MIN_DAY_NUMBER <= r <= MAX_DAY_NUMBER,
    {
        proof {
            use_type_invariant(self);
        }
        self.days
    }

    /// Whether this date is no later than the other.
    pub fn le(&self, other: &Date) -> (r: bool)
        ensures
            r == (self@ <= other@),
    {
        self.days <= other.days
    }

    /// The weekday: 0 is Monday through 6 is Sunday.
    pub fn weekday(&self) -> (r: u8)
        ensures
            r as int == weekday_of(self@),
            r < 7,
    {
        proof {
            use_type_invariant(self);
        }
        ((self.days + 719225) % 7) as u8
    }

    /// Whether this date falls on a Monday through Friday.
    pub fn is_weekday(&self) -> (r: bool)
        ensures
            r == is_workday(self@),
    {
        proof {
            use_type_invariant(self);
        }
        (self.days + 719225) % 7 < 5
    }

    /// The next calendar day.
    pub fn next_day(&self) -> (r: Date)
        requires
            self@ < MAX_DAY_NUMBER,
        ensures
            r@ == self@ + 1,
    {
        proof {
            use_type_invariant(self);
        }
        Date { days: self.days + 1 }
    }
}

/// The day-number formula stays within the supported range on valid dates.
proof fn lemma_day_number_bounds(y: int, m: int, d: int)
    requires
        valid_ymd(y, m, d),
    ensures
        MIN_DAY_NUMBER <= day_number_of(y, m, d) <= MAX_DAY_NUMBER,
{
    let yy = if m <= 2 {
        y - 1
    } else {
        y
    };
    assert(0 <= yy <= 9999);
    let era = yy / 400;
    assert(0 <= era) by {
        lemma_div_pos_is_pos(yy, 400);
    }
    assert(era <= 24) by {
        lemma_div_is_ordered(yy, 9999, 400);
        assert(9999int / 400 == 24);
    }
    let yoe = yy - era * 400;
    assert(0 <= yoe <= 399) by {
        lemma_fundamental_div_mod(yy, 400);
        lemma_mod_bound(yy, 400);
        assert(yoe == yy % 400);
    }
    let mp = if m > 2 {
        m - 3
    } else {
        m + 9
    };
    assert(0 <= mp <= 11);
    assert(1 <= d <= 31);
    let monthdays = (153 * mp + 2) / 5;
    assert(0 <= monthdays) by {
        lemma_div_pos_is_pos(153 * mp + 2, 5);
    }
    assert(monthdays <= 337) by {
        lemma_div_is_ordered(153 * mp + 2, 1685, 5);
        assert(1685int / 5 == 337);
    }
    let doy = monthdays + d - 1;
    assert(0 <= doy <= 367);
    assert(0 <= yoe / 4 <= 99) by {
        lemma_div_pos_is_pos(yoe, 4);
        lemma_div_is_ordered(yoe, 399, 4);
        assert(399int / 4 == 99);
    }
    assert(0 <= yoe / 100 <= yoe / 4) by {
        lemma_div_pos_is_pos(yoe, 100);
        lemma_div_is_ordered_by_denominator(yoe, 4, 100);
    }
    let doe = yoe * 365 + yoe / 4 - yoe / 100 + doy;
    let dn = era * 146097 + doe - 719468;
    assert(dn == day_number_of(y, m, d));
    // upper bound
    if era <= 23 {
        assert(yoe * 365 <= 399 * 365) by (nonlinear_arith)
            requires
                0 <= yoe <= 399,
        ;
        assert(era * 146097 <= 23 * 146097) by (nonlinear_arith)
            requires
                era <= 23,
        ;
        assert(dn <= MAX_DAY_NUMBER);
    } else {
        assert(era == 24);
        if yoe <= 398 {
            assert(yoe * 365 <= 398 * 365) by (nonlinear_arith)
                requires
                    0 <= yoe <= 398,
            ;
            assert(dn <= MAX_DAY_NUMBER);
        } else {
            assert(yoe == 399);
            assert(yy == 9999);
            assert(m > 2);
            assert(mp <= 9);
            assert(monthdays <= 275) by {
                lemma_div_is_ordered(153 * mp + 2, 1379, 5);
                assert(1379int / 5 == 275);
            }
            assert(399int / 4 == 99);
            assert(399int / 100 == 3);
            assert(doe <= 399 * 365 + 99 - 3 + 305);
            assert(dn <= MAX_DAY_NUMBER);
        }
    }
    // lower bound
    if yy == 0 {
        assert(era == 0);
        assert(yoe == 0);
        assert(m <= 2);
        assert(mp >= 10);
        assert(monthdays >= 306) by {
            lemma_div_is_ordered(1532, 153 * mp + 2, 5);
            assert(1532int / 5 == 306);
        }
        assert(doe >= 306);
        assert(dn >= MIN_DAY_NUMBER);
    } else {
        if era == 0 {
            assert(yoe == yy);
            assert(yoe >= 1);
            assert(yoe * 365 >= 365) by (nonlinear_arith)
                requires
                    yoe >= 1,
            ;
            assert(dn >= MIN_DAY_NUMBER);
        } else {
            assert(era * 146097 >= 146097) by (nonlinear_arith)
                requires
                    era >= 1,
            ;
            assert(yoe * 365 >= 0) by (nonlinear_arith)
                requires
                    yoe >= 0,
            ;
            assert(dn >= MIN_DAY_NUMBER);
        }
    }
}

} // verus!
