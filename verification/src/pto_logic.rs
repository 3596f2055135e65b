//! The PTO hours engine.
//!
//! [`calculate_pto_hours`] walks every calendar day of an inclusive date
//! range, credits eight hours for each Monday through Friday, and deducts
//! the hours of every holiday record dated inside the range. A reversed
//! range (start after end) yields zero. [`calculate_hours_per_day`] divides
//! a total by the number of inclusive calendar days, giving zero for an
//! empty or reversed range instead of failing.
//!
//! All arithmetic is exact decimal arithmetic; contracts speak of the
//! rational values involved.

use vstd::prelude::*;
use vstd::arithmetic::div_mod::lemma_fundamental_div_mod;
use vstd::arithmetic::div_mod::lemma_fundamental_div_mod_converse;
use crate::date::Date;
use crate::date::MAX_DAY_NUMBER;
use crate::date::MIN_DAY_NUMBER;
use crate::date::is_workday;
use crate::date::weekday_of;
use crate::decimal::Dec;
use crate::decimal::Rat;
use crate::decimal::lemma_div_trunc_exact;
use crate::decimal::lemma_rat_add_eq_left;
use crate::decimal::lemma_rat_add_wf;
use crate::decimal::lemma_rat_eq_trans;
use crate::decimal::lemma_rat_sub_eq;
use crate::decimal::lemma_rat_sub_of_add;
use crate::decimal::quotient_extra;
use crate::decimal::rat_add;
use crate::decimal::rat_div_int;
use crate::decimal::rat_div_trunc;
use crate::decimal::rat_eq;
use crate::decimal::rat_from_int;
use crate::decimal::rat_sub;
use crate::decimal::rat_wf;
use crate::digits::pow10;

verus! {

/// How many Monday-through-Friday days the inclusive day-number range
/// holds.
pub open spec fn workday_count(lo: int, hi: int) -> int
    decreases hi - lo + 1,
{
    if lo > hi {
        0
    } else {
        workday_count(lo, hi - 1) + if is_workday(hi) {
            1int
        } else {
            0int
        }
    }
}

/// The total hours of the holiday records dated inside the inclusive
/// day-number range; records on one date all count.
pub open spec fn holiday_hours_sum(hs: Seq<(Date, Dec)>, lo: int, hi: int) -> Rat
    decreases hs.len(),
{
    if hs.len() == 0 {
        rat_from_int(0)
    } else {
        let rest = holiday_hours_sum(hs.drop_last(), lo, hi);
        if lo <= hs.last().0@ <= hi {
            rat_add(rest, hs.last().1@)
        } else {
            rest
        }
    }
}

/// What the calculator owes: eight hours per workday in the range, minus
/// the in-range holiday hours.
pub open spec fn pto_hours_spec(lo: int, hi: int, hs: Seq<(Date, Dec)>) -> Rat {
    rat_sub(rat_from_int(8 * workday_count(lo, hi)), holiday_hours_sum(hs, lo, hi))
}

/// What the averager owes: the hours split over the inclusive day count,
/// truncated after [`quotient_extra`] extra digits, and zero when the range
/// is reversed.
pub open spec fn hours_per_day_spec(h: Rat, scale: nat, lo: int, hi: int) -> Rat {
    if hi - lo + 1 <= 0 {
        rat_from_int(0)
    } else {
        rat_div_trunc(h, hi - lo + 1, quotient_extra(scale))
    }
}

/// Workday hours in the inclusive range from `start_date` to `end_date`,
/// minus the hours of every holiday dated inside it.
///
/// Eight hours are credited per Monday-through-Friday day; Saturdays and
/// Sundays credit nothing, and a holiday deducts whenever its date is in
/// range, weekday or not. The result may be negative, and a reversed range
/// gives zero.
pub fn calculate_pto_hours(start_date: &Date, end_date: &Date, holidays: &Vec<(Date, Dec)>) -> (r:
    Dec)
    ensures
        rat_eq(r@, pto_hours_spec(start_date@, end_date@, holidays@)),
        rat_wf(r@),
        start_date@ > end_date@ ==> rat_eq(r@, rat_from_int(0)),
{
    let s = start_date.day_number();
    let e = end_date.day_number();
    let mut workdays: u64 = 0;
    if s <= e {
        let mut cur: Date = *start_date;
        let mut n: i64 = s;
        proof {
            assert(workday_count(s as int, n - 1) == 0);
        }
        while n < e
            invariant
                s <= n <= e,
                e <= MAX_DAY_NUMBER,
                cur@ == n,
                workdays == workday_count(s as int, n - 1),
                workdays <= n - s,
            decreases e - n,
        {
            if cur.is_weekday() {
                workdays = workdays + 1;
            }
            proof {
                assert(workday_count(s as int, n as int) == workday_count(s as int, n - 1) + if is_workday(
                    n as int,
                ) {
                    1int
                } else {
                    0int
                });
            }
            cur = cur.next_day();
            n = n + 1;
        }
        if cur.is_weekday() {
            workdays = workdays + 1;
        }
        proof {
            assert(workday_count(s as int, e as int) == workday_count(s as int, e - 1) + if is_workday(
                e as int,
            ) {
                1int
            } else {
                0int
            });
        }
    }
    proof {
        assert(workdays == workday_count(s as int, e as int));
        assert(workdays <= (MAX_DAY_NUMBER - MIN_DAY_NUMBER + 1) as u64);
    }
    let base = Dec::from_u64(8 * workdays);
    let mut total = Dec::zero();
    let mut i: usize = 0;
    proof {
        assert(holidays@.take(0) =~= Seq::<(Date, Dec)>::empty());
        total.lemma_den();
    }
    while i < holidays.len()
        invariant
            i <= holidays@.len(),
            s == start_date@,
            e == end_date@,
            rat_eq(total@, holiday_hours_sum(holidays@.take(i as int), s as int, e as int)),
            rat_wf(total@),
        decreases holidays@.len() - i,
    {
        let h = &holidays[i];
        let ghost prev_sum = holiday_hours_sum(holidays@.take(i as int), s as int, e as int);
        proof {
            assert(holidays@.take(i + 1).drop_last() =~= holidays@.take(i as int));
            assert(holidays@.take(i + 1).last() == holidays@[i as int]);
            lemma_holiday_sum_wf(holidays@.take(i as int), s as int, e as int);
        }
        if start_date.le(&h.0) && h.0.le(end_date) {
            let t2 = total.add(&h.1);
            proof {
                t2.lemma_den();
                h.1.lemma_den();
                lemma_rat_add_eq_left(total@, prev_sum, h.1@);
                lemma_rat_add_wf(total@, h.1@);
                lemma_rat_add_wf(prev_sum, h.1@);
                lemma_rat_eq_trans(t2@, rat_add(total@, h.1@), rat_add(prev_sum, h.1@));
            }
            total = t2;
        }
        i = i + 1;
    }
    proof {
        assert(holidays@.take(holidays@.len() as int) =~= holidays@);
    }
    let r = base.sub(&total);
    proof {
        r.lemma_den();
        base.lemma_den();
        total.lemma_den();
        let hsum = holiday_hours_sum(holidays@, s as int, e as int);
        lemma_holiday_sum_wf(holidays@, s as int, e as int);
        lemma_rat_sub_eq(base@, base@, total@, hsum);
        lemma_rat_add_wf(base@, total@);
        lemma_rat_add_wf(base@, hsum);
        lemma_rat_eq_trans(r@, rat_sub(base@, total@), rat_sub(base@, hsum));
        assert(base@ == rat_from_int(8 * workday_count(s as int, e as int)));
        if start_date@ > end_date@ {
            lemma_empty_range_sum(holidays@, s as int, e as int);
            assert(pto_hours_spec(s as int, e as int, holidays@).num == 0);
            assert(pto_hours_spec(s as int, e as int, holidays@).den == 1);
        }
    }
    r
}

/// The hours spread over the inclusive day count of the range: an advisory
/// average. A reversed or empty day count gives zero rather than an error;
/// otherwise the division truncates toward zero once
/// [`quotient_extra`] extra decimal digits are reached.
pub fn calculate_hours_per_day(hours: &Dec, start_date: &Date, end_date: &Date) -> (r: Dec)
    ensures
        r@ == hours_per_day_spec(hours@, hours.scale_spec(), start_date@, end_date@),
        end_date@ < start_date@ ==> r@ == rat_from_int(0),
{
    let s = start_date.day_number();
    let e = end_date.day_number();
    let days: i64 = e - s + 1;
    if days <= 0 {
        return Dec::zero();
    }
    hours.div_round_down(days as u64)
}

/// The plan form's rule for the hours field: left blank, the hours are
/// derived from the calendar and the holiday records and the custom flag
/// stays off; filled in, the entered value is kept as an override and the
/// flag is set.
pub fn calculate_or_custom_hours(
    manual_hours: Option<Dec>,
    start_date: &Date,
    end_date: &Date,
    holidays: &Vec<(Date, Dec)>,
) -> (r: (Dec, bool))
    ensures
        manual_hours is None ==> rat_eq(
            r.0@,
            pto_hours_spec(start_date@, end_date@, holidays@),
        ) && r.1 == false,
        manual_hours is Some ==> r.0 == manual_hours->0 && r.1 == true,
{
    match manual_hours {
        None => (calculate_pto_hours(start_date, end_date, holidays), false),
        Some(h) => (h, true),
    }
}

/// Holidays never match a reversed range, so its deduction total is zero.
pub proof fn lemma_empty_range_sum(hs: Seq<(Date, Dec)>, lo: int, hi: int)
    requires
        lo > hi,
    ensures
        holiday_hours_sum(hs, lo, hi) == rat_from_int(0),
    decreases hs.len(),
{
    if hs.len() > 0 {
        lemma_empty_range_sum(hs.drop_last(), lo, hi);
    }
}

/// A holiday deduction total is a well-formed rational.
pub proof fn lemma_holiday_sum_wf(hs: Seq<(Date, Dec)>, lo: int, hi: int)
    ensures
        rat_wf(holiday_hours_sum(hs, lo, hi)),
    decreases hs.len(),
{
    if hs.len() > 0 {
        lemma_holiday_sum_wf(hs.drop_last(), lo, hi);
        if lo <= hs.last().0@ <= hi {
            hs.last().1.lemma_den();
            lemma_rat_add_wf(
                holiday_hours_sum(hs.drop_last(), lo, hi),
                hs.last().1@,
            );
        }
    }
}

/// The calculator's result is a well-formed rational.
pub proof fn lemma_pto_hours_wf(lo: int, hi: int, hs: Seq<(Date, Dec)>)
    ensures
        rat_wf(pto_hours_spec(lo, hi, hs)),
{
    lemma_holiday_sum_wf(hs, lo, hi);
    lemma_rat_add_wf(rat_from_int(8 * workday_count(lo, hi)), holiday_hours_sum(hs, lo, hi));
}

/// Over a range of workdays only — no Saturday, no Sunday — and with no
/// holidays, the calculator owes exactly eight hours per calendar day.
pub proof fn lemma_all_workdays_full_hours(lo: int, hi: int)
    requires
        lo <= hi,
        forall|n: int| lo <= n <= hi ==> is_workday(n),
    ensures
        workday_count(lo, hi) == hi - lo + 1,
        rat_eq(pto_hours_spec(lo, hi, Seq::<(Date, Dec)>::empty()), rat_from_int(8 * (hi - lo + 1))),
    decreases hi - lo,
{
    if lo == hi {
        assert(workday_count(lo, hi - 1) == 0);
    } else {
        lemma_all_workdays_full_hours(lo, hi - 1);
    }
    assert(holiday_hours_sum(Seq::<(Date, Dec)>::empty(), lo, hi) == rat_from_int(0));
}

/// A Monday-through-Sunday week with no holidays owes exactly forty hours:
/// the weekend days add nothing.
pub proof fn lemma_full_week_from_monday(d: int)
    requires
        weekday_of(d) == 0,
    ensures
        workday_count(d, d + 6) == 5,
        rat_eq(pto_hours_spec(d, d + 6, Seq::<(Date, Dec)>::empty()), rat_from_int(40)),
{
    let b = d + 719225;
    let q = b / 7;
    lemma_fundamental_div_mod(b, 7);
    assert(b == 7 * q);
    lemma_fundamental_div_mod_converse(b + 1, 7, q, 1);
    lemma_fundamental_div_mod_converse(b + 2, 7, q, 2);
    lemma_fundamental_div_mod_converse(b + 3, 7, q, 3);
    lemma_fundamental_div_mod_converse(b + 4, 7, q, 4);
    lemma_fundamental_div_mod_converse(b + 5, 7, q, 5);
    lemma_fundamental_div_mod_converse(b + 6, 7, q, 6);
    assert(weekday_of(d + 1) == 1);
    assert(weekday_of(d + 2) == 2);
    assert(weekday_of(d + 3) == 3);
    assert(weekday_of(d + 4) == 4);
    assert(weekday_of(d + 5) == 5);
    assert(weekday_of(d + 6) == 6);
    assert(workday_count(d, d - 1) == 0);
    assert(workday_count(d, d) == 1);
    assert(workday_count(d, d + 1) == 2);
    assert(workday_count(d, d + 2) == 3);
    assert(workday_count(d, d + 3) == 4);
    assert(workday_count(d, d + 4) == 5);
    assert(workday_count(d, d + 5) == 5);
    assert(workday_count(d, d + 6) == 5);
    assert(holiday_hours_sum(Seq::<(Date, Dec)>::empty(), d, d + 6) == rat_from_int(0));
}

/// A single-day range owes eight hours on a workday and zero on a weekend
/// day.
pub proof fn lemma_single_day(d: int)
    ensures
        rat_eq(
            pto_hours_spec(d, d, Seq::<(Date, Dec)>::empty()),
            if is_workday(d) {
                rat_from_int(8)
            } else {
                rat_from_int(0)
            },
        ),
{
    assert(workday_count(d, d - 1) == 0);
    assert(workday_count(d, d) == if is_workday(d) {
        1int
    } else {
        0int
    });
}

/// Appending a holiday dated inside the range deducts exactly its hours;
/// one dated outside changes nothing.
pub proof fn lemma_holiday_deduction(lo: int, hi: int, hs: Seq<(Date, Dec)>, h: (Date, Dec))
    ensures
        lo <= h.0@ <= hi ==> rat_eq(
            pto_hours_spec(lo, hi, hs.push(h)),
            rat_sub(pto_hours_spec(lo, hi, hs), h.1@),
        ),
        !(lo <= h.0@ <= hi) ==> pto_hours_spec(lo, hi, hs.push(h)) == pto_hours_spec(lo, hi, hs),
{
    assert(hs.push(h).drop_last() =~= hs);
    assert(hs.push(h).last() == h);
    if lo <= h.0@ <= hi {
        let base = rat_from_int(8 * workday_count(lo, hi));
        let sum = holiday_hours_sum(hs, lo, hi);
        lemma_holiday_sum_wf(hs, lo, hi);
        h.1.lemma_den();
        lemma_rat_sub_of_add(base, sum, h.1@);
    }
}

/// Two holidays on one in-range date both deduct: the deductions sum, they
/// do not override each other.
pub proof fn lemma_two_holidays_same_date(
    lo: int,
    hi: int,
    hs: Seq<(Date, Dec)>,
    h1: (Date, Dec),
    h2: (Date, Dec),
)
    requires
        h1.0@ == h2.0@,
        lo <= h1.0@ <= hi,
    ensures
        rat_eq(
            pto_hours_spec(lo, hi, hs.push(h1).push(h2)),
            rat_sub(rat_sub(pto_hours_spec(lo, hi, hs), h1.1@), h2.1@),
        ),
{
    lemma_holiday_deduction(lo, hi, hs, h1);
    lemma_holiday_deduction(lo, hi, hs.push(h1), h2);
    let p0 = pto_hours_spec(lo, hi, hs);
    let p1 = pto_hours_spec(lo, hi, hs.push(h1));
    let p2 = pto_hours_spec(lo, hi, hs.push(h1).push(h2));
    lemma_pto_hours_wf(lo, hi, hs);
    lemma_pto_hours_wf(lo, hi, hs.push(h1));
    lemma_pto_hours_wf(lo, hi, hs.push(h1).push(h2));
    h1.1.lemma_den();
    h2.1.lemma_den();
    lemma_rat_add_wf(p0, h1.1@);
    lemma_rat_add_wf(p1, h2.1@);
    lemma_rat_add_wf(rat_sub(p0, h1.1@), h2.1@);
    lemma_rat_sub_eq(p1, rat_sub(p0, h1.1@), h2.1@, h2.1@);
    lemma_rat_eq_trans(p2, rat_sub(p1, h2.1@), rat_sub(rat_sub(p0, h1.1@), h2.1@));
}

/// When the hours are exactly eight per inclusive calendar day, the
/// advisory average is exactly eight, whatever the range's length.
pub proof fn lemma_average_of_full_days(lo: int, hi: int)
    requires
        lo <= hi,
    ensures
        rat_eq(
            hours_per_day_spec(rat_from_int(8 * (hi - lo + 1)), 0, lo, hi),
            rat_from_int(8),
        ),
{
    let n = hi - lo + 1;
    let h = rat_from_int(8 * n);
    let extra = quotient_extra(0);
    let p = pow10(extra) as int;
    crate::digits::lemma_pow10_pos(extra);
    assert((8 * n) * p == (8 * p) * n + 0) by (nonlinear_arith);
    lemma_fundamental_div_mod_converse((8 * n) * p, n, 8 * p, 0);
    assert(h.num * p == (8 * n) * p);
    assert(h.num * p % n == 0);
    lemma_div_trunc_exact(h, n, extra);
    // the exact quotient (8n) / (1 * n) is eight
    assert(rat_eq(rat_div_int(h, n), rat_from_int(8))) by {
        assert((8 * n) * 1 == 8 * (1 * n)) by (nonlinear_arith);
    }
    lemma_rat_add_wf(h, h);
    assert(rat_wf(rat_div_trunc(h, n, extra))) by {
        assert(1 * p > 0) by (nonlinear_arith)
            requires
                p > 0,
        ;
    }
    assert(rat_wf(rat_div_int(h, n)));
    lemma_rat_eq_trans(rat_div_trunc(h, n, extra), rat_div_int(h, n), rat_from_int(8));
}

} // verus!
