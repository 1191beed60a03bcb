//! Payment-schedule construction from day counts, and the calendar edge.
//!
//! The calendar itself is outside the verified core: parsing an ISO-8601
//! date and numbering its day is delegated to chrono. The core consumes only
//! integer day counts derived from those day numbers.

use vstd::prelude::*;

verus! {

use vstd::arithmetic::div_mod::lemma_div_is_ordered_by_denominator;
use crate::fixed::{spec_fmul, fmul, lemma_div_mul_le};

/// The day number of the proleptic Gregorian date written `s`, when `s` is a
/// valid `YYYY-MM-DD` date, counting January 1 of year 1 as day 1.
pub uninterp spec fn iso_date_num(s: Seq<char>) -> Option<int>;

/// Relies on chrono's `NaiveDate::parse_from_str` with the `%Y-%m-%d` format
/// to decide whether the string is a valid ISO-8601 calendar date, and on
/// `Datelike::num_days_from_ce` to turn the parsed date into its plain day
/// number. Both are pure functions of the string alone.
#[verifier::external_body]
pub(crate) fn parse_date_days(s: &str) -> (r: Option<i64>)
    ensures
        r is Some <==> iso_date_num(s@) is Some,
        r matches Some(d) ==> iso_date_num(s@) == Some(d as int),
        r matches Some(d) ==> i32::MIN <= d <= i32::MAX,
{
    match chrono::NaiveDate::parse_from_str(s, "%Y-%m-%d") {
        Ok(d) => Some(chrono::Datelike::num_days_from_ce(&d) as i64),
        Err(_) => None,
    }
}

/// The number of days from `from` to `to`, clamped at zero.
pub open spec fn spec_days_between(from: int, to: int) -> int {
    if to >= from {
        to - from
    } else {
        0
    }
}

/// Day difference of two day numbers, clamped at zero.
pub(crate) fn days_between(from: i64, to: i64) -> (r: u64)
    ensures
        r as int == spec_days_between(from as int, to as int),
{
    let d: i128 = (to as i128) - (from as i128);
    if d <= 0 {
        0
    } else {
        d as u64
    }
}

/// Length of a coupon period in days: a 366-day year split evenly.
pub open spec fn spec_period_days(ppy: int) -> int {
    366int / ppy
}

/// Number of coupon periods to maturity: days to maturity divided by the
/// period length, rounded up.
pub open spec fn spec_periods(days_to_mature: int, period_days: int) -> int {
    (days_to_mature + period_days - 1) / period_days
}

/// The identical per-period coupon amount,
/// `maturity_value * coupon_rate / payments_per_year / 100`.
pub open spec fn spec_coupon(mval: int, coupon_rate: int, ppy: int) -> int {
    spec_fmul(mval, coupon_rate) / ppy / 100
}

/// The coupon payments of a schedule: one identical amount per period.
pub open spec fn spec_schedule_payments(
    days_to_mature: int,
    period_days: int,
    mval: int,
    coupon_rate: int,
    ppy: int,
) -> Seq<u128> {
    Seq::new(
        spec_periods(days_to_mature, period_days) as nat,
        |i: int| spec_coupon(mval, coupon_rate, ppy) as u128,
    )
}

/// A bond's payment schedule: the per-period coupon amounts, the maturity
/// amount tracked separately, and the day counts that place the next coupon
/// inside its period.
pub struct PaymentSchedule {
    /// One identical coupon amount per period to maturity.
    pub payments: Vec<u128>,
    /// The redemption amount paid at maturity.
    pub maturity_value: u128,
    /// Days from today to the next coupon payment.
    pub days_to_next: u64,
    /// Days in one coupon period.
    pub period_days: u64,
}

/// Derives the payment schedule from day counts and contractual terms.
pub fn build_schedule(
    days_to_mature: u64,
    days_to_next: u64,
    payments_per_year: u32,
    maturity_value: u128,
    coupon_rate: u128,
) -> (s: PaymentSchedule)
    requires
        1 <= payments_per_year <= 366,
        days_to_mature <= u64::MAX - 366,
    ensures
        s.period_days as int == spec_period_days(payments_per_year as int),
        s.period_days >= 1,
        s.payments@ == spec_schedule_payments(
            days_to_mature as int,
            spec_period_days(payments_per_year as int),
            maturity_value as int,
            coupon_rate as int,
            payments_per_year as int,
        ),
        s.maturity_value == maturity_value,
        s.days_to_next == days_to_next,
{
    let period_days: u64 = 366 / (payments_per_year as u64);
    let ghost pd = spec_period_days(payments_per_year as int);
    proof {
        lemma_div_is_ordered_by_denominator(366, payments_per_year as int, 366);
        assert(period_days as int == pd);
    }
    let periods: u64 = (days_to_mature + period_days - 1) / period_days;
    proof {
        let dsum = days_to_mature as int + pd - 1;
        lemma_div_mul_le(dsum, pd);
    }
    let coupon: u128 = fmul(maturity_value, coupon_rate) / (payments_per_year as u128) / 100;
    let ghost target = spec_schedule_payments(
        days_to_mature as int,
        pd,
        maturity_value as int,
        coupon_rate as int,
        payments_per_year as int,
    );
    let mut payments: Vec<u128> = Vec::new();
    let mut i: u64 = 0;
    while i < periods
        invariant
            i <= periods,
            periods as int == spec_periods(days_to_mature as int, pd),
            coupon as int == spec_coupon(
                maturity_value as int,
                coupon_rate as int,
                payments_per_year as int,
            ),
            payments@.len() == i as nat,
            forall|j: int| 0 <= j < i as int ==> payments@[j] == coupon,
        decreases periods - i,
    {
        payments.push(coupon);
        i = i + 1;
    }
    proof {
        assert(payments@ =~= target);
    }
    PaymentSchedule {
        payments,
        maturity_value,
        days_to_next,
        period_days,
    }
}

} // verus!
