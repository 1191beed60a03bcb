//! Return aggregation: nominal cash flows plus reinvestment interest summed
//! into present value, gain and total return; and the simple current yield.

use vstd::prelude::*;

verus! {

use crate::fixed::{
    spec_fmul, spec_fdiv, spec_sadd, spec_smuln, spec_round2,
    fmul, fdiv, sadd, smuln, round2,
};
use crate::schedule::{
    spec_period_days, spec_schedule_payments, spec_days_between, spec_coupon,
    build_schedule, days_between, parse_date_days, iso_date_num,
};
use crate::reinvest::{spec_interest_on_interest, calculate_interest_on_interest};
use crate::{BondError, DateField};

/// The saturating sum of the first `k` payments.
pub open spec fn spec_sum_payments(p: Seq<u128>, k: nat) -> int
    decreases k,
{
    if k == 0 {
        0
    } else {
        spec_sadd(spec_sum_payments(p, (k - 1) as nat), p[k - 1] as int)
    }
}

/// A difference clamped into the symmetric `i128` range.
pub open spec fn spec_clamp_gain(x: int) -> int {
    if x > i128::MAX {
        i128::MAX as int
    } else if x < -(i128::MAX as int) {
        -(i128::MAX as int)
    } else {
        x
    }
}

/// The valuation triple for a bond, given the day numbers of its dates:
/// present value (the observed price echoed back), total gain
/// (total return minus price), and total return (the undiscounted sum of
/// all coupons, the maturity amount, and the interest on reinvested
/// coupons).
pub open spec fn spec_total_return(
    pv: int,
    mval: int,
    cir: int,
    rr: Option<u128>,
    ppy: int,
    t: int,
    n: int,
    m: int,
) -> (int, int, int) {
    let pd = spec_period_days(ppy);
    let dtm = spec_days_between(t, m);
    let p = spec_schedule_payments(dtm, pd, mval, cir, ppy).push(mval as u128);
    let ppp = spec_coupon(mval, cir, ppy);
    let ioi = match rr {
        Option::Some(rv) => spec_interest_on_interest(
            spec_smuln(ppp, ppy),
            rv as int,
            ppy,
            p.len(),
        ),
        Option::None => 0,
    };
    let total = spec_sadd(spec_sum_payments(p, p.len()), ioi);
    (pv, spec_clamp_gain(total - pv), total)
}

/// Sums a payment list with saturating addition.
fn sum_payments(p: &Vec<u128>) -> (r: u128)
    ensures
        r as int == spec_sum_payments(p@, p@.len()),
{
    let mut acc: u128 = 0;
    let mut i: usize = 0;
    while i < p.len()
        invariant
            i <= p@.len(),
            acc as int == spec_sum_payments(p@, i as nat),
        decreases p@.len() - i,
    {
        acc = sadd(acc, p[i]);
        i = i + 1;
        proof {
            assert(spec_sum_payments(p@, i as nat) == spec_sadd(
                spec_sum_payments(p@, (i - 1) as nat),
                p@[i - 1] as int,
            ));
        }
    }
    acc
}

/// Clamps the difference `total - pv` into the symmetric `i128` range.
fn clamp_gain(total: u128, pv: u128) -> (r: i128)
    ensures
        r as int == spec_clamp_gain(total as int - pv as int),
{
    if total >= pv {
        let d: u128 = total - pv;
        if d > (i128::MAX as u128) {
            i128::MAX
        } else {
            d as i128
        }
    } else {
        let d: u128 = pv - total;
        if d > (i128::MAX as u128) {
            -i128::MAX
        } else {
            -(d as i128)
        }
    }
}

/// Computes the valuation triple `(present value, total gain, total
/// return)` from the observed price, the contractual terms and the three
/// ISO `YYYY-MM-DD` dates. Total return is the undiscounted sum of all
/// coupons, the maturity amount and, with a reinvestment rate present, the
/// interest on reinvested coupons over the whole schedule including the
/// maturity payment; the gain is total return minus price.
///
/// Fails with the `DateParseError` naming the first date field, in the
/// order today / next payment / maturity, that is not a valid date.
pub fn calculate_total_return(
    pv: u128,
    maturity_val: u128,
    coupon_interest: u128,
    reinvestment_rate: Option<u128>,
    payments_per_year: u32,
    today: &str,
    next_payment_date: &str,
    maturity_date: &str,
) -> (r: Result<(u128, i128, u128), BondError>)
    requires
        1 <= payments_per_year <= 366,
    ensures
        match (
            iso_date_num(today@),
            iso_date_num(next_payment_date@),
            iso_date_num(maturity_date@),
        ) {
            (Option::None, _, _) => r == Err::<(u128, i128, u128), BondError>(
                BondError::DateParseError { field: DateField::Today },
            ),
            (Option::Some(_), Option::None, _) => r == Err::<(u128, i128, u128), BondError>(
                BondError::DateParseError { field: DateField::NextPayment },
            ),
            (Option::Some(_), Option::Some(_), Option::None) => r == Err::<(u128, i128, u128), BondError>(
                BondError::DateParseError { field: DateField::Maturity },
            ),
            (Option::Some(t), Option::Some(n), Option::Some(m)) => r matches Ok(v)
                && {
                    let (spv, sgain, stotal) = spec_total_return(
                        pv as int,
                        maturity_val as int,
                        coupon_interest as int,
                        reinvestment_rate,
                        payments_per_year as int,
                        t,
                        n,
                        m,
                    );
                    v.0 as int == spv && v.1 as int == sgain && v.2 as int == stotal
                },
        },
{
    let t = match parse_date_days(today) {
        Some(v) => v,
        None => {
            return Err(BondError::DateParseError { field: DateField::Today });
        },
    };
    let n = match parse_date_days(next_payment_date) {
        Some(v) => v,
        None => {
            return Err(BondError::DateParseError { field: DateField::NextPayment });
        },
    };
    let m = match parse_date_days(maturity_date) {
        Some(v) => v,
        None => {
            return Err(BondError::DateParseError { field: DateField::Maturity });
        },
    };
    let days_to_mature = days_between(t, m);
    let days_to_next = days_between(t, n);
    let mut sched = build_schedule(
        days_to_mature,
        days_to_next,
        payments_per_year,
        maturity_val,
        coupon_interest,
    );
    let payment_per_period = fmul(maturity_val, coupon_interest)
        / (payments_per_year as u128) / 100;
    sched.payments.push(maturity_val);
    let ioi: u128 = match reinvestment_rate {
        Some(rv) => calculate_interest_on_interest(
            smuln(payment_per_period, payments_per_year as u128),
            rv,
            payments_per_year,
            sched.payments.len() as u64,
        ),
        None => 0,
    };
    let total = sadd(sum_payments(&sched.payments), ioi);
    let gain = clamp_gain(total, pv);
    Ok((pv, gain, total))
}

/// The simple current yield, `coupon_interest * maturity_val / pv`, rounded
/// to cents. Fails with `DivisionByZero` exactly when the price is zero.
pub fn get_current_yield(
    pv: u128,
    maturity_val: u128,
    coupon_interest: u128,
) -> (r: Result<u128, BondError>)
    ensures
        pv == 0 ==> r == Err::<u128, BondError>(BondError::DivisionByZero),
        pv >= 1 ==> (r matches Ok(v) && v as int == spec_round2(
            spec_fdiv(spec_fmul(coupon_interest as int, maturity_val as int), pv as int),
        )),
{
    if pv == 0 {
        Err(BondError::DivisionByZero)
    } else {
        Ok(round2(fdiv(fmul(coupon_interest, maturity_val), pv)))
    }
}

} // verus!
