//! Reinvestment model: interest earned by reinvesting periodic coupons.
//!
//! The future value of the coupon annuity is compared with its simple,
//! uncompounded accumulation; the difference is the interest earned on
//! reinvested interest.

use vstd::prelude::*;

verus! {

use vstd::arithmetic::div_mod::lemma_div_is_ordered;
use crate::fixed::{
    SCALE, spec_fdiv, spec_ssub, spec_smuln, spec_fmul,
    fdiv, ssub, smuln, fmul, lemma_div_is_ordered_le_self,
};
use crate::power::{spec_fpow, fpow, lemma_fpow_ge_one};

/// Interest on reinvested interest for an annuity paying
/// `annual_annuity / investments_per_year` each period, reinvested at the
/// periodic rate `annual_investment_rate / 100 / investments_per_year` over
/// `total_num_investments` periods.
///
/// A zero rate earns nothing; a rate whose periodic fixed-point form
/// truncates to zero likewise earns nothing. Otherwise the result is the
/// future value of the ordinary annuity minus its simple accumulation,
/// clamped at zero.
pub open spec fn spec_interest_on_interest(
    annual: int,
    rate: int,
    ppy: int,
    total: nat,
) -> int {
    if rate == 0 {
        0
    } else {
        let pa = annual / ppy;
        let pr = rate / 100 / ppy;
        if pr == 0 {
            0
        } else {
            let growth = spec_fdiv(spec_fpow(SCALE as int + pr, total) - SCALE as int, pr);
            spec_ssub(spec_fmul(pa, growth), spec_smuln(pa, total as int))
        }
    }
}

/// Interest earned on reinvested coupons beyond their nominal sum.
///
/// A zero reinvestment rate earns exactly nothing, for every annuity and
/// every number of periods.
pub fn calculate_interest_on_interest(
    annual_annuity: u128,
    annual_investment_rate: u128,
    investments_per_year: u32,
    total_num_investments: u64,
) -> (r: u128)
    requires
        annual_investment_rate == 0 || investments_per_year >= 1,
    ensures
        r as int == spec_interest_on_interest(
            annual_annuity as int,
            annual_investment_rate as int,
            investments_per_year as int,
            total_num_investments as nat,
        ),
        annual_investment_rate == 0 ==> r == 0,
{
    if annual_investment_rate == 0 {
        0
    } else {
        let pa: u128 = annual_annuity / (investments_per_year as u128);
        let pr: u128 = annual_investment_rate / 100 / (investments_per_year as u128);
        if pr == 0 {
            0
        } else {
            proof {
                lemma_div_is_ordered(
                    annual_investment_rate as int / 100,
                    u128::MAX as int / 100,
                    investments_per_year as int,
                );
                lemma_div_is_ordered(annual_investment_rate as int, u128::MAX as int, 100);
                lemma_div_is_ordered_le_self(u128::MAX as int / 100, investments_per_year as int);
            }
            let base: u128 = SCALE + pr;
            let p = fpow(base, total_num_investments);
            proof {
                lemma_fpow_ge_one(base as int, total_num_investments as nat);
            }
            let growth = fdiv(p - SCALE, pr);
            ssub(fmul(pa, growth), smuln(pa, total_num_investments as u128))
        }
    }
}

} // verus!
