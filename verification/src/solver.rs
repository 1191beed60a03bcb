//! The yield solver: bisection over a bracket of periodic yields, with a
//! 0.01-step linear-scan fallback when bisection exhausts two-decimal
//! resolution without an exact rounded match.

use vstd::prelude::*;

verus! {

use vstd::arithmetic::div_mod::{
    lemma_fundamental_div_mod, lemma_mod_bound, lemma_div_is_ordered,
};
use vstd::arithmetic::mul::lemma_mul_inequality;
use crate::fixed::{
    SCALE, CENT, HALF_CENT, spec_round2, spec_ssub, spec_smuln, spec_adiff, spec_fmul,
    round2, ssub, smuln, adiff, fmul, lemma_round2_close,
};
use crate::power::{spec_fpow, fpow, lemma_fpow_ge_one};
use crate::present_value::{
    spec_base, spec_pv_simple, present_value_simple, lemma_base_bounds,
    spec_gain, compute_gain,
};
use crate::schedule::{
    spec_period_days, spec_schedule_payments, spec_days_between,
    build_schedule, days_between, parse_date_days, iso_date_num,
};
use crate::reinvest::{spec_interest_on_interest, calculate_interest_on_interest};
use crate::{BondError, DateField};

/// The top of the yield search bracket: 20 percent per period.
pub const MAX_YIELD: u128 = 20_000_000_000_000;

/// Midpoint facts for the bisection: the midpoint stays inside the bracket,
/// moves strictly inward whenever the bracket is wide enough, and collapses
/// onto `lo` when the bracket has width at most one.
pub proof fn lemma_mid(lo: int, hi: int)
    requires
        0 <= lo <= hi,
    ensures
        lo <= (lo + hi) / 2 <= hi,
        hi >= lo + 2 ==> (lo + hi) / 2 >= lo + 1,
        hi >= lo + 1 ==> (lo + hi) / 2 <= hi - 1,
        hi <= lo + 1 ==> (lo + hi) / 2 == lo,
{
    lemma_fundamental_div_mod(lo + hi, 2);
    lemma_mod_bound(lo + hi, 2);
}

/// One bisection run for a plain cash-flow list: the candidate is the
/// midpoint of the bracket; an exact match of rounded present value and
/// rounded target converges; otherwise the bracket shrinks toward the
/// candidate until two-decimal resolution is exhausted, and the last
/// midpoint is taken unconverged.
pub open spec fn spec_solve_simple(p: Seq<u128>, rpv: int, lo: int, hi: int) -> (int, bool)
    decreases hi - lo,
    when 0 <= lo <= hi
    via spec_solve_simple_decreases
{
    let cand = (lo + hi) / 2;
    let g = spec_round2(spec_pv_simple(p, cand));
    if g == rpv {
        (cand, true)
    } else if g > rpv {
        let c2 = (cand + hi) / 2;
        if spec_round2(cand) == spec_round2(c2) {
            (c2, false)
        } else {
            spec_solve_simple(p, rpv, cand, hi)
        }
    } else {
        let c2 = (cand + lo) / 2;
        if spec_round2(cand) == spec_round2(c2) {
            (c2, false)
        } else {
            spec_solve_simple(p, rpv, lo, cand)
        }
    }
}

#[via_fn]
proof fn spec_solve_simple_decreases(p: Seq<u128>, rpv: int, lo: int, hi: int) {
    lemma_solver_step(lo, hi);
}

/// The bracket updates of one bisection step strictly shrink the bracket
/// whenever the stopping test does not fire.
pub proof fn lemma_solver_step(lo: int, hi: int)
    requires
        0 <= lo <= hi,
    ensures
        ({
            let cand = (lo + hi) / 2;
            &&& lo <= cand <= hi
            &&& ((cand + hi) / 2 != cand ==> hi - cand < hi - lo)
            &&& ((cand + lo) / 2 != cand ==> cand - lo < hi - lo)
        }),
{
    let cand = (lo + hi) / 2;
    lemma_mid(lo, hi);
    lemma_mid(cand, hi);
    lemma_mid(lo, cand);
    if (cand + hi) / 2 != cand {
        if cand == lo {
            assert(hi <= lo + 1 ==> cand == lo);
            if hi <= cand + 1 {
                assert((cand + hi) / 2 == cand);
            } else {
                assert(hi >= lo + 2);
                assert(cand >= lo + 1);
            }
        }
    }
    if (cand + lo) / 2 != cand {
        if cand == hi {
            assert((lo + cand) / 2 == lo);
            assert(lo == hi ==> cand == lo && (cand + lo) / 2 == cand);
            assert(hi >= lo + 1 ==> cand <= hi - 1);
        }
    }
}

/// Bisection solver for a plain cash-flow list. Returns the final periodic
/// yield candidate and whether an exact rounded match was found.
pub fn solve_simple(p: &Vec<u128>, rpv: u128) -> (r: (u128, bool))
    ensures
        ({
            let (y, c) = spec_solve_simple(p@, rpv as int, 0, MAX_YIELD as int);
            r.0 as int == y && r.1 == c
        }),
{
    let mut lo: u128 = 0;
    let mut hi: u128 = MAX_YIELD;
    loop
        invariant
            lo <= hi <= MAX_YIELD,
            spec_solve_simple(p@, rpv as int, lo as int, hi as int)
                == spec_solve_simple(p@, rpv as int, 0, MAX_YIELD as int),
        decreases hi - lo,
    {
        let cand: u128 = (lo + hi) / 2;
        proof {
            lemma_solver_step(lo as int, hi as int);
        }
        let g = round2(present_value_simple(p, cand));
        if g == rpv {
            proof {
                assert(spec_solve_simple(p@, rpv as int, lo as int, hi as int)
                    == (cand as int, true));
            }
            return (cand, true);
        } else if g > rpv {
            let c2: u128 = (cand + hi) / 2;
            if round2(cand) == round2(c2) {
                proof {
                    assert(spec_solve_simple(p@, rpv as int, lo as int, hi as int)
                        == (c2 as int, false));
                }
                return (c2, false);
            }
            proof {
                assert(spec_solve_simple(p@, rpv as int, lo as int, hi as int)
                    == spec_solve_simple(p@, rpv as int, cand as int, hi as int));
            }
            lo = cand;
        } else {
            let c2: u128 = (cand + lo) / 2;
            if round2(cand) == round2(c2) {
                proof {
                    assert(spec_solve_simple(p@, rpv as int, lo as int, hi as int)
                        == (c2 as int, false));
                }
                return (c2, false);
            }
            proof {
                assert(spec_solve_simple(p@, rpv as int, lo as int, hi as int)
                    == spec_solve_simple(p@, rpv as int, lo as int, cand as int));
            }
            hi = cand;
        }
    }
}

/// The fallback linear scan: walks candidate yields in 0.01 steps from
/// `cur` cents up to (excluding) `end` cents, and keeps the first candidate
/// whose rounded gain comes strictly closest to the rounded target.
pub open spec fn spec_scan(
    p: Seq<u128>,
    mval: int,
    dn: nat,
    dp: nat,
    ioi: int,
    rpv: int,
    cur: int,
    end: int,
    best: int,
    margin: int,
) -> int
    decreases end - cur,
{
    if cur >= end {
        best
    } else {
        let g = spec_round2(spec_gain(p, mval, cur * (CENT as int), dn, dp, ioi));
        let m = spec_adiff(g, rpv);
        if m < margin {
            spec_scan(p, mval, dn, dp, ioi, rpv, cur + 1, end, cur * (CENT as int), m)
        } else {
            spec_scan(p, mval, dn, dp, ioi, rpv, cur + 1, end, best, margin)
        }
    }
}

/// Scans candidate yields in 0.01 steps from `start_raw` up to one whole
/// percentage point beyond `top`, starting from the bracket bound
/// `start_raw` itself as the incumbent answer.
fn scan_yields(
    p: &Vec<u128>,
    mval: u128,
    dn: u64,
    dp: u64,
    ioi: u128,
    rpv: u128,
    start_raw: u128,
    top: u128,
) -> (r: u128)
    requires
        dp >= 1,
        top <= MAX_YIELD,
    ensures
        r as int == spec_scan(
            p@,
            mval as int,
            dn as nat,
            dp as nat,
            ioi as int,
            rpv as int,
            (start_raw as int) / (CENT as int),
            (top as int + SCALE as int) / (CENT as int),
            start_raw as int,
            rpv as int,
        ),
{
    let mut c: u128 = start_raw / CENT;
    let end: u128 = (top + SCALE) / CENT;
    proof {
        lemma_div_is_ordered(
            top as int + SCALE as int,
            MAX_YIELD as int + SCALE as int,
            CENT as int,
        );
        assert((MAX_YIELD as int + SCALE as int) / (CENT as int) == 2100);
    }
    let mut best: u128 = start_raw;
    let mut margin: u128 = rpv;
    let ghost c0 = (start_raw / CENT) as int;
    while c < end
        invariant
            dp >= 1,
            end <= 2100,
            spec_scan(
                p@, mval as int, dn as nat, dp as nat, ioi as int, rpv as int,
                c as int, end as int, best as int, margin as int,
            ) == spec_scan(
                p@, mval as int, dn as nat, dp as nat, ioi as int, rpv as int,
                c0, end as int, start_raw as int, rpv as int,
            ),
        decreases end - c,
    {
        proof {
            lemma_mul_inequality(c as int, 2100, CENT as int);
            assert(2100 * (CENT as int) == 21_000_000_000_000) by (nonlinear_arith);
        }
        let cand: u128 = c * CENT;
        let g = round2(compute_gain(p, mval, cand, dn, dp, ioi));
        let m = adiff(g, rpv);
        proof {
            assert(spec_scan(
                p@, mval as int, dn as nat, dp as nat, ioi as int, rpv as int,
                c as int, end as int, best as int, margin as int,
            ) == if (m as int) < margin as int {
                spec_scan(
                    p@, mval as int, dn as nat, dp as nat, ioi as int, rpv as int,
                    c as int + 1, end as int, cand as int, m as int,
                )
            } else {
                spec_scan(
                    p@, mval as int, dn as nat, dp as nat, ioi as int, rpv as int,
                    c as int + 1, end as int, best as int, margin as int,
                )
            });
        }
        if m < margin {
            margin = m;
            best = cand;
        }
        c = c + 1;
    }
    best
}

/// One bisection run over a full schedule: like the plain solve, but when
/// bisection exhausts two-decimal resolution, the fallback scan over the
/// final bracket supplies the answer.
pub open spec fn spec_solve_ytm(
    p: Seq<u128>,
    mval: int,
    dn: nat,
    dp: nat,
    ioi: int,
    rpv: int,
    lo: int,
    hi: int,
) -> (int, bool)
    decreases hi - lo,
    when 0 <= lo <= hi
    via spec_solve_ytm_decreases
{
    let cand = (lo + hi) / 2;
    let g = spec_round2(spec_gain(p, mval, cand, dn, dp, ioi));
    if g == rpv {
        (cand, true)
    } else if g > rpv {
        let c2 = (cand + hi) / 2;
        if spec_round2(cand) == spec_round2(c2) {
            (
                spec_scan(
                    p, mval, dn, dp, ioi, rpv,
                    cand / (CENT as int), (hi + SCALE as int) / (CENT as int), cand, rpv,
                ),
                false,
            )
        } else {
            spec_solve_ytm(p, mval, dn, dp, ioi, rpv, cand, hi)
        }
    } else {
        let c2 = (cand + lo) / 2;
        if spec_round2(cand) == spec_round2(c2) {
            (
                spec_scan(
                    p, mval, dn, dp, ioi, rpv,
                    lo / (CENT as int), (cand + SCALE as int) / (CENT as int), lo, rpv,
                ),
                false,
            )
        } else {
            spec_solve_ytm(p, mval, dn, dp, ioi, rpv, lo, cand)
        }
    }
}

#[via_fn]
proof fn spec_solve_ytm_decreases(
    p: Seq<u128>,
    mval: int,
    dn: nat,
    dp: nat,
    ioi: int,
    rpv: int,
    lo: int,
    hi: int,
) {
    lemma_solver_step(lo, hi);
}

/// Bisection solver over a full schedule, with the fallback scan. Returns
/// the final periodic yield and whether an exact rounded match was found.
pub fn solve_ytm(
    p: &Vec<u128>,
    mval: u128,
    dn: u64,
    dp: u64,
    ioi: u128,
    rpv: u128,
) -> (r: (u128, bool))
    requires
        dp >= 1,
    ensures
        ({
            let (y, c) = spec_solve_ytm(
                p@, mval as int, dn as nat, dp as nat, ioi as int, rpv as int,
                0, MAX_YIELD as int,
            );
            r.0 as int == y && r.1 == c
        }),
{
    let mut lo: u128 = 0;
    let mut hi: u128 = MAX_YIELD;
    loop
        invariant
            dp >= 1,
            lo <= hi <= MAX_YIELD,
            spec_solve_ytm(
                p@, mval as int, dn as nat, dp as nat, ioi as int, rpv as int,
                lo as int, hi as int,
            ) == spec_solve_ytm(
                p@, mval as int, dn as nat, dp as nat, ioi as int, rpv as int,
                0, MAX_YIELD as int,
            ),
        decreases hi - lo,
    {
        let cand: u128 = (lo + hi) / 2;
        proof {
            lemma_solver_step(lo as int, hi as int);
        }
        let g = round2(compute_gain(p, mval, cand, dn, dp, ioi));
        if g == rpv {
            proof {
                assert(spec_solve_ytm(
                    p@, mval as int, dn as nat, dp as nat, ioi as int, rpv as int,
                    lo as int, hi as int,
                ) == (cand as int, true));
            }
            return (cand, true);
        } else if g > rpv {
            let c2: u128 = (cand + hi) / 2;
            if round2(cand) == round2(c2) {
                let approx = scan_yields(p, mval, dn, dp, ioi, rpv, cand, hi);
                proof {
                    assert(spec_solve_ytm(
                        p@, mval as int, dn as nat, dp as nat, ioi as int, rpv as int,
                        lo as int, hi as int,
                    ) == (approx as int, false));
                }
                return (approx, false);
            }
            proof {
                assert(spec_solve_ytm(
                    p@, mval as int, dn as nat, dp as nat, ioi as int, rpv as int,
                    lo as int, hi as int,
                ) == spec_solve_ytm(
                    p@, mval as int, dn as nat, dp as nat, ioi as int, rpv as int,
                    cand as int, hi as int,
                ));
            }
            lo = cand;
        } else {
            let c2: u128 = (cand + lo) / 2;
            if round2(cand) == round2(c2) {
                let approx = scan_yields(p, mval, dn, dp, ioi, rpv, lo, cand);
                proof {
                    assert(spec_solve_ytm(
                        p@, mval as int, dn as nat, dp as nat, ioi as int, rpv as int,
                        lo as int, hi as int,
                    ) == (approx as int, false));
                }
                return (approx, false);
            }
            proof {
                assert(spec_solve_ytm(
                    p@, mval as int, dn as nat, dp as nat, ioi as int, rpv as int,
                    lo as int, hi as int,
                ) == spec_solve_ytm(
                    p@, mval as int, dn as nat, dp as nat, ioi as int, rpv as int,
                    lo as int, cand as int,
                ));
            }
            hi = cand;
        }
    }
}

/// When the plain bisection converges with an exact rounded match, the
/// present value at the returned periodic yield rounds to exactly the
/// rounded target price.
pub proof fn lemma_solve_simple_converged(p: Seq<u128>, rpv: int, lo: int, hi: int)
    requires
        0 <= lo <= hi,
    ensures
        ({
            let (y, conv) = spec_solve_simple(p, rpv, lo, hi);
            conv ==> spec_round2(spec_pv_simple(p, y)) == rpv
        }),
    decreases hi - lo,
{
    lemma_solver_step(lo, hi);
    let cand = (lo + hi) / 2;
    let g = spec_round2(spec_pv_simple(p, cand));
    if g == rpv {
    } else if g > rpv {
        let c2 = (cand + hi) / 2;
        if spec_round2(cand) != spec_round2(c2) {
            lemma_solve_simple_converged(p, rpv, cand, hi);
        }
    } else {
        let c2 = (cand + lo) / 2;
        if spec_round2(cand) != spec_round2(c2) {
            lemma_solve_simple_converged(p, rpv, lo, cand);
        }
    }
}

/// When the schedule bisection converges with an exact rounded match, the
/// gain at the returned periodic yield rounds to exactly the rounded
/// target price.
pub proof fn lemma_solve_ytm_converged(
    p: Seq<u128>,
    mval: int,
    dn: nat,
    dp: nat,
    ioi: int,
    rpv: int,
    lo: int,
    hi: int,
)
    requires
        0 <= lo <= hi,
    ensures
        ({
            let (y, conv) = spec_solve_ytm(p, mval, dn, dp, ioi, rpv, lo, hi);
            conv ==> spec_round2(spec_gain(p, mval, y, dn, dp, ioi)) == rpv
        }),
    decreases hi - lo,
{
    lemma_solver_step(lo, hi);
    let cand = (lo + hi) / 2;
    let g = spec_round2(spec_gain(p, mval, cand, dn, dp, ioi));
    if g == rpv {
    } else if g > rpv {
        let c2 = (cand + hi) / 2;
        if spec_round2(cand) != spec_round2(c2) {
            lemma_solve_ytm_converged(p, mval, dn, dp, ioi, rpv, cand, hi);
        }
    } else {
        let c2 = (cand + lo) / 2;
        if spec_round2(cand) != spec_round2(c2) {
            lemma_solve_ytm_converged(p, mval, dn, dp, ioi, rpv, lo, cand);
        }
    }
}

/// The plain bisection's answer never leaves the bracket it was started
/// on.
pub proof fn lemma_solve_simple_bounds(p: Seq<u128>, rpv: int, lo: int, hi: int)
    requires
        0 <= lo <= hi,
    ensures
        lo <= spec_solve_simple(p, rpv, lo, hi).0 <= hi,
    decreases hi - lo,
{
    lemma_solver_step(lo, hi);
    let cand = (lo + hi) / 2;
    let g = spec_round2(spec_pv_simple(p, cand));
    if g == rpv {
    } else if g > rpv {
        let c2 = (cand + hi) / 2;
        if spec_round2(cand) != spec_round2(c2) {
            lemma_solve_simple_bounds(p, rpv, cand, hi);
        } else {
            lemma_mid(cand, hi);
        }
    } else {
        let c2 = (cand + lo) / 2;
        if spec_round2(cand) != spec_round2(c2) {
            lemma_solve_simple_bounds(p, rpv, lo, cand);
        } else {
            lemma_mid(lo, cand);
        }
    }
}

/// Round trip on the exact-convergence path: when the plain bisection run
/// on the rounded price converges, the present value of the cash flows at
/// the returned periodic yield lies within one cent (0.01) of the price
/// itself, whenever neither value saturates the fixed-point range. On the
/// bracket-collapse path (the unconverged result) no such bound holds.
pub proof fn lemma_round_trip_converged(p: Seq<u128>, pv: int)
    requires
        0 <= pv,
        pv + (HALF_CENT as int) <= u128::MAX as int,
    ensures
        ({
            let (y, conv) = spec_solve_simple(p, spec_round2(pv), 0, MAX_YIELD as int);
            (conv && spec_pv_simple(p, y) + (HALF_CENT as int) <= u128::MAX as int)
                ==> spec_adiff(spec_pv_simple(p, y), pv) <= CENT as int
        }),
{
    let rpv = spec_round2(pv);
    lemma_solve_simple_converged(p, rpv, 0, MAX_YIELD as int);
    lemma_solve_simple_bounds(p, rpv, 0, MAX_YIELD as int);
    let (y, conv) = spec_solve_simple(p, rpv, 0, MAX_YIELD as int);
    let g = spec_pv_simple(p, y);
    if conv && g + (HALF_CENT as int) <= u128::MAX as int {
        assert(g >= 0) by {
            crate::present_value::lemma_pv_simple_decreasing_in_yield(p, y, y);
        }
        lemma_round2_close(g);
        lemma_round2_close(pv);
    }
}

/// The yield a plain cash-flow list earns at the solved periodic rate,
/// compounded over the payments of one year and expressed as an annual
/// percentage, rounded to cents.
pub open spec fn spec_calculate_yield(pv: int, p: Seq<u128>, ppy: nat) -> int {
    let rpv = spec_round2(pv);
    let y = spec_solve_simple(p, rpv, 0, MAX_YIELD as int).0;
    let pw = spec_fpow(spec_base(y), ppy);
    spec_round2(spec_smuln(spec_ssub(pw, SCALE as int), 100))
}

/// Finds the periodic yield at which the discounted cash flows match the
/// observed price `pv`, then reports it as a compound annual percentage:
/// `100 * ((1 + y/100)^num_payments_per_year - 1)`, rounded to cents.
pub fn calculate_yield(
    pv: u128,
    payments: &Vec<u128>,
    num_payments_per_year: u32,
) -> (r: Result<u128, BondError>)
    ensures
        r matches Ok(v) && v as int == spec_calculate_yield(
            pv as int,
            payments@,
            num_payments_per_year as nat,
        ),
{
    let rpv = round2(pv);
    let (y, _converged) = solve_simple(payments, rpv);
    proof {
        lemma_base_bounds(y as int);
    }
    let base: u128 = SCALE + y / 100;
    let pw = fpow(base, num_payments_per_year as u64);
    proof {
        lemma_fpow_ge_one(base as int, num_payments_per_year as nat);
    }
    let annualized = smuln(ssub(pw, SCALE), 100);
    Ok(round2(annualized))
}

/// The yield to maturity of a bond, given the day numbers of its dates:
/// the schedule is built from the day counts, the periodic yield is solved
/// by bisection with the scan fallback, and the result is annualized simply,
/// as `y * payments_per_year`, rounded to cents.
pub open spec fn spec_calculate_ytm(
    pv: int,
    mval: int,
    cir: int,
    ppy: int,
    rr: Option<u128>,
    t: int,
    n: int,
    m: int,
) -> int {
    let pd = spec_period_days(ppy);
    let dtm = spec_days_between(t, m);
    let dn = spec_days_between(t, n);
    let p = spec_schedule_payments(dtm, pd, mval, cir, ppy);
    let ioi = match rr {
        Option::Some(rv) => spec_interest_on_interest(
            spec_fmul(cir / 100, mval),
            rv as int,
            ppy,
            p.len(),
        ),
        Option::None => 0,
    };
    let y = spec_solve_ytm(p, mval, dn as nat, pd as nat, ioi, spec_round2(pv), 0, MAX_YIELD as int).0;
    spec_round2(spec_smuln(y, ppy))
}

/// Computes the yield to maturity from the observed price, the contractual
/// terms and the three ISO `YYYY-MM-DD` dates. The solved periodic yield is
/// annualized simply, as `y * payments_per_year` (the simple-annualized
/// convention), and rounded to cents. With a reinvestment rate present, the
/// interest-on-interest amount on the annualized coupon is folded,
/// undiscounted, into every evaluated gain.
///
/// Fails with the `DateParseError` naming the first date field, in the
/// order today / next payment / maturity, that is not a valid date.
pub fn calculate_yield_to_maturity(
    pv: u128,
    maturity_val: u128,
    coupon_interest_rate: u128,
    payments_per_year: u32,
    reinvestment_rate: Option<u128>,
    today: &str,
    next_payment_date: &str,
    maturity_date: &str,
) -> (r: Result<u128, BondError>)
    requires
        1 <= payments_per_year <= 366,
    ensures
        match (
            iso_date_num(today@),
            iso_date_num(next_payment_date@),
            iso_date_num(maturity_date@),
        ) {
            (Option::None, _, _) => r == Err::<u128, BondError>(
                BondError::DateParseError { field: DateField::Today },
            ),
            (Option::Some(_), Option::None, _) => r == Err::<u128, BondError>(
                BondError::DateParseError { field: DateField::NextPayment },
            ),
            (Option::Some(_), Option::Some(_), Option::None) => r == Err::<u128, BondError>(
                BondError::DateParseError { field: DateField::Maturity },
            ),
            (Option::Some(t), Option::Some(n), Option::Some(m)) => r matches Ok(v)
                && v as int == spec_calculate_ytm(
                    pv as int,
                    maturity_val as int,
                    coupon_interest_rate as int,
                    payments_per_year as int,
                    reinvestment_rate,
                    t,
                    n,
                    m,
                ),
        },
{
    let t = match parse_date_days(today) {
        Some(v) => v,
        None => {
            return Err(BondError::DateParseError { field: DateField::Today });
        },
    };
    let n = match parse_date_days(next_payment_date) {
        Some(v) => v,
        None => {
            return Err(BondError::DateParseError { field: DateField::NextPayment });
        },
    };
    let m = match parse_date_days(maturity_date) {
        Some(v) => v,
        None => {
            return Err(BondError::DateParseError { field: DateField::Maturity });
        },
    };
    let days_to_mature = days_between(t, m);
    let days_to_next = days_between(t, n);
    let sched = build_schedule(
        days_to_mature,
        days_to_next,
        payments_per_year,
        maturity_val,
        coupon_interest_rate,
    );
    let ioi: u128 = match reinvestment_rate {
        Some(rv) => calculate_interest_on_interest(
            fmul(coupon_interest_rate / 100, maturity_val),
            rv,
            payments_per_year,
            sched.payments.len() as u64,
        ),
        None => 0,
    };
    let rpv = round2(pv);
    let (y, _converged) = solve_ytm(
        &sched.payments,
        maturity_val,
        sched.days_to_next,
        sched.period_days,
        ioi,
        rpv,
    );
    Ok(round2(smuln(y, payments_per_year as u128)))
}

} // verus!
