//! Present-value evaluation: discounting a payment schedule at a candidate
//! periodic yield.
//!
//! The coupon at index `i` is discounted by `(1 + y/100)` raised to
//! `i + days_to_next / period_days`; the maturity amount is discounted at the
//! exponent of the last coupon. The fractional part of the exponent is taken
//! through the `period_days`-th root of the base. An optional
//! interest-on-interest amount is added undiscounted, as a nominal future
//! amount realized by maturity.

use vstd::prelude::*;

verus! {

use vstd::arithmetic::div_mod::{lemma_div_is_ordered, lemma_div_is_ordered_by_denominator};
use vstd::arithmetic::mul::lemma_mul_inequality;
use crate::fixed::{
    SCALE, fp_max, spec_fmul, spec_fdiv, spec_sadd, fmul, fdiv, sadd,
    lemma_div_mul_le, lemma_div_is_ordered_le_self,
};
use crate::power::{
    spec_fpow, spec_root, fpow, nth_root, lemma_fpow_ge_one, lemma_root_exists,
    lemma_fpow_mono_base, lemma_fmul_mono, lemma_fmul_bounds, lemma_root_mono,
};

/// The periodic discount base `1 + y/100` for a fixed-point yield `y` in
/// percent.
pub open spec fn spec_base(y: int) -> int {
    SCALE as int + y / 100
}

/// The discount factor of coupon `i`: the factor of coupon 0, divided `i`
/// more times by the base.
pub open spec fn spec_dfac(d0: int, base: int, i: nat) -> int
    decreases i,
{
    if i == 0 {
        d0
    } else {
        spec_fdiv(spec_dfac(d0, base, (i - 1) as nat), base)
    }
}

/// The discounted sum of the first `k` coupons.
pub open spec fn spec_disc_prefix(p: Seq<u128>, d0: int, base: int, k: nat) -> int
    decreases k,
{
    if k == 0 {
        0
    } else {
        spec_sadd(
            spec_disc_prefix(p, d0, base, (k - 1) as nat),
            spec_fmul(p[k - 1] as int, spec_dfac(d0, base, (k - 1) as nat)),
        )
    }
}

/// Present value of a plain cash-flow list at periodic yield `y`: cash flow
/// `i` is discounted by the base raised to `i + 1`.
pub open spec fn spec_pv_simple(p: Seq<u128>, y: int) -> int {
    let base = spec_base(y);
    spec_disc_prefix(p, spec_fdiv(SCALE as int, base), base, p.len())
}

/// Present value of a full schedule at periodic yield `y`, plus an
/// undiscounted interest-on-interest amount `ioi`.
///
/// With `r = dn / dp` the remaining fraction of the current period, coupon
/// `i` is discounted at exponent `i + r` and the maturity amount at exponent
/// `len - 1 + r`. An empty schedule leaves only the maturity amount, at the
/// possibly negative exponent `r - 1`.
pub open spec fn spec_gain(
    p: Seq<u128>,
    mval: int,
    y: int,
    dn: nat,
    dp: nat,
    ioi: int,
) -> int {
    let base = spec_base(y);
    let rt = spec_root(base, dp);
    let d0 = spec_fdiv(SCALE as int, spec_fpow(rt, dn));
    let coupons = spec_disc_prefix(p, d0, base, p.len());
    let total = if p.len() > 0 {
        spec_sadd(coupons, spec_fmul(mval, spec_dfac(d0, base, (p.len() - 1) as nat)))
    } else if dn >= dp {
        spec_fdiv(mval, spec_fpow(rt, (dn - dp) as nat))
    } else {
        spec_fmul(mval, spec_fpow(rt, (dp - dn) as nat))
    };
    spec_sadd(total, ioi)
}

/// The discount base fits comfortably below the saturation bound.
pub proof fn lemma_base_bounds(y: int)
    requires
        0 <= y <= fp_max(),
    ensures
        SCALE as int <= spec_base(y) <= fp_max() - 1,
        spec_base(y) >= 1,
{
    lemma_div_is_ordered(0, y, 100);
    lemma_div_is_ordered(y, fp_max(), 100);
}

/// The truncating quotient grows with the numerator and shrinks with the
/// denominator.
pub proof fn lemma_fdiv_mono(a1: int, a2: int, b1: int, b2: int)
    requires
        0 <= a1 <= a2,
        1 <= b1 <= b2,
    ensures
        spec_fdiv(a1, b2) <= spec_fdiv(a2, b1),
        0 <= spec_fdiv(a1, b2) <= fp_max(),
{
    let s = SCALE as int;
    let mx = fp_max();
    lemma_div_mul_le(mx, s);
    if a1 <= mx / s {
        lemma_mul_inequality(a1, mx / s, s);
        lemma_mul_inequality(a1, a2, s);
        lemma_div_is_ordered(0, a1 * s, b2);
        lemma_div_is_ordered_by_denominator(a1 * s, b1, b2);
        lemma_div_is_ordered_le_self(a1 * s, b2);
        if a2 <= mx / s {
            lemma_div_is_ordered(a1 * s, a2 * s, b1);
        }
    }
}

/// Each later discount factor is antitone in the yield side of the
/// computation: a no-smaller base and a no-larger starting factor give
/// no-larger factors throughout.
pub proof fn lemma_dfac_antitone(d0a: int, d0b: int, basea: int, baseb: int, i: nat)
    requires
        0 <= d0b <= d0a,
        1 <= basea <= baseb,
    ensures
        spec_dfac(d0b, baseb, i) <= spec_dfac(d0a, basea, i),
        0 <= spec_dfac(d0b, baseb, i),
    decreases i,
{
    if i == 0 {
    } else {
        lemma_dfac_antitone(d0a, d0b, basea, baseb, (i - 1) as nat);
        lemma_fdiv_mono(
            spec_dfac(d0b, baseb, (i - 1) as nat),
            spec_dfac(d0a, basea, (i - 1) as nat),
            basea,
            baseb,
        );
    }
}

/// The discounted coupon sum is antitone in the yield side of the
/// computation.
pub proof fn lemma_disc_prefix_antitone(
    p: Seq<u128>,
    d0a: int,
    d0b: int,
    basea: int,
    baseb: int,
    k: nat,
)
    requires
        0 <= d0b <= d0a,
        1 <= basea <= baseb,
    ensures
        spec_disc_prefix(p, d0b, baseb, k) <= spec_disc_prefix(p, d0a, basea, k),
        0 <= spec_disc_prefix(p, d0b, baseb, k),
    decreases k,
{
    if k == 0 {
    } else {
        lemma_disc_prefix_antitone(p, d0a, d0b, basea, baseb, (k - 1) as nat);
        lemma_dfac_antitone(d0a, d0b, basea, baseb, (k - 1) as nat);
        lemma_fmul_mono(
            p[k - 1] as int,
            p[k - 1] as int,
            spec_dfac(d0b, baseb, (k - 1) as nat),
            spec_dfac(d0a, basea, (k - 1) as nat),
        );
        lemma_fmul_bounds(p[k - 1] as int, spec_dfac(d0b, baseb, (k - 1) as nat));
    }
}

/// The present-value evaluator is decreasing in the yield: discounting a
/// fixed schedule at a greater periodic yield never produces a greater
/// value. This ordering is what makes the bisection of the yield solver
/// meaningful. Under truncating fixed-point arithmetic nearby yields can
/// produce exactly equal values, so the ordering is non-strict; and for an
/// empty coupon schedule whose next payment falls short of one full period
/// the maturity exponent is negative and the ordering reverses, so that
/// degenerate corner is excluded.
pub proof fn lemma_gain_decreasing_in_yield(
    p: Seq<u128>,
    mval: int,
    y1: int,
    y2: int,
    dn: nat,
    dp: nat,
    ioi: int,
)
    requires
        0 <= y1 <= y2 <= fp_max(),
        dp >= 1,
        0 <= mval,
        0 <= ioi,
        p.len() >= 1 || dn >= dp,
    ensures
        spec_gain(p, mval, y2, dn, dp, ioi) <= spec_gain(p, mval, y1, dn, dp, ioi),
{
    let base1 = spec_base(y1);
    let base2 = spec_base(y2);
    lemma_base_bounds(y1);
    lemma_base_bounds(y2);
    lemma_div_is_ordered(y1, y2, 100);
    lemma_root_exists(base1, dp);
    lemma_root_exists(base2, dp);
    lemma_root_mono(base1, base2, dp);
    let rt1 = spec_root(base1, dp);
    let rt2 = spec_root(base2, dp);
    lemma_fpow_mono_base(rt1, rt2, dn);
    lemma_fpow_ge_one(rt1, dn);
    let rp1 = spec_fpow(rt1, dn);
    let rp2 = spec_fpow(rt2, dn);
    lemma_fdiv_mono(SCALE as int, SCALE as int, rp1, rp2);
    let d01 = spec_fdiv(SCALE as int, rp1);
    let d02 = spec_fdiv(SCALE as int, rp2);
    lemma_disc_prefix_antitone(p, d01, d02, base1, base2, p.len());
    if p.len() > 0 {
        lemma_dfac_antitone(d01, d02, base1, base2, (p.len() - 1) as nat);
        lemma_fmul_mono(
            mval,
            mval,
            spec_dfac(d02, base2, (p.len() - 1) as nat),
            spec_dfac(d01, base1, (p.len() - 1) as nat),
        );
        lemma_fmul_bounds(mval, spec_dfac(d02, base2, (p.len() - 1) as nat));
    } else {
        lemma_fpow_mono_base(rt1, rt2, (dn - dp) as nat);
        lemma_fpow_ge_one(rt1, (dn - dp) as nat);
        lemma_fdiv_mono(mval, mval, spec_fpow(rt1, (dn - dp) as nat), spec_fpow(rt2, (dn - dp) as nat));
    }
}

/// The plain cash-flow evaluator is decreasing in the yield in the same
/// non-strict sense.
pub proof fn lemma_pv_simple_decreasing_in_yield(p: Seq<u128>, y1: int, y2: int)
    requires
        0 <= y1 <= y2 <= fp_max(),
    ensures
        spec_pv_simple(p, y2) <= spec_pv_simple(p, y1),
        0 <= spec_pv_simple(p, y2),
{
    lemma_base_bounds(y1);
    lemma_base_bounds(y2);
    lemma_div_is_ordered(y1, y2, 100);
    let base1 = spec_base(y1);
    let base2 = spec_base(y2);
    lemma_fdiv_mono(SCALE as int, SCALE as int, base1, base2);
    lemma_disc_prefix_antitone(
        p,
        spec_fdiv(SCALE as int, base1),
        spec_fdiv(SCALE as int, base2),
        base1,
        base2,
        p.len(),
    );
}

/// Discounts each coupon of `p` in order, starting from the factor `d0` and
/// dividing by `base` once more for each later coupon. Returns the total and
/// the factor used for the last coupon (or `d0` if there is none).
fn discounted_coupons(p: &Vec<u128>, d0: u128, base: u128) -> (r: (u128, u128))
    requires
        base >= 1,
    ensures
        r.0 as int == spec_disc_prefix(p@, d0 as int, base as int, p@.len()),
        p@.len() > 0 ==> r.1 as int == spec_dfac(d0 as int, base as int, (p@.len() - 1) as nat),
        p@.len() == 0 ==> r.1 == d0,
{
    let mut acc: u128 = 0;
    let mut d: u128 = d0;
    let mut dm: u128 = d0;
    let mut i: usize = 0;
    while i < p.len()
        invariant
            base >= 1,
            i <= p@.len(),
            acc as int == spec_disc_prefix(p@, d0 as int, base as int, i as nat),
            d as int == spec_dfac(d0 as int, base as int, i as nat),
            i > 0 ==> dm as int == spec_dfac(d0 as int, base as int, (i - 1) as nat),
            i == 0 ==> dm == d0,
        decreases p@.len() - i,
    {
        dm = d;
        acc = sadd(acc, fmul(p[i], d));
        d = fdiv(d, base);
        i = i + 1;
        proof {
            assert(spec_disc_prefix(p@, d0 as int, base as int, i as nat) == spec_sadd(
                spec_disc_prefix(p@, d0 as int, base as int, (i - 1) as nat),
                spec_fmul(p@[i - 1] as int, spec_dfac(d0 as int, base as int, (i - 1) as nat)),
            ));
            assert(spec_dfac(d0 as int, base as int, i as nat)
                == spec_fdiv(spec_dfac(d0 as int, base as int, (i - 1) as nat), base as int));
        }
    }
    (acc, dm)
}

/// Present value of a plain cash-flow list at periodic yield `y`, cash flow
/// `i` discounted by the base raised to `i + 1`.
pub fn present_value_simple(p: &Vec<u128>, y: u128) -> (r: u128)
    ensures
        r as int == spec_pv_simple(p@, y as int),
{
    proof {
        lemma_base_bounds(y as int);
    }
    let base: u128 = SCALE + y / 100;
    let d0 = fdiv(SCALE, base);
    let (acc, _) = discounted_coupons(p, d0, base);
    acc
}

/// Present value of a full schedule at periodic yield `y`, plus the
/// undiscounted interest-on-interest amount `ioi`.
pub fn compute_gain(
    p: &Vec<u128>,
    maturity_value: u128,
    y: u128,
    dn: u64,
    dp: u64,
    ioi: u128,
) -> (r: u128)
    requires
        dp >= 1,
    ensures
        r as int == spec_gain(p@, maturity_value as int, y as int, dn as nat, dp as nat, ioi as int),
{
    proof {
        lemma_base_bounds(y as int);
    }
    let base: u128 = SCALE + y / 100;
    proof {
        lemma_root_exists(base as int, dp as nat);
    }
    let rt = nth_root(base, dp);
    let rp = fpow(rt, dn);
    proof {
        lemma_fpow_ge_one(rt as int, dn as nat);
    }
    let d0 = fdiv(SCALE, rp);
    let (acc, dm) = discounted_coupons(p, d0, base);
    let total: u128 = if p.len() > 0 {
        sadd(acc, fmul(maturity_value, dm))
    } else if dn >= dp {
        let pw = fpow(rt, dn - dp);
        proof {
            lemma_fpow_ge_one(rt as int, (dn - dp) as nat);
        }
        fdiv(maturity_value, pw)
    } else {
        fmul(maturity_value, fpow(rt, dp - dn))
    };
    sadd(total, ioi)
}

} // verus!
