//! Saturating fixed-point arithmetic with twelve decimal places.
//!
//! A value `v` represents the number `v / SCALE`. Products and quotients are
//! truncated toward zero; every operation saturates at `u128::MAX` instead of
//! overflowing, so all operations are total on unsigned inputs.

use vstd::prelude::*;

verus! {

use vstd::arithmetic::div_mod::{
    lemma_fundamental_div_mod,
    lemma_fundamental_div_mod_converse_div,
    lemma_mod_bound,
    lemma_div_is_ordered,
};
use vstd::arithmetic::mul::lemma_mul_inequality;

/// The fixed-point representation of 1.0.
pub const SCALE: u128 = 1_000_000_000_000;

/// The fixed-point representation of 0.01, the resolution of reported results.
pub const CENT: u128 = 10_000_000_000;

/// The fixed-point representation of 0.005, used for rounding to cents.
pub const HALF_CENT: u128 = 5_000_000_000;

/// The saturation bound of all fixed-point operations.
pub open spec fn fp_max() -> int {
    u128::MAX as int
}

/// Fixed-point product `a * b`, truncated, saturating at `u128::MAX`.
pub open spec fn spec_fmul(a: int, b: int) -> int {
    if a * b <= fp_max() {
        (a * b) / (SCALE as int)
    } else {
        fp_max()
    }
}

/// Fixed-point quotient `a / b`, truncated, saturating at `u128::MAX`.
pub open spec fn spec_fdiv(a: int, b: int) -> int {
    if a <= fp_max() / (SCALE as int) {
        (a * (SCALE as int)) / b
    } else {
        fp_max()
    }
}

/// Saturating sum.
pub open spec fn spec_sadd(a: int, b: int) -> int {
    if a + b <= fp_max() {
        a + b
    } else {
        fp_max()
    }
}

/// Subtraction clamped at zero.
pub open spec fn spec_ssub(a: int, b: int) -> int {
    if a >= b {
        a - b
    } else {
        0
    }
}

/// Saturating product of a fixed-point value and a plain integer count.
pub open spec fn spec_smuln(a: int, n: int) -> int {
    if a * n <= fp_max() {
        a * n
    } else {
        fp_max()
    }
}

/// Absolute difference.
pub open spec fn spec_adiff(a: int, b: int) -> int {
    if a >= b {
        a - b
    } else {
        b - a
    }
}

/// Rounding to the nearest cent, halves away from zero, saturating.
pub open spec fn spec_round2(x: int) -> int {
    if x + (HALF_CENT as int) <= fp_max() {
        ((x + HALF_CENT as int) / (CENT as int)) * (CENT as int)
    } else {
        (fp_max() / (CENT as int)) * (CENT as int)
    }
}

/// `(x / d) * d` never exceeds `x`, and misses it by less than `d`.
pub proof fn lemma_div_mul_le(x: int, d: int)
    requires
        d >= 1,
        x >= 0,
    ensures
        (x / d) * d <= x,
        x < (x / d) * d + d,
        x / d >= 0,
{
    lemma_fundamental_div_mod(x, d);
    lemma_mod_bound(x, d);
    assert(d * (x / d) == (x / d) * d) by (nonlinear_arith);
    assert(x / d >= 0) by {
        if x / d < 0 {
            assert((x / d) * d <= -1 * d) by (nonlinear_arith)
                requires x / d <= -1 && d >= 1;
        }
    }
}

/// Fixed-point product, truncated, saturating at `u128::MAX`.
pub fn fmul(a: u128, b: u128) -> (r: u128)
    ensures
        r as int == spec_fmul(a as int, b as int),
{
    if b == 0 {
        proof {
            assert(a as int * 0 == 0) by (nonlinear_arith);
            assert(0int / (SCALE as int) == 0);
        }
        0
    } else if a <= u128::MAX / b {
        proof {
            lemma_div_mul_le(u128::MAX as int, b as int);
            lemma_mul_inequality(a as int, (u128::MAX / b) as int, b as int);
        }
        (a * b) / SCALE
    } else {
        proof {
            lemma_div_mul_le(u128::MAX as int, b as int);
            lemma_mul_inequality((u128::MAX / b) as int + 1, a as int, b as int);
            assert(((u128::MAX / b) as int + 1) * (b as int)
                == (u128::MAX / b) as int * (b as int) + b as int) by (nonlinear_arith);
        }
        u128::MAX
    }
}

/// Fixed-point quotient, truncated, saturating at `u128::MAX`.
pub fn fdiv(a: u128, b: u128) -> (r: u128)
    requires
        b >= 1,
    ensures
        r as int == spec_fdiv(a as int, b as int),
{
    if a <= u128::MAX / SCALE {
        proof {
            lemma_div_mul_le(u128::MAX as int, SCALE as int);
            lemma_mul_inequality(a as int, (u128::MAX / SCALE) as int, SCALE as int);
            lemma_div_is_ordered(0, a as int * SCALE as int, b as int);
            lemma_div_is_ordered(a as int * SCALE as int, u128::MAX as int, b as int);
            lemma_div_is_ordered_le_self(a as int * SCALE as int, b as int);
        }
        (a * SCALE) / b
    } else {
        u128::MAX
    }
}

/// For nonnegative `x`, `x / d <= x`.
pub proof fn lemma_div_is_ordered_le_self(x: int, d: int)
    requires
        x >= 0,
        d >= 1,
    ensures
        x / d <= x,
        x / d >= 0,
{
    lemma_div_mul_le(x, d);
    assert((x / d) * 1 <= (x / d) * d) by (nonlinear_arith)
        requires x / d >= 0 && d >= 1;
}

/// Saturating sum.
pub fn sadd(a: u128, b: u128) -> (r: u128)
    ensures
        r as int == spec_sadd(a as int, b as int),
{
    if a <= u128::MAX - b {
        a + b
    } else {
        u128::MAX
    }
}

/// Subtraction clamped at zero.
pub fn ssub(a: u128, b: u128) -> (r: u128)
    ensures
        r as int == spec_ssub(a as int, b as int),
{
    if a >= b {
        a - b
    } else {
        0
    }
}

/// Saturating product of a fixed-point value and a plain integer count.
pub fn smuln(a: u128, n: u128) -> (r: u128)
    ensures
        r as int == spec_smuln(a as int, n as int),
{
    if n == 0 {
        proof {
            assert(a as int * 0 == 0) by (nonlinear_arith);
        }
        0
    } else if a <= u128::MAX / n {
        proof {
            lemma_div_mul_le(u128::MAX as int, n as int);
            lemma_mul_inequality(a as int, (u128::MAX / n) as int, n as int);
        }
        a * n
    } else {
        proof {
            lemma_div_mul_le(u128::MAX as int, n as int);
            lemma_mul_inequality((u128::MAX / n) as int + 1, a as int, n as int);
            assert(((u128::MAX / n) as int + 1) * (n as int)
                == (u128::MAX / n) as int * (n as int) + n as int) by (nonlinear_arith);
        }
        u128::MAX
    }
}

/// Absolute difference.
pub fn adiff(a: u128, b: u128) -> (r: u128)
    ensures
        r as int == spec_adiff(a as int, b as int),
{
    if a >= b {
        a - b
    } else {
        b - a
    }
}

/// Rounds a fixed-point value to the nearest cent, halves away from zero.
pub fn round2(x: u128) -> (r: u128)
    ensures
        r as int == spec_round2(x as int),
{
    if x <= u128::MAX - HALF_CENT {
        proof {
            lemma_div_mul_le(x as int + HALF_CENT as int, CENT as int);
        }
        ((x + HALF_CENT) / CENT) * CENT
    } else {
        proof {
            lemma_div_mul_le(u128::MAX as int, CENT as int);
        }
        (u128::MAX / CENT) * CENT
    }
}

/// Builds the fixed-point value for a whole number of cents, for stating
/// prices and rates exactly.
pub fn from_cents(c: u64) -> (r: u128)
    ensures
        r as int == c as int * CENT as int,
{
    proof {
        lemma_mul_inequality(c as int, u64::MAX as int, CENT as int);
        assert(u64::MAX as int * CENT as int <= u128::MAX as int) by (nonlinear_arith);
    }
    (c as u128) * CENT
}

/// Rounding to cents is idempotent: rounding an already rounded value
/// changes nothing.
pub proof fn lemma_round2_idempotent(x: int)
    requires
        x >= 0,
    ensures
        spec_round2(spec_round2(x)) == spec_round2(x),
{
    let c = CENT as int;
    let h = HALF_CENT as int;
    let m = fp_max();
    // The remainder of u128::MAX by one cent is below half a cent, so the
    // saturating branch of the rounding is itself a fixed point.
    assert(m % c == 1768211455);
    lemma_fundamental_div_mod(m, c);
    let k = if x + h <= m { (x + h) / c } else { m / c };
    assert(spec_round2(x) == k * c);
    if x + h <= m {
        lemma_div_mul_le(x + h, c);
        lemma_div_is_ordered(x + h, m, c);
    }
    assert(k <= m / c);
    assert(k * c <= (m / c) * c) by (nonlinear_arith)
        requires k <= m / c && c > 0;
    assert((m / c) * c == m - 1768211455);
    if k * c + h <= m {
        lemma_fundamental_div_mod_converse_div(k * c + h, c, k, h);
        assert(spec_round2(k * c) == ((k * c + h) / c) * c);
    } else {
        assert(k * c > m - h);
        assert(k * c > (m / c) * c - c) by {
            assert(m - h < m - 1768211455);
        }
        assert(k > m / c - 1) by {
            if k <= m / c - 1 {
                assert(k * c <= (m / c - 1) * c) by (nonlinear_arith)
                    requires k <= m / c - 1 && c > 0;
                assert((m / c - 1) * c == (m / c) * c - c) by (nonlinear_arith);
            }
        }
        assert(k == m / c);
    }
}

/// A rounded value lies within half a cent of the value it rounds, as long
/// as the saturating branch of the rounding is not reached.
pub proof fn lemma_round2_close(x: int)
    requires
        0 <= x,
        x + (HALF_CENT as int) <= fp_max(),
    ensures
        spec_adiff(spec_round2(x), x) <= HALF_CENT as int,
{
    let c = CENT as int;
    let h = HALF_CENT as int;
    lemma_div_mul_le(x + h, c);
}

} // verus!
