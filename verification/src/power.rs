//! Integer powers and n-th roots of fixed-point numbers.
//!
//! Powers are iterated truncating products; a root is characterized exactly
//! as the largest fixed-point value whose power does not exceed the argument.

use vstd::prelude::*;

verus! {

use vstd::arithmetic::div_mod::{
    lemma_fundamental_div_mod_converse_div,
    lemma_div_is_ordered,
};
use crate::fixed::{
    SCALE, fp_max, spec_fmul, fmul,
    lemma_div_mul_le, lemma_div_is_ordered_le_self,
};

/// `b` raised to the `n`-th power, by iterated truncating multiplication.
pub open spec fn spec_fpow(b: int, n: nat) -> int
    decreases n,
{
    if n == 0 {
        SCALE as int
    } else {
        spec_fmul(spec_fpow(b, (n - 1) as nat), b)
    }
}

/// The square of 1.0 is representable.
pub proof fn lemma_scale_squared()
    ensures
        (SCALE as int) * (SCALE as int) <= fp_max(),
{
    assert(1_000_000_000_000int * 1_000_000_000_000int
        == 1_000_000_000_000_000_000_000_000int) by (nonlinear_arith);
}

/// A truncating product of nonnegative values stays within `[0, u128::MAX]`.
pub proof fn lemma_fmul_bounds(a: int, b: int)
    requires
        a >= 0,
        b >= 0,
    ensures
        0 <= spec_fmul(a, b) <= fp_max(),
{
    assert(a * b >= 0) by (nonlinear_arith)
        requires a >= 0 && b >= 0;
    if a * b <= fp_max() {
        lemma_div_is_ordered_le_self(a * b, SCALE as int);
    }
}

/// The truncating product is monotone in both operands.
pub proof fn lemma_fmul_mono(a1: int, a2: int, b1: int, b2: int)
    requires
        0 <= a1 <= a2,
        0 <= b1 <= b2,
    ensures
        spec_fmul(a1, b1) <= spec_fmul(a2, b2),
{
    assert(a1 * b1 <= a2 * b2) by (nonlinear_arith)
        requires 0 <= a1 <= a2 && 0 <= b1 <= b2;
    lemma_fmul_bounds(a1, b1);
    if a2 * b2 <= fp_max() {
        lemma_div_is_ordered(a1 * b1, a2 * b2, SCALE as int);
    }
}

/// Powers stay within `[0, u128::MAX]` and are monotone in the base.
pub proof fn lemma_fpow_mono_base(b1: int, b2: int, n: nat)
    requires
        0 <= b1 <= b2,
    ensures
        spec_fpow(b1, n) <= spec_fpow(b2, n),
        0 <= spec_fpow(b1, n) <= fp_max(),
    decreases n,
{
    if n == 0 {
    } else {
        lemma_fpow_mono_base(b1, b2, (n - 1) as nat);
        lemma_fmul_mono(spec_fpow(b1, (n - 1) as nat), spec_fpow(b2, (n - 1) as nat), b1, b2);
        lemma_fmul_bounds(spec_fpow(b1, (n - 1) as nat), b1);
    }
}

/// Every power of 1.0 is 1.0.
pub proof fn lemma_fpow_one(n: nat)
    ensures
        spec_fpow(SCALE as int, n) == SCALE as int,
    decreases n,
{
    if n == 0 {
    } else {
        lemma_fpow_one((n - 1) as nat);
        let s = SCALE as int;
        lemma_scale_squared();
        assert(s * s == s * s + 0);
        lemma_fundamental_div_mod_converse_div(s * s, s, s, 0);
    }
}

/// A power of a base at least 1.0 is at least 1.0.
pub proof fn lemma_fpow_ge_one(b: int, n: nat)
    requires
        b >= SCALE as int,
    ensures
        spec_fpow(b, n) >= SCALE as int,
    decreases n,
{
    if n == 0 {
    } else {
        lemma_fpow_ge_one(b, (n - 1) as nat);
        let s = SCALE as int;
        let acc = spec_fpow(b, (n - 1) as nat);
        if acc * b <= fp_max() {
            assert(s * s <= acc * b) by (nonlinear_arith)
                requires s <= acc && s <= b && s >= 1;
            lemma_div_is_ordered(s * s, acc * b, s);
            assert(s * s == s * s + 0);
            lemma_fundamental_div_mod_converse_div(s * s, s, s, 0);
        }
    }
}

/// For a positive exponent, a power of a base at least 1.0 is at least the
/// base itself.
pub proof fn lemma_fpow_ge_base(b: int, n: nat)
    requires
        SCALE as int <= b <= fp_max(),
        n >= 1,
    ensures
        spec_fpow(b, n) >= b,
    decreases n,
{
    let s = SCALE as int;
    let acc = spec_fpow(b, (n - 1) as nat);
    if n == 1 {
        if s * b <= fp_max() {
            assert(s * b == b * s + 0) by (nonlinear_arith);
            lemma_fundamental_div_mod_converse_div(s * b, s, b, 0);
        }
    } else {
        lemma_fpow_ge_base(b, (n - 1) as nat);
        lemma_fpow_ge_one(b, (n - 1) as nat);
        if acc * b <= fp_max() {
            assert(b * s <= acc * b) by (nonlinear_arith)
                requires s <= acc && b >= 0;
            lemma_div_is_ordered(b * s, acc * b, s);
            assert(b * s == b * s + 0);
            lemma_fundamental_div_mod_converse_div(b * s, s, b, 0);
        }
    }
}

/// `b` raised to the `n`-th power.
pub fn fpow(b: u128, n: u64) -> (r: u128)
    ensures
        r as int == spec_fpow(b as int, n as nat),
{
    let mut acc: u128 = SCALE;
    let mut i: u64 = 0;
    while i < n
        invariant
            i <= n,
            acc as int == spec_fpow(b as int, i as nat),
        decreases n - i,
    {
        acc = fmul(acc, b);
        i = i + 1;
        proof {
            assert(spec_fpow(b as int, i as nat)
                == spec_fmul(spec_fpow(b as int, (i - 1) as nat), b as int));
        }
    }
    acc
}

/// What it means for `r` to be the `n`-th root of `x`: the largest value
/// whose `n`-th power does not exceed `x`.
pub open spec fn root_ok(r: int, x: int, n: nat) -> bool {
    &&& SCALE as int <= r <= x
    &&& spec_fpow(r, n) <= x
    &&& x < spec_fpow(r + 1, n)
}

/// The `n`-th root of `x`, characterized by `root_ok`.
pub open spec fn spec_root(x: int, n: nat) -> int {
    choose|r: int| root_ok(r, x, n)
}

/// At most one value satisfies the root characterization.
pub proof fn lemma_root_unique(r1: int, r2: int, x: int, n: nat)
    requires
        root_ok(r1, x, n),
        root_ok(r2, x, n),
    ensures
        r1 == r2,
{
    if r1 < r2 {
        lemma_fpow_mono_base(r1 + 1, r2, n);
    }
    if r2 < r1 {
        lemma_fpow_mono_base(r2 + 1, r1, n);
    }
}

proof fn lemma_root_exists_rec(x: int, n: nat, r: int)
    requires
        n >= 1,
        SCALE as int <= r <= x <= fp_max() - 1,
        spec_fpow(r, n) <= x,
    ensures
        exists|r2: int| root_ok(r2, x, n),
    decreases x - r,
{
    if x < spec_fpow(r + 1, n) {
        assert(root_ok(r, x, n));
    } else {
        lemma_fpow_ge_base(r + 1, n);
        lemma_root_exists_rec(x, n, r + 1);
    }
}

/// A root exists for every representable `x` at least 1.0, and so the
/// characterization `root_ok` holds of `spec_root`.
pub proof fn lemma_root_exists(x: int, n: nat)
    requires
        n >= 1,
        SCALE as int <= x <= fp_max() - 1,
    ensures
        root_ok(spec_root(x, n), x, n),
{
    lemma_fpow_one(n);
    lemma_root_exists_rec(x, n, SCALE as int);
    let w = choose|r2: int| root_ok(r2, x, n);
    assert(root_ok(w, x, n));
}

/// Roots are monotone in the radicand.
pub proof fn lemma_root_mono(x1: int, x2: int, n: nat)
    requires
        n >= 1,
        SCALE as int <= x1 <= x2 <= fp_max() - 1,
    ensures
        spec_root(x1, n) <= spec_root(x2, n),
{
    lemma_root_exists(x1, n);
    lemma_root_exists(x2, n);
    let r1 = spec_root(x1, n);
    let r2 = spec_root(x2, n);
    if r2 < r1 {
        lemma_fpow_mono_base(r2 + 1, r1, n);
    }
}

/// The `n`-th root of `x`: the largest fixed-point value whose `n`-th power
/// does not exceed `x`, found by binary search.
pub fn nth_root(x: u128, n: u64) -> (r: u128)
    requires
        n >= 1,
        SCALE <= x < u128::MAX,
    ensures
        root_ok(r as int, x as int, n as nat),
        r as int == spec_root(x as int, n as nat),
{
    let mut lo: u128 = SCALE;
    let mut hi: u128 = x + 1;
    proof {
        lemma_fpow_one(n as nat);
        lemma_fpow_ge_base(x as int + 1, n as nat);
    }
    while lo + 1 < hi
        invariant
            SCALE <= lo < hi <= x + 1,
            x < u128::MAX,
            n >= 1,
            spec_fpow(lo as int, n as nat) <= x as int,
            (x as int) < spec_fpow(hi as int, n as nat),
        decreases hi - lo,
    {
        let mid: u128 = lo + (hi - lo) / 2;
        proof {
            lemma_div_mul_le(hi as int - lo as int, 2);
            lemma_div_is_ordered(2, hi as int - lo as int, 2);
        }
        let p = fpow(mid, n);
        if p <= x {
            lo = mid;
        } else {
            hi = mid;
        }
    }
    proof {
        assert(root_ok(lo as int, x as int, n as nat));
        lemma_root_exists(x as int, n as nat);
        lemma_root_unique(lo as int, spec_root(x as int, n as nat), x as int, n as nat);
    }
    lo
}

} // verus!
