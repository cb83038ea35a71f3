//! Fixed-point arithmetic: a value `x` stands for the real number `x / SCALE`.
//! Products saturate at the bounds of `i64` and round toward zero.
use vstd::arithmetic::div_mod::{lemma_div_is_ordered, lemma_div_multiples_vanish};
use vstd::prelude::*;

verus! {

/// The fixed-point representation of 1.0.
pub const SCALE: i64 = 1_000_000;

/// Clamps a mathematical integer into the range of `i64`.
pub open spec fn clamp_i64(x: int) -> int {
    if x > i64::MAX as int {
        i64::MAX as int
    } else if x < i64::MIN as int {
        i64::MIN as int
    } else {
        x
    }
}

/// Integer quotient rounded toward zero (for a positive divisor).
pub open spec fn div_trunc(a: int, d: int) -> int {
    if a >= 0 {
        a / d
    } else {
        -((-a) / d)
    }
}

/// The fixed-point product of `a` and `b`.
pub open spec fn mul_spec(a: int, b: int) -> int {
    clamp_i64(div_trunc(a * b, SCALE as int))
}

proof fn lemma_product_bounds(a: i64, b: i64)
    ensures
        -0x4000_0000_0000_0000_0000_0000_0000_0000 <= (a as int) * (b as int)
            <= 0x4000_0000_0000_0000_0000_0000_0000_0000,
{
    let x = a as int;
    let y = b as int;
    let m: int = 0x8000_0000_0000_0000;
    assert(-m <= x <= m && -m <= y <= m);
    assert(-m * m <= x * y <= m * m) by (nonlinear_arith)
        requires
            -m <= x <= m,
            -m <= y <= m,
            m > 0,
    ;
}

/// The mean of `n >= 1` values of `i64`, rounded toward zero, is a value of `i64`.
pub proof fn lemma_mean_fits(s: int, n: int)
    requires
        n >= 1,
        -(n * 0x8000_0000_0000_0000) <= s <= n * 0x7fff_ffff_ffff_ffff,
    ensures
        i64::MIN <= div_trunc(s, n) <= i64::MAX,
{
    if s >= 0 {
        lemma_div_is_ordered(s, n * 0x7fff_ffff_ffff_ffff, n);
        lemma_div_multiples_vanish(0x7fff_ffff_ffff_ffff, n);
    } else {
        lemma_div_is_ordered(-s, n * 0x8000_0000_0000_0000, n);
        lemma_div_multiples_vanish(0x8000_0000_0000_0000, n);
    }
}

/// Quotient of `a` by the positive `d`, rounded toward zero.
pub fn i128_div_trunc(a: i128, d: i128) -> (r: i128)
    requires
        d > 0,
        a > i128::MIN,
    ensures
        r as int == div_trunc(a as int, d as int),
{
    if a >= 0 {
        a / d
    } else {
        let n: i128 = -a;
        let q: i128 = n / d;
        -q
    }
}

/// Clamps an `i128` into the range of `i64`.
pub fn saturate(x: i128) -> (r: i64)
    ensures
        r as int == clamp_i64(x as int),
{
    if x > i64::MAX as i128 {
        i64::MAX
    } else if x < i64::MIN as i128 {
        i64::MIN
    } else {
        x as i64
    }
}

/// Fixed-point product `a * b`, rounded toward zero and saturated.
pub fn fx_mul(a: i64, b: i64) -> (r: i64)
    ensures
        r as int == mul_spec(a as int, b as int),
{
    proof {
        lemma_product_bounds(a, b);
    }
    let p: i128 = (a as i128) * (b as i128);
    let q: i128 = i128_div_trunc(p, SCALE as i128);
    saturate(q)
}

} // verus!
