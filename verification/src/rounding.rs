//! Round-to-nearest division.
//!
//! This is the arithmetic core shared by the sample codec, the resampler's
//! interpolation step and the duration conversions: every fixed-point
//! computation in the crate rounds a quotient to the nearest integer, with
//! ties away from zero (the rounding of `round` on floating-point values).

use vstd::prelude::*;
use vstd::arithmetic::div_mod::{
    lemma_fundamental_div_mod, lemma_fundamental_div_mod_converse_div, lemma_mod_bound,
};
use vstd::arithmetic::mul::{lemma_mul_is_commutative, lemma_mul_unary_negation};

verus! {

/// Quotient `a / b` rounded to the nearest integer, with ties away from zero.
pub open spec fn rdiv(a: int, b: int) -> int
    recommends
        b >= 1,
{
    if a >= 0 {
        (2 * a + b) / (2 * b)
    } else {
        -((2 * (-a) + b) / (2 * b))
    }
}

/// `rdiv` taken over a nonzero divisor of either sign.
pub open spec fn rdiv_signed(a: int, b: int) -> int
    recommends
        b != 0,
{
    if b >= 0 {
        rdiv(a, b)
    } else {
        rdiv(-a, -b)
    }
}

/// The rounded quotient differs from the exact quotient by at most one half:
/// `|a - rdiv(a, b) * b| <= b / 2`, stated without division.
pub proof fn lemma_rdiv_err(a: int, b: int)
    requires
        b >= 1,
    ensures
        -b <= 2 * a - 2 * b * rdiv(a, b) <= b,
{
    if a >= 0 {
        let x = 2 * a + b;
        let d = 2 * b;
        lemma_fundamental_div_mod(x, d);
        lemma_mod_bound(x, d);
        assert(2 * b * rdiv(a, b) == d * (x / d));
        assert(2 * a - 2 * b * rdiv(a, b) == x % d - b);
    } else {
        let x = 2 * (-a) + b;
        let d = 2 * b;
        lemma_fundamental_div_mod(x, d);
        lemma_mod_bound(x, d);
        assert(rdiv(a, b) == -(x / d));
        assert(2 * b * -(x / d) == -(d * (x / d))) by {
            lemma_mul_unary_negation(x / d, d);
            lemma_mul_is_commutative(x / d, d);
            lemma_mul_is_commutative(-(x / d), d);
        }
        assert(2 * a - 2 * b * rdiv(a, b) == b - x % d);
    }
}

/// Any integer within half of the exact quotient is the rounded quotient:
/// `|a - q * b| < b / 2` pins `rdiv(a, b)` to `q`.
pub proof fn lemma_rdiv_unique(a: int, b: int, q: int)
    requires
        b >= 1,
        -b < 2 * a - 2 * b * q < b,
    ensures
        rdiv(a, b) == q,
{
    if a >= 0 {
        let x = 2 * a + b;
        let d = 2 * b;
        let r = x - q * d;
        assert(q * d == 2 * b * q) by {
            lemma_mul_is_commutative(q, d);
        }
        lemma_fundamental_div_mod_converse_div(x, d, q, r);
    } else {
        let x = 2 * (-a) + b;
        let d = 2 * b;
        let r = x - (-q) * d;
        assert((-q) * d == -(2 * b * q)) by {
            lemma_mul_unary_negation(q, d);
            lemma_mul_is_commutative(q, d);
        }
        lemma_fundamental_div_mod_converse_div(x, d, -q, r);
    }
}

/// Exact multiples are returned unrounded.
pub proof fn lemma_rdiv_exact(k: int, b: int)
    requires
        b >= 1,
    ensures
        rdiv(k * b, b) == k,
{
    assert(2 * (k * b) - 2 * b * k == 0) by (nonlinear_arith);
    lemma_rdiv_unique(k * b, b, k);
}

/// Rounding a fraction `t / b` of `d` with `0 <= t <= b` stays between `0` and `d`.
pub proof fn lemma_rdiv_between(t: int, d: int, b: int)
    requires
        b >= 1,
        0 <= t <= b,
    ensures
        d >= 0 ==> 0 <= rdiv(t * d, b) <= d,
        d <= 0 ==> d <= rdiv(t * d, b) <= 0,
{
    let q = rdiv(t * d, b);
    lemma_rdiv_err(t * d, b);
    if d >= 0 {
        assert(0 <= 2 * (t * d) <= 2 * b * d) by (nonlinear_arith)
            requires
                0 <= t <= b,
                d >= 0,
        ;
        if q < 0 {
            assert(2 * b * q <= -(2 * b)) by (nonlinear_arith)
                requires
                    b >= 1,
                    q <= -1,
            ;
            assert(false);
        }
        if q > d {
            assert(2 * b * q >= 2 * b * d + 2 * b) by (nonlinear_arith)
                requires
                    b >= 1,
                    q >= d + 1,
            ;
            assert(false);
        }
    } else {
        assert(2 * b * d <= 2 * (t * d) <= 0) by (nonlinear_arith)
            requires
                0 <= t <= b,
                d <= 0,
        ;
        if q > 0 {
            assert(2 * b * q >= 2 * b) by (nonlinear_arith)
                requires
                    b >= 1,
                    q >= 1,
            ;
            assert(false);
        }
        if q < d {
            assert(2 * b * q <= 2 * b * d - 2 * b) by (nonlinear_arith)
                requires
                    b >= 1,
                    q <= d - 1,
            ;
            assert(false);
        }
    }
}

/// Scaling up by `d`, rounding down to a multiple of `m`, and scaling back
/// down returns the starting value whenever `m < d`: the two roundings
/// together lose less than one step of the coarser grid.
pub proof fn lemma_rdiv_scale_round_trip(v: int, m: int, d: int)
    requires
        1 <= m < d,
    ensures
        rdiv(rdiv(v * d, m) * m, d) == v,
{
    let w = rdiv(v * d, m);
    lemma_rdiv_err(v * d, m);
    assert(2 * (w * m) - 2 * d * v == -(2 * (v * d) - 2 * m * w)) by (nonlinear_arith);
    lemma_rdiv_unique(w * m, d, v);
}

/// Comparing a floor quotient against a bound is comparing the dividend
/// against the scaled bound: `p / d >= k` exactly when `p >= k * d`.
pub proof fn lemma_div_ge(p: int, d: int, k: int)
    requires
        d >= 1,
    ensures
        (p / d >= k) <==> (p >= k * d),
{
    lemma_fundamental_div_mod(p, d);
    lemma_mod_bound(p, d);
    let q = p / d;
    let r = p % d;
    if q >= k {
        assert(d * q >= k * d) by (nonlinear_arith)
            requires
                d >= 1,
                q >= k,
        ;
    }
    if p >= k * d && q < k {
        assert(d * q + r < k * d) by (nonlinear_arith)
            requires
                d >= 1,
                q <= k - 1,
                0 <= r < d,
        ;
        assert(false);
    }
}

/// A quotient whose dividend is at most `m * b` in magnitude is at most `m`.
pub proof fn lemma_rdiv_mag(a: int, b: int, m: int)
    requires
        b >= 1,
        m >= 0,
        -(m * b) <= a <= m * b,
    ensures
        -m <= rdiv(a, b) <= m,
{
    let q = rdiv(a, b);
    lemma_rdiv_err(a, b);
    if q < -m {
        assert(false) by (nonlinear_arith)
            requires
                b >= 1,
                q <= -(m + 1),
                -(m * b) <= a,
                -b <= 2 * a - 2 * b * q <= b,
        ;
    }
    if q > m {
        assert(false) by (nonlinear_arith)
            requires
                b >= 1,
                q >= m + 1,
                a <= m * b,
                -b <= 2 * a - 2 * b * q <= b,
        ;
    }
}

/// A nonnegative dividend gives a nonnegative rounded quotient.
pub proof fn lemma_rdiv_nonneg(a: int, b: int)
    requires
        b >= 1,
        a >= 0,
    ensures
        rdiv(a, b) >= 0,
{
    let q = rdiv(a, b);
    lemma_rdiv_err(a, b);
    if q < 0 {
        assert(false) by (nonlinear_arith)
            requires
                b >= 1,
                q <= -1,
                a >= 0,
                -b <= 2 * a - 2 * b * q <= b,
        ;
    }
}

/// Rounded division for signed 128-bit intermediates, ties away from zero.
pub fn rdiv_i128(a: i128, b: i128) -> (q: i128)
    requires
        1 <= b <= 0x1_0000_0000_0000,
        -0x10_0000_0000_0000_0000_0000_0000 <= a <= 0x10_0000_0000_0000_0000_0000_0000,
    ensures
        q == rdiv(a as int, b as int),
{
    if a >= 0 {
        let n: u128 = 2 * (a as u128) + (b as u128);
        let d: u128 = 2 * (b as u128);
        let qq: u128 = n / d;
        proof {
            lemma_mod_bound(n as int, d as int);
            lemma_fundamental_div_mod(n as int, d as int);
        }
        qq as i128
    } else {
        let m: u128 = (-a) as u128;
        let n: u128 = 2 * m + (b as u128);
        let d: u128 = 2 * (b as u128);
        let qq: u128 = n / d;
        proof {
            lemma_mod_bound(n as int, d as int);
            lemma_fundamental_div_mod(n as int, d as int);
        }
        -(qq as i128)
    }
}

} // verus!
