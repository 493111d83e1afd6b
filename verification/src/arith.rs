//! Fixed-point arithmetic over scaled integers.
//!
//! A real value `r` is represented by the integer `r * SCALE`, rounded to the
//! nearest integer. `rdiv` is the one rounding primitive of the library:
//! division rounding half away from zero, the same policy as rounding a real
//! quotient to the nearest integer.

use vstd::prelude::*;
use vstd::arithmetic::div_mod::{lemma_fundamental_div_mod, lemma_fundamental_div_mod_converse};

verus! {

/// Fixed-point scale: one unit of a sample is this many integer steps.
pub const SCALE: i128 = 4294967296;

/// Largest magnitude accepted for a dividend by `rdiv128`.
pub const RDIV_MAX_A: i128 = 1329227995784915872903807060280344576;

/// Largest divisor accepted by `rdiv128`.
pub const RDIV_MAX_D: i128 = 1099511627776;

/// Division of `a` by `d > 0`, rounded half away from zero.
/// For `a >= 0` this is `floor((2a + d) / 2d)`, i.e. round-half-up;
/// negative dividends are handled symmetrically.
pub open spec fn rdiv(a: int, d: int) -> int {
    if a >= 0 {
        (2 * a + d) / (2 * d)
    } else {
        -((2 * (-a) + d) / (2 * d))
    }
}

/// `rdiv` keeps magnitudes: a dividend of magnitude at most `b * d`
/// rounds to a quotient of magnitude at most `b`.
pub proof fn lemma_rdiv_bound(a: int, d: int, b: int)
    requires
        1 <= d,
        0 <= b,
        -(b * d) <= a <= b * d,
    ensures
        -b <= rdiv(a, d) <= b,
{
    if a >= 0 {
        lemma_rdiv_bound_nonneg(a, d, b);
    } else {
        lemma_rdiv_bound_nonneg(-a, d, b);
    }
}

proof fn lemma_rdiv_bound_nonneg(a: int, d: int, b: int)
    requires
        1 <= d,
        0 <= b,
        0 <= a <= b * d,
    ensures
        0 <= rdiv(a, d) <= b,
{
    let x = 2 * a + d;
    let q = x / (2 * d);
    lemma_fundamental_div_mod(x, 2 * d);
    let r = x % (2 * d);
    assert(x == 2 * d * q + r);
    assert(0 <= r < 2 * d);
    assert(x <= 2 * (b * d) + d);
    assert(q >= 0) by (nonlinear_arith)
        requires
            x == 2 * d * q + r,
            0 <= r < 2 * d,
            x >= 1,
            d >= 1,
    ;
    assert(q <= b) by (nonlinear_arith)
        requires
            x == 2 * d * q + r,
            0 <= r,
            x <= 2 * (b * d) + d,
            d >= 1,
            b >= 0,
    ;
}

/// Exact multiples are recovered exactly: `rdiv(k * d, d) == k`.
pub proof fn lemma_rdiv_exact(k: int, d: int)
    requires
        1 <= d,
    ensures
        rdiv(k * d, d) == k,
{
    if k >= 0 {
        lemma_rdiv_exact_nonneg(k, d);
    } else {
        lemma_rdiv_exact_nonneg(-k, d);
        assert(k * d == -((-k) * d)) by (nonlinear_arith);
        assert(k * d <= -d) by (nonlinear_arith)
            requires
                k <= -1,
                d >= 1,
        ;
    }
}

proof fn lemma_rdiv_exact_nonneg(k: int, d: int)
    requires
        1 <= d,
        0 <= k,
    ensures
        rdiv(k * d, d) == k,
{
    let x = 2 * (k * d) + d;
    assert(2 * (k * d) + d == k * (2 * d) + d) by (nonlinear_arith);
    lemma_fundamental_div_mod_converse(x, 2 * d, k, d);
    assert(k * d >= 0) by (nonlinear_arith)
        requires
            k >= 0,
            d >= 1,
    ;
}

/// `rdiv` is monotone in the dividend.
pub proof fn lemma_rdiv_monotone(a1: int, a2: int, d: int)
    requires
        1 <= d,
        a1 <= a2,
    ensures
        rdiv(a1, d) <= rdiv(a2, d),
{
    if a1 >= 0 {
        vstd::arithmetic::div_mod::lemma_div_is_ordered(2 * a1 + d, 2 * a2 + d, 2 * d);
    } else if a2 < 0 {
        vstd::arithmetic::div_mod::lemma_div_is_ordered(2 * (-a2) + d, 2 * (-a1) + d, 2 * d);
    } else {
        lemma_rdiv_bound_nonneg(2 * (-a1) + d - d, 1, 2 * (-a1) + d - d);
        assert(rdiv(a1, d) <= 0);
        assert(rdiv(a2, d) >= 0);
    }
}

/// The rounded quotient is off by at most half a step:
/// `|a - d * rdiv(a, d)| <= d / 2`, stated without division as
/// `-d <= 2 * (a - d * rdiv(a, d)) <= d`.
pub proof fn lemma_rdiv_error(a: int, d: int)
    requires
        1 <= d,
    ensures
        -d <= 2 * (a - d * rdiv(a, d)) <= d,
{
    if a >= 0 {
        lemma_rdiv_error_nonneg(a, d);
    } else {
        lemma_rdiv_error_nonneg(-a, d);
        let q = rdiv(-a, d);
        assert(rdiv(a, d) == -q);
        assert(2 * (a - d * (-q)) == -(2 * ((-a) - d * q))) by (nonlinear_arith);
    }
}

proof fn lemma_rdiv_error_nonneg(a: int, d: int)
    requires
        1 <= d,
        0 <= a,
    ensures
        -d <= 2 * (a - d * rdiv(a, d)) <= d,
{
    let x = 2 * a + d;
    let q = x / (2 * d);
    lemma_fundamental_div_mod(x, 2 * d);
    let r = x % (2 * d);
    assert(x == 2 * d * q + r);
    assert(0 <= r < 2 * d);
    assert(2 * (a - d * q) == r - d) by (nonlinear_arith)
        requires
            2 * a + d == 2 * d * q + r,
    ;
}

/// Rounding division of `i128` values, half away from zero.
pub fn rdiv128(a: i128, d: i128) -> (r: i128)
    requires
        1 <= d <= RDIV_MAX_D,
        -RDIV_MAX_A <= a <= RDIV_MAX_A,
    ensures
        r == rdiv(a as int, d as int),
        -RDIV_MAX_A <= r <= RDIV_MAX_A,
{
    proof {
        lemma_rdiv_bound(a as int, d as int, RDIV_MAX_A as int);
        assert(-(RDIV_MAX_A * d) <= a <= RDIV_MAX_A * d) by (nonlinear_arith)
            requires
                d >= 1,
                -RDIV_MAX_A <= a <= RDIV_MAX_A,
                RDIV_MAX_A == 1329227995784915872903807060280344576i128,
        ;
    }
    if a >= 0 {
        let au: u128 = a as u128;
        let du: u128 = d as u128;
        let q: u128 = (2 * au + du) / (2 * du);
        proof {
            lemma_rdiv_bound_nonneg(a as int, d as int, RDIV_MAX_A as int);
        }
        q as i128
    } else {
        let au: u128 = (-a) as u128;
        let du: u128 = d as u128;
        let q: u128 = (2 * au + du) / (2 * du);
        proof {
            lemma_rdiv_bound_nonneg(-a as int, d as int, RDIV_MAX_A as int);
        }
        -(q as i128)
    }
}

} // verus!
