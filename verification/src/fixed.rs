//! Scalar building blocks: the Q32.32 scale, division rounded to nearest,
//! and the integer square root.

use vstd::prelude::*;
use crate::arith::{lemma_distribute2, lemma_mul_bound, mag};

verus! {

/// The raw value of 1.0: reals are counted in units of 2^-32.
pub const ONE: i64 = 0x1_0000_0000;

/// The raw value of 1.0, squared.
pub const ONE_SQ: i128 = 0x1_0000_0000_0000_0000;

/// Largest magnitude accepted by [`div_round`] for either operand, 2^125.
pub const DIV_LIMIT: i128 = 0x2000_0000_0000_0000_0000_0000_0000_0000;

/// Exclusive upper bound of the arguments of [`isqrt`], 2^126.
pub const SQRT_LIMIT: u128 = 0x4000_0000_0000_0000_0000_0000_0000_0000;

/// Exclusive upper bound of the magnitudes that [`scale_for`] accepts, 2^62.
pub const SCALE_LIMIT: i64 = 0x4000_0000_0000_0000;

/// What [`scale_for`] brings a magnitude up to, 2^61.
pub const SCALE_FLOOR: i64 = 0x2000_0000_0000_0000;

/// The quotient `n / d` rounded to the nearest integer, ties away from zero.
pub open spec fn round_div(n: int, d: int) -> int
    recommends
        d != 0,
{
    let q = (2 * mag(n) + mag(d)) / (2 * mag(d));
    if (n < 0) != (d < 0) {
        -q
    } else {
        q
    }
}

/// The integer square root: the largest `r` with `r * r <= x`.
pub open spec fn sqrt_floor(x: nat) -> nat
    decreases x,
{
    if x == 0 {
        0
    } else {
        let r = sqrt_floor((x - 1) as nat);
        if (r + 1) * (r + 1) <= x {
            r + 1
        } else {
            r
        }
    }
}

/// The power of two that lifts a magnitude `m` below 2^61 into the range
/// from 2^61 up to, but not including, 2^62; one for any other `m`.
pub open spec fn scale_factor(m: int) -> int
    decreases SCALE_LIMIT - m,
{
    if m <= 0 || m >= SCALE_FLOOR {
        1
    } else {
        2 * scale_factor(2 * m)
    }
}

/// The power of two that takes a magnitude `m` of 2^61 or more down below
/// 2^61, and not below 2^60; one for a smaller `m`.
pub open spec fn shrink_factor(m: int) -> int
    decreases m,
{
    if m < SCALE_FLOOR {
        1
    } else {
        2 * shrink_factor(m / 2)
    }
}

/// The magnitude of a 64-bit integer other than the least.
pub fn abs_i64(a: i64) -> (r: i64)
    requires
        a > i64::MIN,
    ensures
        r == mag(a as int),
{
    if a < 0 {
        -a
    } else {
        a
    }
}

/// The product of two 64-bit integers, in 128 bits.
pub fn mul_wide(a: i64, b: i64) -> (r: i128)
    ensures
        r == a * b,
{
    proof {
        lemma_mul_bound(a as int, b as int, 0x8000_0000_0000_0000, 0x8000_0000_0000_0000);
    }
    (a as i128) * (b as i128)
}

/// Divides, rounding to the nearest integer with ties away from zero.
pub fn div_round(n: i128, d: i128) -> (r: i128)
    requires
        d != 0,
        -DIV_LIMIT <= n <= DIV_LIMIT,
        -DIV_LIMIT <= d <= DIV_LIMIT,
    ensures
        r == round_div(n as int, d as int),
{
    let na: u128 = if n < 0 { (-n) as u128 } else { n as u128 };
    let da: u128 = if d < 0 { (-d) as u128 } else { d as u128 };
    let q: u128 = (2 * na + da) / (2 * da);
    proof {
        assert(q <= 2 * na + da) by (nonlinear_arith)
            requires
                da > 0,
                q == (2 * na + da) / (2 * da),
        ;
    }
    let qi: i128 = q as i128;
    if (n < 0) != (d < 0) {
        -qi
    } else {
        qi
    }
}

/// Computes the integer square root by bisection.
pub fn isqrt(x: u128) -> (r: u64)
    requires
        x < SQRT_LIMIT,
    ensures
        r == sqrt_floor(x as nat),
        r * r <= x < (r + 1) * (r + 1),
{
    let mut lo: u128 = 0;
    let mut hi: u128 = 0x8000_0000_0000_0000;
    while hi - lo > 1
        invariant
            lo < hi <= 0x8000_0000_0000_0000,
            lo * lo <= x < hi * hi,
            x < SQRT_LIMIT,
        decreases hi - lo,
    {
        let mid: u128 = lo + (hi - lo) / 2;
        proof {
            assert(mid * mid < SQRT_LIMIT) by (nonlinear_arith)
                requires
                    mid < 0x8000_0000_0000_0000,
            ;
        }
        if mid * mid <= x {
            lo = mid;
        } else {
            hi = mid;
        }
    }
    proof {
        lemma_sqrt_floor_unique(x as nat, lo as nat);
    }
    lo as u64
}

/// Computes [`scale_factor`] by repeated doubling.
pub fn scale_for(m: i64) -> (f: i64)
    requires
        0 < m < SCALE_LIMIT,
    ensures
        f == scale_factor(m as int),
        f >= 1,
        SCALE_FLOOR <= m * f < SCALE_LIMIT,
{
    let mut f: i64 = 1;
    let mut cur: i64 = m;
    proof {
        assert(1 * scale_factor(m as int) == scale_factor(m as int));
        assert(m * 1 == m);
    }
    while cur < SCALE_FLOOR
        invariant
            0 < m < SCALE_LIMIT,
            0 < cur < SCALE_LIMIT,
            1 <= f <= cur,
            cur == m * f,
            scale_factor(m as int) == f * scale_factor(cur as int),
        decreases SCALE_LIMIT - cur,
    {
        proof {
            let g = scale_factor(2 * cur);
            assert(f * (2 * g) == (2 * f) * g) by (nonlinear_arith);
            assert(m * (2 * f) == 2 * (m * f)) by (nonlinear_arith);
        }
        cur = 2 * cur;
        f = 2 * f;
    }
    proof {
        assert(f * 1 == f);
    }
    f
}

/// Computes [`shrink_factor`] by repeated halving.
pub fn shrink_for(m: i128) -> (p: i128)
    requires
        0 <= m <= DIV_LIMIT,
    ensures
        p == shrink_factor(m as int),
        1 <= p <= 0x2_0000_0000_0000_0000,
{
    let mut p: i128 = 1;
    let mut cur: i128 = m;
    proof {
        assert(1 * shrink_factor(m as int) == shrink_factor(m as int));
        assert(m * 1 == m);
    }
    while cur >= SCALE_FLOOR as i128
        invariant
            0 <= cur <= m <= DIV_LIMIT,
            1 <= p,
            cur * p <= m,
            p == 1 || cur >= 0x1000_0000_0000_0000,
            shrink_factor(m as int) == p * shrink_factor(cur as int),
        decreases cur,
    {
        proof {
            let g = shrink_factor(cur / 2);
            assert(p * (2 * g) == (2 * p) * g) by (nonlinear_arith);
            assert((cur / 2) * (2 * p) <= cur * p && p <= 0x1_0000_0000_0000_0000)
                by (nonlinear_arith)
                requires
                    cur >= 0x2000_0000_0000_0000,
                    p >= 1,
                    cur * p <= 0x2000_0000_0000_0000_0000_0000_0000_0000,
            ;
        }
        cur = cur / 2;
        p = 2 * p;
    }
    proof {
        assert(p * 1 == p);
        assert(p <= 0x2_0000_0000_0000_0000) by (nonlinear_arith)
            requires
                p >= 1,
                cur >= 0,
                cur * p <= 0x2000_0000_0000_0000_0000_0000_0000_0000,
                p == 1 || cur >= 0x1000_0000_0000_0000,
        ;
    }
    p
}

/// The rounded quotient is within half a divisor of the exact one.
pub proof fn lemma_round_div_error(n: int, d: int)
    requires
        d != 0,
    ensures
        2 * mag(round_div(n, d) * d - n) <= mag(d),
{
    let a = mag(n);
    let b = mag(d);
    let q = (2 * a + b) / (2 * b);
    assert(2 * b * q <= 2 * a + b < 2 * b * (q + 1)) by (nonlinear_arith)
        requires
            b > 0,
            q == (2 * a + b) / (2 * b),
    ;
    assert(2 * b * (q + 1) == 2 * b * q + 2 * b) by (nonlinear_arith);
    assert(round_div(n, d) * d - n == (if n < 0 { a - q * b } else { q * b - a }))
        by (nonlinear_arith)
        requires
            a == mag(n),
            b == mag(d),
            d != 0,
            round_div(n, d) == (if (n < 0) != (d < 0) { -q } else { q }),
    ;
    assert(2 * b * q == 2 * (q * b)) by (nonlinear_arith);
}

/// A quotient of numbers that are not negative is not negative, and rounds
/// no further down than half a divisor.
pub proof fn lemma_round_div_nonneg(n: int, d: int)
    requires
        n >= 0,
        d > 0,
    ensures
        round_div(n, d) >= 0,
        2 * (round_div(n, d) * d) >= 2 * n - d,
        2 * (round_div(n, d) * d) <= 2 * n + d,
{
    lemma_round_div_error(n, d);
    assert((2 * n + d) / (2 * d) >= 0) by (nonlinear_arith)
        requires
            n >= 0,
            d > 0,
    ;
}

/// The rounded quotient by a positive divisor has the sign of the
/// numerator, or is zero.
pub proof fn lemma_round_div_sign(n: int, d: int)
    requires
        d > 0,
    ensures
        n >= 0 ==> round_div(n, d) >= 0,
        n <= 0 ==> round_div(n, d) <= 0,
{
    if n >= 0 {
        lemma_round_div_nonneg(n, d);
    }
    if n <= 0 {
        lemma_round_div_nonneg(-n, d);
        lemma_round_div_neg(n, d);
    }
}

/// Two rounded quotients by one positive divisor differ by no more than the
/// numerators do in divisors, and one.
pub proof fn lemma_round_div_near(n: int, m: int, d: int)
    requires
        d > 0,
    ensures
        mag(round_div(n, d) - round_div(m, d)) * d <= mag(n - m) + d,
{
    lemma_round_div_error(n, d);
    lemma_round_div_error(m, d);
    let a = round_div(n, d);
    let b = round_div(m, d);
    lemma_distribute2(a, b, d);
    lemma_mul_bound(a - b, d, mag(a - b), d);
}

/// A number that is within half a divisor of the numerator, when
/// multiplied by the divisor, is the rounded quotient.
pub proof fn lemma_round_div_is(n: int, d: int, q: int)
    requires
        d > 0,
        n >= 0,
        2 * (q * d) <= 2 * n + d < 2 * (q * d) + 2 * d,
    ensures
        round_div(n, d) == q,
{
    assert((2 * n + d) / (2 * d) == q) by (nonlinear_arith)
        requires
            d > 0,
            2 * (q * d) <= 2 * n + d < 2 * (q * d) + 2 * d,
    ;
}

/// The rounded quotient by a positive divisor does not fall where the
/// numerator rises.
pub proof fn lemma_round_div_monotone(n: int, m: int, d: int)
    requires
        d > 0,
        n <= m,
    ensures
        round_div(n, d) <= round_div(m, d),
{
    lemma_round_div_error(n, d);
    lemma_round_div_error(m, d);
    lemma_round_div_sign(n, d);
    lemma_round_div_sign(m, d);
    let a = round_div(n, d);
    let b = round_div(m, d);
    if a > b {
        // Both round the same way from zero, so that what lies a whole
        // divisor apart cannot change places.
        lemma_distribute2(a, b, d);
        assert((a - b) * d >= d) by (nonlinear_arith)
            requires
                a - b >= 1,
                d > 0,
        ;
        let x = (2 * mag(n) + d) / (2 * d);
        let y = (2 * mag(m) + d) / (2 * d);
        if n >= 0 {
            assert(x <= y) by (nonlinear_arith)
                requires
                    d > 0,
                    0 <= 2 * mag(n) + d <= 2 * mag(m) + d,
                    x == (2 * mag(n) + d) / (2 * d),
                    y == (2 * mag(m) + d) / (2 * d),
            ;
        } else if m < 0 {
            assert(y <= x) by (nonlinear_arith)
                requires
                    d > 0,
                    0 <= 2 * mag(m) + d <= 2 * mag(n) + d,
                    x == (2 * mag(n) + d) / (2 * d),
                    y == (2 * mag(m) + d) / (2 * d),
            ;
        }
        assert(false);
    }
}

/// The integer square root does not fall where its argument rises.
pub proof fn lemma_sqrt_floor_monotone(x: nat, y: nat)
    requires
        x <= y,
    ensures
        sqrt_floor(x) <= sqrt_floor(y),
{
    lemma_sqrt_floor_bounds(x);
    lemma_sqrt_floor_bounds(y);
    let a = sqrt_floor(x);
    let b = sqrt_floor(y);
    assert(a <= b) by (nonlinear_arith)
        requires
            a * a <= x,
            x <= y,
            y < (b + 1) * (b + 1),
    ;
}

/// Less than half a divisor rounds to zero.
pub proof fn lemma_round_div_small(n: int, d: int)
    requires
        2 * mag(n) < mag(d),
    ensures
        round_div(n, d) == 0,
{
    let a = mag(n);
    let b = mag(d);
    assert((2 * a + b) / (2 * b) == 0) by (nonlinear_arith)
        requires
            0 <= 2 * a < b,
    ;
}

/// Rounding is odd in the numerator.
pub proof fn lemma_round_div_neg(n: int, d: int)
    requires
        d != 0,
    ensures
        round_div(-n, d) == -round_div(n, d),
{
    if n == 0 {
        let b = mag(d);
        assert((2 * 0 + b) / (2 * b) == 0) by (nonlinear_arith)
            requires
                b > 0,
        ;
    }
}

/// A multiple of the divisor is divided exactly.
pub proof fn lemma_round_div_exact(k: int, d: int)
    requires
        d != 0,
    ensures
        round_div(k * d, d) == k,
{
    let b = mag(d);
    let a = mag(k * d);
    let m = mag(k);
    assert(a == m * b) by (nonlinear_arith)
        requires
            a == mag(k * d),
            b == mag(d),
            m == mag(k),
    ;
    assert((2 * (m * b) + b) / (2 * b) == m) by (nonlinear_arith)
        requires
            b > 0,
            m >= 0,
    ;
    assert((k * d < 0) == (k != 0 && ((k < 0) != (d < 0)))) by (nonlinear_arith)
        requires
            d != 0,
    ;
}

/// The rounded quotient is no larger in magnitude than the numerator is in
/// divisors, plus one.
pub proof fn lemma_round_div_bound(n: int, d: int, bound: int)
    requires
        d != 0,
        bound >= 0,
        mag(n) <= bound * mag(d),
    ensures
        mag(round_div(n, d)) <= bound,
{
    let a = mag(n);
    let b = mag(d);
    assert((2 * a + b) / (2 * b) <= bound) by (nonlinear_arith)
        requires
            b > 0,
            0 <= a <= bound * b,
    ;
    assert((2 * a + b) / (2 * b) >= 0) by (nonlinear_arith)
        requires
            b > 0,
            0 <= a,
    ;
}

/// `sqrt_floor(x)` squares to at most `x`, and its successor to more.
pub proof fn lemma_sqrt_floor_bounds(x: nat)
    ensures
        sqrt_floor(x) * sqrt_floor(x) <= x < (sqrt_floor(x) + 1) * (sqrt_floor(x) + 1),
    decreases x,
{
    if x != 0 {
        lemma_sqrt_floor_bounds((x - 1) as nat);
        let r = sqrt_floor((x - 1) as nat);
        let s = sqrt_floor(x);
        assert(s * s <= x < (s + 1) * (s + 1)) by (nonlinear_arith)
            requires
                x >= 1,
                r * r <= x - 1 < (r + 1) * (r + 1),
                s == (if (r + 1) * (r + 1) <= x { r + 1 } else { r }),
        ;
    } else {
        let s = sqrt_floor(x);
        assert(s * s <= x < (s + 1) * (s + 1)) by (nonlinear_arith)
            requires
                s == 0,
                x == 0,
        ;
    }
}

/// Only one natural number lies between the two bounds.
pub proof fn lemma_sqrt_floor_unique(x: nat, r: nat)
    requires
        r * r <= x < (r + 1) * (r + 1),
    ensures
        r == sqrt_floor(x),
{
    lemma_sqrt_floor_bounds(x);
    let s = sqrt_floor(x);
    assert(r == s) by (nonlinear_arith)
        requires
            r * r <= x < (r + 1) * (r + 1),
            s * s <= x < (s + 1) * (s + 1),
    ;
}

/// The shrunk magnitude lies from 2^60 up to, but not including, 2^61.
pub proof fn lemma_shrink_factor(m: int)
    requires
        m >= 0,
    ensures
        shrink_factor(m) >= 1,
        m < SCALE_FLOOR * shrink_factor(m),
        m >= SCALE_FLOOR ==> 2 * m >= SCALE_FLOOR * shrink_factor(m) && shrink_factor(m) >= 2,
        m < SCALE_FLOOR ==> shrink_factor(m) == 1,
    decreases m,
{
    if m >= SCALE_FLOOR {
        lemma_shrink_factor(m / 2);
        let g = shrink_factor(m / 2);
        assert(SCALE_FLOOR * (2 * g) == 2 * (SCALE_FLOOR * g)) by (nonlinear_arith);
    } else {
        assert(SCALE_FLOOR * 1 == SCALE_FLOOR);
    }
}

/// A magnitude of 2^60 or more is doubled once at most.
pub proof fn lemma_scale_factor_top(m: int)
    requires
        m >= 0x1000_0000_0000_0000,
    ensures
        1 <= scale_factor(m) <= 2,
{
    if m < SCALE_FLOOR {
        assert(scale_factor(2 * m) == 1);
    }
}

/// The scaled magnitude lands in the top range, and scaling never shrinks.
pub proof fn lemma_scale_factor(m: int)
    requires
        0 < m < SCALE_LIMIT,
    ensures
        scale_factor(m) >= 1,
        SCALE_FLOOR <= m * scale_factor(m) < SCALE_LIMIT,
    decreases SCALE_LIMIT - m,
{
    if m < SCALE_FLOOR {
        lemma_scale_factor(2 * m);
        let g = scale_factor(2 * m);
        assert(m * (2 * g) == (2 * m) * g) by (nonlinear_arith);
    } else {
        assert(m * 1 == m);
    }
}

} // verus!
