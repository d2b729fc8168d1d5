//! Facts about integer products and magnitudes that the proofs rest on.
//!
//! The verifier takes a product of two variables as an unknown; these
//! lemmas are the steps by which an identity between polynomials is put
//! before it.

use vstd::prelude::*;

verus! {

/// Absolute value of an integer.
pub open spec fn mag(x: int) -> int {
    if x < 0 {
        -x
    } else {
        x
    }
}

/// Products may be regrouped and their factors exchanged.
pub proof fn lemma_mul_regroup(a: int, b: int, c: int)
    ensures
        (a * b) * c == a * (b * c),
        (a * b) * c == (a * c) * b,
        a * b == b * a,
{
    assert((a * b) * c == a * (b * c)) by (nonlinear_arith);
    assert((a * b) * c == (a * c) * b) by (nonlinear_arith);
    assert(a * b == b * a) by (nonlinear_arith);
}

/// A product of three factors does not depend on their order or grouping.
pub proof fn lemma_mul_permute(a: int, b: int, c: int)
    ensures
        (a * b) * c == a * (b * c),
        (a * c) * b == a * (b * c),
        (b * a) * c == a * (b * c),
        (b * c) * a == a * (b * c),
        (c * a) * b == a * (b * c),
        (c * b) * a == a * (b * c),
        a * (c * b) == a * (b * c),
        b * (a * c) == a * (b * c),
        b * (c * a) == a * (b * c),
        c * (a * b) == a * (b * c),
        c * (b * a) == a * (b * c),
{
    assert((a * b) * c == a * (b * c) && (a * c) * b == a * (b * c) && (b * a) * c == a * (b * c))
        by (nonlinear_arith);
    assert((b * c) * a == a * (b * c) && (c * a) * b == a * (b * c) && (c * b) * a == a * (b * c))
        by (nonlinear_arith);
    assert(a * (c * b) == a * (b * c) && b * (a * c) == a * (b * c) && b * (c * a) == a * (b * c))
        by (nonlinear_arith);
    assert(c * (a * b) == a * (b * c) && c * (b * a) == a * (b * c)) by (nonlinear_arith);
}

/// The square of a sum of three terms, written out.
pub proof fn lemma_square3(a: int, b: int, c: int)
    ensures
        (a + b + c) * (a + b + c) == a * a + b * b + c * c + 2 * (a * b) + 2 * (a * c) + 2 * (b
            * c),
        (a - b) * (a - b) == a * a + b * b - 2 * (a * b),
{
    assert((a + b + c) * (a + b + c) == a * a + b * b + c * c + 2 * (a * b) + 2 * (a * c) + 2
        * (b * c)) by (nonlinear_arith);
    assert((a - b) * (a - b) == a * a + b * b - 2 * (a * b)) by (nonlinear_arith);
}

/// Two products of two factors, multiplied: the first factors and the
/// second may be paired.
pub proof fn lemma_monomial_pair(a: int, b: int, c: int, d: int)
    ensures
        (a * b) * (c * d) == (a * c) * (b * d),
{
    assert((a * b) * (c * d) == (a * c) * (b * d)) by (nonlinear_arith);
}

/// A sign may be taken out of either factor of a product.
pub proof fn lemma_mul_neg(a: int, b: int)
    ensures
        a * (-b) == -(a * b),
        (-a) * b == -(a * b),
{
    assert(a * (-b) == -(a * b)) by (nonlinear_arith);
    assert((-a) * b == -(a * b)) by (nonlinear_arith);
}

/// A sum or difference of two terms times a factor, written out.
pub proof fn lemma_distribute2(a: int, b: int, x: int)
    ensures
        (a + b) * x == a * x + b * x,
        x * (a + b) == x * a + x * b,
        (a - b) * x == a * x - b * x,
        x * (a - b) == x * a - x * b,
{
    assert((a + b) * x == a * x + b * x) by (nonlinear_arith);
    assert(x * (a + b) == x * a + x * b) by (nonlinear_arith);
    assert((a - b) * x == a * x - b * x) by (nonlinear_arith);
    assert(x * (a - b) == x * a - x * b) by (nonlinear_arith);
}

/// A sum of three terms times a factor, written out.
pub proof fn lemma_distribute3(a: int, b: int, c: int, x: int)
    ensures
        (a + b + c) * x == a * x + b * x + c * x,
        x * (a + b + c) == x * a + x * b + x * c,
{
    assert((a + b + c) * x == a * x + b * x + c * x) by (nonlinear_arith);
    assert(x * (a + b + c) == x * a + x * b + x * c) by (nonlinear_arith);
}

/// A sum of four terms times a factor, written out.
pub proof fn lemma_distribute4(a: int, b: int, c: int, d: int, x: int)
    ensures
        (a + b + c + d) * x == a * x + b * x + c * x + d * x,
        x * (a + b + c + d) == x * a + x * b + x * c + x * d,
{
    assert((a + b + c + d) * x == a * x + b * x + c * x + d * x) by (nonlinear_arith);
    assert(x * (a + b + c + d) == x * a + x * b + x * c + x * d) by (nonlinear_arith);
}

/// The four signed sums of four terms that make up a quaternion product,
/// times a factor, written out.
pub proof fn lemma_distribute_signed(a: int, b: int, c: int, d: int, x: int)
    ensures
        (a - b - c - d) * x == a * x - b * x - c * x - d * x,
        (a + b + c - d) * x == a * x + b * x + c * x - d * x,
        (a - b + c + d) * x == a * x - b * x + c * x + d * x,
        (a + b - c + d) * x == a * x + b * x - c * x + d * x,
        x * (a - b - c - d) == x * a - x * b - x * c - x * d,
        x * (a + b + c - d) == x * a + x * b + x * c - x * d,
        x * (a - b + c + d) == x * a - x * b + x * c + x * d,
        x * (a + b - c + d) == x * a + x * b - x * c + x * d,
{
    lemma_distribute4(a, b, c, d, x);
    lemma_mul_regroup(a, x, 1);
    lemma_mul_regroup(b, x, 1);
    lemma_mul_regroup(c, x, 1);
    lemma_mul_regroup(d, x, 1);
    lemma_distribute2(a + b + c, d, x);
    lemma_distribute2(a + b, c, x);
    lemma_distribute2(a, b, x);
    lemma_distribute2(a - b, c, x);
    lemma_distribute2(a - b - c, d, x);
    lemma_distribute2(a - b + c, d, x);
    lemma_distribute2(a + b - c, d, x);
}

/// The product of two sums of four terms, written out.
pub proof fn lemma_mul4x4(a: int, b: int, c: int, d: int, p: int, q: int, r: int, s: int)
    ensures
        (a + b + c + d) * (p + q + r + s) == a * p + a * q + a * r + a * s + b * p + b * q + b * r
            + b * s + c * p + c * q + c * r + c * s + d * p + d * q + d * r + d * s,
{
    lemma_distribute4(a, b, c, d, p + q + r + s);
    lemma_distribute4(p, q, r, s, a);
    lemma_distribute4(p, q, r, s, b);
    lemma_distribute4(p, q, r, s, c);
    lemma_distribute4(p, q, r, s, d);
}

/// Regrouping the square of a product.
pub proof fn lemma_monomial_square(a: int, b: int)
    ensures
        (a * b) * (a * b) == (a * a) * (b * b),
{
    assert((a * b) * (a * b) == (a * a) * (b * b)) by (nonlinear_arith);
}

/// Exchanging the second factors of two products.
pub proof fn lemma_monomial_cross(a: int, b: int, c: int, d: int)
    ensures
        (a * b) * (c * d) == (a * d) * (c * b),
{
    assert((a * b) * (c * d) == (a * d) * (c * b)) by (nonlinear_arith);
}

/// The square of a signed sum of four terms, written out.
pub proof fn lemma_square_pmmm(a: int, b: int, c: int, d: int)
    ensures
        (a - b - c - d) * (a - b - c - d) == a * a + b * b + c * c + d * d - 2 * (a * b) -
            2 * (a * c) - 2 * (a * d) + 2 * (b * c) + 2 * (b * d) + 2 * (c * d),
{
    assert((a - b - c - d) * (a - b - c - d) == a * a + b * b + c * c + d * d - 2 * (a * b) -
        2 * (a * c) - 2 * (a * d) + 2 * (b * c) + 2 * (b * d) + 2 * (c * d)) by (nonlinear_arith);
}

/// The square of a signed sum of four terms, written out.
pub proof fn lemma_square_pppm(a: int, b: int, c: int, d: int)
    ensures
        (a + b + c - d) * (a + b + c - d) == a * a + b * b + c * c + d * d + 2 * (a * b) +
            2 * (a * c) - 2 * (a * d) + 2 * (b * c) - 2 * (b * d) - 2 * (c * d),
{
    assert((a + b + c - d) * (a + b + c - d) == a * a + b * b + c * c + d * d + 2 * (a * b) +
        2 * (a * c) - 2 * (a * d) + 2 * (b * c) - 2 * (b * d) - 2 * (c * d)) by (nonlinear_arith);
}

/// The square of a signed sum of four terms, written out.
pub proof fn lemma_square_pmpp(a: int, b: int, c: int, d: int)
    ensures
        (a - b + c + d) * (a - b + c + d) == a * a + b * b + c * c + d * d - 2 * (a * b) +
            2 * (a * c) + 2 * (a * d) - 2 * (b * c) - 2 * (b * d) + 2 * (c * d),
{
    assert((a - b + c + d) * (a - b + c + d) == a * a + b * b + c * c + d * d - 2 * (a * b) +
        2 * (a * c) + 2 * (a * d) - 2 * (b * c) - 2 * (b * d) + 2 * (c * d)) by (nonlinear_arith);
}

/// The square of a signed sum of four terms, written out.
pub proof fn lemma_square_ppmp(a: int, b: int, c: int, d: int)
    ensures
        (a + b - c + d) * (a + b - c + d) == a * a + b * b + c * c + d * d + 2 * (a * b) -
            2 * (a * c) + 2 * (a * d) - 2 * (b * c) + 2 * (b * d) - 2 * (c * d),
{
    assert((a + b - c + d) * (a + b - c + d) == a * a + b * b + c * c + d * d + 2 * (a * b) -
        2 * (a * c) + 2 * (a * d) - 2 * (b * c) + 2 * (b * d) - 2 * (c * d)) by (nonlinear_arith);
}

/// The sign of a product: of two numbers of one sign it is not negative, of
/// two of opposite signs not positive.
pub proof fn lemma_mul_sign(a: int, b: int)
    ensures
        (a >= 0 && b >= 0) || (a <= 0 && b <= 0) ==> a * b >= 0,
        (a >= 0 && b <= 0) || (a <= 0 && b >= 0) ==> a * b <= 0,
{
    assert((a >= 0 && b >= 0) || (a <= 0 && b <= 0) ==> a * b >= 0) by (nonlinear_arith);
    assert((a >= 0 && b <= 0) || (a <= 0 && b >= 0) ==> a * b <= 0) by (nonlinear_arith);
}

/// A product is bounded by the product of the bounds of its factors.
pub proof fn lemma_mul_bound(a: int, b: int, la: int, lb: int)
    requires
        mag(a) <= la,
        mag(b) <= lb,
    ensures
        mag(a * b) <= la * lb,
        mag(a * b) == mag(a) * mag(b),
{
    assert(mag(a * b) == mag(a) * mag(b)) by (nonlinear_arith);
    assert(mag(a) * mag(b) <= la * lb) by (nonlinear_arith)
        requires
            0 <= mag(a) <= la,
            0 <= mag(b) <= lb,
    ;
}

/// Half of `n` times a factor bounds the product of the factor with what is
/// at most half of `n`.
pub proof fn lemma_half_bound(e: int, t: int, n: int)
    requires
        0 <= 2 * e <= n,
        0 <= t,
    ensures
        2 * (e * t) <= n * t,
{
    assert(2 * (e * t) <= n * t) by (nonlinear_arith)
        requires
            0 <= 2 * e <= n,
            0 <= t,
    ;
}

/// A number whose square is at most that of `r` is at most `r` in
/// magnitude.
pub proof fn lemma_below_root(x: int, r: int)
    requires
        r >= 0,
        x * x <= r * r,
    ensures
        mag(x) <= r,
{
    assert(mag(x) <= r) by (nonlinear_arith)
        requires
            r >= 0,
            x * x <= r * r,
    ;
}

} // verus!
