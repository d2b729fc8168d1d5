//! Inner product and norm of fixed-point vectors.

use vstd::prelude::*;
use crate::algebra::Vec3;
use crate::arith::{
    lemma_distribute2, lemma_distribute3, lemma_monomial_cross, lemma_monomial_square,
    lemma_mul_bound, lemma_mul_permute, lemma_mul_regroup, lemma_square3, mag,
};
use crate::fixed::{abs_i64, isqrt, mul_wide, DIV_LIMIT, SCALE_LIMIT};

verus! {

/// A vector of three Q32.32 numbers.
#[derive(Clone, Copy, Debug, PartialEq, Eq)]
pub struct Vector3 {
    pub x: i64,
    pub y: i64,
    pub z: i64,
}

impl View for Vector3 {
    type V = Vec3;

    open spec fn view(&self) -> Vec3 {
        Vec3 { x: self.x as int, y: self.y as int, z: self.z as int }
    }
}

impl Vector3 {
    /// Whether every component is zero.
    pub fn is_zero(&self) -> (r: bool)
        ensures
            r == self@.is_zero(),
    {
        self.x == 0 && self.y == 0 && self.z == 0
    }

    /// Whether no component exceeds `limit` in magnitude.
    pub fn is_within(&self, limit: i64) -> (r: bool)
        requires
            limit >= 0,
        ensures
            r == self@.within(limit as int),
    {
        self.x <= limit && self.x >= -limit && self.y <= limit && self.y >= -limit && self.z
            <= limit && self.z >= -limit
    }
}

/// The largest magnitude among the components.
pub fn max_component(v: &Vector3) -> (m: i64)
    requires
        v@.within(i64::MAX as int),
    ensures
        m == v@.max_mag(),
{
    let ax = abs_i64(v.x);
    let ay = abs_i64(v.y);
    let az = abs_i64(v.z);
    let a = if ax >= ay { ax } else { ay };
    if a >= az {
        a
    } else {
        az
    }
}

/// The inner product, in 128 bits.
pub fn dot(a: &Vector3, b: &Vector3) -> (r: i128)
    requires
        3 * (a@.max_mag() * b@.max_mag()) <= DIV_LIMIT,
    ensures
        r == a@.dot(b@),
{
    proof {
        lemma_dot_bound(a@, b@);
    }
    mul_wide(a.x, b.x) + mul_wide(a.y, b.y) + mul_wide(a.z, b.z)
}

/// The Euclidean norm, rounded down to a unit of 2^-32.
pub fn vector_norm(v: &Vector3) -> (r: i64)
    requires
        v@.within(SCALE_LIMIT - 1),
    ensures
        r == v@.norm_floor(),
        r >= 0,
{
    proof {
        let lim = SCALE_LIMIT as int;
        lemma_dot_self_positive(v@);
        assert(v@.x * v@.x < lim * lim && v@.y * v@.y < lim * lim && v@.z * v@.z < lim * lim)
            by (nonlinear_arith)
            requires
                mag(v@.x) < lim,
                mag(v@.y) < lim,
                mag(v@.z) < lim,
        ;
        assert(lim * lim == 0x1000_0000_0000_0000_0000_0000_0000_0000) by (nonlinear_arith)
            requires
                lim == 0x4000_0000_0000_0000,
        ;
    }
    let nsq: i128 = mul_wide(v.x, v.x) + mul_wide(v.y, v.y) + mul_wide(v.z, v.z);
    let r = isqrt(nsq as u128);
    assert(r < 0x8000_0000_0000_0000) by (nonlinear_arith)
        requires
            r * r < 0x4000_0000_0000_0000_0000_0000_0000_0000,
    ;
    r as i64
}

/// The inner product of a nonzero vector with itself is positive.
pub proof fn lemma_dot_self_positive(b: Vec3)
    ensures
        b.dot(b) >= 0,
        !b.is_zero() ==> b.dot(b) > 0,
        b.is_zero() ==> b.dot(b) == 0,
{
    let (x, y, z) = (b.x, b.y, b.z);
    assert(x * x >= 0 && y * y >= 0 && z * z >= 0) by (nonlinear_arith);
    assert(x != 0 ==> x * x > 0) by (nonlinear_arith);
    assert(y != 0 ==> y * y > 0) by (nonlinear_arith);
    assert(z != 0 ==> z * z > 0) by (nonlinear_arith);
    assert(0 * 0 == 0);
}

/// An inner product is at most three times the product of the largest
/// magnitudes.
pub proof fn lemma_dot_bound(a: Vec3, b: Vec3)
    ensures
        mag(a.dot(b)) <= 3 * (a.max_mag() * b.max_mag()),
        mag(a.x * b.x) <= a.max_mag() * b.max_mag(),
        mag(a.y * b.y) <= a.max_mag() * b.max_mag(),
        mag(a.z * b.z) <= a.max_mag() * b.max_mag(),
{
    let ma = a.max_mag();
    let mb = b.max_mag();
    lemma_mul_bound(a.x, b.x, ma, mb);
    lemma_mul_bound(a.y, b.y, ma, mb);
    lemma_mul_bound(a.z, b.z, ma, mb);
}

/// The inner product with `d` of a vector whose components are at most
/// `bound` is at most `bound` times the sum of the magnitudes of `d`.
pub proof fn lemma_dot_within(v: Vec3, d: Vec3, bound: int)
    requires
        v.within(bound),
    ensures
        mag(v.dot(d)) <= bound * d.sum_mag(),
{
    lemma_mul_bound(v.x, d.x, bound, mag(d.x));
    lemma_mul_bound(v.y, d.y, bound, mag(d.y));
    lemma_mul_bound(v.z, d.z, bound, mag(d.z));
    lemma_distribute3(mag(d.x), mag(d.y), mag(d.z), bound);
}

/// The inner product is linear in its first factor.
pub proof fn lemma_dot_linear(a: Vec3, b: Vec3, c: int, d: Vec3)
    ensures
        a.plus(b).dot(d) == a.dot(d) + b.dot(d),
        a.minus(b).dot(d) == a.dot(d) - b.dot(d),
        a.times(c).dot(d) == c * a.dot(d),
{
    lemma_distribute2(a.x, b.x, d.x);
    lemma_distribute2(a.y, b.y, d.y);
    lemma_distribute2(a.z, b.z, d.z);
    lemma_mul_regroup(c, a.x, d.x);
    lemma_mul_regroup(c, a.y, d.y);
    lemma_mul_regroup(c, a.z, d.z);
    lemma_distribute3(a.x * d.x, a.y * d.y, a.z * d.z, c);
}

/// A vector product is orthogonal to both of its factors.
pub proof fn lemma_cross_orthogonal(u: Vec3, v: Vec3)
    ensures
        u.dot(u.cross(v)) == 0,
        v.dot(u.cross(v)) == 0,
{
    lemma_distribute2(u.y * v.z, u.z * v.y, u.x);
    lemma_distribute2(u.z * v.x, u.x * v.z, u.y);
    lemma_distribute2(u.x * v.y, u.y * v.x, u.z);
    lemma_distribute2(u.y * v.z, u.z * v.y, v.x);
    lemma_distribute2(u.z * v.x, u.x * v.z, v.y);
    lemma_distribute2(u.x * v.y, u.y * v.x, v.z);
    lemma_mul_permute(u.x, u.y, v.z);
    lemma_mul_permute(u.x, u.z, v.y);
    lemma_mul_permute(u.y, u.z, v.x);
    lemma_mul_permute(v.x, u.y, v.z);
    lemma_mul_permute(v.x, u.z, v.y);
    lemma_mul_permute(v.y, u.x, v.z);
    lemma_mul_permute(u.y, u.x, v.z);
    lemma_mul_permute(u.z, u.x, v.y);
    lemma_mul_permute(u.z, u.y, v.x);
    lemma_mul_permute(v.z, u.y, v.x);
    lemma_mul_permute(v.y, u.z, v.x);
    lemma_mul_permute(v.z, u.x, v.y);
}

/// The triple product changes its sign where its first two factors change
/// places.
pub proof fn lemma_triple_swap(a: Vec3, b: Vec3, c: Vec3)
    ensures
        a.dot(b.cross(c)) == -(b.cross(a).dot(c)),
{
    lemma_distribute2(b.y * c.z, b.z * c.y, a.x);
    lemma_distribute2(b.z * c.x, b.x * c.z, a.y);
    lemma_distribute2(b.x * c.y, b.y * c.x, a.z);
    lemma_distribute2(b.y * a.z, b.z * a.y, c.x);
    lemma_distribute2(b.z * a.x, b.x * a.z, c.y);
    lemma_distribute2(b.x * a.y, b.y * a.x, c.z);
    lemma_mul_permute(a.x, b.y, c.z);
    lemma_mul_permute(a.x, b.z, c.y);
    lemma_mul_permute(a.y, b.z, c.x);
    lemma_mul_permute(a.y, b.x, c.z);
    lemma_mul_permute(a.z, b.x, c.y);
    lemma_mul_permute(a.z, b.y, c.x);
    lemma_mul_permute(b.y, a.z, c.x);
    lemma_mul_permute(b.z, a.y, c.x);
    lemma_mul_permute(b.z, a.x, c.y);
    lemma_mul_permute(b.x, a.z, c.y);
    lemma_mul_permute(b.x, a.y, c.z);
    lemma_mul_permute(b.y, a.x, c.z);
}

/// The squared length of a vector product is the product of the squared
/// lengths of its factors less the square of their inner product.
pub proof fn lemma_lagrange(u: Vec3, v: Vec3)
    ensures
        u.cross(v).dot(u.cross(v)) == u.dot(u) * v.dot(v) - u.dot(v) * u.dot(v),
        0 <= u.cross(v).dot(u.cross(v)) <= u.dot(u) * v.dot(v),
{
    let (a, b, c) = (u.x, u.y, u.z);
    let (x, y, z) = (v.x, v.y, v.z);
    // The three squares of the vector product.
    lemma_square3(b * z, c * y, 0);
    lemma_square3(c * x, a * z, 0);
    lemma_square3(a * y, b * x, 0);
    lemma_monomial_square(b, z);
    lemma_monomial_square(c, y);
    lemma_monomial_square(c, x);
    lemma_monomial_square(a, z);
    lemma_monomial_square(a, y);
    lemma_monomial_square(b, x);
    lemma_monomial_cross(b, z, c, y);
    lemma_monomial_cross(c, x, a, z);
    lemma_monomial_cross(a, y, b, x);
    // The product of the squared lengths, and the square of the inner
    // product.
    lemma_distribute3(a * a, b * b, c * c, x * x + y * y + z * z);
    lemma_distribute3(x * x, y * y, z * z, a * a);
    lemma_distribute3(x * x, y * y, z * z, b * b);
    lemma_distribute3(x * x, y * y, z * z, c * c);
    lemma_square3(a * x, b * y, c * z);
    lemma_monomial_square(a, x);
    lemma_monomial_square(b, y);
    lemma_monomial_square(c, z);
    lemma_mul_regroup(b * y, c * z, 1);
    lemma_mul_regroup(c * z, a * x, 1);
    lemma_mul_regroup(a * x, b * y, 1);
    lemma_dot_self_positive(u.cross(v));
    assert(u.dot(v) * u.dot(v) >= 0) by (nonlinear_arith);
}

/// An inner product does not depend on the order of its factors.
pub proof fn lemma_dot_commutes(a: Vec3, b: Vec3)
    ensures
        a.dot(b) == b.dot(a),
{
    assert(a.x * b.x == b.x * a.x && a.y * b.y == b.y * a.y && a.z * b.z == b.z * a.z)
        by (nonlinear_arith);
}

} // verus!
