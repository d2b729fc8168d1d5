//! The mathematical model: vectors and quaternions over the integers.

use vstd::prelude::*;
use crate::arith::{
    lemma_distribute2, lemma_distribute4, lemma_distribute_signed, lemma_monomial_cross,
    lemma_monomial_square, lemma_mul4x4, lemma_mul_regroup, lemma_square_pmmm, lemma_square_pmpp,
    lemma_square_ppmp, lemma_square_pppm, mag,
};
use crate::fixed::{
    lemma_round_div_error, lemma_round_div_exact, round_div, scale_factor, shrink_factor,
    sqrt_floor, ONE, ONE_SQ, SCALE_LIMIT,
};

verus! {

/// How far the squared norm of a unit quaternion may lie from [`ONE_SQ`]:
/// twice 1e-9, so that the norm is one within 1e-9, or 4.3 units.
pub const UNIT_TOLERANCE: i64 = 36_893_488_166;

/// A vector of three integers: the model of a fixed-point vector.
pub struct Vec3 {
    pub x: int,
    pub y: int,
    pub z: int,
}

/// A quaternion of four integers, `w + i + j + k`.
pub struct Quat {
    pub w: int,
    pub i: int,
    pub j: int,
    pub k: int,
}

impl Vec3 {
    /// The inner product.
    pub open spec fn dot(self, o: Vec3) -> int {
        self.x * o.x + self.y * o.y + self.z * o.z
    }

    /// The vector product.
    pub open spec fn cross(self, o: Vec3) -> Vec3 {
        Vec3 {
            x: self.y * o.z - self.z * o.y,
            y: self.z * o.x - self.x * o.z,
            z: self.x * o.y - self.y * o.x,
        }
    }

    /// The sum of two vectors.
    pub open spec fn plus(self, o: Vec3) -> Vec3 {
        Vec3 { x: self.x + o.x, y: self.y + o.y, z: self.z + o.z }
    }

    /// The sum of the magnitudes of the components.
    pub open spec fn sum_mag(self) -> int {
        mag(self.x) + mag(self.y) + mag(self.z)
    }

    /// The difference of two vectors.
    pub open spec fn minus(self, o: Vec3) -> Vec3 {
        Vec3 { x: self.x - o.x, y: self.y - o.y, z: self.z - o.z }
    }

    /// Every component multiplied by `c`.
    pub open spec fn times(self, c: int) -> Vec3 {
        Vec3 { x: c * self.x, y: c * self.y, z: c * self.z }
    }

    /// Every component is at most `limit` in magnitude.
    pub open spec fn within(self, limit: int) -> bool {
        mag(self.x) <= limit && mag(self.y) <= limit && mag(self.z) <= limit
    }

    /// Every component is zero.
    pub open spec fn is_zero(self) -> bool {
        self.x == 0 && self.y == 0 && self.z == 0
    }

    /// The largest magnitude among the components.
    pub open spec fn max_mag(self) -> int {
        let a = if mag(self.x) >= mag(self.y) { mag(self.x) } else { mag(self.y) };
        if a >= mag(self.z) { a } else { mag(self.z) }
    }

    /// The Euclidean norm, rounded down.
    pub open spec fn norm_floor(self) -> int {
        sqrt_floor(self.dot(self) as nat) as int
    }

    /// The quaternion with this imaginary part and real part `w`.
    pub open spec fn with_real(self, w: int) -> Quat {
        Quat { w, i: self.x, j: self.y, k: self.z }
    }
}

impl Quat {
    /// The rotation that changes nothing: one, without imaginary part.
    pub open spec fn identity() -> Quat {
        Quat { w: ONE as int, i: 0, j: 0, k: 0 }
    }

    /// The imaginary part.
    pub open spec fn imag(self) -> Vec3 {
        Vec3 { x: self.i, y: self.j, z: self.k }
    }

    /// The squared Euclidean norm.
    pub open spec fn norm_sq(self) -> int {
        self.w * self.w + self.i * self.i + self.j * self.j + self.k * self.k
    }

    /// The conjugate: the imaginary part negated.
    pub open spec fn conj(self) -> Quat {
        Quat { w: self.w, i: -self.i, j: -self.j, k: -self.k }
    }

    /// Every component negated.
    pub open spec fn neg(self) -> Quat {
        Quat { w: -self.w, i: -self.i, j: -self.j, k: -self.k }
    }

    /// The difference of two quaternions.
    pub open spec fn minus(self, o: Quat) -> Quat {
        Quat { w: self.w - o.w, i: self.i - o.i, j: self.j - o.j, k: self.k - o.k }
    }

    /// The sum of two quaternions.
    pub open spec fn plus(self, o: Quat) -> Quat {
        Quat { w: self.w + o.w, i: self.i + o.i, j: self.j + o.j, k: self.k + o.k }
    }

    /// The squared norm is between those of `1 - c` and `1 + c`.
    pub open spec fn is_unit_within(self, c: int) -> bool {
        (ONE - c) * (ONE - c) <= self.norm_sq() <= (ONE + c) * (ONE + c)
    }

    /// Every component multiplied by `c`.
    pub open spec fn times(self, c: int) -> Quat {
        Quat { w: c * self.w, i: c * self.i, j: c * self.j, k: c * self.k }
    }

    /// The Hamilton product, exact.
    pub open spec fn mul(self, o: Quat) -> Quat {
        Quat {
            w: self.w * o.w - self.i * o.i - self.j * o.j - self.k * o.k,
            i: self.w * o.i + self.i * o.w + self.j * o.k - self.k * o.j,
            j: self.w * o.j - self.i * o.k + self.j * o.w + self.k * o.i,
            k: self.w * o.k + self.i * o.j - self.j * o.i + self.k * o.w,
        }
    }

    /// Every component divided by `d` and rounded to nearest.
    pub open spec fn rounded(self, d: int) -> Quat {
        Quat {
            w: round_div(self.w, d),
            i: round_div(self.i, d),
            j: round_div(self.j, d),
            k: round_div(self.k, d),
        }
    }

    /// Every component is at most `limit` in magnitude.
    pub open spec fn within(self, limit: int) -> bool {
        mag(self.w) <= limit && mag(self.i) <= limit && mag(self.j) <= limit && mag(self.k)
            <= limit
    }

    /// Every component is zero.
    pub open spec fn is_zero(self) -> bool {
        self.w == 0 && self.i == 0 && self.j == 0 && self.k == 0
    }

    /// The Euclidean norm, rounded down.
    pub open spec fn norm_floor(self) -> int {
        sqrt_floor(self.norm_sq() as nat) as int
    }

    /// The quaternion of length `len` in the direction of this one, each
    /// component rounded to nearest. The components are first doubled until
    /// the largest reaches 2^61, so that the rounded norm loses nothing.
    pub open spec fn stretched(self, len: int) -> Quat {
        let t = self.times(scale_factor(self.max_mag()));
        t.times(len).rounded(t.norm_floor())
    }

    /// What this quaternion is divided by before it is normalized: one
    /// where every component is below 2^62, else the power of two that
    /// takes the largest below 2^61.
    pub open spec fn reduction(self) -> int {
        if self.max_mag() < SCALE_LIMIT {
            1
        } else {
            shrink_factor(self.max_mag())
        }
    }

    /// This quaternion with every component below 2^62: itself, or divided
    /// by [`Quat::reduction`] and rounded.
    pub open spec fn reduced(self) -> Quat {
        if self.max_mag() < SCALE_LIMIT {
            self
        } else {
            self.rounded(self.reduction())
        }
    }

    /// The unit quaternion in the direction of this one, of whatever size.
    pub open spec fn direction(self) -> Quat {
        self.reduced().stretched(ONE as int)
    }

    /// How far the squared norm is from one.
    pub open spec fn defect(self) -> int {
        mag(self.norm_sq() - ONE_SQ)
    }

    /// The squared norm is within [`UNIT_TOLERANCE`] of one.
    pub open spec fn is_unit(self) -> bool {
        mag(self.norm_sq() - ONE_SQ) <= UNIT_TOLERANCE
    }

    /// The largest magnitude among the components.
    pub open spec fn max_mag(self) -> int {
        let a = if mag(self.w) >= mag(self.i) { mag(self.w) } else { mag(self.i) };
        let b = if mag(self.j) >= mag(self.k) { mag(self.j) } else { mag(self.k) };
        if a >= b { a } else { b }
    }
}

/// The norm is multiplicative (Euler's four-square identity).
pub proof fn lemma_norm_sq_mul(a: Quat, b: Quat)
    ensures
        a.mul(b).norm_sq() == a.norm_sq() * b.norm_sq(),
{
    let (aw, ai, aj, ak) = (a.w, a.i, a.j, a.k);
    let (bw, bi, bj, bk) = (b.w, b.i, b.j, b.k);
    // The four squares on the left and the product on the right, written out.
    lemma_square_pmmm(aw * bw, ai * bi, aj * bj, ak * bk);
    lemma_square_pppm(aw * bi, ai * bw, aj * bk, ak * bj);
    lemma_square_pmpp(aw * bj, ai * bk, aj * bw, ak * bi);
    lemma_square_ppmp(aw * bk, ai * bj, aj * bi, ak * bw);
    lemma_mul4x4(aw * aw, ai * ai, aj * aj, ak * ak, bw * bw, bi * bi, bj * bj, bk * bk);
    // The sixteen squares are the same on both sides.
    lemma_monomial_square(aw, bw);
    lemma_monomial_square(aw, bi);
    lemma_monomial_square(aw, bj);
    lemma_monomial_square(aw, bk);
    lemma_monomial_square(ai, bw);
    lemma_monomial_square(ai, bi);
    lemma_monomial_square(ai, bj);
    lemma_monomial_square(ai, bk);
    lemma_monomial_square(aj, bw);
    lemma_monomial_square(aj, bi);
    lemma_monomial_square(aj, bj);
    lemma_monomial_square(aj, bk);
    lemma_monomial_square(ak, bw);
    lemma_monomial_square(ak, bi);
    lemma_monomial_square(ak, bj);
    lemma_monomial_square(ak, bk);
    // The mixed terms on the left cancel in pairs.
    lemma_monomial_cross(aw, bw, ai, bi);
    lemma_monomial_cross(aw, bw, aj, bj);
    lemma_monomial_cross(aw, bw, ak, bk);
    lemma_monomial_cross(ai, bi, aj, bj);
    lemma_monomial_cross(ai, bi, ak, bk);
    lemma_monomial_cross(aj, bj, ak, bk);
    lemma_monomial_cross(aw, bi, aj, bk);
    lemma_monomial_cross(aw, bi, ak, bj);
    lemma_monomial_cross(ai, bw, aj, bk);
    lemma_monomial_cross(ai, bw, ak, bj);
    lemma_monomial_cross(aw, bj, ai, bk);
    lemma_monomial_cross(aj, bw, ak, bi);
}

/// A quaternion times its conjugate, from either side, is its squared norm.
pub proof fn lemma_mul_conj(a: Quat)
    ensures
        a.conj().mul(a) == (Quat { w: a.norm_sq(), i: 0, j: 0, k: 0 }),
        a.mul(a.conj()) == (Quat { w: a.norm_sq(), i: 0, j: 0, k: 0 }),
{
    let (w, i, j, k) = (a.w, a.i, a.j, a.k);
    assert((-i) * i == -(i * i) && (-j) * j == -(j * j) && (-k) * k == -(k * k))
        by (nonlinear_arith);
    assert(i * (-i) == -(i * i) && j * (-j) == -(j * j) && k * (-k) == -(k * k))
        by (nonlinear_arith);
    assert(w * i == i * w && (-i) * w == -(i * w) && w * (-i) == -(i * w)) by (nonlinear_arith);
    assert(w * j == j * w && (-j) * w == -(j * w) && w * (-j) == -(j * w)) by (nonlinear_arith);
    assert(w * k == k * w && (-k) * w == -(k * w) && w * (-k) == -(k * w)) by (nonlinear_arith);
    assert((-i) * j == -(i * j) && (-j) * i == -(i * j) && i * (-j) == -(i * j) && j * (-i) == -(i
        * j) && j * i == i * j) by (nonlinear_arith);
    assert((-i) * k == -(i * k) && (-k) * i == -(i * k) && i * (-k) == -(i * k) && k * (-i) == -(i
        * k) && k * i == i * k) by (nonlinear_arith);
    assert((-j) * k == -(j * k) && (-k) * j == -(j * k) && j * (-k) == -(j * k) && k * (-j) == -(j
        * k) && k * j == j * k) by (nonlinear_arith);
}

/// The Hamilton product is associative.
pub proof fn lemma_mul_assoc(a: Quat, b: Quat, c: Quat)
    ensures
        a.mul(b).mul(c) == a.mul(b.mul(c)),
{
    // Each component of either side is a sum of four products of a sum of
    // four: these are written out, and the sixteen triple products that
    // result are the same on both sides.
    assert(a.mul(b).mul(c).w == a.mul(b.mul(c)).w) by {
        lemma_distribute_signed(a.w * b.w, a.i * b.i, a.j * b.j, a.k * b.k, c.w);
        lemma_distribute_signed(a.w * b.i, a.i * b.w, a.j * b.k, a.k * b.j, c.i);
        lemma_distribute_signed(a.w * b.j, a.i * b.k, a.j * b.w, a.k * b.i, c.j);
        lemma_distribute_signed(a.w * b.k, a.i * b.j, a.j * b.i, a.k * b.w, c.k);
        lemma_distribute_signed(b.w * c.w, b.i * c.i, b.j * c.j, b.k * c.k, a.w);
        lemma_distribute_signed(b.w * c.i, b.i * c.w, b.j * c.k, b.k * c.j, a.i);
        lemma_distribute_signed(b.w * c.j, b.i * c.k, b.j * c.w, b.k * c.i, a.j);
        lemma_distribute_signed(b.w * c.k, b.i * c.j, b.j * c.i, b.k * c.w, a.k);
        lemma_mul_regroup(a.w, b.w, c.w);
        lemma_mul_regroup(a.w, b.i, c.i);
        lemma_mul_regroup(a.w, b.j, c.j);
        lemma_mul_regroup(a.w, b.k, c.k);
        lemma_mul_regroup(a.i, b.w, c.i);
        lemma_mul_regroup(a.i, b.i, c.w);
        lemma_mul_regroup(a.i, b.j, c.k);
        lemma_mul_regroup(a.i, b.k, c.j);
        lemma_mul_regroup(a.j, b.w, c.j);
        lemma_mul_regroup(a.j, b.i, c.k);
        lemma_mul_regroup(a.j, b.j, c.w);
        lemma_mul_regroup(a.j, b.k, c.i);
        lemma_mul_regroup(a.k, b.w, c.k);
        lemma_mul_regroup(a.k, b.i, c.j);
        lemma_mul_regroup(a.k, b.j, c.i);
        lemma_mul_regroup(a.k, b.k, c.w);
    }
    assert(a.mul(b).mul(c).i == a.mul(b.mul(c)).i) by {
        lemma_distribute_signed(a.w * b.w, a.i * b.i, a.j * b.j, a.k * b.k, c.i);
        lemma_distribute_signed(a.w * b.i, a.i * b.w, a.j * b.k, a.k * b.j, c.w);
        lemma_distribute_signed(a.w * b.j, a.i * b.k, a.j * b.w, a.k * b.i, c.k);
        lemma_distribute_signed(a.w * b.k, a.i * b.j, a.j * b.i, a.k * b.w, c.j);
        lemma_distribute_signed(b.w * c.i, b.i * c.w, b.j * c.k, b.k * c.j, a.w);
        lemma_distribute_signed(b.w * c.w, b.i * c.i, b.j * c.j, b.k * c.k, a.i);
        lemma_distribute_signed(b.w * c.k, b.i * c.j, b.j * c.i, b.k * c.w, a.j);
        lemma_distribute_signed(b.w * c.j, b.i * c.k, b.j * c.w, b.k * c.i, a.k);
        lemma_mul_regroup(a.w, b.w, c.i);
        lemma_mul_regroup(a.w, b.i, c.w);
        lemma_mul_regroup(a.w, b.j, c.k);
        lemma_mul_regroup(a.w, b.k, c.j);
        lemma_mul_regroup(a.i, b.w, c.w);
        lemma_mul_regroup(a.i, b.i, c.i);
        lemma_mul_regroup(a.i, b.j, c.j);
        lemma_mul_regroup(a.i, b.k, c.k);
        lemma_mul_regroup(a.j, b.w, c.k);
        lemma_mul_regroup(a.j, b.i, c.j);
        lemma_mul_regroup(a.j, b.j, c.i);
        lemma_mul_regroup(a.j, b.k, c.w);
        lemma_mul_regroup(a.k, b.w, c.j);
        lemma_mul_regroup(a.k, b.i, c.k);
        lemma_mul_regroup(a.k, b.j, c.w);
        lemma_mul_regroup(a.k, b.k, c.i);
    }
    assert(a.mul(b).mul(c).j == a.mul(b.mul(c)).j) by {
        lemma_distribute_signed(a.w * b.w, a.i * b.i, a.j * b.j, a.k * b.k, c.j);
        lemma_distribute_signed(a.w * b.i, a.i * b.w, a.j * b.k, a.k * b.j, c.k);
        lemma_distribute_signed(a.w * b.j, a.i * b.k, a.j * b.w, a.k * b.i, c.w);
        lemma_distribute_signed(a.w * b.k, a.i * b.j, a.j * b.i, a.k * b.w, c.i);
        lemma_distribute_signed(b.w * c.j, b.i * c.k, b.j * c.w, b.k * c.i, a.w);
        lemma_distribute_signed(b.w * c.k, b.i * c.j, b.j * c.i, b.k * c.w, a.i);
        lemma_distribute_signed(b.w * c.w, b.i * c.i, b.j * c.j, b.k * c.k, a.j);
        lemma_distribute_signed(b.w * c.i, b.i * c.w, b.j * c.k, b.k * c.j, a.k);
        lemma_mul_regroup(a.w, b.w, c.j);
        lemma_mul_regroup(a.w, b.i, c.k);
        lemma_mul_regroup(a.w, b.j, c.w);
        lemma_mul_regroup(a.w, b.k, c.i);
        lemma_mul_regroup(a.i, b.w, c.k);
        lemma_mul_regroup(a.i, b.i, c.j);
        lemma_mul_regroup(a.i, b.j, c.i);
        lemma_mul_regroup(a.i, b.k, c.w);
        lemma_mul_regroup(a.j, b.w, c.w);
        lemma_mul_regroup(a.j, b.i, c.i);
        lemma_mul_regroup(a.j, b.j, c.j);
        lemma_mul_regroup(a.j, b.k, c.k);
        lemma_mul_regroup(a.k, b.w, c.i);
        lemma_mul_regroup(a.k, b.i, c.w);
        lemma_mul_regroup(a.k, b.j, c.k);
        lemma_mul_regroup(a.k, b.k, c.j);
    }
    assert(a.mul(b).mul(c).k == a.mul(b.mul(c)).k) by {
        lemma_distribute_signed(a.w * b.w, a.i * b.i, a.j * b.j, a.k * b.k, c.k);
        lemma_distribute_signed(a.w * b.i, a.i * b.w, a.j * b.k, a.k * b.j, c.j);
        lemma_distribute_signed(a.w * b.j, a.i * b.k, a.j * b.w, a.k * b.i, c.i);
        lemma_distribute_signed(a.w * b.k, a.i * b.j, a.j * b.i, a.k * b.w, c.w);
        lemma_distribute_signed(b.w * c.k, b.i * c.j, b.j * c.i, b.k * c.w, a.w);
        lemma_distribute_signed(b.w * c.j, b.i * c.k, b.j * c.w, b.k * c.i, a.i);
        lemma_distribute_signed(b.w * c.i, b.i * c.w, b.j * c.k, b.k * c.j, a.j);
        lemma_distribute_signed(b.w * c.w, b.i * c.i, b.j * c.j, b.k * c.k, a.k);
        lemma_mul_regroup(a.w, b.w, c.k);
        lemma_mul_regroup(a.w, b.i, c.j);
        lemma_mul_regroup(a.w, b.j, c.i);
        lemma_mul_regroup(a.w, b.k, c.w);
        lemma_mul_regroup(a.i, b.w, c.j);
        lemma_mul_regroup(a.i, b.i, c.k);
        lemma_mul_regroup(a.i, b.j, c.w);
        lemma_mul_regroup(a.i, b.k, c.i);
        lemma_mul_regroup(a.j, b.w, c.i);
        lemma_mul_regroup(a.j, b.i, c.w);
        lemma_mul_regroup(a.j, b.j, c.k);
        lemma_mul_regroup(a.j, b.k, c.j);
        lemma_mul_regroup(a.k, b.w, c.w);
        lemma_mul_regroup(a.k, b.i, c.i);
        lemma_mul_regroup(a.k, b.j, c.j);
        lemma_mul_regroup(a.k, b.k, c.k);
    }
}

/// The Hamilton product distributes over a sum on the left.
pub proof fn lemma_mul_plus_left(x: Quat, y: Quat, b: Quat)
    ensures
        x.plus(y).mul(b) == x.mul(b).plus(y.mul(b)),
{
    lemma_distribute2(x.w, y.w, b.w);
    lemma_distribute2(x.w, y.w, b.i);
    lemma_distribute2(x.w, y.w, b.j);
    lemma_distribute2(x.w, y.w, b.k);
    lemma_distribute2(x.i, y.i, b.w);
    lemma_distribute2(x.i, y.i, b.i);
    lemma_distribute2(x.i, y.i, b.j);
    lemma_distribute2(x.i, y.i, b.k);
    lemma_distribute2(x.j, y.j, b.w);
    lemma_distribute2(x.j, y.j, b.i);
    lemma_distribute2(x.j, y.j, b.j);
    lemma_distribute2(x.j, y.j, b.k);
    lemma_distribute2(x.k, y.k, b.w);
    lemma_distribute2(x.k, y.k, b.i);
    lemma_distribute2(x.k, y.k, b.j);
    lemma_distribute2(x.k, y.k, b.k);
}

/// The Hamilton product distributes over a sum on the right.
pub proof fn lemma_mul_plus_right(a: Quat, x: Quat, y: Quat)
    ensures
        a.mul(x.plus(y)) == a.mul(x).plus(a.mul(y)),
{
    lemma_distribute2(x.w, y.w, a.w);
    lemma_distribute2(x.i, y.i, a.w);
    lemma_distribute2(x.j, y.j, a.w);
    lemma_distribute2(x.k, y.k, a.w);
    lemma_distribute2(x.w, y.w, a.i);
    lemma_distribute2(x.i, y.i, a.i);
    lemma_distribute2(x.j, y.j, a.i);
    lemma_distribute2(x.k, y.k, a.i);
    lemma_distribute2(x.w, y.w, a.j);
    lemma_distribute2(x.i, y.i, a.j);
    lemma_distribute2(x.j, y.j, a.j);
    lemma_distribute2(x.k, y.k, a.j);
    lemma_distribute2(x.w, y.w, a.k);
    lemma_distribute2(x.i, y.i, a.k);
    lemma_distribute2(x.j, y.j, a.k);
    lemma_distribute2(x.k, y.k, a.k);
}

/// A factor common to the components of either operand can be taken out of
/// a Hamilton product.
pub proof fn lemma_mul_times(a: Quat, b: Quat, c: int)
    ensures
        a.times(c).mul(b) == a.mul(b).times(c),
        a.mul(b.times(c)) == a.mul(b).times(c),
{
    lemma_mul_regroup(c, a.w, b.w);
    lemma_mul_regroup(c, a.w, b.i);
    lemma_mul_regroup(c, a.w, b.j);
    lemma_mul_regroup(c, a.w, b.k);
    lemma_mul_regroup(c, a.i, b.w);
    lemma_mul_regroup(c, a.i, b.i);
    lemma_mul_regroup(c, a.i, b.j);
    lemma_mul_regroup(c, a.i, b.k);
    lemma_mul_regroup(c, a.j, b.w);
    lemma_mul_regroup(c, a.j, b.i);
    lemma_mul_regroup(c, a.j, b.j);
    lemma_mul_regroup(c, a.j, b.k);
    lemma_mul_regroup(c, a.k, b.w);
    lemma_mul_regroup(c, a.k, b.i);
    lemma_mul_regroup(c, a.k, b.j);
    lemma_mul_regroup(c, a.k, b.k);
    lemma_mul_regroup(a.w, c, b.w);
    lemma_mul_regroup(a.w, c, b.i);
    lemma_mul_regroup(a.w, c, b.j);
    lemma_mul_regroup(a.w, c, b.k);
    lemma_mul_regroup(a.i, c, b.w);
    lemma_mul_regroup(a.i, c, b.i);
    lemma_mul_regroup(a.i, c, b.j);
    lemma_mul_regroup(a.i, c, b.k);
    lemma_mul_regroup(a.j, c, b.w);
    lemma_mul_regroup(a.j, c, b.i);
    lemma_mul_regroup(a.j, c, b.j);
    lemma_mul_regroup(a.j, c, b.k);
    lemma_mul_regroup(a.k, c, b.w);
    lemma_mul_regroup(a.k, c, b.i);
    lemma_mul_regroup(a.k, c, b.j);
    lemma_mul_regroup(a.k, c, b.k);
    lemma_distribute_signed(a.w * b.w, a.i * b.i, a.j * b.j, a.k * b.k, c);
    lemma_distribute_signed(a.w * b.i, a.i * b.w, a.j * b.k, a.k * b.j, c);
    lemma_distribute_signed(a.w * b.j, a.i * b.k, a.j * b.w, a.k * b.i, c);
    lemma_distribute_signed(a.w * b.k, a.i * b.j, a.j * b.i, a.k * b.w, c);
}

/// Multiplying by a quaternion without imaginary part multiplies every
/// component by its real part.
pub proof fn lemma_mul_real(q: Quat, r: int)
    ensures
        q.mul(Quat { w: r, i: 0, j: 0, k: 0 }) == q.times(r),
        (Quat { w: r, i: 0, j: 0, k: 0 }).mul(q) == q.times(r),
{
    lemma_mul_regroup(q.w, r, 1);
    lemma_mul_regroup(q.i, r, 1);
    lemma_mul_regroup(q.j, r, 1);
    lemma_mul_regroup(q.k, r, 1);
}

/// Conjugate and negation keep the squared norm, and with it units.
pub proof fn lemma_conj_neg_norm(q: Quat)
    ensures
        q.conj().norm_sq() == q.norm_sq(),
        q.neg().norm_sq() == q.norm_sq(),
        q.is_unit() ==> q.conj().is_unit() && q.neg().is_unit(),
        q.conj().conj() == q,
        q.neg().conj() == q.conj().neg(),
{
    assert((-q.w) * (-q.w) == q.w * q.w && (-q.i) * (-q.i) == q.i * q.i && (-q.j) * (-q.j) == q.j
        * q.j && (-q.k) * (-q.k) == q.k * q.k) by (nonlinear_arith);
}

/// Scaling every component by `f` scales the squared norm by its square.
pub proof fn lemma_norm_sq_times(x: Quat, f: int)
    ensures
        x.times(f).norm_sq() == (f * f) * x.norm_sq(),
{
    lemma_monomial_square(f, x.w);
    lemma_monomial_square(f, x.i);
    lemma_monomial_square(f, x.j);
    lemma_monomial_square(f, x.k);
    lemma_distribute4(x.w * x.w, x.i * x.i, x.j * x.j, x.k * x.k, f * f);
}

/// A multiple of the divisor in every component is divided exactly.
pub proof fn lemma_rounded_times(q: Quat, d: int)
    requires
        d != 0,
    ensures
        q.times(d).rounded(d) == q,
{
    lemma_round_div_exact(q.w, d);
    lemma_round_div_exact(q.i, d);
    lemma_round_div_exact(q.j, d);
    lemma_round_div_exact(q.k, d);
    lemma_mul_regroup(q.w, d, 1);
    lemma_mul_regroup(q.i, d, 1);
    lemma_mul_regroup(q.j, d, 1);
    lemma_mul_regroup(q.k, d, 1);
}

/// What rounding a quaternion by `d` loses: `d` times the rounded
/// quaternion is the quaternion itself plus at most half of `d` in each
/// component.
pub proof fn lemma_rounded_error(p: Quat, d: int)
    requires
        d > 0,
    ensures
        p.rounded(d).times(d) == p.plus(p.rounded(d).times(d).minus(p)),
        2 * mag(p.rounded(d).times(d).minus(p).w) <= d,
        2 * mag(p.rounded(d).times(d).minus(p).i) <= d,
        2 * mag(p.rounded(d).times(d).minus(p).j) <= d,
        2 * mag(p.rounded(d).times(d).minus(p).k) <= d,
{
    let r = p.rounded(d);
    lemma_round_div_error(p.w, d);
    lemma_round_div_error(p.i, d);
    lemma_round_div_error(p.j, d);
    lemma_round_div_error(p.k, d);
    lemma_mul_regroup(r.w, d, 1);
    lemma_mul_regroup(r.i, d, 1);
    lemma_mul_regroup(r.j, d, 1);
    lemma_mul_regroup(r.k, d, 1);
}

} // verus!
