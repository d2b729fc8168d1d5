//! Fixed-point unit quaternions, and the operations on them.

use vstd::prelude::*;
use crate::algebra::{
    lemma_conj_neg_norm, lemma_mul_assoc, lemma_mul_conj, lemma_mul_plus_left, lemma_mul_plus_right,
    lemma_mul_real, lemma_mul_times, lemma_norm_sq_mul, lemma_norm_sq_times, Quat, Vec3,
};
use crate::arith::{
    lemma_below_root, lemma_distribute2, lemma_distribute3, lemma_distribute4, lemma_monomial_pair,
    lemma_monomial_square, lemma_mul_bound, lemma_mul_neg, lemma_mul_permute, lemma_mul_regroup,
    lemma_square3, mag,
};
use crate::fixed::{
    div_round, lemma_round_div_bound, lemma_round_div_error, mul_wide, round_div, scale_factor,
    DIV_LIMIT, ONE, ONE_SQ, SCALE_LIMIT,
};
use crate::normalize::{
    lemma_norm_floor, lemma_scaled, lemma_stretched_near, lemma_stretched_unit, lemma_unit_within,
    stretch,
};
use crate::vector::{
    lemma_cross_orthogonal, lemma_dot_self_positive, lemma_lagrange, lemma_triple_swap, Vector3,
};

verus! {

/// The largest magnitude of an axis that can be taken into the frame of a
/// rotation, 2^44: what it is taken to, up to twice as large, must stay
/// within the limit of the axis of a decomposition.
pub const AXIS_LIMIT: i64 = 0x1000_0000_0000;

/// A quaternion of four Q32.32 numbers, of any length.
#[derive(Clone, Copy, Debug, PartialEq, Eq)]
pub struct Quaternion {
    pub w: i64,
    pub i: i64,
    pub j: i64,
    pub k: i64,
}

impl View for Quaternion {
    type V = Quat;

    open spec fn view(&self) -> Quat {
        Quat { w: self.w as int, i: self.i as int, j: self.j as int, k: self.k as int }
    }
}

impl Quaternion {
    /// Whether every component is zero.
    pub fn is_zero(&self) -> (r: bool)
        ensures
            r == self@.is_zero(),
    {
        self.w == 0 && self.i == 0 && self.j == 0 && self.k == 0
    }

    /// Whether no component exceeds `limit` in magnitude.
    pub fn is_within(&self, limit: i64) -> (r: bool)
        requires
            limit >= 0,
        ensures
            r == self@.within(limit as int),
    {
        self.w <= limit && self.w >= -limit && self.i <= limit && self.i >= -limit && self.j
            <= limit && self.j >= -limit && self.k <= limit && self.k >= -limit
    }
}

/// A quaternion of length one, up to rounding: a rotation.
///
/// A value and its negation stand for the same rotation.
#[derive(Clone, Copy, Debug, PartialEq, Eq)]
pub struct UnitQuaternion {
    pub w: i64,
    pub i: i64,
    pub j: i64,
    pub k: i64,
}

impl View for UnitQuaternion {
    type V = Quat;

    open spec fn view(&self) -> Quat {
        Quat { w: self.w as int, i: self.i as int, j: self.j as int, k: self.k as int }
    }
}

/// The composition of two rotations: the exact product, rounded to Q32.32
/// and then normalized.
pub open spec fn composed(a: Quat, b: Quat) -> Quat {
    a.mul(b).rounded(ONE as int).stretched(ONE as int)
}

/// The vector `v` turned by the rotation `q`: `v + (w t + u x t)` with `u`
/// the imaginary part of `q` and `t = 2 u x v`, the bracket rounded once.
pub open spec fn rotated(q: Quat, v: Vec3) -> Vec3 {
    let u = q.imag();
    let t = u.cross(v).times(2);
    let c = u.cross(t);
    Vec3 {
        x: v.x + round_div(q.w * t.x + c.x, ONE_SQ as int),
        y: v.y + round_div(q.w * t.y + c.y, ONE_SQ as int),
        z: v.z + round_div(q.w * t.z + c.z, ONE_SQ as int),
    }
}

impl UnitQuaternion {
    /// The squared norm is within [`UNIT_TOLERANCE`] of one.
    pub open spec fn wf(&self) -> bool {
        self@.is_unit()
    }

    /// The rotation that changes nothing.
    pub fn identity() -> (r: UnitQuaternion)
        ensures
            r@ == Quat::identity(),
            r.wf(),
    {
        let r = UnitQuaternion { w: ONE, i: 0, j: 0, k: 0 };
        assert(r@.norm_sq() == ONE_SQ) by (nonlinear_arith)
            requires
                r@.norm_sq() == r@.w * r@.w + r@.i * r@.i + r@.j * r@.j + r@.k * r@.k,
                r@.w == 0x1_0000_0000,
                r@.i == 0,
                r@.j == 0,
                r@.k == 0,
        ;
        r
    }

    /// Normalizes a quaternion. There is no result for the zero quaternion,
    /// which has no direction, nor for one with a component of magnitude
    /// 2^62 or more.
    pub fn from_quaternion(q: Quaternion) -> (r: Option<UnitQuaternion>)
        ensures
            r.is_some() <==> (!q@.is_zero() && q@.within(SCALE_LIMIT - 1)),
            r.is_some() ==> r.unwrap()@ == q@.stretched(ONE as int) && r.unwrap().wf(),
    {
        if q.is_zero() || !q.is_within(SCALE_LIMIT - 1) {
            return None;
        }
        let s = stretch(q, ONE);
        proof {
            lemma_stretched_unit(q@);
        }
        Some(UnitQuaternion { w: s.w, i: s.i, j: s.j, k: s.k })
    }

    /// The inverse rotation: the conjugate.
    pub fn inverse(&self) -> (r: UnitQuaternion)
        requires
            self.wf(),
        ensures
            r@ == self@.conj(),
            r.wf(),
    {
        proof {
            lemma_unit_within(self@);
            let q = self@;
            assert((-q.i) * (-q.i) == q.i * q.i && (-q.j) * (-q.j) == q.j * q.j && (-q.k) * (-q.k)
                == q.k * q.k) by (nonlinear_arith);
        }
        UnitQuaternion { w: self.w, i: -self.i, j: -self.j, k: -self.k }
    }

    /// The negation: the same rotation, the other representative.
    pub fn negated(&self) -> (r: UnitQuaternion)
        requires
            self.wf(),
        ensures
            r@ == self@.neg(),
            r.wf(),
    {
        proof {
            lemma_unit_within(self@);
            let q = self@;
            assert((-q.w) * (-q.w) == q.w * q.w && (-q.i) * (-q.i) == q.i * q.i && (-q.j) * (-q.j)
                == q.j * q.j && (-q.k) * (-q.k) == q.k * q.k) by (nonlinear_arith);
        }
        UnitQuaternion { w: -self.w, i: -self.i, j: -self.j, k: -self.k }
    }

    /// The rotation `rhs` followed by `self`: the Hamilton product, rounded
    /// and normalized.
    pub fn compose(&self, rhs: &UnitQuaternion) -> (r: UnitQuaternion)
        requires
            self.wf(),
            rhs.wf(),
        ensures
            r@ == composed(self@, rhs@),
            r.wf(),
    {
        let a = self;
        let b = rhs;
        proof {
            lemma_unit_within(a@);
            lemma_unit_within(b@);
            lemma_unit_product(a@, b@);
            let l = ONE + 4;
            lemma_mul_bound(a.w as int, b.w as int, l, l);
            lemma_mul_bound(a.i as int, b.i as int, l, l);
            lemma_mul_bound(a.j as int, b.j as int, l, l);
            lemma_mul_bound(a.k as int, b.k as int, l, l);
            lemma_mul_bound(a.w as int, b.i as int, l, l);
            lemma_mul_bound(a.i as int, b.w as int, l, l);
            lemma_mul_bound(a.j as int, b.k as int, l, l);
            lemma_mul_bound(a.k as int, b.j as int, l, l);
            lemma_mul_bound(a.w as int, b.j as int, l, l);
            lemma_mul_bound(a.i as int, b.k as int, l, l);
            lemma_mul_bound(a.j as int, b.w as int, l, l);
            lemma_mul_bound(a.k as int, b.i as int, l, l);
            lemma_mul_bound(a.w as int, b.k as int, l, l);
            lemma_mul_bound(a.i as int, b.j as int, l, l);
            lemma_mul_bound(a.j as int, b.i as int, l, l);
            lemma_mul_bound(a.k as int, b.w as int, l, l);
            assert(l * l == 0x1_0000_0008_0000_0010) by (nonlinear_arith)
                requires
                    l == 0x1_0000_0004,
            ;
            lemma_stretched_unit(a@.mul(b@).rounded(ONE as int));
        }
        let pw = mul_wide(a.w, b.w) - mul_wide(a.i, b.i) - mul_wide(a.j, b.j) - mul_wide(a.k, b.k);
        let pi = mul_wide(a.w, b.i) + mul_wide(a.i, b.w) + mul_wide(a.j, b.k) - mul_wide(a.k, b.j);
        let pj = mul_wide(a.w, b.j) - mul_wide(a.i, b.k) + mul_wide(a.j, b.w) + mul_wide(a.k, b.i);
        let pk = mul_wide(a.w, b.k) + mul_wide(a.i, b.j) - mul_wide(a.j, b.i) + mul_wide(a.k, b.w);
        let one: i128 = ONE as i128;
        let q = Quaternion {
            w: div_round(pw, one) as i64,
            i: div_round(pi, one) as i64,
            j: div_round(pj, one) as i64,
            k: div_round(pk, one) as i64,
        };
        let s = stretch(q, ONE);
        UnitQuaternion { w: s.w, i: s.i, j: s.j, k: s.k }
    }

    /// Turns the vector `v` by this rotation. No component of the result
    /// exceeds twice the largest of `v`, and only the zero vector is taken
    /// to zero.
    #[verifier::rlimit(100)]
    pub fn rotate(&self, v: &Vector3) -> (r: Vector3)
        requires
            self.wf(),
            v@.within(AXIS_LIMIT as int),
        ensures
            r@ == rotated(self@, v@),
            r@.within(2 * v@.max_mag()),
            r@.is_zero() ==> v@.is_zero(),
    {
        proof {
            lemma_unit_within(self@);
            lemma_rotation_bounds(self@, v@, v@.max_mag());
            lemma_rotated_within(self@, v@);
        }
        let cx: i128 = mul_wide(self.j, v.z) - mul_wide(self.k, v.y);
        let cy: i128 = mul_wide(self.k, v.x) - mul_wide(self.i, v.z);
        let cz: i128 = mul_wide(self.i, v.y) - mul_wide(self.j, v.x);
        let tx: i128 = 2 * cx;
        let ty: i128 = 2 * cy;
        let tz: i128 = 2 * cz;
        let w: i128 = self.w as i128;
        let ux: i128 = self.i as i128;
        let uy: i128 = self.j as i128;
        let uz: i128 = self.k as i128;
        let nx: i128 = w * tx + (uy * tz - uz * ty);
        let ny: i128 = w * ty + (uz * tx - ux * tz);
        let nz: i128 = w * tz + (ux * ty - uy * tx);
        Vector3 {
            x: (v.x as i128 + div_round(nx, ONE_SQ)) as i64,
            y: (v.y as i128 + div_round(ny, ONE_SQ)) as i64,
            z: (v.z as i128 + div_round(nz, ONE_SQ)) as i64,
        }
    }
}

/// The product of a quaternion that is a unit with one whose components
/// are each half of `m` at most, and one part in 2^28 of that: every
/// component is at most one and 22 units, times `m`. The norm of a product
/// is the product of the norms, which four times the largest component
/// would overstate by half.
pub proof fn lemma_small_product(q: Quat, e: Quat, m: int)
    requires
        q.is_unit(),
        m >= 1,
        0x1000_0000 * (2 * mag(e.w)) <= 0x1000_0001 * m,
        0x1000_0000 * (2 * mag(e.i)) <= 0x1000_0001 * m,
        0x1000_0000 * (2 * mag(e.j)) <= 0x1000_0001 * m,
        0x1000_0000 * (2 * mag(e.k)) <= 0x1000_0001 * m,
    ensures
        q.mul(e).within((ONE + 22) * m),
        e.mul(q).within((ONE + 22) * m),
{
    let c = q.mul(e);
    let b = e.mul(q);
    lemma_norm_sq_mul(e, q);
    let nq = q.norm_sq();
    let ne = e.norm_sq();
    let mm = m * m;
    let bound = (ONE + 22) * m;
    lemma_norm_sq_mul(q, e);
    lemma_half_square(e.w, m);
    lemma_half_square(e.i, m);
    lemma_half_square(e.j, m);
    lemma_half_square(e.k, m);
    assert(ne == e.w * e.w + e.i * e.i + e.j * e.j + e.k * e.k);
    assert(ne >= 0);
    assert(0x400_0000_0000_0000 * ne <= 0x400_0000_8000_0004 * mm);
    assert(nq * ne <= 0x1_0000_0009_0000_0000 * ne) by (nonlinear_arith)
        requires
            nq <= 0x1_0000_0009_0000_0000,
            ne >= 0,
    ;
    assert(nq * ne <= 0x1_0000_002c_0000_01e4 * mm);
    lemma_monomial_square(0x1_0000_0016, m);
    assert(0x1_0000_0016 * 0x1_0000_0016 == 0x1_0000_002c_0000_01e4) by (nonlinear_arith);
    assert(bound == 0x1_0000_0016 * m);
    assert(bound * bound == 0x1_0000_002c_0000_01e4 * mm);
    lemma_square_nonneg(c.w);
    lemma_square_nonneg(c.i);
    lemma_square_nonneg(c.j);
    lemma_square_nonneg(c.k);
    lemma_below_root(c.w, bound);
    lemma_below_root(c.i, bound);
    lemma_below_root(c.j, bound);
    lemma_below_root(c.k, bound);
    assert(b.norm_sq() == nq * ne) by (nonlinear_arith)
        requires
            b.norm_sq() == ne * nq,
    ;
    lemma_square_nonneg(b.w);
    lemma_square_nonneg(b.i);
    lemma_square_nonneg(b.j);
    lemma_square_nonneg(b.k);
    lemma_below_root(b.w, bound);
    lemma_below_root(b.i, bound);
    lemma_below_root(b.j, bound);
    lemma_below_root(b.k, bound);
}

/// The square of a number that is half of `m` at most, and one part in
/// 2^28 of that.
pub proof fn lemma_half_square(x: int, m: int)
    requires
        m >= 0,
        0x1000_0000 * (2 * mag(x)) <= 0x1000_0001 * m,
    ensures
        0 <= x * x,
        0x400_0000_0000_0000 * (x * x) <= 0x100_0000_2000_0001 * (m * m),
{
    let u = 0x2000_0000 * mag(x);
    let v = 0x1000_0001 * m;
    assert(u * u <= v * v) by (nonlinear_arith)
        requires
            0 <= u <= v,
    ;
    lemma_monomial_square(0x2000_0000, mag(x));
    lemma_monomial_square(0x1000_0001, m);
    assert(0x2000_0000 * 0x2000_0000 == 0x400_0000_0000_0000) by (nonlinear_arith);
    assert(0x1000_0001 * 0x1000_0001 == 0x100_0000_2000_0001) by (nonlinear_arith);
    assert(mag(x) * mag(x) == x * x) by (nonlinear_arith);
    assert(x * x >= 0) by (nonlinear_arith);
}

/// A square is not negative.
pub proof fn lemma_square_nonneg(x: int)
    ensures
        x * x >= 0,
{
    assert(x * x >= 0) by (nonlinear_arith);
}

/// Composing with the inverse of a rotation and then with the rotation
/// gives the first rotation back, up to rounding and to what the first
/// lacks of a unit: no component differs by more than 16 units.
pub proof fn lemma_compose_inverse(q: Quat, t: Quat)
    requires
        q.is_unit(),
        t.is_unit(),
    ensures
        composed(composed(q, t.conj()), t).minus(q).within(16),
        composed(q, t.conj()).is_unit(),
{
    let one = ONE as int;
    let s = composed(q, t.conj());
    let z = composed(s, t);
    lemma_conj_neg_norm(t);
    lemma_composed_frame(q, t.conj());
    lemma_composed_frame(s, t);
    let part1 = q.mul(t.conj());
    let f1 = scale_factor(part1.rounded(one).max_mag());
    let n1 = part1.rounded(one).times(f1).norm_floor();
    let e1 = s.times(n1).minus(part1.times(f1));
    let part2 = s.mul(t);
    let f2 = scale_factor(part2.rounded(one).max_mag());
    let n2 = part2.rounded(one).times(f2).norm_floor();
    let e2 = z.times(n2).minus(part2.times(f2));
    let nt = t.norm_sq();
    // The second product, times the first norm, is the first rotation
    // times the squared norm of the second, and what rounding added.
    let w = e1.mul(t);
    lemma_mul_times(s, t, n1);
    assert(s.times(n1) == part1.times(f1).plus(e1));
    lemma_mul_plus_left(part1.times(f1), e1, t);
    lemma_mul_times(part1, t, f1);
    lemma_mul_assoc(q, t.conj(), t);
    lemma_mul_conj(t);
    lemma_mul_real(q, nt);
    assert(part2.times(n1) == q.times(nt).times(f1).plus(w));
    lemma_small_product(t, e1, 2 * n1);
    lemma_recomposed(z, q, part2, w, e2, n1, n2, f1, f2, nt);
}

/// Composing a rotation with the displacement from it to another gives
/// that other rotation, up to rounding and to what it lacks of a unit: no
/// component differs by more than 16 units.
pub proof fn lemma_compose_displacement(q: Quat, t: Quat)
    requires
        q.is_unit(),
        t.is_unit(),
    ensures
        composed(q, composed(q.conj(), t)).minus(t).within(16),
        composed(q.conj(), t).is_unit(),
{
    let one = ONE as int;
    let s = composed(q.conj(), t);
    let z = composed(q, s);
    lemma_conj_neg_norm(q);
    lemma_composed_frame(q.conj(), t);
    lemma_composed_frame(q, s);
    let part1 = q.conj().mul(t);
    let f1 = scale_factor(part1.rounded(one).max_mag());
    let n1 = part1.rounded(one).times(f1).norm_floor();
    let e1 = s.times(n1).minus(part1.times(f1));
    let part2 = q.mul(s);
    let f2 = scale_factor(part2.rounded(one).max_mag());
    let n2 = part2.rounded(one).times(f2).norm_floor();
    let e2 = z.times(n2).minus(part2.times(f2));
    let nq = q.norm_sq();
    let w = q.mul(e1);
    lemma_mul_times(q, s, n1);
    assert(s.times(n1) == part1.times(f1).plus(e1));
    lemma_mul_plus_right(q, part1.times(f1), e1);
    lemma_mul_times(q, part1, f1);
    lemma_mul_assoc(q, q.conj(), t);
    lemma_mul_conj(q);
    lemma_mul_real(t, nq);
    assert(part2.times(n1) == t.times(nq).times(f1).plus(w));
    lemma_small_product(q, e1, 2 * n1);
    lemma_recomposed(z, t, part2, w, e2, n1, n2, f1, f2, nq);
}

/// What [`lemma_compose_inverse`] and [`lemma_compose_displacement`] share:
/// `z` is the second composition, `y` what it should give back, `p` the
/// second product, `ny` the squared norm of the rotation that cancels, and
/// `w` and `e` what the first and the second rounding added.
proof fn lemma_recomposed(
    z: Quat,
    y: Quat,
    p: Quat,
    w: Quat,
    e: Quat,
    n1: int,
    n2: int,
    f1: int,
    f2: int,
    ny: int,
)
    requires
        f1 >= 1 && f2 >= 1 && n1 >= 1,
        n2 >= f2 * (ONE - 13),
        ny >= 0,
        y.is_unit(),
        z.is_unit_within(3),
        p.times(n1) == y.times(ny).times(f1).plus(w),
        e == z.times(n2).minus(p.times(f2)),
        w.within((ONE + 22) * (2 * n1)),
        0x1000_0000 * (2 * mag(e.w)) <= 0x1000_0001 * (2 * n2),
        0x1000_0000 * (2 * mag(e.i)) <= 0x1000_0001 * (2 * n2),
        0x1000_0000 * (2 * mag(e.j)) <= 0x1000_0001 * (2 * n2),
        0x1000_0000 * (2 * mag(e.k)) <= 0x1000_0001 * (2 * n2),
    ensures
        z.minus(y).within(16),
{
    let m = n1 * n2;
    let k = (f1 * f2) * ny;
    let g = Quat {
        w: f2 * w.w + n1 * e.w,
        i: f2 * w.i + n1 * e.i,
        j: f2 * w.j + n1 * e.j,
        k: f2 * w.k + n1 * e.k,
    };
    lemma_recomposed_part(z.w, y.w, p.w, w.w, e.w, n1, n2, f1, f2, ny);
    lemma_recomposed_part(z.i, y.i, p.i, w.i, e.i, n1, n2, f1, f2, ny);
    lemma_recomposed_part(z.j, y.j, p.j, w.j, e.j, n1, n2, f1, f2, ny);
    lemma_recomposed_part(z.k, y.k, p.k, w.k, e.k, n1, n2, f1, f2, ny);
    assert(z.times(m) == y.times(k).plus(g));
    assert(m >= 1 && k >= 0 && n2 >= 1) by (nonlinear_arith)
        requires
            m == n1 * n2,
            k == (f1 * f2) * ny,
            f1 >= 1 && f2 >= 1 && n1 >= 1,
            n2 >= f2 * (ONE - 13),
            ny >= 0,
    ;
    lemma_frame_near(z, y, g, m, k);
}

/// One component of [`lemma_recomposed`].
proof fn lemma_recomposed_part(
    z: int,
    y: int,
    p: int,
    w: int,
    e: int,
    n1: int,
    n2: int,
    f1: int,
    f2: int,
    ny: int,
)
    requires
        f1 >= 1 && f2 >= 1 && n1 >= 1,
        n2 >= f2 * (ONE - 13),
        n1 * p == f1 * (ny * y) + w,
        e == n2 * z - f2 * p,
        mag(w) <= (ONE + 22) * (2 * n1),
        0x1000_0000 * (2 * mag(e)) <= 0x1000_0001 * (2 * n2),
    ensures
        (n1 * n2) * z == ((f1 * f2) * ny) * y + (f2 * w + n1 * e),
        0x100_0000 * mag(f2 * w + n1 * e) <= 0x300_0001 * (n1 * n2),
{
    lemma_distribute2(n2 * z, f2 * p, n1);
    lemma_mul_regroup(n1, n2, z);
    lemma_mul_permute(n1, f2, p);
    lemma_distribute2(f1 * (ny * y), w, f2);
    lemma_mul_regroup(f2, f1, ny * y);
    lemma_mul_regroup(f1, f2, 1);
    lemma_mul_regroup(f1 * f2, ny, y);
    assert((n1 * n2) * z == ((f1 * f2) * ny) * y + (f2 * w + n1 * e));
    lemma_mul_bound(f2, w, f2, mag(w));
    lemma_mul_bound(n1, e, n1, mag(e));
    let (yw, ye, m) = (mag(w), mag(e), n1 * n2);
    let fw = f2 * yw;
    assert(0x100_0000 * (fw + n1 * ye) <= 0x300_0001 * m) by (nonlinear_arith)
        requires
            fw == f2 * yw,
            m == n1 * n2,
            f2 >= 1,
            n1 >= 1,
            n2 >= f2 * 0xffff_fff3,
            0 <= yw <= 0x1_0000_0016 * (2 * n1),
            0 <= 0x1000_0000 * (2 * ye) <= 0x1000_0001 * (2 * n2),
    ;
}

/// What follows of a quaternion `z` that is a unit and, times `m`, is `k`
/// times a unit quaternion `y` and a `g` of three times `m` in each
/// component: `k` is `m` within 13.6 parts in 2^32, and `z` is `y` within
/// 16 units.
pub proof fn lemma_frame_near(z: Quat, y: Quat, g: Quat, m: int, k: int)
    requires
        m >= 1,
        k >= 0,
        z.times(m) == y.times(k).plus(g),
        0x100_0000 * mag(g.w) <= 0x300_0001 * m,
        0x100_0000 * mag(g.i) <= 0x300_0001 * m,
        0x100_0000 * mag(g.j) <= 0x300_0001 * m,
        0x100_0000 * mag(g.k) <= 0x300_0001 * m,
        z.is_unit_within(3),
        y.is_unit(),
    ensures
        z.minus(y).within(16),
{
    let one = ONE as int;
    let (ny, nz, ng) = (y.norm_sq(), z.norm_sq(), g.norm_sq());
    let dg = y.w * g.w + y.i * g.i + y.j * g.j + y.k * g.k;
    let (mm, kk) = (m * m, k * k);
    // The squared norms of the two sides.
    lemma_monomial_square(m, z.w);
    lemma_monomial_square(m, z.i);
    lemma_monomial_square(m, z.j);
    lemma_monomial_square(m, z.k);
    lemma_distribute4(z.w * z.w, z.i * z.i, z.j * z.j, z.k * z.k, mm);
    lemma_square_sum(k, y.w, g.w);
    lemma_square_sum(k, y.i, g.i);
    lemma_square_sum(k, y.j, g.j);
    lemma_square_sum(k, y.k, g.k);
    lemma_distribute4(y.w * y.w, y.i * y.i, y.j * y.j, y.k * y.k, kk);
    lemma_distribute4(y.w * g.w, y.i * g.i, y.j * g.j, y.k * g.k, k);
    assert(mm * nz == kk * ny + 2 * (k * dg) + ng);
    // What g has along y, and its own size.
    lemma_unit_within(y);
    lemma_mul_bound(y.w, g.w, one + 4, mag(g.w));
    lemma_mul_bound(y.i, g.i, one + 4, mag(g.i));
    lemma_mul_bound(y.j, g.j, one + 4, mag(g.j));
    lemma_mul_bound(y.k, g.k, one + 4, mag(g.k));
    let sy = mag(y.w) + mag(y.i) + mag(y.j) + mag(y.k);
    lemma_sum_square4(y);
    assert(4 * ny <= (2 * (one + 5)) * (2 * (one + 5))) by (nonlinear_arith)
        requires
            ny <= 0x1_0000_0009_0000_0000,
            one == 0x1_0000_0000,
    ;
    lemma_below_root(sy, 2 * (one + 5));
    lemma_along_bound(y, g, m);
    lemma_square_nonneg(g.w);
    lemma_square_nonneg(g.i);
    lemma_square_nonneg(g.j);
    lemma_square_nonneg(g.k);
    lemma_small_square(g.w, m);
    lemma_small_square(g.i, m);
    lemma_small_square(g.j, m);
    lemma_small_square(g.k, m);
    assert((one - 3) * (one - 3) == 0xfffffffa00000009 && (one + 3) * (one + 3) == 0x10000000600000009) by (nonlinear_arith)
        requires
            one == 0x1_0000_0000,
    ;
    lemma_ratio(k, m, ny, nz, dg, ng);
    // Each component.
    lemma_near_part(z.w, y.w, g.w, m, k);
    lemma_near_part(z.i, y.i, g.i, m, k);
    lemma_near_part(z.j, y.j, g.j, m, k);
    lemma_near_part(z.k, y.k, g.k, m, k);
}

/// The square of a sum of two terms, the first a product.
proof fn lemma_square_sum(k: int, y: int, g: int)
    ensures
        (k * y + g) * (k * y + g) == (k * k) * (y * y) + 2 * (k * (y * g)) + g * g,
{
    lemma_monomial_square(k, y);
    lemma_mul_regroup(k, y, g);
    let a = k * y;
    assert((a + g) * (a + g) == a * a + 2 * (a * g) + g * g) by (nonlinear_arith);
}

/// The square of the sum of the magnitudes of a quaternion is at most four
/// times its squared norm.
proof fn lemma_sum_square4(y: Quat)
    ensures
        (mag(y.w) + mag(y.i) + mag(y.j) + mag(y.k)) * (mag(y.w) + mag(y.i) + mag(y.j) + mag(y.k))
            <= 4 * y.norm_sq(),
{
    let (a, b, c, d) = (mag(y.w), mag(y.i), mag(y.j), mag(y.k));
    assert((a + b + c + d) * (a + b + c + d) <= 4 * (a * a + b * b + c * c + d * d))
        by (nonlinear_arith);
    assert(a * a == y.w * y.w && b * b == y.i * y.i && c * c == y.j * y.j && d * d == y.k * y.k)
        by (nonlinear_arith)
        requires
            a == mag(y.w),
            b == mag(y.i),
            c == mag(y.j),
            d == mag(y.k),
    ;
}

/// What `g` has along `y` in [`lemma_frame_near`].
proof fn lemma_along_bound(y: Quat, g: Quat, m: int)
    requires
        m >= 1,
        0x100_0000 * mag(g.w) <= 0x300_0001 * m,
        0x100_0000 * mag(g.i) <= 0x300_0001 * m,
        0x100_0000 * mag(g.j) <= 0x300_0001 * m,
        0x100_0000 * mag(g.k) <= 0x300_0001 * m,
        mag(y.w) + mag(y.i) + mag(y.j) + mag(y.k) <= 2 * (ONE + 5),
    ensures
        mag(y.w * g.w + y.i * g.i + y.j * g.j + y.k * g.k) <= 0x60000021f * m,
{
    lemma_mul_bound(y.w, g.w, mag(y.w), mag(g.w));
    lemma_mul_bound(y.i, g.i, mag(y.i), mag(g.i));
    lemma_mul_bound(y.j, g.j, mag(y.j), mag(g.j));
    lemma_mul_bound(y.k, g.k, mag(y.k), mag(g.k));
    let (a, b, c, d) = (mag(y.w), mag(y.i), mag(y.j), mag(y.k));
    let (e, f, h, l) = (mag(g.w), mag(g.i), mag(g.j), mag(g.k));
    let t = 0x300_0001 * m;
    lemma_scaled_product(a, e, t);
    lemma_scaled_product(b, f, t);
    lemma_scaled_product(c, h, t);
    lemma_scaled_product(d, l, t);
    lemma_distribute4(a, b, c, d, t);
    assert(0x100_0000 * (a * e + b * f + c * h + d * l) <= (a + b + c + d) * t);
    assert((a + b + c + d) * t <= 0x2_0000_000a * t) by (nonlinear_arith)
        requires
            a + b + c + d <= 0x2_0000_000a,
            t >= 0,
    ;
}

/// A product with a factor that is bounded after scaling.
proof fn lemma_scaled_product(a: int, e: int, t: int)
    requires
        a >= 0,
        0 <= 0x100_0000 * e <= t,
    ensures
        0x100_0000 * (a * e) <= a * t,
{
    assert(0x100_0000 * (a * e) <= a * t) by (nonlinear_arith)
        requires
            a >= 0,
            0 <= 0x100_0000 * e <= t,
    ;
}

/// The square of a component of `g` in [`lemma_frame_near`].
proof fn lemma_small_square(g: int, m: int)
    requires
        m >= 1,
        0x100_0000 * mag(g) <= 0x300_0001 * m,
    ensures
        g * g <= 10 * (m * m),
{
    assert(g * g <= 10 * (m * m)) by (nonlinear_arith)
        requires
            m >= 1,
            0x100_0000 * mag(g) <= 0x300_0001 * m,
    ;
}

/// The ratio of `k` to `m` in [`lemma_frame_near`], from the squared norms.
proof fn lemma_ratio(k: int, m: int, ny: int, nz: int, dg: int, ng: int)
    requires
        m >= 1,
        k >= 0,
        (m * m) * nz == (k * k) * ny + 2 * (k * dg) + ng,
        mag(dg) <= 0x60000021f * m,
        0 <= ng <= 40 * (m * m),
        0xfffffff700000000 <= ny <= 0x10000000900000000,
        0xfffffffa00000009 <= nz <= 0x10000000600000009,
    ensures
        0xa00000000 * k <= 0xa00000088 * m,
        0xa00000000 * k >= 0x9ffffff78 * m,
{
    let (mm, kk, km) = (m * m, k * k, k * m);
    lemma_mul_bound(k, dg, k, 0x60000021f * m);
    lemma_mul_regroup(k, 0x60000021f, m);
    lemma_mul_permute(0x60000021f, k, m);
    let x = k * dg;
    assert(mag(x) <= 0x60000021f * km);
    if 0xa00000000 * k > 0xa00000088 * m {
        assert(0xa00000088 * km <= 0xa00000000 * kk && 0xa00000088 * mm <= 0xa00000000 * km && k >= 1) by (nonlinear_arith)
            requires
                0xa00000000 * k > 0xa00000088 * m,
                m >= 1,
                k >= 0,
                kk == k * k,
                km == k * m,
                mm == m * m,
        ;
        // b (mm nz) >= kk (b ny - 2 a cd).
        let q = 0xa00000088 * ny - 2 * (0xa00000000 * 0x60000021f);
        assert(q >= 0x9ffffffb5ffffd0cc00000000);
        assert(0xa00000088 * (mm * nz) >= kk * q) by (nonlinear_arith)
            requires
                mm * nz >= kk * ny - 2 * (0x60000021f * km),
                0xa00000088 * km <= 0xa00000000 * kk,
                q == 0xa00000088 * ny - 2 * (0xa00000000 * 0x60000021f),
                kk >= 0,
        ;
        assert(kk * q >= kk * 0x9ffffffb5ffffd0cc00000000) by (nonlinear_arith)
            requires
                kk >= 0,
                q >= 0x9ffffffb5ffffd0cc00000000,
        ;
        assert(mm * nz <= mm * 0x10000000600000009) by (nonlinear_arith)
            requires
                mm >= 0,
                nz <= 0x10000000600000009,
        ;
        assert((0xa00000088 * 0xa00000088) * mm < (0xa00000000 * 0xa00000000) * kk) by (nonlinear_arith)
            requires
                0xa00000000 * k > 0xa00000088 * m,
                m >= 1,
                k >= 0,
                kk == k * k,
                mm == m * m,
        ;
        assert(false) by (nonlinear_arith)
            requires
                0xa00000088 * (mm * 0x10000000600000009) >= kk * 0x9ffffffb5ffffd0cc00000000,
                0x6400000aa000004840 * mm < 0x640000000000000000 * kk,
                mm >= 1,
                kk >= 1,
        ;
    }
    if 0xa00000000 * k < 0x9ffffff78 * m {
        assert(0x640000000000000000 * kk <= 0x63fffff56000004840 * mm && 0xa00000000 * km <= 0x9ffffff78 * mm) by (nonlinear_arith)
            requires
                0 <= 0xa00000000 * k < 0x9ffffff78 * m,
                m >= 1,
                k >= 0,
                kk == k * k,
                km == k * m,
                mm == m * m,
        ;
        let kn = kk * ny;
        let mn = mm * ny;
        assert(0x640000000000000000 * kn <= 0x63fffff56000004840 * mn) by (nonlinear_arith)
            requires
                0x640000000000000000 * kk <= 0x63fffff56000004840 * mm,
                kn == kk * ny,
                mn == mm * ny,
                ny >= 0,
        ;
        assert(mn <= 0x10000000900000000 * mm && mm * nz >= 0xfffffffa00000009 * mm) by (nonlinear_arith)
            requires
                mn == mm * ny,
                mm >= 0,
                ny <= 0x10000000900000000,
                nz >= 0xfffffffa00000009,
        ;
        let mz = mm * nz;
        assert(mm >= 1) by (nonlinear_arith)
            requires
                mm == m * m,
                m >= 1,
        ;
        assert(false) by (nonlinear_arith)
            requires
                mz - 40 * mm <= kn + 2 * (0x60000021f * km),
                0x640000000000000000 * kn <= 0x63fffff56000004840 * mn,
                0xa00000000 * km <= 0x9ffffff78 * mm,
                mn <= 0x10000000900000000 * mm,
                mz >= 0xfffffffa00000009 * mm,
                mm >= 1,
        ;
    }
}

/// One component of [`lemma_frame_near`].
proof fn lemma_near_part(z: int, y: int, g: int, m: int, k: int)
    requires
        m >= 1,
        m * z == k * y + g,
        mag(y) <= ONE + 4,
        0x100_0000 * mag(g) <= 0x300_0001 * m,
        0xa00000000 * k <= 0xa00000088 * m,
        0xa00000000 * k >= 0x9ffffff78 * m,
    ensures
        mag(z - y) <= 16,
{
    let d = z - y;
    let c = k - m;
    lemma_distribute2(z, y, m);
    lemma_distribute2(k, m, y);
    assert(m * d == c * y + g);
    lemma_mul_bound(c, y, mag(c), ONE + 4);
    lemma_mul_bound(m, d, m, mag(d));
    let (yd, yc, yg) = (mag(d), mag(c), mag(g));
    assert(yd <= 16) by (nonlinear_arith)
        requires
            m >= 1,
            yd >= 0,
            m * yd <= yc * 0x1_0000_0004 + yg,
            0xa00000000 * yc <= 136 * m,
            0x100_0000 * yg <= 0x300_0001 * m,
    ;
}

/// What a composition is made of. With `p` the exact product, `f` the
/// scale and `n` the norm that the rounded product was divided by, the
/// composition times `n` is `f` times `p`, and in each component at most
/// `n` and one part in 2^28 of it; `n` is `f` times one within 13 units.
pub proof fn lemma_composed_frame(a: Quat, b: Quat)
    requires
        a.is_unit(),
        b.is_unit(),
    ensures
        ({
            let p = a.mul(b);
            let r = p.rounded(ONE as int);
            let f = scale_factor(r.max_mag());
            let n = r.times(f).norm_floor();
            let e = composed(a, b).times(n).minus(p.times(f));
            &&& f >= 1 && n >= 1
            &&& n >= f * (ONE - 13)
            &&& 0x1000_0000 * (2 * mag(e.w)) <= 0x1000_0001 * (2 * n)
            &&& 0x1000_0000 * (2 * mag(e.i)) <= 0x1000_0001 * (2 * n)
            &&& 0x1000_0000 * (2 * mag(e.j)) <= 0x1000_0001 * (2 * n)
            &&& 0x1000_0000 * (2 * mag(e.k)) <= 0x1000_0001 * (2 * n)
            &&& composed(a, b).is_unit()
            &&& composed(a, b).is_unit_within(3)
        }),
{
    let one = ONE as int;
    let p = a.mul(b);
    let r = p.rounded(one);
    let f = scale_factor(r.max_mag());
    let u = r.times(f);
    let n = u.norm_floor();
    let c = composed(a, b);
    lemma_unit_product(a, b);
    lemma_unit_product_near(a, b);
    lemma_scaled(r);
    lemma_norm_floor(u);
    lemma_norm_sq_times(r, f);
    lemma_monomial_square(f, one - 12);
    assert(n >= f * (one - 13) && n >= 1) by (nonlinear_arith)
        requires
            f >= 1,
            n >= 0,
            u.norm_sq() < (n + 1) * (n + 1),
            u.norm_sq() == (f * f) * r.norm_sq(),
            r.norm_sq() >= (one - 12) * (one - 12),
            (f * (one - 12)) * (f * (one - 12)) == (f * f) * ((one - 12) * (one - 12)),
            one == 0x1_0000_0000,
    ;
    lemma_round_div_error(p.w, one);
    lemma_round_div_error(p.i, one);
    lemma_round_div_error(p.j, one);
    lemma_round_div_error(p.k, one);
    lemma_round_div_error(one * u.w, n);
    lemma_round_div_error(one * u.i, n);
    lemma_round_div_error(one * u.j, n);
    lemma_round_div_error(one * u.k, n);
    lemma_frame_part(c.w, r.w, p.w, f, n);
    lemma_frame_part(c.i, r.i, p.i, f, n);
    lemma_frame_part(c.j, r.j, p.j, f, n);
    lemma_frame_part(c.k, r.k, p.k, f, n);
}

/// One component of [`lemma_composed_frame`].
proof fn lemma_frame_part(c: int, r: int, p: int, f: int, n: int)
    requires
        f >= 1,
        n >= f * (ONE - 13),
        2 * mag(r * ONE - p) <= ONE,
        2 * mag(c * n - ONE * (f * r)) <= n,
    ensures
        0x1000_0000 * (2 * mag(n * c - f * p)) <= 0x1000_0001 * (2 * n),
{
    let one = ONE as int;
    let e1 = r * one - p;
    let e2 = c * n - one * (f * r);
    lemma_distribute2(r * one, p, f);
    lemma_mul_permute(f, r, one);
    lemma_mul_regroup(n, c, 1);
    assert(n * c - f * p == e2 + f * e1);
    lemma_mul_bound(f, e1, f, mag(e1));
    let (y, y1, y2) = (mag(n * c - f * p), mag(e1), mag(e2));
    assert(0x1000_0000 * (2 * y) <= 0x1000_0001 * (2 * n)) by (nonlinear_arith)
        requires
            y <= y2 + f * y1,
            2 * y1 <= 0x1_0000_0000,
            2 * y2 <= n,
            f >= 1,
            n >= f * 0xffff_fff3,
    ;
}

/// The rounded product of two unit quaternions has its norm between
/// `1 - 12` and `1 + 12` units, so that normalizing it moves no component
/// by more than thirteen; normalized, its norm is within 3 units of one.
pub proof fn lemma_unit_product_near(a: Quat, b: Quat)
    requires
        a.is_unit(),
        b.is_unit(),
    ensures
        a.mul(b).rounded(ONE as int).is_unit_within(12),
        composed(a, b).minus(a.mul(b).rounded(ONE as int)).within(13),
        composed(a, b).is_unit(),
        composed(a, b).is_unit_within(3),
{
    let s = ONE as int;
    let p = a.mul(b);
    let r = p.rounded(s);
    let h = ONE_SQ + 0x9_0000_0000;
    let l = ONE_SQ - 0x9_0000_0000;
    lemma_unit_product(a, b);
    lemma_norm_sq_mul(a, b);
    let (na, nb) = (a.norm_sq(), b.norm_sq());
    assert(l * l <= na * nb <= h * h) by (nonlinear_arith)
        requires
            0 < l <= na <= h,
            l <= nb <= h,
    ;
    lemma_round_div_error(p.w, s);
    lemma_round_div_error(p.i, s);
    lemma_round_div_error(p.j, s);
    lemma_round_div_error(p.k, s);
    lemma_rounded_square(p.w, r.w, s, h);
    lemma_rounded_square(p.i, r.i, s, h);
    lemma_rounded_square(p.j, r.j, s, h);
    lemma_rounded_square(p.k, r.k, s, h);
    lemma_distribute4(r.w * r.w, r.i * r.i, r.j * r.j, r.k * r.k, s * s);
    let x = r.norm_sq();
    let ss = s * s;
    assert(ss == 0x1_0000_0000_0000_0000 && h * s ==
        0x1_0000_0009_0000_0000_0000_0000) by (nonlinear_arith)
        requires
            ss == s * s,
            s == 0x1_0000_0000,
            h == 0x1_0000_0009_0000_0000,
    ;
    let lo = (s - 12) * (s - 12);
    let hi = (s + 12) * (s + 12);
    assert(lo * ss <= l * l - 4 * 0x1_0000_0009_0000_0000_0000_0000 && h * h + 4
        * 0x1_0000_0009_0000_0000_0000_0000 + 4 * ss <= hi * ss) by (nonlinear_arith)
        requires
            lo == (s - 12) * (s - 12),
            hi == (s + 12) * (s + 12),
            ss == 0x1_0000_0000_0000_0000,
            s == 0x1_0000_0000,
            l == 0xffff_fff7_0000_0000,
            h == 0x1_0000_0009_0000_0000,
    ;
    assert(lo <= x <= hi) by (nonlinear_arith)
        requires
            ss > 0,
            lo * ss <= ss * x <= hi * ss,
    ;
    lemma_stretched_near(r, 12);
    lemma_stretched_unit(r);
}

/// The rounded product of two unit quaternions is not zero and barely
/// exceeds one.
pub proof fn lemma_unit_product(a: Quat, b: Quat)
    requires
        a.is_unit(),
        b.is_unit(),
    ensures
        !a.mul(b).rounded(ONE as int).is_zero(),
        a.mul(b).rounded(ONE as int).within(ONE + 9),
        a.mul(b).within(0x1_0000_0009_0000_0000),
{
    let p = a.mul(b);
    let r = p.rounded(ONE as int);
    let na = a.norm_sq();
    let nb = b.norm_sq();
    let lo = ONE_SQ - 0x9_0000_0000;
    let hi = ONE_SQ + 0x9_0000_0000;
    lemma_norm_sq_mul(a, b);
    assert(lo * lo <= na * nb <= hi * hi) by (nonlinear_arith)
        requires
            0 < lo <= na <= hi,
            lo <= nb <= hi,
    ;
    let (pw, pi, pj, pk) = (p.w, p.i, p.j, p.k);
    assert(pw * pw >= 0 && pi * pi >= 0 && pj * pj >= 0 && pk * pk >= 0) by (nonlinear_arith);
    assert(mag(pw) <= hi) by (nonlinear_arith)
        requires
            pw * pw <= hi * hi,
            hi > 0,
    ;
    assert(mag(pi) <= hi) by (nonlinear_arith)
        requires
            pi * pi <= hi * hi,
            hi > 0,
    ;
    assert(mag(pj) <= hi) by (nonlinear_arith)
        requires
            pj * pj <= hi * hi,
            hi > 0,
    ;
    assert(mag(pk) <= hi) by (nonlinear_arith)
        requires
            pk * pk <= hi * hi,
            hi > 0,
    ;
    let s = ONE as int;
    assert((s + 9) * s == hi) by (nonlinear_arith)
        requires
            s == 0x1_0000_0000,
            hi == 0x1_0000_0009_0000_0000,
    ;
    lemma_round_div_bound(pw, s, s + 9);
    lemma_round_div_bound(pi, s, s + 9);
    lemma_round_div_bound(pj, s, s + 9);
    lemma_round_div_bound(pk, s, s + 9);
    if r.is_zero() {
        lemma_round_div_error(pw, s);
        lemma_round_div_error(pi, s);
        lemma_round_div_error(pj, s);
        lemma_round_div_error(pk, s);
        assert(0 * s == 0);
        assert(4 * (pw * pw) <= s * s && 4 * (pi * pi) <= s * s && 4 * (pj * pj) <= s * s && 4 * (
            pk * pk
        ) <= s * s) by (nonlinear_arith)
            requires
                2 * mag(pw) <= s,
                2 * mag(pi) <= s,
                2 * mag(pj) <= s,
                2 * mag(pk) <= s,
        ;
        assert(s * s < lo * lo) by (nonlinear_arith)
            requires
                s == 0x1_0000_0000,
                lo == 0xffff_fff7_0000_0000,
        ;
        assert(false);
    }
}

/// One component of [`lemma_unit_product_near`]: the square of a rounded
/// quotient `r` of `p` by `s`, times the square of `s`, is the square of `p`
/// up to the rounding.
proof fn lemma_rounded_square(p: int, r: int, s: int, h: int)
    requires
        s > 0,
        mag(p) <= h,
        2 * mag(r * s - p) <= s,
    ensures
        (s * s) * (r * r) >= p * p - h * s,
        (s * s) * (r * r) <= p * p + h * s + s * s,
{
    let e = r * s - p;
    lemma_monomial_square(r, s);
    lemma_mul_regroup(r * r, s * s, 1);
    assert((r * s) * (r * s) == p * p + 2 * (p * e) + e * e) by (nonlinear_arith)
        requires
            e == r * s - p,
    ;
    lemma_mul_bound(p, e, h, mag(e));
    assert(2 * (h * mag(e)) <= h * s) by (nonlinear_arith)
        requires
            h >= 0,
            2 * mag(e) <= s,
    ;
    assert(0 <= e * e <= s * s) by (nonlinear_arith)
        requires
            2 * mag(e) <= s,
    ;
}

/// What is rounded in [`rotated`], before it is divided by the square of
/// one: the square of one times `v`, and `w t + u x t` with `u` the
/// imaginary part of `q` and `t = 2 u x v`.
pub open spec fn rotation_numerator(q: Quat, v: Vec3) -> Vec3 {
    let u = q.imag();
    let t = u.cross(v).times(2);
    let c = u.cross(t);
    Vec3 {
        x: ONE_SQ * v.x + (q.w * t.x + c.x),
        y: ONE_SQ * v.y + (q.w * t.y + c.y),
        z: ONE_SQ * v.z + (q.w * t.z + c.z),
    }
}

/// A rotation keeps the length of a vector, but for what the quaternion
/// lacks of a unit: before rounding, the squared length of what the vector
/// is taken to is that of the vector, and four times the squared length of
/// the vector product of the imaginary part with the vector for each unit
/// that the squared norm of the quaternion is off one.
pub proof fn lemma_rotation_keeps_length(q: Quat, v: Vec3)
    ensures
        rotation_numerator(q, v).dot(rotation_numerator(q, v)) == (ONE_SQ * ONE_SQ) * v.dot(v) + 4
            * (q.imag().cross(v).dot(q.imag().cross(v)) * (q.norm_sq() - ONE_SQ)),
{
    let s = ONE_SQ as int;
    let w = q.w;
    let u = q.imag();
    let c = u.cross(v);
    let e = u.cross(c);
    let r = rotation_numerator(q, v);
    let b = 2 * w;
    // The three parts of each component: s v, 2 w c and 2 u x c.
    lemma_mul_permute(w, 2, c.x);
    lemma_mul_permute(w, 2, c.y);
    lemma_mul_permute(w, 2, c.z);
    lemma_mul_permute(u.x, 2, c.y);
    lemma_mul_permute(u.x, 2, c.z);
    lemma_mul_permute(u.y, 2, c.x);
    lemma_mul_permute(u.y, 2, c.z);
    lemma_mul_permute(u.z, 2, c.x);
    lemma_mul_permute(u.z, 2, c.y);
    assert(r.x == s * v.x + b * c.x + 2 * e.x);
    assert(r.y == s * v.y + b * c.y + 2 * e.y);
    assert(r.z == s * v.z + b * c.z + 2 * e.z);
    lemma_combination_square(s, v.x, b, c.x, e.x);
    lemma_combination_square(s, v.y, b, c.y, e.y);
    lemma_combination_square(s, v.z, b, c.z, e.z);
    lemma_distribute3(v.x * v.x, v.y * v.y, v.z * v.z, s * s);
    lemma_distribute3(c.x * c.x, c.y * c.y, c.z * c.z, b * b);
    lemma_distribute3(v.x * c.x, v.y * c.y, v.z * c.z, s * b);
    lemma_distribute3(v.x * e.x, v.y * e.y, v.z * e.z, s * 2);
    lemma_distribute3(c.x * e.x, c.y * e.y, c.z * e.z, b * 2);
    let vv = v.dot(v);
    let cc = c.dot(c);
    let ee = e.dot(e);
    assert(r.dot(r) == (s * s) * vv + (b * b) * cc + 4 * ee + 2 * ((s * b) * v.dot(c)) + 2 * ((s
        * 2) * v.dot(e)) + 2 * ((b * 2) * c.dot(e)));
    // The vector product is orthogonal to its factors, so that the mixed
    // terms vanish but one, which is minus its squared length.
    lemma_cross_orthogonal(u, v);
    lemma_cross_orthogonal(u, c);
    lemma_triple_swap(v, u, c);
    lemma_lagrange(u, c);
    assert(v.dot(c) == 0 && c.dot(e) == 0 && u.dot(c) == 0 && v.dot(e) == -cc);
    assert(0 * 0 == 0);
    assert((s * b) * 0 == 0 && (b * 2) * 0 == 0);
    assert(ee == u.dot(u) * cc);
    assert(b * b == 4 * (w * w)) by (nonlinear_arith)
        requires
            b == 2 * w,
    ;
    lemma_mul_regroup(4, w * w, cc);
    assert(r.dot(r) == (s * s) * vv + 4 * ((w * w) * cc) + 4 * (u.dot(u) * cc) - 4 * (s * cc));
    lemma_mul_neg(s * 2, cc);
    lemma_mul_regroup(s, 2, cc);
    lemma_mul_regroup(w * w, cc, 1);
    lemma_mul_regroup(u.dot(u), cc, 1);
    lemma_mul_regroup(s, cc, 1);
    lemma_distribute2(w * w + u.dot(u), s, cc);
    lemma_distribute2(w * w, u.dot(u), cc);
    assert(q.norm_sq() == w * w + u.dot(u));
}

/// The square of one component of [`rotation_numerator`], written out.
proof fn lemma_combination_square(s: int, v: int, b: int, c: int, e: int)
    ensures
        (s * v + b * c + 2 * e) * (s * v + b * c + 2 * e) == (s * s) * (v * v) + (b * b) * (c * c)
            + 4 * (e * e) + 2 * ((s * b) * (v * c)) + 2 * ((s * 2) * (v * e)) + 2 * ((b * 2) * (c
            * e)),
{
    lemma_square3(s * v, b * c, 2 * e);
    lemma_monomial_square(s, v);
    lemma_monomial_square(b, c);
    lemma_monomial_square(2, e);
    lemma_monomial_pair(s, v, b, c);
    lemma_monomial_pair(s, v, 2, e);
    lemma_monomial_pair(b, c, 2, e);
    assert((2 * e) * (2 * e) == 4 * (e * e)) by (nonlinear_arith);
}

/// A rotation takes a vector to one with no component larger than twice
/// the largest of the vector, and takes none but the zero vector to zero.
pub proof fn lemma_rotated_within(q: Quat, v: Vec3)
    requires
        q.is_unit(),
    ensures
        rotated(q, v).within(2 * v.max_mag()),
        rotated(q, v).is_zero() ==> v.is_zero(),
{
    let s = ONE_SQ as int;
    let b = v.max_mag();
    let u = q.imag();
    let c = u.cross(v);
    let r = rotation_numerator(q, v);
    let o = rotated(q, v);
    let rr = r.dot(r);
    let vv = v.dot(v);
    let cc = c.dot(c);
    let uu = u.dot(u);
    let d = q.norm_sq() - ONE_SQ;
    lemma_rotation_keeps_length(q, v);
    lemma_lagrange(u, v);
    lemma_dot_self_positive(v);
    lemma_dot_self_positive(u);
    lemma_dot_self_positive(r);
    assert(q.w * q.w >= 0) by (nonlinear_arith);
    // The squared length before rounding is that of the vector, times the
    // fourth power of one, within one part in 2^26.
    assert(0 <= uu <= s + 0x9_0000_0000 && mag(d) <= 0x9_0000_0000);
    let ss = s * s;
    assert(mag(4 * (cc * d)) * 0x400_0000 <= ss * vv) by (nonlinear_arith)
        requires
            0 <= cc <= uu * vv,
            0 <= uu <= s + 0x9_0000_0000,
            mag(d) <= 0x9_0000_0000,
            vv >= 0,
            ss == s * s,
            s == 0x1_0000_0000_0000_0000,
    ;
    lemma_mul_bound(v.x, v.x, b, b);
    lemma_mul_bound(v.y, v.y, b, b);
    lemma_mul_bound(v.z, v.z, b, b);
    assert(r.x * r.x >= 0 && r.y * r.y >= 0 && r.z * r.z >= 0) by (nonlinear_arith);
    let bs = b * s;
    assert(16 * rr <= (7 * bs) * (7 * bs)) by (nonlinear_arith)
        requires
            rr == ss * vv + 4 * (cc * d),
            mag(4 * (cc * d)) * 0x400_0000 <= ss * vv,
            0 <= vv <= 3 * (b * b),
            ss == s * s,
            bs == b * s,
            s > 0,
            b >= 0,
    ;
    lemma_rotated_component(r.x, v.x, o.x, rr, bs, b);
    lemma_rotated_component(r.y, v.y, o.y, rr, bs, b);
    lemma_rotated_component(r.z, v.z, o.z, rr, bs, b);
    if o.is_zero() && !v.is_zero() {
        assert(4 * rr <= 3 * ss) by (nonlinear_arith)
            requires
                rr == r.x * r.x + r.y * r.y + r.z * r.z,
                2 * mag(r.x) <= s,
                2 * mag(r.y) <= s,
                2 * mag(r.z) <= s,
                ss == s * s,
        ;
        assert(false) by (nonlinear_arith)
            requires
                4 * rr <= 3 * ss,
                rr == ss * vv + 4 * (cc * d),
                mag(4 * (cc * d)) * 0x400_0000 <= ss * vv,
                vv >= 1,
                ss == s * s,
                s > 0,
        ;
    }
}

/// One component of [`lemma_rotated_within`]: `r` is the component before
/// rounding, `o` the rounded one.
proof fn lemma_rotated_component(r: int, v: int, o: int, rr: int, bs: int, b: int)
    requires
        b >= 0,
        bs == b * ONE_SQ,
        0 <= r * r <= rr,
        16 * rr <= (7 * bs) * (7 * bs),
        o == v + round_div(r - ONE_SQ * v, ONE_SQ as int),
    ensures
        mag(o) <= 2 * b,
        o == 0 ==> 2 * mag(r) <= ONE_SQ,
{
    let s = ONE_SQ as int;
    let m = r - s * v;
    lemma_round_div_error(m, s);
    let k = round_div(m, s);
    lemma_distribute2(v, k, s);
    lemma_mul_regroup(s, v, 1);
    assert(2 * mag(o * s - r) <= s);
    assert((4 * r) * (4 * r) <= (7 * bs) * (7 * bs)) by (nonlinear_arith)
        requires
            0 <= r * r <= rr,
            16 * rr <= (7 * bs) * (7 * bs),
    ;
    assert(bs >= 0) by (nonlinear_arith)
        requires
            bs == b * s,
            b >= 0,
            s > 0,
    ;
    lemma_below_root(4 * r, 7 * bs);
    lemma_mul_bound(o, s, mag(o), s);
    assert(mag(o) <= 2 * b) by (nonlinear_arith)
        requires
            2 * (mag(o) * s) <= 2 * mag(r) + s,
            4 * mag(r) <= 7 * (b * s),
            b >= 0,
            s == 0x1_0000_0000_0000_0000,
    ;
    if o == 0 {
        assert(0 * s == 0);
    }
}

/// The bounds behind [`UnitQuaternion::rotate`]: with the components of `q`
/// at most `l` and those of `v` at most `b`, every product that the
/// rotation forms is bounded as stated.
#[verifier::rlimit(40)]
proof fn lemma_rotation_bounds(q: Quat, v: Vec3, b: int)
    requires
        q.within(ONE + 4),
        v.within(b),
        0 <= b <= AXIS_LIMIT,
    ensures
        ({
            let u = q.imag();
            let t = u.cross(v).times(2);
            let c = u.cross(t);
            let l = ONE + 4;
            let k = l * (4 * (l * b));
            &&& mag(u.y * v.z) <= l * b && mag(u.z * v.y) <= l * b
            &&& mag(u.z * v.x) <= l * b && mag(u.x * v.z) <= l * b
            &&& mag(u.x * v.y) <= l * b && mag(u.y * v.x) <= l * b
            &&& mag(q.w * t.x) <= k && mag(q.w * t.y) <= k && mag(q.w * t.z) <= k
            &&& mag(u.y * t.z) <= k && mag(u.z * t.y) <= k
            &&& mag(u.z * t.x) <= k && mag(u.x * t.z) <= k
            &&& mag(u.x * t.y) <= k && mag(u.y * t.x) <= k
            &&& 0 <= l * b <= 0x1000_0000_4000_0000_0000
            &&& 0 <= 3 * k <= (13 * b) * ONE_SQ
            &&& 3 * k <= DIV_LIMIT
            &&& rotated(q, v).within(14 * b)
        }),
{
    let u = q.imag();
    let t = u.cross(v).times(2);
    let c = u.cross(t);
    let l = ONE + 4;
    let lb = l * b;
    let k = l * (4 * lb);
    lemma_mul_bound(u.y, v.z, l, b);
    lemma_mul_bound(u.z, v.y, l, b);
    lemma_mul_bound(u.z, v.x, l, b);
    lemma_mul_bound(u.x, v.z, l, b);
    lemma_mul_bound(u.x, v.y, l, b);
    lemma_mul_bound(u.y, v.x, l, b);
    lemma_mul_bound(q.w, t.x, l, 4 * lb);
    lemma_mul_bound(q.w, t.y, l, 4 * lb);
    lemma_mul_bound(q.w, t.z, l, 4 * lb);
    lemma_mul_bound(u.y, t.z, l, 4 * lb);
    lemma_mul_bound(u.z, t.y, l, 4 * lb);
    lemma_mul_bound(u.z, t.x, l, 4 * lb);
    lemma_mul_bound(u.x, t.z, l, 4 * lb);
    lemma_mul_bound(u.x, t.y, l, 4 * lb);
    lemma_mul_bound(u.y, t.x, l, 4 * lb);
    assert(0 <= lb <= 0x1000_0000_4000_0000_0000 && 0 <= 3 * k <= (13 * b)
        * 0x1_0000_0000_0000_0000 && 3 * k <= 0x2000_0000_0000_0000_0000_0000_0000_0000)
        by (nonlinear_arith)
        requires
            lb == l * b,
            k == l * (4 * lb),
            l == 0x1_0000_0004,
            0 <= b <= 0x1000_0000_0000,
    ;
    lemma_round_div_bound(q.w * t.x + c.x, ONE_SQ as int, 13 * b);
    lemma_round_div_bound(q.w * t.y + c.y, ONE_SQ as int, 13 * b);
    lemma_round_div_bound(q.w * t.z + c.z, ONE_SQ as int, 13 * b);
}

} // verus!
