//! The maps between unit quaternions and rotation vectors.
//!
//! The rotation vector of a unit quaternion points along the axis of the
//! rotation and is half the angle of the rotation long.

use vstd::prelude::*;
use crate::algebra::{Quat, Vec3};
use crate::arith::{
    lemma_below_root, lemma_distribute2, lemma_distribute3, lemma_monomial_square, lemma_mul_bound,
    lemma_mul_regroup, mag,
};
use crate::fixed::{
    abs_i64, div_round, isqrt, lemma_round_div_bound, lemma_round_div_error, lemma_round_div_exact,
    lemma_sqrt_floor_bounds, lemma_sqrt_floor_unique, mul_wide, round_div, sqrt_floor, ONE, ONE_SQ,
    SCALE_FLOOR,
};
use crate::normalize::{
    lemma_stretched_real, lemma_stretched_unit, lemma_stretched_within, lemma_unit_within, stretch,
};
use crate::quaternion::{Quaternion, UnitQuaternion};
use crate::scaled::ScaledVector3;
use crate::trig::{
    acos, arc_cosine, cosine, lemma_arc_cosine_passes, lemma_cosine_of_one, lemma_not_both_small,
    lemma_sine_cosine_range, lemma_sine_cosine_unit, lemma_sine_near_pi, sin_cos, sine, PI,
};
use crate::vector::{lemma_dot_self_positive, Vector3};

verus! {

/// Below this magnitude of a sine, 0.005 rounded up to the unit, a quotient
/// by it is not formed.
pub const EPSILON: i64 = 21_474_837;

/// No rotation vector of a unit quaternion is longer than this: pi.
pub const LOG_LIMIT: i64 = 13493037705;

/// The largest magnitude of an angle that a rotation can be made from, 2^60.
pub const ANGLE_LIMIT: i64 = 0x1000_0000_0000_0000;

/// Every component of `v` times `num / den`, rounded once.
pub open spec fn scaled_by_ratio(v: Vec3, num: int, den: int) -> Vec3 {
    Vec3 {
        x: round_div(v.x * num, den),
        y: round_div(v.y * num, den),
        z: round_div(v.z * num, den),
    }
}

/// The rotation vector of `q`. With `a` the arc cosine of the real part and
/// `s` the sine of `a`, it is the imaginary part times `a / s`; where the
/// real part is one or more in magnitude, or `s` is below [`EPSILON`], it is
/// the imaginary part as it stands.
pub open spec fn log_of(q: Quat) -> Vec3 {
    let v = q.imag();
    if mag(q.w) < ONE {
        let a = arc_cosine(q.w);
        let s = sine(a);
        if mag(s) >= EPSILON {
            scaled_by_ratio(v, a, s)
        } else {
            v
        }
    } else {
        v
    }
}

/// Whether the imaginary part of `q` is scaled in its rotation vector: the
/// real part is below one in magnitude, and the sine of its arc cosine is
/// at least [`EPSILON`].
pub open spec fn log_scales(q: Quat) -> bool {
    mag(q.w) < ONE && mag(sine(arc_cosine(q.w))) >= EPSILON
}

/// The rotation vector of `q` is as long as the arc cosine of the real part
/// of `q`, half the angle of the rotation. With `a` that arc cosine and `s`
/// its sine, the squared length differs from the square of `a` by `2 a + 1`
/// at most for the rounding of the three components, and by the square of
/// `a / s` times nine units, for the rounding of sine and arc cosine, and
/// times what the squared norm of `q` lacks of one.
pub open spec fn log_length_is_half_angle(q: Quat) -> bool {
    let a = arc_cosine(q.w);
    let s = sine(a);
    let r = log_of(q);
    (s * s) * mag(r.dot(r) - a * a) <= (a * a) * (9 * ONE + q.defect()) + (s * s) * (2 * a + 1)
}

/// The length of the four-vector `(1, v)`, rounded down.
pub open spec fn exp_angle(v: Vec3) -> int {
    sqrt_floor((ONE_SQ + v.dot(v)) as nat) as int
}

/// The quaternion of the rotation vector `v`, before it is normalized. With
/// `a` the length of the four-vector `(1, v)` and `s` the sine of `a`, its
/// real part is the cosine of `a` and its imaginary part is `v` times
/// `s / a`; where `s` is below [`EPSILON`] the imaginary part is `v` as it
/// stands.
pub open spec fn exp_direction(v: Vec3) -> Quat {
    let a = exp_angle(v);
    let s = sine(a);
    let u = if mag(s) >= EPSILON {
        scaled_by_ratio(v, s, a)
    } else {
        v
    };
    u.with_real(cosine(a))
}

/// The unit quaternion of the rotation vector `v`.
pub open spec fn exp_of(v: Vec3) -> Quat {
    exp_direction(v).stretched(ONE as int)
}

/// The rotation vector that stands for `angle` about `axis`: twice `angle`
/// long, in the direction of `axis`.
pub open spec fn angle_axis_vector(angle: int, axis: Vec3) -> Vec3 {
    axis.with_real(0).stretched(2 * angle).imag()
}

/// The rotation vector of a unit quaternion.
pub fn quaternion_log(q: UnitQuaternion) -> (r: Vector3)
    requires
        q.wf(),
    ensures
        r@ == log_of(q@),
        r@.within(LOG_LIMIT as int),
        r@.norm_floor() <= LOG_LIMIT,
        log_scales(q@) ==> log_length_is_half_angle(q@),
{
    proof {
        lemma_unit_within(q@);
        lemma_log_range(q@);
        if log_scales(q@) {
            lemma_log_norm(q@);
        }
    }
    let v = Vector3 { x: q.i, y: q.j, z: q.k };
    if abs_i64(q.w) < ONE {
        let a = acos(q.w);
        let (s, _) = sin_cos(a);
        if abs_i64(s) >= EPSILON {
            proof {
                let l = ONE + 4;
                lemma_mul_bound(q@.i, a as int, l, PI as int);
                lemma_mul_bound(q@.j, a as int, l, PI as int);
                lemma_mul_bound(q@.k, a as int, l, PI as int);
                assert(l * PI <= 0x1_0000_0000_0000_0000_0000) by (nonlinear_arith)
                    requires
                        l == 0x1_0000_0004,
                        PI == 13493037705,
                ;
            }
            let den: i128 = s as i128;
            return Vector3 {
                x: div_round(mul_wide(q.i, a), den) as i64,
                y: div_round(mul_wide(q.j, a), den) as i64,
                z: div_round(mul_wide(q.k, a), den) as i64,
            };
        }
    }
    v
}

/// The unit quaternion of a rotation vector.
pub fn quaternion_exp(v: Vector3) -> (r: UnitQuaternion)
    requires
        v@.within(SCALE_FLOOR as int),
    ensures
        r@ == exp_of(v@),
        r.wf(),
{
    proof {
        lemma_exp_direction_nonzero(v@);
        lemma_dot_self_positive(v@);
        let lim = SCALE_FLOOR as int;
        lemma_mul_bound(v@.x, v@.x, lim, lim);
        lemma_mul_bound(v@.y, v@.y, lim, lim);
        lemma_mul_bound(v@.z, v@.z, lim, lim);
        assert(lim * lim == 0x400_0000_0000_0000_0000_0000_0000_0000) by (nonlinear_arith)
            requires
                lim == 0x2000_0000_0000_0000,
        ;
    }
    let nsq: i128 = ONE_SQ + mul_wide(v.x, v.x) + mul_wide(v.y, v.y) + mul_wide(v.z, v.z);
    let a: i64 = isqrt(nsq as u128) as i64;
    let (s, c) = sin_cos(a);
    let u = if abs_i64(s) >= EPSILON {
        proof {
            lemma_mul_bound(v@.x, s as int, a as int, ONE as int);
            lemma_mul_bound(v@.y, s as int, a as int, ONE as int);
            lemma_mul_bound(v@.z, s as int, a as int, ONE as int);
            assert(a * ONE <= 0x8000_0000_0000_0000 * 0x1_0000_0000) by (nonlinear_arith)
                requires
                    0 <= a < 0x8000_0000_0000_0000,
                    ONE == 0x1_0000_0000,
            ;
        }
        let den: i128 = a as i128;
        Vector3 {
            x: div_round(mul_wide(v.x, s), den) as i64,
            y: div_round(mul_wide(v.y, s), den) as i64,
            z: div_round(mul_wide(v.z, s), den) as i64,
        }
    } else {
        v
    };
    let n = stretch(Quaternion { w: c, i: u.x, j: u.y, k: u.z }, ONE);
    proof {
        lemma_stretched_unit(exp_direction(v@));
    }
    UnitQuaternion { w: n.w, i: n.i, j: n.j, k: n.k }
}

/// The rotation by `angle` about `axis`: the unit quaternion of the
/// rotation vector that is twice `angle` long and points along `axis`.
pub fn quaternion_from_angleaxis(angle: i64, axis: ScaledVector3) -> (r: UnitQuaternion)
    requires
        axis.wf(),
        !axis@.digits.is_zero(),
        mag(angle as int) <= ANGLE_LIMIT,
    ensures
        r@ == exp_of(angle_axis_vector(angle as int, axis@.axis())),
        r.wf(),
{
    let d = axis.axis();
    proof {
        lemma_stretched_within(d@.with_real(0), 2 * angle);
    }
    let n = stretch(Quaternion { w: 0, i: d.x, j: d.y, k: d.z }, 2 * angle);
    quaternion_exp(Vector3 { x: n.i, y: n.j, z: n.k })
}

/// Where the imaginary part is scaled, the rotation vector is as long as
/// the arc cosine of the real part, half the angle of the rotation.
pub proof fn lemma_log_norm(q: Quat)
    requires
        q.is_unit(),
        log_scales(q),
    ensures
        log_length_is_half_angle(q),
{
    let v = q.imag();
    let a = arc_cosine(q.w);
    let s = sine(a);
    let r = log_of(q);
    let ss = s * s;
    let aa = a * a;
    let t = mag(s);
    lemma_arc_cosine_passes(q.w);
    lemma_imaginary_is_sine(q);
    lemma_round_div_error(v.x * a, s);
    lemma_round_div_error(v.y * a, s);
    lemma_round_div_error(v.z * a, s);
    let ex = r.x * s - v.x * a;
    let ey = r.y * s - v.y * a;
    let ez = r.z * s - v.z * a;
    lemma_scaled_component(v.x, a, s, r.x, ex);
    lemma_scaled_component(v.y, a, s, r.y, ey);
    lemma_scaled_component(v.z, a, s, r.z, ez);
    lemma_distribute3(r.x * r.x, r.y * r.y, r.z * r.z, ss);
    lemma_distribute3(v.x * v.x, v.y * v.y, v.z * v.z, aa);
    // The three components are no longer in all than twice the sine.
    let sum = mag(v.x) + mag(v.y) + mag(v.z);
    assert(sum * sum <= 3 * (v.x * v.x + v.y * v.y + v.z * v.z)) by (nonlinear_arith)
        requires
            sum == mag(v.x) + mag(v.y) + mag(v.z),
    ;
    assert(ss == t * t && ss >= 54 * ONE) by (nonlinear_arith)
        requires
            ss == s * s,
            t == mag(s),
            t >= 21_474_836,
            ONE == 0x1_0000_0000,
    ;
    assert(sum <= 2 * t) by (nonlinear_arith)
        requires
            sum >= 0,
            t >= 0,
            sum * sum <= 4 * (t * t),
    ;
    lemma_distribute3(mag(v.x), mag(v.y), mag(v.z), a * t);
    assert(sum * (a * t) <= 2 * (a * ss)) by (nonlinear_arith)
        requires
            0 <= sum <= 2 * t,
            a >= 0,
            t >= 0,
            ss == t * t,
    ;
    // What is left is the difference of the lengths, times the square of a.
    let x = r.dot(r);
    let n = v.dot(v);
    let cross = 2 * ((v.x * a) * ex) + 2 * ((v.y * a) * ey) + 2 * ((v.z * a) * ez);
    let errors = ex * ex + ey * ey + ez * ez;
    assert(x * ss == n * aa + cross + errors);
    assert(mag(cross) <= 2 * (a * ss));
    assert(0 <= errors <= ss);
    lemma_log_norm_bound(a, aa, ss, x, n, cross, errors, 9 * ONE + q.defect());
}

/// No rotation vector of a unit quaternion is longer than [`LOG_LIMIT`].
pub proof fn lemma_log_range(q: Quat)
    requires
        q.is_unit(),
    ensures
        log_of(q).dot(log_of(q)) <= LOG_LIMIT * LOG_LIMIT,
        log_of(q).within(LOG_LIMIT as int),
        0 <= log_of(q).norm_floor() <= LOG_LIMIT,
{
    let lim = LOG_LIMIT as int;
    let top = lim * lim;
    let r = log_of(q);
    let x = r.dot(r);
    let a = arc_cosine(q.w);
    let s = sine(a);
    assert(top == 182062066508551667025) by (nonlinear_arith)
        requires
            top == lim * lim,
            lim == 13493037705,
    ;
    lemma_dot_self_positive(r);
    if mag(q.w) >= ONE {
        // What the real part leaves of a unit is next to nothing.
        assert(q.w * q.w >= ONE_SQ) by (nonlinear_arith)
            requires
                mag(q.w) >= 0x1_0000_0000,
        ;
    } else if mag(s) < EPSILON {
        // The imaginary part is as long as the sine, which is short.
        lemma_imaginary_is_sine(q);
        assert(s * s <= 21_474_836 * 21_474_836) by (nonlinear_arith)
            requires
                mag(s) <= 21_474_836,
        ;
    } else {
        lemma_log_norm(q);
        lemma_arc_cosine_passes(q.w);
        lemma_sine_cosine_range(a);
        if a >= 10119778279 {
            // Next to the half turn the sine is at most what is left of it.
            lemma_sine_near_pi(a);
            lemma_log_range_high(a, s, x, q.defect());
        } else {
            lemma_log_range_low(a, s, x, q.defect());
        }
    }
    assert(r.x * r.x >= 0 && r.y * r.y >= 0 && r.z * r.z >= 0) by (nonlinear_arith);
    lemma_below_root(r.x, lim);
    lemma_below_root(r.y, lim);
    lemma_below_root(r.z, lim);
    lemma_sqrt_floor_bounds(x as nat);
    lemma_below_root(r.norm_floor(), lim);
}

/// The arithmetic of [`lemma_log_range`] next to the half turn, where the
/// arc cosine `a` is at most pi less the sine `s`.
proof fn lemma_log_range_high(a: int, s: int, x: int, g: int)
    requires
        21_474_836 <= s <= ONE,
        0 <= a <= PI - s,
        0 <= g <= 9 * ONE,
        (s * s) * mag(x - a * a) <= (a * a) * (9 * ONE + g) + (s * s) * (2 * a + 1),
    ensures
        x <= 182062066508551667025,
{
    let pi = PI as int;
    let ss = s * s;
    let aa = a * a;
    let top = 182062066508551667025int;
    assert(ss >= 1 && 0 <= aa <= top && aa + 2 * a + 1 <= (pi - s + 1) * (pi - s + 1))
        by (nonlinear_arith)
        requires
            ss == s * s,
            aa == a * a,
            s >= 21_474_836,
            0 <= a <= pi - s,
            pi == 13493037705,
            top == 182062066508551667025,
    ;
    assert(top - (pi - s + 1) * (pi - s + 1) >= (s - 1) * pi && 0 <= (pi - s + 1) * (pi - s + 1)
        <= top) by (nonlinear_arith)
        requires
            pi == 13493037705,
            top == 182062066508551667025,
            1 <= s <= 0x1_0000_0000,
    ;
    assert(ss * ((s - 1) * pi) >= top * (18 * 0x1_0000_0000)) by (nonlinear_arith)
        requires
            ss == s * s,
            s >= 21_474_836,
            pi == 13493037705,
            top == 182062066508551667025,
    ;
    let m = (pi - s + 1) * (pi - s + 1);
    assert(ss * (top - m) >= m * (18 * ONE)) by (nonlinear_arith)
        requires
            ss >= 1,
            top - m >= (s - 1) * pi,
            ss * ((s - 1) * pi) >= top * (18 * 0x1_0000_0000),
            0 <= m <= top,
            ONE == 0x1_0000_0000,
    ;
    lemma_log_range_close(aa, ss, x, 2 * a + 1, 9 * ONE + g, top, m);
}

/// The arithmetic of [`lemma_log_range`] away from the half turn.
proof fn lemma_log_range_low(a: int, s: int, x: int, g: int)
    requires
        mag(s) >= 21_474_836,
        0 <= a < 10119778279,
        0 <= g <= 9 * ONE,
        (s * s) * mag(x - a * a) <= (a * a) * (9 * ONE + g) + (s * s) * (2 * a + 1),
    ensures
        x <= 182062066508551667025,
{
    let ss = s * s;
    let aa = a * a;
    let top = 182062066508551667025int;
    assert(ss >= 21_474_836 * 21_474_836 && 0 <= aa && aa + 2 * a + 1 <= 10119778279
        * 10119778279) by (nonlinear_arith)
        requires
            ss == s * s,
            aa == a * a,
            mag(s) >= 21_474_836,
            0 <= a < 10119778279,
    ;
    assert(ss * (top - 10119778279 * 10119778279) >= (10119778279 * 10119778279) * (18
        * 0x1_0000_0000)) by (nonlinear_arith)
        requires
            ss >= 21_474_836 * 21_474_836,
            top == 182062066508551667025,
    ;
    let m = 102409912416120201841int;
    assert(m == 10119778279 * 10119778279) by (nonlinear_arith)
        requires
            m == 102409912416120201841,
    ;
    assert(ss * (top - m) >= m * (18 * ONE));
    lemma_log_range_close(aa, ss, x, 2 * a + 1, 9 * ONE + g, top, m);
}

/// The step that ends both: from the bound of the squared length times the
/// square of the sine, to that of the squared length.
proof fn lemma_log_range_close(aa: int, ss: int, x: int, b: int, g: int, top: int, m: int)
    requires
        ss >= 1,
        0 <= aa <= m,
        aa + b <= m,
        0 <= g <= 18 * ONE,
        b >= 0,
        ss * mag(x - aa) <= aa * g + ss * b,
        ss * (top - m) >= m * (18 * ONE),
    ensures
        x <= top,
{
    lemma_mul_bound(x - aa, ss, mag(x - aa), ss);
    lemma_mul_regroup(ss, mag(x - aa), 1);
    assert(x <= top) by (nonlinear_arith)
        requires
            ss >= 1,
            0 <= aa <= m,
            aa + b <= m,
            0 <= g <= 18 * 0x1_0000_0000,
            mag(x - aa) * ss <= aa * g + ss * b,
            ss * (top - m) >= m * (18 * 0x1_0000_0000),
    ;
}

/// The imaginary part of a unit quaternion is as long as the sine of the
/// arc cosine of its real part: the squares differ by nine units at most,
/// for the rounding of sine and arc cosine, and by what the squared norm of
/// the quaternion lacks of one.
pub proof fn lemma_imaginary_is_sine(q: Quat)
    requires
        q.is_unit(),
        mag(q.w) < ONE,
    ensures
        mag(q.imag().dot(q.imag()) - sine(arc_cosine(q.w)) * sine(arc_cosine(q.w))) <= 9 * ONE
            + q.defect(),
{
    let w = q.w;
    let a = arc_cosine(w);
    let c = cosine(a);
    lemma_arc_cosine_passes(w);
    lemma_sine_cosine_unit(a);
    lemma_sine_cosine_range(a);
    assert(mag(c * c - w * w) <= 6 * ONE) by (nonlinear_arith)
        requires
            0 <= c - w <= 3,
            mag(c) <= ONE,
            mag(w) <= ONE,
            ONE == 0x1_0000_0000,
    ;
}

/// At the identity the two maps undo each other: the zero vector gives the
/// identity, and the identity the zero vector.
pub proof fn lemma_exp_log_at_identity()
    ensures
        exp_of(Vec3 { x: 0, y: 0, z: 0 }) == Quat::identity(),
        log_of(Quat::identity()) == (Vec3 { x: 0, y: 0, z: 0 }),
        exp_of(log_of(Quat::identity())) == Quat::identity(),
        log_of(exp_of(Vec3 { x: 0, y: 0, z: 0 })) == (Vec3 { x: 0, y: 0, z: 0 }),
{
    let z = Vec3 { x: 0, y: 0, z: 0 };
    let one = ONE as int;
    assert(z.dot(z) == 0) by (nonlinear_arith)
        requires
            z.dot(z) == 0 * 0 + 0 * 0 + 0 * 0,
    ;
    assert(one * one <= ONE_SQ < (one + 1) * (one + 1)) by (nonlinear_arith)
        requires
            one == 0x1_0000_0000,
            ONE_SQ == 0x1_0000_0000_0000_0000,
    ;
    lemma_sqrt_floor_unique(ONE_SQ as nat, one as nat);
    assert(exp_angle(z) == one);
    let s = sine(one);
    let c = cosine(one);
    lemma_cosine_of_one();
    lemma_sine_cosine_range(one);
    assert(0 * s == 0);
    lemma_round_div_exact(0, one);
    assert(0 * one == 0);
    assert(exp_direction(z) == (Quat { w: c, i: 0, j: 0, k: 0 }));
    lemma_stretched_real(c, one);
}

/// A unit quaternion without imaginary part has the zero vector for its
/// rotation vector, and that gives the identity: the quaternion itself,
/// within five units, where its real part is positive, and its negation
/// where not.
pub proof fn lemma_exp_log_without_rotation(q: Quat)
    requires
        q.is_unit(),
        q.imag().is_zero(),
    ensures
        log_of(q).is_zero(),
        exp_of(log_of(q)) == Quat::identity(),
        q.w > 0 ==> exp_of(log_of(q)).minus(q).within(5),
        q.w < 0 ==> exp_of(log_of(q)).minus(q.neg()).within(5),
{
    let a = arc_cosine(q.w);
    let s = sine(a);
    lemma_exp_log_at_identity();
    assert(0 * a == 0);
    if s != 0 {
        lemma_round_div_exact(0, s);
        assert(0 * s == 0);
    }
    assert(log_of(q) == (Vec3 { x: 0, y: 0, z: 0 }));
    // The real part is one, within five units.
    lemma_unit_within(q);
    assert(0 * 0 == 0);
    assert(mag(q.w) >= ONE - 5) by (nonlinear_arith)
        requires
            q.w * q.w >= 0x1_0000_0000_0000_0000 - 0x9_0000_0000,
            ONE == 0x1_0000_0000,
    ;
}

/// The quaternion to normalize in [`quaternion_exp`] is never zero: where
/// its real part, a cosine, vanishes, the sine is large and the angle not
/// one radian, so that the imaginary part does not round to zero.
pub proof fn lemma_exp_direction_nonzero(v: Vec3)
    requires
        v.within(SCALE_FLOOR as int),
    ensures
        !exp_direction(v).is_zero(),
        exp_direction(v).within(SCALE_FLOOR as int),
        ONE <= exp_angle(v) < 0x8000_0000_0000_0000,
        v.within(exp_angle(v)),
{
    let a = exp_angle(v);
    let s = sine(a);
    let c = cosine(a);
    let n = ONE_SQ + v.dot(v);
    let lim = SCALE_FLOOR as int;
    lemma_dot_self_positive(v);
    lemma_sqrt_floor_bounds(n as nat);
    assert(v.x * v.x <= lim * lim && v.y * v.y <= lim * lim && v.z * v.z <= lim * lim)
        by (nonlinear_arith)
        requires
            mag(v.x) <= lim,
            mag(v.y) <= lim,
            mag(v.z) <= lim,
    ;
    assert(v.x * v.x >= 0 && v.y * v.y >= 0 && v.z * v.z >= 0) by (nonlinear_arith);
    assert(lim * lim == 0x400_0000_0000_0000_0000_0000_0000_0000) by (nonlinear_arith)
        requires
            lim == 0x2000_0000_0000_0000,
    ;
    assert(ONE <= a < 0x8000_0000_0000_0000) by (nonlinear_arith)
        requires
            a >= 0,
            a * a <= n < (a + 1) * (a + 1),
            0x1_0000_0000_0000_0000 <= n < 0x4000_0000_0000_0000_0000_0000_0000_0000,
    ;
    assert(mag(v.x) <= a && mag(v.y) <= a && mag(v.z) <= a) by (nonlinear_arith)
        requires
            a >= 0,
            n < (a + 1) * (a + 1),
            v.x * v.x <= n,
            v.y * v.y <= n,
            v.z * v.z <= n,
    ;
    lemma_sine_cosine_range(a);
    lemma_mul_bound(v.x, s, a, ONE as int);
    lemma_mul_bound(v.y, s, a, ONE as int);
    lemma_mul_bound(v.z, s, a, ONE as int);
    assert(a * ONE == ONE * a) by (nonlinear_arith);
    lemma_round_div_bound(v.x * s, a, ONE as int);
    lemma_round_div_bound(v.y * s, a, ONE as int);
    lemma_round_div_bound(v.z * s, a, ONE as int);
    if exp_direction(v).is_zero() {
        lemma_not_both_small(a);
        assert(c == 0);
        assert(2 * mag(s) >= ONE);
        lemma_round_div_error(v.x * s, a);
        lemma_round_div_error(v.y * s, a);
        lemma_round_div_error(v.z * s, a);
        assert(0 * a == 0);
        let (x, y, z) = (mag(v.x), mag(v.y), mag(v.z));
        let t = mag(s);
        assert(x * ONE <= a && y * ONE <= a && z * ONE <= a) by (nonlinear_arith)
            requires
                2 * (x * t) <= a,
                2 * (y * t) <= a,
                2 * (z * t) <= a,
                2 * t >= ONE,
                x >= 0,
                y >= 0,
                z >= 0,
        ;
        assert(v.x * v.x == x * x && v.y * v.y == y * y && v.z * v.z == z * z)
            by (nonlinear_arith)
            requires
                x == mag(v.x),
                y == mag(v.y),
                z == mag(v.z),
        ;
        // The angle is below 2^63, so the components are below 2^31.
        assert(x * x <= 0x4000_0000_0000_0000 && y * y <= 0x4000_0000_0000_0000 && z * z
            <= 0x4000_0000_0000_0000) by (nonlinear_arith)
            requires
                0 <= x * 0x1_0000_0000 < 0x8000_0000_0000_0000,
                0 <= y * 0x1_0000_0000 < 0x8000_0000_0000_0000,
                0 <= z * 0x1_0000_0000 < 0x8000_0000_0000_0000,
                x >= 0,
                y >= 0,
                z >= 0,
        ;
        // Then the angle is below 2^33, and the components are at most one.
        assert(a < 0x2_0000_0000) by (nonlinear_arith)
            requires
                a >= 0,
                a * a <= 0x2_0000_0000_0000_0000,
        ;
        assert(x * x <= 1 && y * y <= 1 && z * z <= 1) by (nonlinear_arith)
            requires
                0 <= x * 0x1_0000_0000 < 0x2_0000_0000,
                0 <= y * 0x1_0000_0000 < 0x2_0000_0000,
                0 <= z * 0x1_0000_0000 < 0x2_0000_0000,
                x >= 0,
                y >= 0,
                z >= 0,
        ;
        assert(a == ONE) by (nonlinear_arith)
            requires
                a >= 0x1_0000_0000,
                a * a <= 0x1_0000_0000_0000_0003,
        ;
        lemma_cosine_of_one();
        assert(false);
    }
}

/// The arithmetic that ends [`lemma_log_norm`].
proof fn lemma_log_norm_bound(
    a: int,
    aa: int,
    ss: int,
    x: int,
    n: int,
    cross: int,
    errors: int,
    g: int,
)
    requires
        a >= 0,
        aa >= 0,
        ss >= 0,
        x * ss == n * aa + cross + errors,
        mag(n - ss) <= g,
        mag(cross) <= 2 * (a * ss),
        0 <= errors <= ss,
    ensures
        ss * mag(x - aa) <= aa * g + ss * (2 * a + 1),
{
    lemma_distribute2(n, ss, aa);
    lemma_distribute2(x, aa, ss);
    lemma_mul_regroup(ss, aa, 1);
    assert((x - aa) * ss == (n - ss) * aa + cross + errors);
    lemma_mul_bound(n - ss, aa, g, aa);
    lemma_mul_regroup(aa, g, 1);
    lemma_mul_bound(x - aa, ss, mag(x - aa), ss);
    lemma_mul_regroup(ss, mag(x - aa), 1);
    lemma_distribute2(2 * a, 1, ss);
    lemma_mul_regroup(a, ss, 2);
    assert(ss * (2 * a) == 2 * (a * ss)) by (nonlinear_arith);
}

/// One component of [`lemma_log_norm`]: `r` is the rounded quotient of
/// `v * a` by `s`, and `e` what the rounding added.
proof fn lemma_scaled_component(v: int, a: int, s: int, r: int, e: int)
    requires
        a >= 0,
        r * s == v * a + e,
        2 * mag(e) <= mag(s),
    ensures
        (r * r) * (s * s) == (v * v) * (a * a) + 2 * ((v * a) * e) + e * e,
        mag(2 * ((v * a) * e)) <= mag(v) * (a * mag(s)),
        0 <= 4 * (e * e) <= s * s,
{
    lemma_monomial_square(r, s);
    lemma_monomial_square(v, a);
    assert((v * a + e) * (v * a + e) == (v * a) * (v * a) + 2 * ((v * a) * e) + e * e)
        by (nonlinear_arith);
    lemma_mul_bound(v, a, mag(v), a);
    lemma_mul_bound(v * a, e, mag(v) * a, mag(e));
    assert(2 * ((mag(v) * a) * mag(e)) <= mag(v) * (a * mag(s))) by (nonlinear_arith)
        requires
            a >= 0,
            2 * mag(e) <= mag(s),
    ;
    assert(0 <= 4 * (e * e) <= s * s) by (nonlinear_arith)
        requires
            2 * mag(e) <= mag(s),
    ;
}

} // verus!
