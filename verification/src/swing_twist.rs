//! The decomposition of a rotation into a twist about an axis and the swing
//! that is left.

use vstd::prelude::*;
use crate::algebra::{
    lemma_conj_neg_norm, lemma_mul_conj, lemma_mul_plus_right, lemma_mul_real, lemma_mul_times,
    lemma_norm_sq_times, lemma_rounded_error, lemma_rounded_times, Quat, UNIT_TOLERANCE, Vec3,
};
use crate::arith::{
    lemma_distribute2, lemma_distribute3, lemma_distribute_signed, lemma_half_bound,
    lemma_monomial_square, lemma_mul_bound, lemma_mul_neg, lemma_mul_permute, lemma_mul_regroup,
    lemma_mul_sign, mag,
};
use crate::fixed::{
    lemma_round_div_error, lemma_round_div_exact, lemma_round_div_sign, lemma_scale_factor_top,
    round_div, scale_factor, DIV_LIMIT, ONE, ONE_SQ, SCALE_FLOOR,
};
use crate::normalize::{
    direction_of, lemma_direction_frame, lemma_direction_multiple, lemma_direction_unit,
    lemma_norm_floor, lemma_reduced, lemma_scaled, lemma_stretched_real, lemma_stretched_unit,
    lemma_unit_is_within, lemma_unit_within,
};
use crate::quaternion::{
    composed, lemma_compose_inverse, lemma_small_product, lemma_unit_product,
    lemma_unit_product_near, UnitQuaternion,
};
use crate::scaled::{lemma_two_to_add, raise_count, two_to, Scaled, ScaledVector3};
use crate::vector::{
    dot, lemma_dot_bound, lemma_dot_commutes, lemma_dot_linear, lemma_dot_self_positive,
    lemma_dot_within, Vector3,
};

verus! {

/// The largest magnitude of an axis that a rotation can be decomposed
/// about, 2^45: beyond it the direction of the twist does not fit in 128
/// bits.
pub const TWIST_AXIS_LIMIT: i64 = 0x2000_0000_0000;

/// The direction of the twist, exact: the real part of `q` beside the
/// projection of its imaginary part onto `d`, both times the inner product
/// of `d` with itself so that nothing is divided, and negated unless the
/// imaginary part points to the side of `d`.
pub open spec fn twist_direction(q: Quat, d: Vec3) -> Quat {
    let a = d.dot(q.imag());
    let t = d.times(a).with_real(q.w * d.dot(d));
    if a > 0 {
        t
    } else {
        t.neg()
    }
}

/// Swing and twist of `q` about `d`, in that order: the twist is the unit
/// quaternion in the direction of [`twist_direction`], the swing is `q`
/// composed with the inverse of the twist.
pub open spec fn swing_twist(q: Quat, d: Vec3) -> (Quat, Quat) {
    let twist = twist_direction(q, d).direction();
    (composed(q, twist.conj()), twist)
}

/// Splits the rotation `q` into a twist about the axis `d` and a swing about
/// an axis orthogonal to it, with `swing` composed with `twist` giving `q`
/// back.
///
/// There is no result where the twist has no direction: the real part of
/// `q` is zero and its imaginary part is orthogonal to `d`. That is a half
/// turn about an axis orthogonal to `d`, for which the twist is not defined.
pub fn swing_twist_decomposition(q: UnitQuaternion, axis: ScaledVector3) -> (r: Option<
    (UnitQuaternion, UnitQuaternion),
>)
    requires
        q.wf(),
        axis.wf(),
        !axis@.digits.is_zero(),
    ensures
        r.is_none() <==> q@.w == 0 && axis@.axis().dot(q@.imag()) == 0,
        r.is_some() ==> (r.unwrap().0@, r.unwrap().1@) == swing_twist(q@, axis@.axis()),
        r.is_some() ==> r.unwrap().0.wf() && r.unwrap().1.wf(),
        r.is_some() ==> composed(r.unwrap().0@, r.unwrap().1@).minus(q@).within(16),
{
    swing_twist_about(q, axis.axis())
}

/// Swing and twist of `q` about an axis of fixed-point numbers, of which
/// only the direction counts.
pub(crate) fn swing_twist_about(q: UnitQuaternion, d: Vector3) -> (r: Option<
    (UnitQuaternion, UnitQuaternion),
>)
    requires
        q.wf(),
        !d@.is_zero(),
        d@.within(TWIST_AXIS_LIMIT as int),
    ensures
        r.is_none() <==> q@.w == 0 && d@.dot(q@.imag()) == 0,
        r.is_some() ==> (r.unwrap().0@, r.unwrap().1@) == swing_twist(q@, d@),
        r.is_some() ==> r.unwrap().0.wf() && r.unwrap().1.wf(),
        r.is_some() ==> composed(r.unwrap().0@, r.unwrap().1@).minus(q@).within(16),
{
    let ra = Vector3 { x: q.i, y: q.j, z: q.k };
    proof {
        lemma_twist_direction(q@, d@);
        if !twist_direction(q@, d@).is_zero() {
            lemma_swing_twist_recomposes(q@, d@);
        }
    }
    let a = dot(&d, &ra);
    let dd = dot(&d, &d);
    if q.w == 0 && a == 0 {
        return None;
    }
    let w: i128 = (q.w as i128) * dd;
    let x: i128 = a * (d.x as i128);
    let y: i128 = a * (d.y as i128);
    let z: i128 = a * (d.z as i128);
    let n = if a > 0 {
        direction_of(w, x, y, z)
    } else {
        direction_of(-w, -x, -y, -z)
    };
    let twist = UnitQuaternion { w: n.w, i: n.i, j: n.j, k: n.k };
    let swing = q.compose(&twist.inverse());
    Some((swing, twist))
}

/// Swing composed with twist gives the rotation back, up to rounding: no
/// component differs by more than 16 units.
pub proof fn lemma_swing_twist_recomposes(q: Quat, d: Vec3)
    requires
        q.is_unit(),
        !d.is_zero(),
        !twist_direction(q, d).is_zero(),
    ensures
        composed(swing_twist(q, d).0, swing_twist(q, d).1).minus(q).within(16),
{
    lemma_swing_twist_units(q, d);
    lemma_compose_inverse(q, swing_twist(q, d).1);
}

/// The twist turns about `d`: its imaginary part is parallel to `d` within
/// the rounding of its own components. Each component of the vector product
/// of the imaginary part with `d` is at most half the sum of the magnitudes
/// of two components of `d`, and one part in 2^28 of that for what an axis
/// too large to be squared loses.
pub proof fn lemma_twist_parallel(q: Quat, d: Vec3)
    requires
        q.is_unit(),
        !d.is_zero(),
        !twist_direction(q, d).is_zero(),
    ensures
        ({
            let c = swing_twist(q, d).1.imag().cross(d);
            &&& 0x1000_0000 * (2 * mag(c.x)) <= (mag(d.y) + mag(d.z)) * 0x1000_0001
            &&& 0x1000_0000 * (2 * mag(c.y)) <= (mag(d.z) + mag(d.x)) * 0x1000_0001
            &&& 0x1000_0000 * (2 * mag(c.z)) <= (mag(d.x) + mag(d.y)) * 0x1000_0001
        }),
{
    let t = twist_direction(q, d);
    let r = t.reduced();
    let p = t.reduction();
    let f = scale_factor(r.max_mag());
    let n = r.times(f).norm_floor();
    let alpha = ONE * f;
    let h = if p == 1 { 0 } else { p };
    let a = mag(d.dot(q.imag()));
    let twist = swing_twist(q, d).1;
    lemma_twist_frame(q, d);
    lemma_mul_regroup(a, d.x, 1);
    lemma_mul_regroup(a, d.y, 1);
    lemma_mul_regroup(a, d.z, 1);
    lemma_mul_neg(a, d.x);
    lemma_mul_neg(a, d.y);
    lemma_mul_neg(a, d.z);
    assert(t.i == a * d.x && t.j == a * d.y && t.k == a * d.z);
    lemma_parallel_component(twist.j, twist.k, r.j, r.k, d.y, d.z, a, n, alpha, p, h);
    lemma_parallel_component(twist.k, twist.i, r.k, r.i, d.z, d.x, a, n, alpha, p, h);
    lemma_parallel_component(twist.i, twist.j, r.i, r.j, d.x, d.y, a, n, alpha, p, h);
}

/// The twist is the representative that does not turn against `d`: each
/// component of its imaginary part has the sign of the same component of
/// `d`, or is zero, so that their inner product is not negative.
pub proof fn lemma_twist_alignment(q: Quat, d: Vec3)
    requires
        q.is_unit(),
        !d.is_zero(),
        !twist_direction(q, d).is_zero(),
    ensures
        swing_twist(q, d).1.i * d.x >= 0,
        swing_twist(q, d).1.j * d.y >= 0,
        swing_twist(q, d).1.k * d.z >= 0,
        swing_twist(q, d).1.imag().dot(d) >= 0,
{
    let t = twist_direction(q, d);
    let r = t.reduced();
    let p = t.reduction();
    let f = scale_factor(r.max_mag());
    let n = r.times(f).norm_floor();
    let a = mag(d.dot(q.imag()));
    let twist = swing_twist(q, d).1;
    lemma_twist_frame(q, d);
    lemma_mul_neg(a, d.x);
    lemma_mul_neg(a, d.y);
    lemma_mul_neg(a, d.z);
    assert(t.i == a * d.x && t.j == a * d.y && t.k == a * d.z);
    lemma_aligned_component(a, d.x, t.i, r.i, p, f, n, twist.i);
    lemma_aligned_component(a, d.y, t.j, r.j, p, f, n, twist.j);
    lemma_aligned_component(a, d.z, t.k, r.k, p, f, n, twist.k);
}

/// The swing turns about an axis orthogonal to `d`: the inner product of
/// its imaginary part with `d` vanishes up to rounding, and is at most two
/// units, and one part in 2^24 of one, for each unit of the sum of the
/// magnitudes of `d`.
pub proof fn lemma_swing_orthogonal(q: Quat, d: Vec3)
    requires
        q.is_unit(),
        !d.is_zero(),
        !twist_direction(q, d).is_zero(),
    ensures
        0x100_0000 * mag(swing_twist(q, d).0.imag().dot(d)) <= 0x200_0001 * d.sum_mag(),
{
    let one = ONE as int;
    let twist = swing_twist(q, d).1;
    let swing = swing_twist(q, d).0;
    let sum = d.sum_mag();
    let a = q.mul(twist.conj());
    lemma_swing_twist_units(q, d);
    // The exact product of q with the inverse of the twist.
    lemma_unrounded_swing(q, d);
    // The swing is that product over one, rounded, and normalized.
    let r = a.rounded(one);
    let e = r.times(one).minus(a);
    lemma_rounded_error(a, one);
    lemma_conj_neg_norm(twist);
    lemma_unit_product(q, twist.conj());
    lemma_unit_product_near(q, twist.conj());
    lemma_dot_linear(a.imag(), e.imag(), one, d);
    lemma_dot_linear(r.imag(), r.imag(), one, d);
    assert(r.times(one).imag() == r.imag().times(one));
    assert(r.times(one).imag() == a.imag().plus(e.imag()));
    let xa = a.imag().dot(d);
    let xe = e.imag().dot(d);
    let xr = r.imag().dot(d);
    assert(one * xr == xa + xe);
    lemma_dot_within(e.imag(), d, 0x8000_0000);
    // Normalizing divides by the norm, which is one within 13 units, and
    // rounds each component.
    let f = scale_factor(r.max_mag());
    let u = r.times(f);
    let n = u.norm_floor();
    lemma_scaled(r);
    lemma_norm_floor(u);
    lemma_norm_sq_times(r, f);
    lemma_monomial_square(f, one - 12);
    assert(n >= f * (one - 13)) by (nonlinear_arith)
        requires
            f >= 1,
            n >= 0,
            u.norm_sq() < (n + 1) * (n + 1),
            u.norm_sq() == (f * f) * r.norm_sq(),
            r.norm_sq() >= (one - 12) * (one - 12),
            (f * (one - 12)) * (f * (one - 12)) == (f * f) * ((one - 12) * (one - 12)),
            one == 0x1_0000_0000,
    ;
    let g = swing.times(n).minus(u.times(one));
    lemma_round_div_error(one * u.w, n);
    lemma_round_div_error(one * u.i, n);
    lemma_round_div_error(one * u.j, n);
    lemma_round_div_error(one * u.k, n);
    lemma_mul_regroup(n, swing.i, 1);
    lemma_mul_regroup(n, swing.j, 1);
    lemma_mul_regroup(n, swing.k, 1);
    lemma_dot_linear(swing.imag().times(n), u.imag().times(one), 1, d);
    lemma_dot_linear(swing.imag(), swing.imag(), n, d);
    lemma_dot_linear(u.imag(), u.imag(), one, d);
    lemma_dot_linear(r.imag(), r.imag(), f, d);
    assert(u.imag() == r.imag().times(f));
    assert(g.imag() == swing.imag().times(n).minus(u.imag().times(one)));
    let x = swing.imag().dot(d);
    let xg = g.imag().dot(d);
    assert(n * x == one * (f * xr) + xg);
    lemma_dot_within(g.imag().times(2), d, n);
    lemma_dot_linear(g.imag(), g.imag(), 2, d);
    assert(2 * mag(xg) <= n * sum);
    lemma_mul_regroup(one, f, xr);
    lemma_mul_regroup(f, one, xr);
    lemma_mul_bound(f, one * xr, f, mag(one * xr));
    lemma_mul_bound(n, x, n, mag(x));
    assert((ONE + 22) * sum == 0x1_0000_0016 * sum);
    lemma_orthogonal_bound(mag(x), n, f, mag(one * xr), sum);
}

/// The arithmetic of [`lemma_swing_orthogonal`]: `y` is the magnitude of
/// the inner product, `n` the norm that the swing was divided by, `f` the
/// scale, and `z` what the rounded product has along `d`, times one.
proof fn lemma_orthogonal_bound(y: int, n: int, f: int, z: int, sum: int)
    requires
        n >= 1,
        f >= 1,
        sum >= 0,
        y >= 0,
        z >= 0,
        n >= f * (ONE - 13),
        2 * (n * y) <= 2 * (f * z) + n * sum,
        2 * z <= 0x3_0000_002c * sum,
    ensures
        0x100_0000 * y <= 0x200_0001 * sum,
{
    let c = 0x3_0000_002c * sum;
    let l = 0xffff_fff3int;
    assert(f * (2 * z) <= f * c) by (nonlinear_arith)
        requires
            f >= 0,
            2 * z <= c,
    ;
    lemma_mul_regroup(f, 2, z);
    lemma_mul_regroup(2, f, z);
    assert(2 * (n * y) <= f * c + n * sum);
    assert((f * l) * c <= n * c) by (nonlinear_arith)
        requires
            n >= f * l,
            c >= 0,
    ;
    lemma_mul_regroup(f, l, c);
    lemma_mul_regroup(l, f, c);
    assert(l * (f * c) <= n * c);
    assert(n * c == 0x3_0000_002c * (n * sum)) by (nonlinear_arith)
        requires
            c == 0x3_0000_002c * sum,
    ;
    assert(n * (2 * (l * y)) == l * (2 * (n * y))) by (nonlinear_arith);
    assert(n * (2 * (l * y)) <= 0x3_0000_002c * (n * sum) + l * (n * sum));
    lemma_mul_regroup(n, 0x4_0000_001f, sum);
    assert(2 * (l * y) <= 0x4_0000_001f * sum) by (nonlinear_arith)
        requires
            n >= 1,
            n * (2 * (l * y)) <= n * (0x4_0000_001f * sum),
    ;
}

/// The signs of the real parts. Where the imaginary part of `q` points to
/// the side of `d`, the real part of the twist has the sign of that of `q`
/// and the real part of the swing is not negative, but for one unit of
/// rounding; else the twist has the opposite sign and the real part of the
/// swing is not positive, but for one unit.
pub proof fn lemma_real_parts(q: Quat, d: Vec3)
    requires
        q.is_unit(),
        !d.is_zero(),
        !twist_direction(q, d).is_zero(),
    ensures
        ({
            let (swing, twist) = swing_twist(q, d);
            let side: int = if d.dot(q.imag()) > 0 { 1 } else { -1 };
            &&& side * swing.w >= -1
            &&& q.w >= 0 ==> side * twist.w >= 0
            &&& q.w <= 0 ==> side * twist.w <= 0
        }),
{
    let one = ONE as int;
    let pos = d.dot(q.imag()) > 0;
    let side: int = if pos { 1 } else { -1 };
    let t = twist_direction(q, d);
    let r = t.reduced();
    let p = t.reduction();
    let f = scale_factor(r.max_mag());
    let n = r.times(f).norm_floor();
    let h = if p == 1 { 0 } else { p };
    let (swing, twist) = swing_twist(q, d);
    let alpha = one * f;
    let np = n * p;
    let dd = d.dot(d);
    let av = d.dot(q.imag());
    lemma_twist_frame(q, d);
    lemma_dot_self_positive(d);
    lemma_dot_commutes(d, q.imag());
    // The twist has the sign of what it is the direction of.
    lemma_mul_sign(q.w, dd);
    lemma_mul_neg(dd, q.w);
    lemma_mul_regroup(q.w, dd, 1);
    if p != 1 {
        lemma_round_div_sign(t.w, p);
    }
    lemma_mul_sign(f, r.w);
    lemma_mul_sign(one, f * r.w);
    lemma_round_div_sign(one * (f * r.w), n);
    assert(twist.w == round_div(one * (f * r.w), n));
    assert(np >= 1 && alpha >= 1) by (nonlinear_arith)
        requires
            np == n * p,
            alpha == one * f,
            n >= 1,
            p >= 1,
            one >= 1,
            f >= 1,
    ;
    // The product of q with the inverse of what the twist is the direction
    // of has the squared norm of that in its real part, with the sign.
    let e = twist.times(np).minus(t.times(alpha));
    lemma_frame_component(twist.w, r.w, t.w, n, p, alpha, h);
    lemma_frame_component(twist.i, r.i, t.i, n, p, alpha, h);
    lemma_frame_component(twist.j, r.j, t.j, n, p, alpha, h);
    lemma_frame_component(twist.k, r.k, t.k, n, p, alpha, h);
    lemma_mul_neg(np, twist.i);
    lemma_mul_neg(np, twist.j);
    lemma_mul_neg(np, twist.k);
    lemma_mul_neg(alpha, t.i);
    lemma_mul_neg(alpha, t.j);
    lemma_mul_neg(alpha, t.k);
    assert(twist.conj().times(np) == t.conj().times(alpha).plus(e.conj()));
    let a = q.mul(twist.conj());
    let b = q.mul(t.conj());
    let c = q.mul(e.conj());
    lemma_mul_times(q, twist.conj(), np);
    lemma_mul_plus_right(q, t.conj().times(alpha), e.conj());
    lemma_mul_times(q, t.conj(), alpha);
    assert(a.times(np) == b.times(alpha).plus(c));
    lemma_small_product(q, e.conj(), np);
    let g = d.times(av).with_real(q.w * dd);
    let x = (q.w * q.w) * dd + av * av;
    assert(q.mul(g.conj()).w == x) by {
        lemma_mul_neg(q.i, av * d.x);
        lemma_mul_neg(q.j, av * d.y);
        lemma_mul_neg(q.k, av * d.z);
        lemma_mul_regroup(q.w, q.w, dd);
        lemma_mul_permute(q.i, av, d.x);
        lemma_mul_permute(q.j, av, d.y);
        lemma_mul_permute(q.k, av, d.z);
        lemma_distribute3(d.x * q.i, d.y * q.j, d.z * q.k, av);
        lemma_mul_regroup(d.x, q.i, 1);
        lemma_mul_regroup(d.y, q.j, 1);
        lemma_mul_regroup(d.z, q.k, 1);
    }
    assert(x >= 0) by (nonlinear_arith)
        requires
            x == (q.w * q.w) * dd + av * av,
            dd >= 0,
    ;
    if !pos {
        assert(g.neg().conj() == g.conj().times(-1));
        lemma_mul_times(q, g.conj(), -1);
    }
    assert(b.w == side * x);
    lemma_mul_sign(alpha, b.w);
    let y = side * a.w;
    lemma_mul_neg(np, a.w);
    assert(np * y == side * (np * a.w));
    assert(np * y >= -((one + 22) * np));
    assert(y >= -(one + 22)) by (nonlinear_arith)
        requires
            np >= 1,
            np * y >= -((one + 22) * np),
    ;
    // Rounded and normalized it stays above minus one.
    let ar = a.rounded(one);
    lemma_round_div_error(a.w, one);
    let z = side * ar.w;
    assert(z >= -1);
    lemma_swing_twist_units(q, d);
    lemma_conj_neg_norm(twist);
    lemma_unit_product(q, twist.conj());
    lemma_unit_product_near(q, twist.conj());
    let fs = scale_factor(ar.max_mag());
    let u = ar.times(fs);
    let ns = u.norm_floor();
    lemma_scaled(ar);
    lemma_norm_floor(u);
    lemma_norm_sq_times(ar, fs);
    lemma_monomial_square(fs, one - 12);
    assert(ns >= fs * (one - 13)) by (nonlinear_arith)
        requires
            fs >= 1,
            ns >= 0,
            u.norm_sq() < (ns + 1) * (ns + 1),
            u.norm_sq() == (fs * fs) * ar.norm_sq(),
            ar.norm_sq() >= (one - 12) * (one - 12),
            (fs * (one - 12)) * (fs * (one - 12)) == (fs * fs) * ((one - 12) * (one - 12)),
            one == 0x1_0000_0000,
    ;
    lemma_round_div_error(one * u.w, ns);
    assert(swing.w == round_div(one * u.w, ns));
    let sw = side * swing.w;
    let uw = side * (fs * ar.w);
    lemma_mul_neg(fs, ar.w);
    assert(uw == fs * z);
    assert(sw >= -1) by (nonlinear_arith)
        requires
            sw == side * swing.w,
            side == 1 || side == -1,
            2 * mag(swing.w * ns - 0x1_0000_0000 * u.w) <= ns,
            side * u.w == fs * z,
            z >= -1,
            fs >= 1,
            ns >= fs * 0xffff_fff3,
    ;
}

/// The twist turns by as little as `q` has along `d`: with `a` the inner
/// product of `d` with the imaginary part of `q` and `w` the real part of
/// `q` times the inner product of `d` with itself, each imaginary component
/// of the twist, times `w`, is at most one and five units times `a` and
/// the component of `d`, and half of `w`. An axis orthogonal to that of
/// `q` only up to rounding so gives a twist that is the identity up to as
/// much.
pub proof fn lemma_twist_across(q: Quat, d: Vec3)
    requires
        q.is_unit(),
        !d.is_zero(),
        !twist_direction(q, d).is_zero(),
    ensures
        ({
            let twist = swing_twist(q, d).1;
            let a = mag(d.dot(q.imag()));
            let w = mag(q.w) * d.dot(d);
            &&& 0x1000_0000 * (2 * (w * mag(twist.i))) <= 0x1000_0000 * (2 * ((ONE + 5) * (a * mag(
                d.x,
            )))) + 0x1000_0001 * w
            &&& 0x1000_0000 * (2 * (w * mag(twist.j))) <= 0x1000_0000 * (2 * ((ONE + 5) * (a * mag(
                d.y,
            )))) + 0x1000_0001 * w
            &&& 0x1000_0000 * (2 * (w * mag(twist.k))) <= 0x1000_0000 * (2 * ((ONE + 5) * (a * mag(
                d.z,
            )))) + 0x1000_0001 * w
        }),
{
    let one = ONE as int;
    let t = twist_direction(q, d);
    let r = t.reduced();
    let p = t.reduction();
    let f = scale_factor(r.max_mag());
    let n = r.times(f).norm_floor();
    let h = if p == 1 { 0 } else { p };
    let twist = swing_twist(q, d).1;
    let alpha = one * f;
    let np = n * p;
    let dd = d.dot(d);
    let av = d.dot(q.imag());
    let a = mag(av);
    let w = mag(q.w) * dd;
    lemma_twist_frame(q, d);
    lemma_dot_self_positive(d);
    lemma_swing_twist_units(q, d);
    assert(np >= 1 && alpha >= 1) by (nonlinear_arith)
        requires
            np == n * p,
            alpha == one * f,
            n >= 1,
            p >= 1,
            one >= 1,
            f >= 1,
    ;
    lemma_frame_component(twist.w, r.w, t.w, n, p, alpha, h);
    lemma_frame_component(twist.i, r.i, t.i, n, p, alpha, h);
    lemma_frame_component(twist.j, r.j, t.j, n, p, alpha, h);
    lemma_frame_component(twist.k, r.k, t.k, n, p, alpha, h);
    // What is divided by is large beside the real part.
    lemma_mul_bound(q.w, dd, mag(q.w), dd);
    lemma_mul_neg(dd, q.w);
    lemma_mul_regroup(q.w, dd, 1);
    assert(mag(t.w) == w);
    lemma_unit_within(twist);
    lemma_mul_bound(np, twist.w, np, one + 4);
    lemma_mul_bound(alpha, t.w, alpha, w);
    let (x1, x2) = (np * twist.w, alpha * t.w);
    assert(alpha * w <= (one + 5) * np) by (nonlinear_arith)
        requires
            0x1000_0000 * (2 * mag(x1 - x2)) <= 0x1000_0001 * np,
            mag(x1) <= np * (one + 4),
            mag(x2) == alpha * w,
            np >= 1,
    ;
    lemma_mul_bound(av, d.x, a, mag(d.x));
    lemma_mul_bound(av, d.y, a, mag(d.y));
    lemma_mul_bound(av, d.z, a, mag(d.z));
    lemma_mul_neg(av, d.x);
    lemma_mul_neg(av, d.y);
    lemma_mul_neg(av, d.z);
    lemma_mul_regroup(av, d.x, 1);
    lemma_mul_regroup(av, d.y, 1);
    lemma_mul_regroup(av, d.z, 1);
    lemma_across_part(twist.i, t.i, a * mag(d.x), w, np, alpha);
    lemma_across_part(twist.j, t.j, a * mag(d.y), w, np, alpha);
    lemma_across_part(twist.k, t.k, a * mag(d.z), w, np, alpha);
}

/// One component of [`lemma_twist_across`].
proof fn lemma_across_part(o: int, t: int, b: int, w: int, np: int, alpha: int)
    requires
        np >= 1,
        alpha >= 1,
        w >= 0,
        mag(t) == b,
        alpha * w <= (ONE + 5) * np,
        0x1000_0000 * (2 * mag(np * o - alpha * t)) <= 0x1000_0001 * np,
    ensures
        0x1000_0000 * (2 * (w * mag(o))) <= 0x1000_0000 * (2 * ((ONE + 5) * b)) + 0x1000_0001 * w,
{
    lemma_mul_bound(np, o, np, mag(o));
    lemma_mul_bound(alpha, t, alpha, b);
    let (x1, x2, y) = (np * o, alpha * t, mag(o));
    let ab = alpha * b;
    assert(0x1000_0000 * (2 * (np * y)) <= 0x1000_0000 * (2 * ab) + 0x1000_0001 * np);
    let (wy, awb) = (w * y, (alpha * w) * b);
    assert(0x1000_0000 * (2 * (np * wy)) <= 0x1000_0000 * (2 * awb) + 0x1000_0001 * (np * w))
        by (nonlinear_arith)
        requires
            0x1000_0000 * (2 * (np * y)) <= 0x1000_0000 * (2 * ab) + 0x1000_0001 * np,
            wy == w * y,
            awb == (alpha * w) * b,
            ab == alpha * b,
            w >= 0,
    ;
    let c = (ONE + 5) * b;
    assert(awb <= np * c) by (nonlinear_arith)
        requires
            awb == (alpha * w) * b,
            alpha * w <= (ONE + 5) * np,
            c == (ONE + 5) * b,
            b >= 0,
    ;
    assert(0x1000_0000 * (2 * wy) <= 0x1000_0000 * (2 * c) + 0x1000_0001 * w) by (nonlinear_arith)
        requires
            np >= 1,
            0x1000_0000 * (2 * (np * wy)) <= 0x1000_0000 * (2 * (np * c)) + 0x1000_0001 * (np
                * w),
    ;
}

/// Only the direction of the axis counts for the twist: about a multiple
/// of `d` it is the twist about `d` within one unit.
pub proof fn lemma_twist_scale(q: Quat, d: Vec3, c: int)
    requires
        !twist_direction(q, d).is_zero(),
        c >= 1,
    ensures
        twist_direction(q, d.times(c)) == twist_direction(q, d).times(c * c),
        !twist_direction(q, d.times(c)).is_zero(),
        swing_twist(q, d.times(c)).1.minus(swing_twist(q, d).1).within(1),
{
    let ra = q.imag();
    let a = d.dot(ra);
    let dc = d.times(c);
    let cc = c * c;
    lemma_dot_linear(d, d, c, ra);
    lemma_dot_linear(d, d, c, dc);
    lemma_dot_commutes(d, dc);
    lemma_dot_linear(d, d, c, d);
    assert(dc.dot(ra) == c * a);
    assert(dc.dot(dc) == c * (c * d.dot(d)));
    lemma_mul_sign(c, a);
    assert((c * a > 0) == (a > 0)) by (nonlinear_arith)
        requires
            c >= 1,
    ;
    lemma_mul_regroup(c, c, d.dot(d));
    lemma_mul_permute(q.w, cc, d.dot(d));
    lemma_mul_permute(c * a, c, d.x);
    lemma_mul_permute(c * a, c, d.y);
    lemma_mul_permute(c * a, c, d.z);
    lemma_mul_regroup(c, a, c);
    lemma_mul_regroup(c, c, a);
    lemma_mul_regroup(cc, a, d.x);
    lemma_mul_regroup(cc, a, d.y);
    lemma_mul_regroup(cc, a, d.z);
    let g = d.times(a).with_real(q.w * d.dot(d));
    let gc = dc.times(c * a).with_real(q.w * dc.dot(dc));
    assert(gc == g.times(cc));
    if !(a > 0) {
        lemma_mul_neg(cc, g.w);
        lemma_mul_neg(cc, g.i);
        lemma_mul_neg(cc, g.j);
        lemma_mul_neg(cc, g.k);
    }
    assert(twist_direction(q, dc) == twist_direction(q, d).times(cc));
    assert(cc >= 1) by (nonlinear_arith)
        requires
            cc == c * c,
            c >= 1,
    ;
    lemma_direction_multiple(twist_direction(q, d), cc);
}

/// Only the direction of a scaled vector counts for the twist about it:
/// with the digits of another as a multiple of its own, the twist is the
/// same within two units. The exponents have no part in it, and neither
/// has a doubling of the digits.
pub proof fn lemma_twist_direction_only(q: Quat, v: Scaled, w: Scaled, c: int)
    requires
        v.wf(),
        w.wf(),
        c >= 1,
        w.digits == v.digits.times(c),
        !twist_direction(q, v.digits).is_zero(),
    ensures
        swing_twist(q, w.axis()).1.minus(swing_twist(q, v.axis()).1).within(2),
{
    let d = v.digits;
    let k = two_to(raise_count(d.max_mag()));
    let j = two_to(raise_count(w.digits.max_mag()));
    lemma_two_to_add(raise_count(d.max_mag()), 0);
    lemma_two_to_add(raise_count(w.digits.max_mag()), 0);
    lemma_twist_scale(q, d, k);
    lemma_mul_regroup(j, c, d.x);
    lemma_mul_regroup(j, c, d.y);
    lemma_mul_regroup(j, c, d.z);
    assert(w.axis() == d.times(j * c));
    assert(j * c >= 1) by (nonlinear_arith)
        requires
            j >= 1,
            c >= 1,
    ;
    lemma_twist_scale(q, d, j * c);
}

/// A rotation about `d` itself has no swing: the twist is `q`, negated
/// unless its imaginary part points to the side of `d`, within 4 units,
/// which is what `q` may lack of a unit and its rounding; the swing is
/// within 3 units of the identity with the same sign.
pub proof fn lemma_pure_twist(q: Quat, d: Vec3)
    requires
        q.is_unit(),
        !d.is_zero(),
        q.imag().cross(d).is_zero(),
    ensures
        ({
            let s = if d.dot(q.imag()) > 0 { q } else { q.neg() };
            let e = if d.dot(q.imag()) > 0 { Quat::identity() } else { Quat::identity().neg() };
            &&& swing_twist(q, d).1 == s.times(d.dot(d)).direction()
            &&& swing_twist(q, d).1.minus(s).within(4)
            &&& swing_twist(q, d).0.minus(e).within(3)
        }),
{
    let positive = d.dot(q.imag()) > 0;
    let s = if positive { q } else { q.neg() };
    let dd = d.dot(d);
    lemma_dot_self_positive(d);
    lemma_parallel_multiple(q.imag(), d);
    lemma_dot_commutes(d, q.imag());
    lemma_mul_regroup(q.w, dd, 1);
    lemma_mul_neg(dd, q.w);
    lemma_mul_neg(dd, q.i);
    lemma_mul_neg(dd, q.j);
    lemma_mul_neg(dd, q.k);
    assert(twist_direction(q, d) == s.times(dd));
    lemma_conj_neg_norm(q);
    lemma_direction_unit(s, dd);
    lemma_reduced(s.times(dd));
    lemma_stretched_unit(s.times(dd).reduced());
    lemma_twist_swing(q, dd, positive);
}

/// What is left of `q` beside the unit quaternion in the direction of a
/// multiple of `q` or of its negation: the identity with that sign, within
/// 3 units. The product is taken before the direction is compared with
/// `q`, so that only the norm of the difference counts.
#[verifier::rlimit(40)]
proof fn lemma_twist_swing(q: Quat, dd: int, positive: bool)
    requires
        q.is_unit(),
        dd >= 1,
    ensures
        ({
            let s = if positive { q } else { q.neg() };
            let e = if positive { Quat::identity() } else { Quat::identity().neg() };
            composed(q, s.times(dd).direction().conj()).minus(e).within(3)
        }),
{
    let one = ONE as int;
    let s = if positive { q } else { q.neg() };
    let sign: int = if positive { 1 } else { -1 };
    let t0 = s.times(dd);
    let r0 = t0.reduced();
    let f0 = scale_factor(r0.max_mag());
    let g = f0 * dd;
    let m = r0.times(f0).norm_floor() * t0.reduction();
    let t = t0.direction();
    let nq = q.norm_sq();
    lemma_conj_neg_norm(q);
    lemma_unit_is_within(s);
    lemma_direction_frame(s, dd, 5);
    lemma_reduced(t0);
    lemma_stretched_unit(r0);
    // The direction, times what it was divided by, is `s` times one and the
    // scale, plus what the roundings added.
    let k = one * g;
    let e = t.times(m).minus(s.times(k));
    lemma_mul_regroup(one, g, s.w);
    lemma_mul_regroup(one, g, s.i);
    lemma_mul_regroup(one, g, s.j);
    lemma_mul_regroup(one, g, s.k);
    lemma_mul_regroup(m, t.w, 1);
    lemma_mul_regroup(m, t.i, 1);
    lemma_mul_regroup(m, t.j, 1);
    lemma_mul_regroup(m, t.k, 1);
    lemma_mul_neg(m, t.i);
    lemma_mul_neg(m, t.j);
    lemma_mul_neg(m, t.k);
    lemma_mul_neg(k, s.i);
    lemma_mul_neg(k, s.j);
    lemma_mul_neg(k, s.k);
    assert(t.conj().times(m) == s.conj().times(k).plus(e.conj()));
    // So the product with `q`, times the same, is the squared norm of `q`
    // in the real part plus the product with the roundings.
    let a = q.mul(t.conj());
    let b = q.mul(s.conj());
    let c = q.mul(e.conj());
    lemma_mul_times(q, t.conj(), m);
    lemma_mul_plus_right(q, s.conj().times(k), e.conj());
    lemma_mul_times(q, s.conj(), k);
    lemma_mul_conj(q);
    if !positive {
        assert(s.conj() == q.conj().times(-1));
        lemma_mul_times(q, q.conj(), -1);
    }
    assert(b == (Quat { w: sign * nq, i: 0, j: 0, k: 0 }));
    assert(a.times(m) == b.times(k).plus(c));
    assert(k * 0 == 0);
    lemma_small_product(q, e.conj(), m);
    lemma_cancel_factor(a.i, m, one + 22);
    lemma_cancel_factor(a.j, m, one + 22);
    lemma_cancel_factor(a.k, m, one + 22);
    // Rounded, its imaginary part is within one unit, and its real part
    // has the sign.
    let r = a.rounded(one);
    lemma_round_div_error(a.i, one);
    lemma_round_div_error(a.j, one);
    lemma_round_div_error(a.k, one);
    lemma_round_div_sign(a.w, one);
    assert(mag(r.i) <= 1 && mag(r.j) <= 1 && mag(r.k) <= 1);
    if positive {
        assert(sign * nq == nq);
        lemma_real_sign(a.w, m, g, nq, c.w);
    } else {
        lemma_mul_neg(m, a.w);
        lemma_mul_neg(k, nq);
        assert(sign * nq == -nq);
        lemma_real_sign(-a.w, m, g, nq, -c.w);
    }
    lemma_conj_neg_norm(t);
    lemma_unit_product_near(q, t.conj());
    lemma_real_near(r.w, r.i, r.j, r.k, 13);
    assert(!r.is_zero() && r.within(one + 13));
    assert(r.max_mag() >= one - 13);
    // Normalized, the same holds, and the real part is one within 3 units.
    let f = scale_factor(r.max_mag());
    let n = r.times(f).norm_floor();
    let swing = composed(q, t.conj());
    lemma_scaled(r);
    lemma_stretched_unit(r);
    assert(n >= f * (one - 13)) by (nonlinear_arith)
        requires
            n >= f * r.max_mag(),
            r.max_mag() >= one - 13,
            f >= 1,
    ;
    lemma_mul_bound(f, r.i, f, 1);
    lemma_mul_bound(f, r.j, f, 1);
    lemma_mul_bound(f, r.k, f, 1);
    lemma_round_div_error(one * (f * r.i), n);
    lemma_round_div_error(one * (f * r.j), n);
    lemma_round_div_error(one * (f * r.k), n);
    lemma_stays_small(swing.i, n, f, f * r.i);
    lemma_stays_small(swing.j, n, f, f * r.j);
    lemma_stays_small(swing.k, n, f, f * r.k);
    lemma_mul_sign(f, r.w);
    lemma_round_div_sign(one * (f * r.w), n);
    lemma_real_near(swing.w, swing.i, swing.j, swing.k, 3);
}

/// A number whose product with `m` is at most `l` times `m` is at most `l`.
proof fn lemma_cancel_factor(x: int, m: int, l: int)
    requires
        m >= 1,
        mag(m * x) <= l * m,
    ensures
        mag(x) <= l,
{
    assert(mag(x) <= l) by (nonlinear_arith)
        requires
            m >= 1,
            mag(m * x) <= l * m,
    ;
}

/// The real part of the product in [`lemma_twist_swing`] is positive: times
/// `m` it is the squared norm of `q`, times one and the scale, plus a part
/// that is of the size of `m`.
proof fn lemma_real_sign(aw: int, m: int, g: int, nq: int, cw: int)
    requires
        g >= 1,
        1 <= m <= g * (ONE + 7),
        m * aw == (ONE * g) * nq + cw,
        mag(cw) <= (ONE + 22) * m,
        nq >= ONE_SQ - UNIT_TOLERANCE,
    ensures
        aw > 0,
{
    let low = 0x1_0000_0000 * g;
    assert(low * nq >= low * 0xffff_fff7_0000_0000) by (nonlinear_arith)
        requires
            low >= 0,
            nq >= 0xffff_fff7_0000_0000,
    ;
    assert(ONE * g == low);
    assert((ONE + 22) * m == 0x1_0000_0016 * m);
    lemma_mul_regroup(g, ONE + 7, 1);
    assert(g * (ONE + 7) == 0x1_0000_0007 * g);
    assert(low * 0xffff_fff7_0000_0000 == 0xffff_fff7_0000_0000_0000_0000 * g);
    assert(0x1_0000_0016 * m <= 0x1_0000_001d_0000_009a * g);
    assert(m * aw > 0);
    assert(aw > 0) by (nonlinear_arith)
        requires
            m >= 1,
            m * aw > 0,
    ;
}

/// The real part of a quaternion whose imaginary part is within one unit:
/// one within 13 units where the norm is one within 12 units, and one
/// within 3 units where the squared norm is one within 5 units.
proof fn lemma_real_near(w: int, i: int, j: int, k: int, b: int)
    requires
        mag(i) <= 1 && mag(j) <= 1 && mag(k) <= 1,
        b == 13 || b == 3,
        b == 13 ==> (ONE - 12) * (ONE - 12) <= w * w + i * i + j * j + k * k <= (ONE + 12) * (ONE
            + 12),
        b == 3 ==> mag(w * w + i * i + j * j + k * k - ONE_SQ) <= 5 * ONE,
    ensures
        ONE - b <= mag(w) <= ONE + b,
{
    assert(i * i <= 1 && j * j <= 1 && k * k <= 1 && i * i >= 0 && j * j >= 0 && k * k >= 0)
        by (nonlinear_arith)
        requires
            mag(i) <= 1 && mag(j) <= 1 && mag(k) <= 1,
    ;
    let x = mag(w);
    let ww = w * w;
    assert(x * x == ww) by (nonlinear_arith)
        requires
            x == mag(w),
            ww == w * w,
    ;
    if b == 13 {
        assert((ONE - 12) * (ONE - 12) == 0xffffffe800000090);
        assert((ONE + 12) * (ONE + 12) == 0x10000001800000090);
        assert(0xffff_fff3 <= x <= 0x1_0000_000d) by (nonlinear_arith)
            requires
                x >= 0,
                0xffffffe800000090 - 3 <= x * x <= 0x10000001800000090,
        ;
    } else {
        assert(0xffff_fffd <= x <= 0x1_0000_0003) by (nonlinear_arith)
            requires
                x >= 0,
                0xfffffffb00000000 - 3 <= x * x <= 0x10000000500000000,
        ;
    }
}

/// A component that is one unit at most stays so when the quaternion is
/// normalized, where the largest component is one within 13 units.
proof fn lemma_stays_small(x: int, n: int, f: int, y: int)
    requires
        f >= 1,
        n >= f * (ONE - 13),
        2 * mag(x * n - ONE * y) <= n,
        mag(y) <= f,
    ensures
        mag(x) <= 1,
{
    assert(mag(x) <= 1) by (nonlinear_arith)
        requires
            f >= 1,
            n >= f * 0xffff_fff3,
            2 * mag(x * n - 0x1_0000_0000 * y) <= n,
            mag(y) <= f,
    ;
}

/// Where a vector `r` is parallel to `d`, its inner product with `d` times
/// `d` is `r` times the inner product of `d` with itself.
proof fn lemma_parallel_multiple(ra: Vec3, d: Vec3)
    requires
        ra.cross(d).is_zero(),
    ensures
        ra.dot(d) * d.x == d.dot(d) * ra.x,
        ra.dot(d) * d.y == d.dot(d) * ra.y,
        ra.dot(d) * d.z == d.dot(d) * ra.z,
{
    lemma_distribute3(ra.x * d.x, ra.y * d.y, ra.z * d.z, d.x);
    lemma_distribute3(ra.x * d.x, ra.y * d.y, ra.z * d.z, d.y);
    lemma_distribute3(ra.x * d.x, ra.y * d.y, ra.z * d.z, d.z);
    lemma_distribute3(d.x * d.x, d.y * d.y, d.z * d.z, ra.x);
    lemma_distribute3(d.x * d.x, d.y * d.y, d.z * d.z, ra.y);
    lemma_distribute3(d.x * d.x, d.y * d.y, d.z * d.z, ra.z);
    lemma_mul_regroup(ra.x, d.x, d.x);
    lemma_mul_regroup(ra.x, d.y, d.y);
    lemma_mul_regroup(ra.x, d.z, d.z);
    lemma_mul_regroup(ra.y, d.x, d.x);
    lemma_mul_regroup(ra.y, d.y, d.y);
    lemma_mul_regroup(ra.y, d.z, d.z);
    lemma_mul_regroup(ra.z, d.x, d.x);
    lemma_mul_regroup(ra.z, d.y, d.y);
    lemma_mul_regroup(ra.z, d.z, d.z);
    lemma_mul_regroup(ra.y, d.y, d.x);
    lemma_mul_regroup(ra.z, d.z, d.x);
    lemma_mul_regroup(ra.x, d.x, d.y);
    lemma_mul_regroup(ra.z, d.z, d.y);
    lemma_mul_regroup(ra.x, d.x, d.z);
    lemma_mul_regroup(ra.y, d.y, d.z);
    lemma_mul_regroup(d.dot(d), ra.x, 1);
    lemma_mul_regroup(d.dot(d), ra.y, 1);
    lemma_mul_regroup(d.dot(d), ra.z, 1);
}

/// A rotation about an axis orthogonal to `d`, of other than a half turn,
/// has no twist: the twist is the identity or its negation, whichever has
/// the sign opposite to the real part of `q`, and the swing is `q` with
/// that sign, normalized, which is within 4 units of it: what `q` may lack
/// of a unit, and its rounding.
pub proof fn lemma_pure_swing(q: Quat, d: Vec3)
    requires
        q.is_unit(),
        !d.is_zero(),
        d.dot(q.imag()) == 0,
        q.w != 0,
    ensures
        q.w < 0 ==> swing_twist(q, d).1 == Quat::identity() && swing_twist(q, d).0 == q.stretched(
            ONE as int,
        ) && swing_twist(q, d).0.minus(q).within(4),
        q.w > 0 ==> swing_twist(q, d).1 == Quat::identity().neg() && swing_twist(q, d).0 == q.neg()
            .stretched(ONE as int) && swing_twist(q, d).0.minus(q.neg()).within(4),
{
    let one = ONE as int;
    let dd = d.dot(d);
    let t = twist_direction(q, d);
    lemma_dot_self_positive(d);
    lemma_unit_within(q);
    // Nothing of the imaginary part lies along d.
    assert(0 * d.x == 0 && 0 * d.y == 0 && 0 * d.z == 0);
    lemma_mul_sign(q.w, dd);
    assert(q.w * dd != 0) by (nonlinear_arith)
        requires
            q.w != 0,
            dd > 0,
    ;
    assert(t == (Quat { w: -(q.w * dd), i: 0, j: 0, k: 0 }));
    lemma_reduced(t);
    let r = t.reduced();
    let p = t.reduction();
    lemma_round_div_exact(0, p);
    assert(0 * p == 0);
    lemma_round_div_sign(t.w, p);
    assert(r.i == 0 && r.j == 0 && r.k == 0);
    assert(r.w != 0 && (r.w > 0) == (q.w < 0));
    lemma_stretched_real(r.w, one);
    let twist = swing_twist(q, d).1;
    let sign = if q.w < 0 { 1int } else { -1int };
    assert(twist == (Quat { w: sign * one, i: 0, j: 0, k: 0 }));
    assert(twist.conj() == twist);
    // Composing with it multiplies by one, with that sign.
    lemma_mul_real(q, sign * one);
    let s = if q.w < 0 { q } else { q.neg() };
    lemma_mul_regroup(sign, one, q.w);
    lemma_mul_regroup(sign, one, q.i);
    lemma_mul_regroup(sign, one, q.j);
    lemma_mul_regroup(sign, one, q.k);
    lemma_mul_regroup(one, s.w, 1);
    lemma_mul_regroup(one, s.i, 1);
    lemma_mul_regroup(one, s.j, 1);
    lemma_mul_regroup(one, s.k, 1);
    assert(q.times(sign * one) == s.times(one));
    lemma_rounded_times(s, one);
    lemma_conj_neg_norm(q);
    lemma_unit_within(s);
    lemma_direction_unit(s, 1);
    assert(s.times(1) == s);
    assert(s.reduced() == s);
}

/// Where the twist has a direction, twist and swing are unit quaternions,
/// each with its norm within 3 units of one.
pub proof fn lemma_swing_twist_units(q: Quat, d: Vec3)
    requires
        q.is_unit(),
        !d.is_zero(),
        !twist_direction(q, d).is_zero(),
    ensures
        swing_twist(q, d).0.is_unit(),
        swing_twist(q, d).1.is_unit(),
        swing_twist(q, d).0.is_unit_within(3),
        swing_twist(q, d).1.is_unit_within(3),
{
    let t = twist_direction(q, d);
    lemma_reduced(t);
    lemma_stretched_unit(t.reduced());
    let twist = t.direction();
    lemma_conj_neg_norm(twist);
    lemma_unit_product_near(q, twist.conj());
}

/// The twist has no direction only where the real part of `q` is zero and
/// its imaginary part is orthogonal to `d`; and with an axis within
/// [`TWIST_AXIS_LIMIT`] its direction fits in 128 bits.
pub proof fn lemma_twist_direction(q: Quat, d: Vec3)
    requires
        q.is_unit(),
        !d.is_zero(),
    ensures
        twist_direction(q, d).is_zero() <==> q.w == 0 && d.dot(q.imag()) == 0,
        d.within(TWIST_AXIS_LIMIT as int) ==> twist_direction(q, d).within(DIV_LIMIT as int) && 3
            * (d.max_mag() * q.imag().max_mag()) <= DIV_LIMIT && 3 * (d.max_mag() * d.max_mag())
            <= DIV_LIMIT && mag(q.w * d.dot(d)) <= DIV_LIMIT,
{
    let ra = q.imag();
    let a = d.dot(ra);
    let dd = d.dot(d);
    lemma_dot_self_positive(d);
    lemma_unit_within(q);
    assert((q.w * dd == 0) == (q.w == 0)) by (nonlinear_arith)
        requires
            dd > 0,
    ;
    assert((a * d.x == 0 && a * d.y == 0 && a * d.z == 0) == (a == 0)) by (nonlinear_arith)
        requires
            d.x != 0 || d.y != 0 || d.z != 0,
    ;
    if d.within(TWIST_AXIS_LIMIT as int) {
        let md = d.max_mag();
        let mr = ra.max_mag();
        lemma_dot_bound(d, ra);
        lemma_dot_bound(d, d);
        let k = 3 * (md * mr);
        let n = 3 * (md * md);
        assert(0 <= k <= 453347182777698405580800 && 0 <= n <= 3713820117856140824697372672) by (nonlinear_arith)
            requires
                k == 3 * (md * mr),
                n == 3 * (md * md),
                0 <= md <= 0x2000_0000_0000,
                0 <= mr <= 0x1_0000_0004,
        ;
        lemma_mul_bound(q.w, dd, ONE + 4, 3713820117856140824697372672);
        lemma_mul_bound(a, d.x, 453347182777698405580800, 0x2000_0000_0000);
        lemma_mul_bound(a, d.y, 453347182777698405580800, 0x2000_0000_0000);
        lemma_mul_bound(a, d.z, 453347182777698405580800, 0x2000_0000_0000);
        assert((ONE + 4) * 3713820117856140824697372672 <= DIV_LIMIT && 453347182777698405580800 * 0x2000_0000_0000 <= DIV_LIMIT)
            by (nonlinear_arith);
    }
}

/// What the laws of the twist rest on: the twist times the norm that it was
/// divided by is the reduced direction times one and the scale, within half
/// of that norm; and the reduced direction times what the direction was
/// divided by is the direction, within half of that divisor, or exactly
/// where it was not divided.
proof fn lemma_twist_frame(q: Quat, d: Vec3)
    requires
        q.is_unit(),
        !d.is_zero(),
        !twist_direction(q, d).is_zero(),
    ensures
        ({
            let t = twist_direction(q, d);
            let r = t.reduced();
            let p = t.reduction();
            let f = scale_factor(r.max_mag());
            let n = r.times(f).norm_floor();
            let h = if p == 1 { 0 } else { p };
            let twist = swing_twist(q, d).1;
            &&& p >= 1 && f >= 1 && n >= SCALE_FLOOR
            &&& 0x1000_0000 * ((ONE * f) * h) <= n * p
            &&& 2 * mag(twist.w * n - (ONE * f) * r.w) <= n
            &&& 2 * mag(twist.i * n - (ONE * f) * r.i) <= n
            &&& 2 * mag(twist.j * n - (ONE * f) * r.j) <= n
            &&& 2 * mag(twist.k * n - (ONE * f) * r.k) <= n
            &&& 2 * mag(r.w * p - t.w) <= h
            &&& 2 * mag(r.i * p - t.i) <= h
            &&& 2 * mag(r.j * p - t.j) <= h
            &&& 2 * mag(r.k * p - t.k) <= h
        }),
{
    let one = ONE as int;
    let t = twist_direction(q, d);
    let r = t.reduced();
    let p = t.reduction();
    let f = scale_factor(r.max_mag());
    let u = r.times(f);
    let n = u.norm_floor();
    lemma_reduced(t);
    lemma_scaled(r);
    lemma_round_div_error(one * u.w, n);
    lemma_round_div_error(one * u.i, n);
    lemma_round_div_error(one * u.j, n);
    lemma_round_div_error(one * u.k, n);
    lemma_mul_regroup(one, f, r.w);
    lemma_mul_regroup(one, f, r.i);
    lemma_mul_regroup(one, f, r.j);
    lemma_mul_regroup(one, f, r.k);
    if p == 1 {
        assert((one * f) * 0 == 0);
        lemma_mul_regroup(r.w, 1, 1);
        lemma_mul_regroup(r.i, 1, 1);
        lemma_mul_regroup(r.j, 1, 1);
        lemma_mul_regroup(r.k, 1, 1);
        assert(n * p >= 0) by (nonlinear_arith)
            requires
                n >= 0,
                p >= 1,
        ;
    } else {
        lemma_scale_factor_top(r.max_mag());
        assert(0x1000_0000 * ((one * f) * p) <= n * p) by (nonlinear_arith)
            requires
                one == 0x1_0000_0000,
                1 <= f <= 2,
                p >= 1,
                n >= 0x2000_0000_0000_0000,
        ;
    }
}

/// Two components of [`lemma_twist_parallel`]. `ti`, `tj` are components of
/// the twist and `ri`, `rj` the same of its reduced direction, with `n` the
/// norm that they are divided by and `alpha` the factor that they are
/// multiplied by; `di`, `dj` are the same components of the axis, `a` what
/// the direction multiplies them by and `p` what it was divided by, within
/// half of `h`.
proof fn lemma_parallel_component(
    ti: int,
    tj: int,
    ri: int,
    rj: int,
    di: int,
    dj: int,
    a: int,
    n: int,
    alpha: int,
    p: int,
    h: int,
)
    requires
        n > 0,
        p >= 1,
        alpha >= 0,
        h >= 0,
        0x1000_0000 * (alpha * h) <= n * p,
        2 * mag(ti * n - alpha * ri) <= n,
        2 * mag(tj * n - alpha * rj) <= n,
        2 * mag(ri * p - a * di) <= h,
        2 * mag(rj * p - a * dj) <= h,
    ensures
        0x1000_0000 * (2 * mag(ti * dj - tj * di)) <= (mag(di) + mag(dj)) * 0x1000_0001,
{
    let cz = ti * dj - tj * di;
    let ei = ti * n - alpha * ri;
    let ej = tj * n - alpha * rj;
    let gi = ri * p - a * di;
    let gj = rj * p - a * dj;
    let sum = mag(di) + mag(dj);
    // n times the component, split into what the axis and the rounding give.
    let y = ri * dj - rj * di;
    let u = alpha * y;
    let v = ei * dj - ej * di;
    lemma_distribute2(ti * dj, tj * di, n);
    lemma_mul_regroup(ti, dj, n);
    lemma_mul_regroup(tj, di, n);
    lemma_distribute2(alpha * ri, ei, dj);
    lemma_distribute2(alpha * rj, ej, di);
    lemma_distribute2(ri * dj, rj * di, alpha);
    lemma_mul_regroup(alpha, ri, dj);
    lemma_mul_regroup(alpha, rj, di);
    assert(cz * n == u + v);
    // p times the first part: only the rounding of the direction is left.
    let w = gi * dj - gj * di;
    lemma_distribute2(ri * dj, rj * di, p);
    lemma_mul_regroup(ri, dj, p);
    lemma_mul_regroup(rj, di, p);
    lemma_distribute2(a * di, gi, dj);
    lemma_distribute2(a * dj, gj, di);
    lemma_mul_regroup(a, di, dj);
    assert(y * p == w);
    lemma_mul_regroup(alpha, y, p);
    lemma_distribute2(u, v, p);
    assert((cz * n) * p == alpha * w + v * p);
    // The bounds of the two parts.
    lemma_mul_bound(gi, dj, mag(gi), mag(dj));
    lemma_mul_bound(gj, di, mag(gj), mag(di));
    lemma_half_bound(mag(gi), mag(dj), h);
    lemma_half_bound(mag(gj), mag(di), h);
    lemma_distribute2(mag(di), mag(dj), h);
    assert(2 * mag(w) <= h * sum);
    lemma_mul_bound(ei, dj, mag(ei), mag(dj));
    lemma_mul_bound(ej, di, mag(ej), mag(di));
    lemma_half_bound(mag(ei), mag(dj), n);
    lemma_half_bound(mag(ej), mag(di), n);
    lemma_distribute2(mag(di), mag(dj), n);
    assert(2 * mag(v) <= n * sum);
    lemma_mul_bound(alpha, w, alpha, mag(w));
    lemma_mul_bound(v, p, mag(v), p);
    let np = n * p;
    let c = mag(cz);
    assert(np >= 1) by (nonlinear_arith)
        requires
            np == n * p,
            n >= 1,
            p >= 1,
    ;
    lemma_mul_bound(cz, n, c, n);
    lemma_mul_bound(cz * n, p, c * n, p);
    lemma_mul_regroup(c, n, p);
    assert(2 * (alpha * mag(w)) <= (alpha * h) * sum) by (nonlinear_arith)
        requires
            alpha >= 0,
            2 * mag(w) <= h * sum,
    ;
    assert(2 * (mag(v) * p) <= np * sum) by (nonlinear_arith)
        requires
            p >= 1,
            np == n * p,
            2 * mag(v) <= n * sum,
    ;
    assert(2 * (c * np) <= (alpha * h) * sum + np * sum);
    assert(0x1000_0000 * (2 * c) <= sum * 0x1000_0001) by (nonlinear_arith)
        requires
            np > 0,
            sum >= 0,
            c >= 0,
            2 * (c * np) <= (alpha * h) * sum + np * sum,
            0x1000_0000 * (alpha * h) <= np,
    ;
}

/// One component of [`lemma_twist_alignment`]: `u` is the component of the
/// direction, `r` that of the reduced direction and `t` that of the twist.
proof fn lemma_aligned_component(a: int, di: int, u: int, r: int, p: int, f: int, n: int, t: int)
    requires
        a >= 0,
        p >= 1,
        f >= 1,
        n > 0,
        u == a * di,
        r == u || r == round_div(u, p),
        t == round_div(ONE * (f * r), n),
    ensures
        t * di >= 0,
{
    lemma_mul_sign(a, di);
    lemma_round_div_sign(u, p);
    // The component before normalizing has the sign of that of d, or is zero.
    assert((di >= 0 ==> r >= 0) && (di <= 0 ==> r <= 0));
    lemma_mul_sign(f, r);
    lemma_mul_sign(ONE as int, f * r);
    lemma_round_div_sign(ONE * (f * r), n);
    lemma_mul_sign(t, di);
}

/// The product of `q` with the inverse of the twist, before it is rounded:
/// the inner product of its imaginary part with `d` is at most four units
/// for each unit of the sum of the magnitudes of `d`.
proof fn lemma_unrounded_swing(q: Quat, d: Vec3)
    requires
        q.is_unit(),
        !d.is_zero(),
        !twist_direction(q, d).is_zero(),
    ensures
        mag(q.mul(swing_twist(q, d).1.conj()).imag().dot(d)) <= (ONE + 22) * d.sum_mag(),
{
    let one = ONE as int;
    let t = twist_direction(q, d);
    let r = t.reduced();
    let p = t.reduction();
    let f = scale_factor(r.max_mag());
    let n = r.times(f).norm_floor();
    let h = if p == 1 { 0 } else { p };
    let twist = swing_twist(q, d).1;
    let alpha = one * f;
    let np = n * p;
    let sum = d.sum_mag();
    let l = one + 22;
    lemma_twist_frame(q, d);
    lemma_unit_within(q);
    assert(np >= 1 && alpha >= 0) by (nonlinear_arith)
        requires
            np == n * p,
            alpha == one * f,
            n >= 1,
            p >= 1,
            one >= 0,
            f >= 1,
    ;
    // The twist, times the norm and the divisor, is the direction times
    // alpha, plus what the two roundings added.
    let e = twist.times(np).minus(t.times(alpha));
    lemma_frame_component(twist.w, r.w, t.w, n, p, alpha, h);
    lemma_frame_component(twist.i, r.i, t.i, n, p, alpha, h);
    lemma_frame_component(twist.j, r.j, t.j, n, p, alpha, h);
    lemma_frame_component(twist.k, r.k, t.k, n, p, alpha, h);
    lemma_mul_neg(np, twist.i);
    lemma_mul_neg(np, twist.j);
    lemma_mul_neg(np, twist.k);
    lemma_mul_neg(alpha, t.i);
    lemma_mul_neg(alpha, t.j);
    lemma_mul_neg(alpha, t.k);
    assert(twist.conj().times(np) == t.conj().times(alpha).plus(e.conj()));
    // So the product, times the same, is alpha times that with the
    // direction, whose imaginary part is orthogonal to d, plus that with
    // the roundings.
    let a = q.mul(twist.conj());
    let b = q.mul(t.conj());
    let c = q.mul(e.conj());
    lemma_mul_times(q, twist.conj(), np);
    lemma_mul_plus_right(q, t.conj().times(alpha), e.conj());
    lemma_mul_times(q, t.conj(), alpha);
    assert(a.times(np) == b.times(alpha).plus(c));
    assert(a.times(np).imag() == b.imag().times(alpha).plus(c.imag()));
    assert(a.times(np).imag() == a.imag().times(np));
    lemma_dot_linear(b.imag().times(alpha), c.imag(), 1, d);
    lemma_dot_linear(b.imag(), b.imag(), alpha, d);
    lemma_dot_linear(a.imag(), a.imag(), np, d);
    lemma_direction_product(q, d);
    let xa = a.imag().dot(d);
    let xc = c.imag().dot(d);
    assert(alpha * 0 == 0);
    assert(np * xa == xc);
    lemma_small_product(q, e.conj(), np);
    lemma_dot_within(c.imag(), d, l * np);
    lemma_mul_bound(np, xa, np, mag(xa));
    assert(mag(xa) <= l * sum) by (nonlinear_arith)
        requires
            np >= 1,
            sum >= 0,
            l >= 0,
            np * mag(xa) <= (l * np) * sum,
    ;
}

/// One component of [`lemma_unrounded_swing`]: what the two roundings add
/// to the twist, times the norm `n` and the divisor `p`.
proof fn lemma_frame_component(tw: int, r: int, t: int, n: int, p: int, alpha: int, h: int)
    requires
        n >= 1,
        p >= 1,
        alpha >= 0,
        0 <= h,
        0x1000_0000 * (alpha * h) <= n * p,
        2 * mag(tw * n - alpha * r) <= n,
        2 * mag(r * p - t) <= h,
    ensures
        0x1000_0000 * (2 * mag((n * p) * tw - alpha * t)) <= 0x1000_0001 * (n * p),
{
    let e = tw * n - alpha * r;
    let g = r * p - t;
    lemma_mul_regroup(tw, n, p);
    lemma_mul_regroup(n * p, tw, 1);
    lemma_distribute2(alpha * r, e, p);
    lemma_mul_regroup(alpha, r, p);
    lemma_distribute2(t, g, alpha);
    assert((n * p) * tw - alpha * t == alpha * g + e * p);
    lemma_mul_bound(alpha, g, alpha, mag(g));
    lemma_mul_bound(e, p, mag(e), p);
    assert(2 * (alpha * mag(g)) <= alpha * h && 2 * (mag(e) * p) <= n * p) by (nonlinear_arith)
        requires
            alpha >= 0,
            p >= 1,
            2 * mag(g) <= h,
            2 * mag(e) <= n,
    ;
}

/// The product of `q` with the conjugate of the direction of the twist has
/// an imaginary part orthogonal to `d`, exactly.
proof fn lemma_direction_product(q: Quat, d: Vec3)
    ensures
        q.mul(twist_direction(q, d).conj()).imag().dot(d) == 0,
{
    let a = d.dot(q.imag());
    let g = d.times(a).with_real(q.w * d.dot(d));
    let b = q.mul(g.conj());
    lemma_direction_product_exact(q, d);
    if !(a > 0) {
        assert(g.neg().conj() == g.conj().times(-1));
        lemma_mul_times(q, g.conj(), -1);
        lemma_dot_linear(b.imag(), b.imag(), -1, d);
        assert(b.times(-1).imag() == b.imag().times(-1));
    }
}

/// The same before the sign is chosen: with `r` the imaginary part of `q`,
/// `a` its inner product with `d` and `n` that of `d` with itself, the
/// imaginary part of the product is `w n r - w a d - a r x d`, and each of
/// its three parts gives nothing along `d`, or what another takes away.
proof fn lemma_direction_product_exact(q: Quat, d: Vec3)
    ensures
        q.mul(d.times(d.dot(q.imag())).with_real(q.w * d.dot(d)).conj()).imag().dot(d) == 0,
{
    let w = q.w;
    let (rx, ry, rz) = (q.i, q.j, q.k);
    let (dx, dy, dz) = (d.x, d.y, d.z);
    let a = d.dot(q.imag());
    let n = d.dot(d);
    let wn = w * n;
    let (px, py, pz) = (a * dx, a * dy, a * dz);
    let b = q.mul(d.times(a).with_real(wn).conj());
    // The three components of the product, times those of d.
    lemma_mul_neg(w, px);
    lemma_mul_neg(w, py);
    lemma_mul_neg(w, pz);
    lemma_mul_neg(rx, py);
    lemma_mul_neg(rx, pz);
    lemma_mul_neg(ry, px);
    lemma_mul_neg(ry, pz);
    lemma_mul_neg(rz, px);
    lemma_mul_neg(rz, py);
    assert(b.i == rx * wn - w * px - ry * pz + rz * py);
    assert(b.j == ry * wn - w * py + rx * pz - rz * px);
    assert(b.k == rz * wn - w * pz - rx * py + ry * px);
    lemma_distribute_signed(rx * wn, w * px, ry * pz, -(rz * py), dx);
    lemma_distribute_signed(ry * wn, w * py, -(rx * pz), rz * px, dy);
    lemma_distribute_signed(rz * wn, w * pz, rx * py, -(ry * px), dz);
    lemma_mul_neg(rz * py, dx);
    lemma_mul_neg(rx * pz, dy);
    lemma_mul_neg(ry * px, dz);
    // What turns about d cancels in pairs.
    lemma_triple(ry, a, dz, dx);
    lemma_triple(rz, a, dy, dx);
    lemma_triple(rx, a, dz, dy);
    lemma_triple(rz, a, dx, dy);
    lemma_triple(rx, a, dy, dz);
    lemma_triple(ry, a, dx, dz);
    // What is left is w n (r.d) - w a (d.d), which is nothing.
    lemma_mul_regroup(rx, wn, dx);
    lemma_mul_regroup(ry, wn, dy);
    lemma_mul_regroup(rz, wn, dz);
    lemma_mul_regroup(wn, rx, dx);
    lemma_mul_regroup(wn, ry, dy);
    lemma_mul_regroup(wn, rz, dz);
    lemma_mul_regroup(rx, dx, 1);
    lemma_mul_regroup(ry, dy, 1);
    lemma_mul_regroup(rz, dz, 1);
    lemma_distribute3(dx * rx, dy * ry, dz * rz, wn);
    assert((rx * wn) * dx + (ry * wn) * dy + (rz * wn) * dz == wn * a);
    let wa = w * a;
    lemma_mul_regroup(w, a, dx);
    lemma_mul_regroup(w, a, dy);
    lemma_mul_regroup(w, a, dz);
    lemma_mul_regroup(wa, dx, dx);
    lemma_mul_regroup(wa, dy, dy);
    lemma_mul_regroup(wa, dz, dz);
    lemma_distribute3(dx * dx, dy * dy, dz * dz, wa);
    assert((w * px) * dx + (w * py) * dy + (w * pz) * dz == wa * n);
    lemma_mul_regroup(w, n, a);
    lemma_mul_regroup(w, a, n);
}

/// Three factors and a fourth, regrouped: `(r (a s)) t` is `(r (a t)) s`.
proof fn lemma_triple(r: int, a: int, s: int, t: int)
    ensures
        (r * (a * s)) * t == (r * (a * t)) * s,
{
    assert((r * (a * s)) * t == (r * (a * t)) * s) by (nonlinear_arith);
}

} // verus!
