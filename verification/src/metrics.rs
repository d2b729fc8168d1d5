//! Angular distances between two orientations: in all, and split into the
//! swing and the twist about an axis.

use vstd::prelude::*;
use crate::algebra::{lemma_conj_neg_norm, lemma_mul_conj, Quat, Vec3};
use crate::fixed::{
    lemma_round_div_bound, lemma_round_div_exact, lemma_round_div_nonneg, lemma_sqrt_floor_bounds,
    round_div, sqrt_floor, ONE,
};
use crate::log_exp::{
    lemma_log_norm, log_length_is_half_angle, log_of, log_scales, quaternion_log, LOG_LIMIT,
};
use crate::normalize::lemma_stretched_real;
use crate::quaternion::{
    composed, lemma_compose_displacement, lemma_unit_product_near, rotated, UnitQuaternion,
};
use crate::scaled::ScaledVector3;
use crate::swing_twist::{swing_twist, swing_twist_about};
use crate::vector::{lemma_dot_self_positive, vector_norm, Vector3};

verus! {

/// The rotation that takes the orientation `q` to `q_prime`, in the frame
/// of `q`.
pub open spec fn displacement(q: Quat, q_prime: Quat) -> Quat {
    composed(q.conj(), q_prime)
}

/// The angle of the rotation whose rotation vector is `v`: twice its
/// length.
pub open spec fn angle_of(v: Vec3) -> int {
    2 * v.norm_floor()
}

/// The axis `d` seen from the frame of `q`.
pub open spec fn axis_in_frame(q: Quat, d: Vec3) -> Vec3 {
    rotated(q.conj(), d)
}

/// Whether swing and twist between `q` and `q_prime` about `d` are defined:
/// there is an axis, and the displacement is not a half turn about an axis
/// orthogonal to it, with its real part zero and its imaginary part
/// orthogonal to the axis as seen from `q`.
pub open spec fn decomposable(q: Quat, q_prime: Quat, d: Vec3) -> bool {
    let axis = axis_in_frame(q, d);
    let turn = displacement(q, q_prime);
    !d.is_zero() && !(turn.w == 0 && axis.dot(turn.imag()) == 0)
}

/// Swing and twist, in that order, of the displacement from `q` to
/// `q_prime` about the axis `d` given in the frame in which `q` is given.
pub open spec fn relative_swing_twist(q: Quat, q_prime: Quat, d: Vec3) -> (Quat, Quat) {
    swing_twist(displacement(q, q_prime), axis_in_frame(q, d))
}

/// The rotation vector of the displacement from `q` to `q_prime`.
pub fn quaternion_disp(q: UnitQuaternion, q_prime: UnitQuaternion) -> (r: Vector3)
    requires
        q.wf(),
        q_prime.wf(),
    ensures
        r@ == log_of(displacement(q@, q_prime@)),
        r@.within(LOG_LIMIT as int),
        r@.norm_floor() <= LOG_LIMIT,
        q@ == q_prime@ ==> r@.is_zero(),
{
    proof {
        if q@ == q_prime@ {
            lemma_displacement_to_itself(q@);
        }
    }
    quaternion_log(quaternion_dispQ(q, q_prime))
}

/// The displacement from `q` to `q_prime`: the inverse of `q` composed with
/// `q_prime`. Composed with `q` it gives `q_prime` back within 16 units.
#[allow(non_snake_case)]
pub fn quaternion_dispQ(q: UnitQuaternion, q_prime: UnitQuaternion) -> (r: UnitQuaternion)
    requires
        q.wf(),
        q_prime.wf(),
    ensures
        r@ == displacement(q@, q_prime@),
        r.wf(),
        q@ == q_prime@ ==> r@ == Quat::identity(),
        composed(q@, r@).minus(q_prime@).within(16),
{
    proof {
        if q@ == q_prime@ {
            lemma_displacement_to_itself(q@);
        }
        lemma_compose_displacement(q@, q_prime@);
    }
    q.inverse().compose(&q_prime)
}

/// The angle of the rotation between two orientations.
pub fn angle_between_quaternion(q: UnitQuaternion, q_prime: UnitQuaternion) -> (r: i64)
    requires
        q.wf(),
        q_prime.wf(),
    ensures
        r == angle_of(log_of(displacement(q@, q_prime@))),
        0 <= r <= 2 * LOG_LIMIT,
        q@ == q_prime@ ==> r == 0,
        log_scales(displacement(q@, q_prime@)) ==> log_length_is_half_angle(
            displacement(q@, q_prime@),
        ),
{
    proof {
        if q@ == q_prime@ {
            lemma_displacement_to_itself(q@);
        }
        if log_scales(displacement(q@, q_prime@)) {
            lemma_angle_between(q@, q_prime@);
        }
    }
    let v = quaternion_disp(q, q_prime);
    rotation_angle(&v)
}

/// The angle of the swing between two orientations: of that part of the
/// displacement that turns about an axis orthogonal to `d`.
///
/// There is no result where the decomposition is not defined.
pub fn angle_between_swing_quaternion(
    q: UnitQuaternion,
    q_prime: UnitQuaternion,
    axis: ScaledVector3,
) -> (r: Option<i64>)
    requires
        q.wf(),
        q_prime.wf(),
        axis.wf(),
    ensures
        r.is_some() <==> decomposable(q@, q_prime@, axis@.axis()),
        r.is_some() ==> r.unwrap() == angle_of(
            log_of(relative_swing_twist(q@, q_prime@, axis@.axis()).0),
        ),
        r.is_some() ==> 0 <= r.unwrap() <= 2 * LOG_LIMIT,
        r.is_some() && log_scales(relative_swing_twist(q@, q_prime@, axis@.axis()).0)
            ==> log_length_is_half_angle(relative_swing_twist(q@, q_prime@, axis@.axis()).0),
{
    match relative_decomposition(q, q_prime, axis) {
        Some((swing, _)) => {
            let v = quaternion_log(swing);
            Some(rotation_angle(&v))
        },
        None => None,
    }
}

/// The angle of the twist between two orientations: of that part of the
/// displacement that turns about `d`.
///
/// There is no result where the decomposition is not defined.
pub fn angle_between_twist_quaternion(
    q: UnitQuaternion,
    q_prime: UnitQuaternion,
    axis: ScaledVector3,
) -> (r: Option<i64>)
    requires
        q.wf(),
        q_prime.wf(),
        axis.wf(),
    ensures
        r.is_some() <==> decomposable(q@, q_prime@, axis@.axis()),
        r.is_some() ==> r.unwrap() == angle_of(
            log_of(relative_swing_twist(q@, q_prime@, axis@.axis()).1),
        ),
        r.is_some() ==> 0 <= r.unwrap() <= 2 * LOG_LIMIT,
        r.is_some() && log_scales(relative_swing_twist(q@, q_prime@, axis@.axis()).1)
            ==> log_length_is_half_angle(relative_swing_twist(q@, q_prime@, axis@.axis()).1),
{
    match relative_decomposition(q, q_prime, axis) {
        Some((_, twist)) => {
            let v = quaternion_log(twist);
            Some(rotation_angle(&v))
        },
        None => None,
    }
}

/// Decomposes the displacement from `q` to `q_prime` about the axis `d`
/// taken into the frame of `q`.
fn relative_decomposition(
    q: UnitQuaternion,
    q_prime: UnitQuaternion,
    axis: ScaledVector3,
) -> (r: Option<(UnitQuaternion, UnitQuaternion)>)
    requires
        q.wf(),
        q_prime.wf(),
        axis.wf(),
    ensures
        r.is_some() <==> decomposable(q@, q_prime@, axis@.axis()),
        r.is_some() ==> (r.unwrap().0@, r.unwrap().1@) == relative_swing_twist(
            q@,
            q_prime@,
            axis@.axis(),
        ),
        r.is_some() ==> r.unwrap().0.wf() && r.unwrap().1.wf(),
{
    if axis.is_zero() {
        return None;
    }
    let d = axis.axis();
    let inverse = q.inverse();
    let rotation = inverse.compose(&q_prime);
    let seen = inverse.rotate(&d);
    swing_twist_about(rotation, seen)
}

/// Twice the length of a rotation vector.
fn rotation_angle(v: &Vector3) -> (r: i64)
    requires
        v@.within(LOG_LIMIT as int),
        v@.norm_floor() <= LOG_LIMIT,
    ensures
        r == angle_of(v@),
        0 <= r <= 2 * LOG_LIMIT,
{
    2 * vector_norm(v)
}

/// From an orientation to itself the displacement is the identity, its
/// rotation vector is zero, and so is the angle.
pub proof fn lemma_displacement_to_itself(q: Quat)
    requires
        q.is_unit(),
    ensures
        displacement(q, q) == Quat::identity(),
        log_of(displacement(q, q)).is_zero(),
        angle_of(log_of(displacement(q, q))) == 0,
{
    let one = ONE as int;
    let n = q.norm_sq();
    lemma_mul_conj(q);
    let m = round_div(n, one);
    lemma_round_div_nonneg(n, one);
    assert((one + 9) * one == 0x1_0000_0009_0000_0000) by (nonlinear_arith)
        requires
            one == 0x1_0000_0000,
    ;
    lemma_round_div_bound(n, one, one + 9);
    assert(m > 0) by (nonlinear_arith)
        requires
            2 * (m * one) >= 2 * n - one,
            n >= 0xffff_fff7_0000_0000,
            one == 0x1_0000_0000,
    ;
    lemma_round_div_exact(0, one);
    assert(0 * one == 0);
    assert(q.conj().mul(q).rounded(one) == (Quat { w: m, i: 0, j: 0, k: 0 }));
    lemma_stretched_real(m, one);
    lemma_zero_angle();
}

/// The angle between two orientations is twice the arc cosine of the real
/// part of their displacement: where the imaginary part of the displacement
/// is scaled, its rotation vector is that arc cosine long, and the angle is
/// twice the length, rounded down.
pub proof fn lemma_angle_between(q: Quat, q_prime: Quat)
    requires
        q.is_unit(),
        q_prime.is_unit(),
        log_scales(displacement(q, q_prime)),
    ensures
        log_length_is_half_angle(displacement(q, q_prime)),
        ({
            let r = log_of(displacement(q, q_prime));
            let angle = angle_of(r);
            angle >= 0 && angle * angle <= 4 * r.dot(r) < (angle + 2) * (angle + 2)
        }),
{
    let d = displacement(q, q_prime);
    let r = log_of(d);
    lemma_conj_neg_norm(q);
    lemma_unit_product_near(q.conj(), q_prime);
    lemma_log_norm(d);
    lemma_dot_self_positive(r);
    lemma_sqrt_floor_bounds(r.dot(r) as nat);
    let n = r.norm_floor();
    assert((2 * n) * (2 * n) == 4 * (n * n) && (2 * n + 2) * (2 * n + 2) == 4 * ((n + 1) * (n
        + 1))) by (nonlinear_arith);
}

/// The rotation vector of the identity, and of its negation, is zero, and
/// the angle of the zero vector is zero.
pub proof fn lemma_zero_angle()
    ensures
        log_of(Quat::identity()).is_zero(),
        log_of(Quat::identity().neg()).is_zero(),
        angle_of(Vec3 { x: 0, y: 0, z: 0 }) == 0,
{
    let z = Vec3 { x: 0, y: 0, z: 0 };
    assert(z.dot(z) == 0) by (nonlinear_arith)
        requires
            z.dot(z) == 0 * 0 + 0 * 0 + 0 * 0,
    ;
    assert(sqrt_floor(0) == 0);
}

} // verus!
