//! Checks on values that come from outside: whether a quaternion is a unit,
//! and whether a vector can serve as an axis.

use vstd::prelude::*;
use crate::algebra::{UNIT_TOLERANCE, Vec3};
use crate::arith::lemma_mul_bound;
use crate::fixed::{lemma_sqrt_floor_bounds, mul_wide, sqrt_floor, ONE, ONE_SQ};
use crate::log_exp::EPSILON;
use crate::normalize::lemma_unit_within;
use crate::quaternion::{AXIS_LIMIT, Quaternion, UnitQuaternion};
use crate::vector::{lemma_dot_self_positive, vector_norm, Vector3};

verus! {

/// Why a value was refused.
#[derive(Clone, Copy, Debug, PartialEq, Eq)]
pub enum RotationError {
    /// The axis is shorter than [`EPSILON`].
    InvalidAxis,
    /// The squared norm of the quaternion is further from one than
    /// [`UNIT_TOLERANCE`].
    InvalidQuaternion,
    /// A component of the axis is beyond [`AXIS_LIMIT`], what the arithmetic
    /// in 128 bits has room for.
    OutOfRange,
}

/// An axis long enough to have a direction: its length is [`EPSILON`] at
/// least.
pub open spec fn is_axis(d: Vec3) -> bool {
    d.norm_floor() >= EPSILON
}

/// Accepts a quaternion as a rotation if it is a unit.
pub fn validate_quaternion(q: Quaternion) -> (r: Result<UnitQuaternion, RotationError>)
    ensures
        q@.is_unit() ==> r.is_ok() && r.unwrap()@ == q@ && r.unwrap().wf(),
        !q@.is_unit() ==> r ==
            Err::<UnitQuaternion, RotationError>(RotationError::InvalidQuaternion),
{
    let lim: i64 = ONE + 4;
    proof {
        if q@.is_unit() {
            lemma_unit_within(q@);
        }
    }
    if !q.is_within(lim) {
        return Err(RotationError::InvalidQuaternion);
    }
    proof {
        let l = lim as int;
        lemma_mul_bound(q@.w, q@.w, l, l);
        lemma_mul_bound(q@.i, q@.i, l, l);
        lemma_mul_bound(q@.j, q@.j, l, l);
        lemma_mul_bound(q@.k, q@.k, l, l);
        assert(l * l == 0x1_0000_0008_0000_0010) by (nonlinear_arith)
            requires
                l == 0x1_0000_0004,
        ;
    }
    let n: i128 = mul_wide(q.w, q.w) + mul_wide(q.i, q.i) + mul_wide(q.j, q.j) + mul_wide(
        q.k,
        q.k,
    );
    let off: i128 = n - ONE_SQ;
    if off > UNIT_TOLERANCE as i128 || off < -(UNIT_TOLERANCE as i128) {
        return Err(RotationError::InvalidQuaternion);
    }
    Ok(UnitQuaternion { w: q.w, i: q.i, j: q.j, k: q.k })
}

/// Accepts a vector as an axis if its length is at least [`EPSILON`]. A
/// vector with a component beyond [`AXIS_LIMIT`] is out of range.
pub fn validate_axis(d: Vector3) -> (r: Result<Vector3, RotationError>)
    ensures
        !d@.within(AXIS_LIMIT as int) ==> r == Err::<Vector3, RotationError>(
            RotationError::OutOfRange,
        ),
        d@.within(AXIS_LIMIT as int) && !is_axis(d@) ==> r == Err::<Vector3, RotationError>(
            RotationError::InvalidAxis,
        ),
        d@.within(AXIS_LIMIT as int) && is_axis(d@) ==> r == Ok::<Vector3, RotationError>(d)
            && !d@.is_zero(),
{
    if !d.is_within(AXIS_LIMIT) {
        return Err(RotationError::OutOfRange);
    }
    let n = vector_norm(&d);
    if n < EPSILON {
        return Err(RotationError::InvalidAxis);
    }
    proof {
        lemma_dot_self_positive(d@);
        lemma_sqrt_floor_bounds(d@.dot(d@) as nat);
        if d@.is_zero() {
            assert(sqrt_floor(0) == 0);
        }
    }
    Ok(d)
}

} // verus!
