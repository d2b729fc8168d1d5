use rotation_metrics::fixed::ONE;
use rotation_metrics::log_exp::EPSILON;
use rotation_metrics::quaternion::{Quaternion, UnitQuaternion};
use rotation_metrics::validate::{validate_axis, validate_quaternion, RotationError};
use rotation_metrics::vector::Vector3;

#[test]
fn a_unit_is_accepted_as_it_is() {
    let q = Quaternion { w: 0, i: ONE, j: 0, k: 0 };
    assert_eq!(validate_quaternion(q), Ok(UnitQuaternion { w: 0, i: ONE, j: 0, k: 0 }));
}

#[test]
fn a_quaternion_at_the_edge_of_the_tolerance() {
    // The square of ONE + 4 is 8 * ONE + 16 above that of ONE, within the
    // tolerance of 9 * ONE; that of ONE + 5 is beyond it.
    let inside = Quaternion { w: ONE + 4, i: 0, j: 0, k: 0 };
    assert!(validate_quaternion(inside).is_ok());
    let outside = Quaternion { w: ONE + 5, i: 0, j: 0, k: 0 };
    assert_eq!(validate_quaternion(outside), Err(RotationError::InvalidQuaternion));
    let below = Quaternion { w: ONE - 5, i: 0, j: 0, k: 0 };
    assert_eq!(validate_quaternion(below), Err(RotationError::InvalidQuaternion));
    let near = Quaternion { w: -(ONE - 4), i: 0, j: 0, k: 0 };
    assert!(validate_quaternion(near).is_ok());
}

#[test]
fn a_quaternion_a_billionth_off_the_unit_is_accepted() {
    // The norm of (1 + 1e-9, 0, 0, 0) is a billionth above one: four units.
    for w in [ONE + 4, ONE - 4] {
        let q = Quaternion { w: 0, i: 0, j: w, k: 0 };
        assert_eq!(validate_quaternion(q), Ok(UnitQuaternion { w: 0, i: 0, j: w, k: 0 }));
    }
}

#[test]
fn a_quaternion_of_another_length_is_refused() {
    let zero = Quaternion { w: 0, i: 0, j: 0, k: 0 };
    assert_eq!(validate_quaternion(zero), Err(RotationError::InvalidQuaternion));
    let long = Quaternion { w: ONE, i: ONE, j: 0, k: 0 };
    assert_eq!(validate_quaternion(long), Err(RotationError::InvalidQuaternion));
    let huge = Quaternion { w: i64::MIN, i: i64::MAX, j: i64::MIN, k: i64::MAX };
    assert_eq!(validate_quaternion(huge), Err(RotationError::InvalidQuaternion));
}

#[test]
fn an_axis_is_accepted_as_it_is() {
    let d = Vector3 { x: 0, y: -3 * ONE, z: 4 * ONE };
    assert_eq!(validate_axis(d), Ok(d));
}

#[test]
fn an_axis_at_the_least_length() {
    let shortest = Vector3 { x: EPSILON, y: 0, z: 0 };
    assert_eq!(validate_axis(shortest), Ok(shortest));
    let shorter = Vector3 { x: 0, y: 0, z: EPSILON - 1 };
    assert_eq!(validate_axis(shorter), Err(RotationError::InvalidAxis));
    let zero = Vector3 { x: 0, y: 0, z: 0 };
    assert_eq!(validate_axis(zero), Err(RotationError::InvalidAxis));
}

#[test]
fn an_axis_at_the_limit_of_the_range() {
    let limit: i64 = 1 << 44;
    let largest = Vector3 { x: limit, y: -limit, z: limit };
    assert_eq!(validate_axis(largest), Ok(largest));
    let beyond = Vector3 { x: limit + 1, y: 0, z: 0 };
    assert_eq!(validate_axis(beyond), Err(RotationError::OutOfRange));
    let least = Vector3 { x: 0, y: i64::MIN, z: 0 };
    assert_eq!(validate_axis(least), Err(RotationError::OutOfRange));
}
