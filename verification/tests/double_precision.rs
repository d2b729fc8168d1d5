use nalgebra::{Quaternion, UnitQuaternion, Vector3, Vector4};
use rotation_metrics::fixed::ONE;
use rotation_metrics::log_exp;
use rotation_metrics::metrics;
use rotation_metrics::quaternion as fixed_point;
use rotation_metrics::scaled;
use rotation_metrics::swing_twist;
use rotation_metrics::vector;

// The same quantities in double precision, to hold the fixed-point results
// against.

fn log_f64(q: UnitQuaternion<f64>) -> Vector3<f64> {
    let mut out = Vector3::new(q.i, q.j, q.k);
    if q.w.abs() < 1.0 {
        let a = q.w.acos();
        let s = a.sin();
        if s.abs() >= 0.005 {
            out *= a / s;
        }
    }
    out
}

fn exp_f64(v: Vector3<f64>) -> UnitQuaternion<f64> {
    let mut qv = Vector4::new(1.0, v[0], v[1], v[2]);
    let a = qv.norm();
    let s = a.sin();
    if s.abs() >= 0.005 {
        qv *= s / a;
    }
    UnitQuaternion::from_quaternion(Quaternion::new(a.cos(), qv[1], qv[2], qv[3]))
}

fn projection_f64(a: Vector3<f64>, b: Vector3<f64>) -> Vector3<f64> {
    b * (a.dot(&b) / b.dot(&b))
}

fn swing_twist_f64(
    q: UnitQuaternion<f64>,
    d: Vector3<f64>,
) -> (UnitQuaternion<f64>, UnitQuaternion<f64>) {
    let ra = Vector3::new(q.i, q.j, q.k);
    let p = projection_f64(ra, d);
    let twist = if d.dot(&ra) > 0.0 {
        UnitQuaternion::from_quaternion(Quaternion::new(q.w, p.x, p.y, p.z))
    } else {
        UnitQuaternion::from_quaternion(Quaternion::new(-q.w, -p.x, -p.y, -p.z))
    };
    (q * twist.conjugate(), twist)
}

fn to_real(raw: i64) -> f64 {
    raw as f64 / ONE as f64
}

fn to_raw(x: f64) -> i64 {
    (x * ONE as f64).round() as i64
}

fn vector_in(v: &Vector3<f64>) -> vector::Vector3 {
    vector::Vector3 { x: to_raw(v.x), y: to_raw(v.y), z: to_raw(v.z) }
}

fn vector_out(v: &vector::Vector3) -> Vector3<f64> {
    Vector3::new(to_real(v.x), to_real(v.y), to_real(v.z))
}

fn rotation_in(q: &UnitQuaternion<f64>) -> fixed_point::UnitQuaternion {
    fixed_point::UnitQuaternion::from_quaternion(fixed_point::Quaternion {
        w: to_raw(q.w),
        i: to_raw(q.i),
        j: to_raw(q.j),
        k: to_raw(q.k),
    })
    .unwrap()
}

fn rotation_out(q: &fixed_point::UnitQuaternion) -> UnitQuaternion<f64> {
    UnitQuaternion::new_unchecked(Quaternion::new(
        to_real(q.w),
        to_real(q.i),
        to_real(q.j),
        to_real(q.k),
    ))
}

fn distance(a: &UnitQuaternion<f64>, b: &UnitQuaternion<f64>) -> f64 {
    (a.coords - b.coords).amax()
}

/// A small generator of reproducible numbers between -1 and 1.
struct Numbers(u64);

impl Numbers {
    fn next(&mut self) -> f64 {
        self.0 = self.0.wrapping_mul(6364136223846793005).wrapping_add(1442695040888963407);
        ((self.0 >> 11) as f64 / (1u64 << 53) as f64) * 2.0 - 1.0
    }

    fn vector(&mut self, scale: f64) -> Vector3<f64> {
        Vector3::new(self.next() * scale, self.next() * scale, self.next() * scale)
    }

    fn rotation(&mut self) -> UnitQuaternion<f64> {
        loop {
            let q = Quaternion::new(self.next(), self.next(), self.next(), self.next());
            if q.norm() > 0.1 {
                return UnitQuaternion::from_quaternion(q);
            }
        }
    }
}

#[test]
fn log_agrees_with_double_precision() {
    let mut numbers = Numbers(101);
    for _ in 0..500 {
        let q = numbers.rotation();
        if q.w.abs() > 0.9999 {
            continue;
        }
        let v = log_exp::quaternion_log(rotation_in(&q));
        assert!((vector_out(&v) - log_f64(q)).amax() < 1e-6, "at {}", q);
    }
}

#[test]
fn exp_agrees_with_double_precision() {
    let mut numbers = Numbers(103);
    for _ in 0..500 {
        let v = numbers.vector(4.0);
        if (1.0 + v.norm_squared()).sqrt().sin().abs() < 0.006 {
            continue;
        }
        let q = log_exp::quaternion_exp(vector_in(&v));
        assert!(distance(&rotation_out(&q), &exp_f64(v)) < 1e-8, "at {}", v);
    }
}

#[test]
fn angle_axis_agrees_with_double_precision() {
    let mut numbers = Numbers(107);
    for _ in 0..500 {
        let axis = numbers.vector(3.0);
        let angle = numbers.next() * 3.0;
        if axis.norm() < 0.01 || (1.0 + 4.0 * angle * angle).sqrt().sin().abs() < 0.006 {
            continue;
        }
        let q = log_exp::quaternion_from_angleaxis(to_raw(angle), scaled_in(&axis));
        let expected = exp_f64(axis * (2.0 * angle / axis.norm()));
        assert!(distance(&rotation_out(&q), &expected) < 1e-7, "at {} {}", angle, axis);
    }
}

fn scaled_in(v: &Vector3<f64>) -> scaled::ScaledVector3 {
    // The power of two that takes the largest component just below 2^39.
    let exponent = v.amax().log2().floor() as i32 - 38;
    let unit = 2f64.powi(exponent);
    scaled::ScaledVector3 {
        digits: vector::Vector3 {
            x: (v.x / unit).round() as i64,
            y: (v.y / unit).round() as i64,
            z: (v.z / unit).round() as i64,
        },
        exponent: exponent as i64,
    }
}

fn scaled_out(v: &scaled::ScaledVector3) -> Vector3<f64> {
    let unit = 2f64.powi(v.exponent as i32);
    Vector3::new(v.digits.x as f64, v.digits.y as f64, v.digits.z as f64) * unit
}

#[test]
fn projection_agrees_with_double_precision() {
    let mut numbers = Numbers(109);
    for round in 0..500 {
        // Of every size from 1e-30 to 1e30.
        let a = numbers.vector(100.0) * 10f64.powi(round % 61 - 30);
        let b = numbers.vector(100.0) * 10f64.powi((round * 7) % 61 - 30);
        let (sa, sb) = (scaled_in(&a), scaled_in(&b));
        assert!(sa.is_wf() && sb.is_wf() && !sb.is_zero());
        let p = scaled_out(&scaled::vector_projection(sa, sb));
        let expected = projection_f64(scaled_out(&sa), scaled_out(&sb));
        assert!((p - expected).norm() <= 1e-10 * expected.norm(), "at {} {}", a, b);
        assert!((p - projection_f64(a, b)).norm() <= 1e-9 * a.norm(), "at {} {}", a, b);
    }
}

#[test]
fn rotation_of_a_vector_agrees_with_double_precision() {
    let mut numbers = Numbers(113);
    for _ in 0..500 {
        let q = numbers.rotation();
        let v = numbers.vector(100.0);
        let r = rotation_in(&q).rotate(&vector_in(&v));
        assert!((vector_out(&r) - q * v).amax() < 1e-6, "at {} {}", q, v);
    }
}

#[test]
fn displacement_agrees_with_double_precision() {
    let mut numbers = Numbers(127);
    for _ in 0..500 {
        let q = numbers.rotation();
        let q_prime = numbers.rotation();
        let d = metrics::quaternion_dispQ(rotation_in(&q), rotation_in(&q_prime));
        let expected = q.inverse() * q_prime;
        assert!(distance(&rotation_out(&d), &expected) < 1e-8);
        if expected.w.abs() > 0.9999 {
            continue;
        }
        let v = metrics::quaternion_disp(rotation_in(&q), rotation_in(&q_prime));
        assert!((vector_out(&v) - log_f64(expected)).amax() < 1e-6);
        let angle = metrics::angle_between_quaternion(rotation_in(&q), rotation_in(&q_prime));
        assert!((to_real(angle) - log_f64(expected).norm() * 2.0).abs() < 1e-6);
    }
}

#[test]
fn decomposition_agrees_with_double_precision() {
    let mut numbers = Numbers(131);
    for _ in 0..500 {
        let q = numbers.rotation();
        let d = numbers.vector(10.0);
        let ra = Vector3::new(q.i, q.j, q.k);
        // Away from the change of sign and from the twist without direction.
        if d.norm() < 0.01 || d.dot(&ra).abs() < 1e-3 {
            continue;
        }
        let (swing, twist) =
            swing_twist::swing_twist_decomposition(rotation_in(&q), scaled_in(&d)).unwrap();
        let expected = swing_twist_f64(q, d);
        assert!(distance(&rotation_out(&swing), &expected.0) < 1e-6, "swing at {} {}", q, d);
        assert!(distance(&rotation_out(&twist), &expected.1) < 1e-6, "twist at {} {}", q, d);
    }
}

#[test]
fn swing_and_twist_angles_agree_with_double_precision() {
    let mut numbers = Numbers(137);
    for _ in 0..500 {
        let q = numbers.rotation();
        let q_prime = numbers.rotation();
        let d = numbers.vector(10.0);
        let rotation = q.inverse() * q_prime;
        let axis = q.inverse() * d;
        let ra = Vector3::new(rotation.i, rotation.j, rotation.k);
        if d.norm() < 0.01 || axis.dot(&ra).abs() < 1e-3 {
            continue;
        }
        let expected = swing_twist_f64(rotation, axis);
        if expected.0.w.abs() > 0.9999 || expected.1.w.abs() > 0.9999 {
            continue;
        }
        let (a, b, c) = (rotation_in(&q), rotation_in(&q_prime), scaled_in(&d));
        let swing = metrics::angle_between_swing_quaternion(a, b, c).unwrap();
        let twist = metrics::angle_between_twist_quaternion(a, b, c).unwrap();
        assert!((to_real(swing) - log_f64(expected.0).norm() * 2.0).abs() < 1e-5);
        assert!((to_real(twist) - log_f64(expected.1).norm() * 2.0).abs() < 1e-5);
    }
}
