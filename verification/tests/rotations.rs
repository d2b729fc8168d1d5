use rotation_metrics::fixed::ONE;
use rotation_metrics::log_exp::{
    quaternion_exp, quaternion_from_angleaxis, quaternion_log, EPSILON, LOG_LIMIT,
};
use rotation_metrics::metrics::{
    angle_between_quaternion, angle_between_swing_quaternion, angle_between_twist_quaternion,
    quaternion_disp, quaternion_dispQ,
};
use rotation_metrics::quaternion::{Quaternion, UnitQuaternion};
use rotation_metrics::scaled::ScaledVector3;
use rotation_metrics::swing_twist::swing_twist_decomposition;
use rotation_metrics::trig::{acos, sin_cos};
use rotation_metrics::validate::{validate_quaternion, RotationError};
use rotation_metrics::vector::{dot, max_component, vector_norm, Vector3};

const TOLERANCE: f64 = 1e-8;

fn to_real(raw: i64) -> f64 {
    raw as f64 / ONE as f64
}

fn to_raw(x: f64) -> i64 {
    (x * ONE as f64).round() as i64
}

fn axis(d: Vector3) -> ScaledVector3 {
    ScaledVector3::from_vector(d)
}

fn vector(x: f64, y: f64, z: f64) -> Vector3 {
    Vector3 { x: to_raw(x), y: to_raw(y), z: to_raw(z) }
}

fn unit(w: f64, i: f64, j: f64, k: f64) -> UnitQuaternion {
    UnitQuaternion::from_quaternion(Quaternion {
        w: to_raw(w),
        i: to_raw(i),
        j: to_raw(j),
        k: to_raw(k),
    })
    .unwrap()
}

/// The rotation by `angle` about `axis`, built from sine and cosine of the
/// half angle.
fn about(axis: (f64, f64, f64), angle: f64) -> UnitQuaternion {
    let n = (axis.0 * axis.0 + axis.1 * axis.1 + axis.2 * axis.2).sqrt();
    let s = (angle / 2.0).sin() / n;
    unit((angle / 2.0).cos(), axis.0 * s, axis.1 * s, axis.2 * s)
}

fn identity() -> UnitQuaternion {
    UnitQuaternion::identity()
}

fn close(q: &UnitQuaternion, w: f64, i: f64, j: f64, k: f64, tolerance: f64) -> bool {
    (to_real(q.w) - w).abs() <= tolerance
        && (to_real(q.i) - i).abs() <= tolerance
        && (to_real(q.j) - j).abs() <= tolerance
        && (to_real(q.k) - k).abs() <= tolerance
}

fn norm_sq(q: &UnitQuaternion) -> i128 {
    let (w, i, j, k) = (q.w as i128, q.i as i128, q.j as i128, q.k as i128);
    w * w + i * i + j * j + k * k
}

fn is_unit(q: &UnitQuaternion) -> bool {
    let one = ONE as i128;
    (norm_sq(q) - one * one).abs() <= 5 * one
}

/// A small generator of reproducible numbers between -1 and 1.
struct Numbers(u64);

impl Numbers {
    fn next(&mut self) -> f64 {
        self.0 = self.0.wrapping_mul(6364136223846793005).wrapping_add(1442695040888963407);
        ((self.0 >> 11) as f64 / (1u64 << 53) as f64) * 2.0 - 1.0
    }

    fn rotation(&mut self) -> UnitQuaternion {
        loop {
            let (w, i, j, k) = (self.next(), self.next(), self.next(), self.next());
            let n = (w * w + i * i + j * j + k * k).sqrt();
            if n > 0.1 {
                return unit(w / n, i / n, j / n, k / n);
            }
        }
    }
}

#[test]
fn normalizing_gives_a_unit_quaternion() {
    let q = UnitQuaternion::from_quaternion(Quaternion { w: 3, i: 0, j: 4, k: 0 }).unwrap();
    assert_eq!(q, UnitQuaternion { w: 2576980378, i: 0, j: 3435973837, k: 0 });
    let r = UnitQuaternion::from_quaternion(Quaternion { w: 1, i: 1, j: 0, k: 0 }).unwrap();
    assert_eq!(r, UnitQuaternion { w: 3037000500, i: 3037000500, j: 0, k: 0 });
    assert!(is_unit(&q) && is_unit(&r));
}

#[test]
fn normalizing_is_refused_without_a_direction() {
    assert_eq!(UnitQuaternion::from_quaternion(Quaternion { w: 0, i: 0, j: 0, k: 0 }), None);
}

#[test]
fn normalizing_is_refused_beyond_the_range() {
    let big = Quaternion { w: 1 << 62, i: 0, j: 0, k: 0 };
    assert_eq!(UnitQuaternion::from_quaternion(big), None);
    let least = Quaternion { w: 0, i: i64::MIN, j: 0, k: 0 };
    assert_eq!(UnitQuaternion::from_quaternion(least), None);
    let most = Quaternion { w: (1 << 62) - 1, i: 0, j: 0, k: 0 };
    assert_eq!(UnitQuaternion::from_quaternion(most), Some(identity()));
}

#[test]
fn normalizing_keeps_units_for_every_length() {
    let mut numbers = Numbers(7);
    for shift in 0..61 {
        let scale = (1u64 << shift) as f64;
        let q = Quaternion {
            w: (numbers.next() * scale) as i64,
            i: ((numbers.next() * scale) as i64).abs() + 1,
            j: (numbers.next() * scale) as i64,
            k: (numbers.next() * scale) as i64,
        };
        let u = UnitQuaternion::from_quaternion(q).unwrap();
        assert!(is_unit(&u), "at shift {}", shift);
    }
}

#[test]
fn inverse_is_the_conjugate() {
    let q = about((1.0, 2.0, 3.0), 1.0);
    assert_eq!(q, UnitQuaternion { w: 3769188403, i: 550322169, j: 1100644338, k: 1650966507 });
    assert_eq!(
        q.inverse(),
        UnitQuaternion { w: 3769188403, i: -550322169, j: -1100644338, k: -1650966507 }
    );
    assert_eq!(
        q.negated(),
        UnitQuaternion { w: -3769188403, i: -550322169, j: -1100644338, k: -1650966507 }
    );
}

#[test]
fn composing_with_the_identity_changes_nothing() {
    let q = about((1.0, 2.0, 3.0), 1.1);
    let left = identity().compose(&q);
    let right = q.compose(&identity());
    for r in [left, right] {
        assert!((r.w - q.w).abs() <= 4 && (r.i - q.i).abs() <= 4);
        assert!((r.j - q.j).abs() <= 4 && (r.k - q.k).abs() <= 4);
    }
}

#[test]
fn composing_quarter_turns() {
    let x = about((1.0, 0.0, 0.0), std::f64::consts::FRAC_PI_2);
    let half = x.compose(&x);
    assert!(close(&half, 0.0, 1.0, 0.0, 0.0, TOLERANCE));
    let y = about((0.0, 1.0, 0.0), std::f64::consts::FRAC_PI_2);
    let xy = x.compose(&y);
    assert!(close(&xy, 0.5, 0.5, 0.5, 0.5, TOLERANCE));
    let yx = y.compose(&x);
    assert!(close(&yx, 0.5, 0.5, 0.5, -0.5, TOLERANCE));
}

#[test]
fn rotating_a_vector_by_a_quarter_turn() {
    let z = about((0.0, 0.0, 1.0), std::f64::consts::FRAC_PI_2);
    let r = z.rotate(&vector(1.0, 0.0, 0.0));
    assert!(to_real(r.x).abs() < TOLERANCE);
    assert!((to_real(r.y) - 1.0).abs() < TOLERANCE);
    assert_eq!(r.z, 0);
    assert_eq!(identity().rotate(&vector(3.0, -4.0, 5.0)), vector(3.0, -4.0, 5.0));
}

#[test]
fn rotating_keeps_the_length() {
    let mut numbers = Numbers(59);
    for _ in 0..300 {
        let q = numbers.rotation();
        let v = vector(numbers.next() * 90.0, numbers.next() * 90.0, numbers.next() * 90.0);
        let r = q.rotate(&v);
        // What the rotation lacks of a unit, five units at most, it adds
        // twice over to each unit of the length; the rest is rounding.
        let room = 10 * (vector_norm(&v) / ONE + 1) + 3;
        assert!((vector_norm(&r) - vector_norm(&v)).abs() <= room);
        assert!(max_component(&r) <= 2 * max_component(&v));
    }
    let one = Vector3 { x: 0, y: -1, z: 0 };
    assert!(!about((1.0, 2.0, 3.0), 1.0).rotate(&one).is_zero());
}

#[test]
fn rotating_at_the_limit_of_the_axis() {
    let limit: i64 = 1 << 44;
    let q = about((1.0, 1.0, 1.0), 2.0);
    let r = q.rotate(&Vector3 { x: limit, y: -limit, z: limit });
    assert!(max_component(&r) <= 2 * limit);
}

#[test]
fn norm_of_a_vector() {
    assert_eq!(vector_norm(&Vector3 { x: 3, y: 4, z: 0 }), 5);
    assert_eq!(vector_norm(&Vector3 { x: 1, y: 1, z: 1 }), 1);
    assert_eq!(vector_norm(&vector(2.0, 3.0, 6.0)), 7 * ONE);
    assert_eq!(vector_norm(&Vector3 { x: 0, y: 0, z: 0 }), 0);
}

#[test]
fn log_of_the_identity_is_zero() {
    assert_eq!(quaternion_log(identity()), Vector3 { x: 0, y: 0, z: 0 });
    assert_eq!(quaternion_log(identity().negated()), Vector3 { x: 0, y: 0, z: 0 });
}

#[test]
fn log_of_a_quarter_turn() {
    let q = about((1.0, 0.0, 0.0), std::f64::consts::FRAC_PI_2);
    let v = quaternion_log(q);
    assert!((to_real(v.x) - std::f64::consts::FRAC_PI_4).abs() < TOLERANCE);
    assert_eq!((v.y, v.z), (0, 0));
}

#[test]
fn log_is_half_the_angle_along_the_axis() {
    let mut numbers = Numbers(3);
    for _ in 0..200 {
        let axis = (numbers.next(), numbers.next(), numbers.next() + 1.5);
        let n = (axis.0 * axis.0 + axis.1 * axis.1 + axis.2 * axis.2).sqrt();
        let angle = 0.05 + (numbers.next() + 1.0) * 3.0;
        let v = quaternion_log(about(axis, angle));
        let half = angle / 2.0;
        assert!((to_real(v.x) - half * axis.0 / n).abs() < 1e-7);
        assert!((to_real(v.y) - half * axis.1 / n).abs() < 1e-7);
        assert!((to_real(v.z) - half * axis.2 / n).abs() < 1e-7);
    }
}

#[test]
fn log_is_as_long_as_the_arc_cosine() {
    let mut numbers = Numbers(43);
    let one = ONE as i128;
    for _ in 0..300 {
        let q = numbers.rotation();
        if q.w.abs() >= ONE {
            continue;
        }
        let a = acos(q.w);
        let s = sin_cos(a).0;
        let (ii, jj, kk) = (q.i as i128, q.j as i128, q.k as i128);
        let ss = s as i128 * s as i128;
        let defect = ((q.w as i128).pow(2) + ii * ii + jj * jj + kk * kk - one * one).abs();
        assert!((ii * ii + jj * jj + kk * kk - ss).abs() <= 9 * one + defect);
        if s.abs() < EPSILON {
            continue;
        }
        let r = quaternion_log(q);
        let aa = a as i128 * a as i128;
        let length = dot(&r, &r);
        // The products are beyond 128 bits: the bound is held in floating
        // point, with room for its rounding.
        let left = ss as f64 * (length - aa).abs() as f64;
        let right = aa as f64 * (9 * one + defect) as f64 + ss as f64 * (2 * a as i128 + 1) as f64;
        assert!(left <= right * (1.0 + 1e-12));
    }
}

#[test]
fn log_below_the_threshold_is_the_imaginary_part() {
    // The sine of the half angle is 0.004, under the threshold of 0.005.
    let q = unit((1.0f64 - 0.004 * 0.004).sqrt(), 0.004, 0.0, 0.0);
    assert!(q.i < EPSILON);
    assert_eq!(quaternion_log(q), Vector3 { x: q.i, y: 0, z: 0 });
    // At 0.006 the imaginary part is scaled: the half angle exceeds its sine.
    let r = unit((1.0f64 - 0.006 * 0.006).sqrt(), 0.006, 0.0, 0.0);
    let v = quaternion_log(r);
    assert!(v.x > r.i);
    assert!((to_real(v.x) - 0.006f64.asin()).abs() < 1e-6);
}

#[test]
fn exp_of_zero_is_the_identity() {
    assert_eq!(quaternion_exp(Vector3 { x: 0, y: 0, z: 0 }), identity());
}

#[test]
fn exp_follows_its_formula() {
    let mut numbers = Numbers(5);
    for _ in 0..200 {
        let (x, y, z) = (numbers.next() * 3.0, numbers.next() * 3.0, numbers.next() * 3.0);
        let a = (1.0 + x * x + y * y + z * z).sqrt();
        let s = a.sin();
        let c = if s.abs() >= 0.005 { s / a } else { 1.0 };
        let (w, i, j, k) = (a.cos(), x * c, y * c, z * c);
        let n = (w * w + i * i + j * j + k * k).sqrt();
        let q = quaternion_exp(vector(x, y, z));
        assert!(close(&q, w / n, i / n, j / n, k / n, 1e-7), "at {} {} {}", x, y, z);
        assert!(is_unit(&q));
    }
}

#[test]
fn exp_at_the_limit() {
    let limit: i64 = 1 << 61;
    let q = quaternion_exp(Vector3 { x: limit, y: -limit, z: limit });
    assert!(is_unit(&q));
}

#[test]
fn exp_of_the_log_of_a_quaternion_without_rotation() {
    for w in [ONE - 4, ONE - 1, ONE, ONE + 1, ONE + 4] {
        let q = UnitQuaternion { w, i: 0, j: 0, k: 0 };
        assert_eq!(quaternion_log(q), Vector3 { x: 0, y: 0, z: 0 });
        assert_eq!(quaternion_exp(quaternion_log(q)), identity());
        assert_eq!(quaternion_exp(quaternion_log(q.negated())), identity());
    }
}

#[test]
fn exp_of_a_log_away_from_the_identity() {
    // The angle of the exponential is the length of (1, v), not that of v,
    // so that a quarter turn does not come back.
    let q = about((1.0, 0.0, 0.0), std::f64::consts::FRAC_PI_2);
    assert_eq!(q, UnitQuaternion { w: 3037000500, i: 3037000500, j: 0, k: 0 });
    let v = quaternion_log(q);
    assert_eq!(v, Vector3 { x: 3373259426, y: 0, z: 0 });
    let back = quaternion_exp(v);
    assert_eq!(back, UnitQuaternion { w: 1919135551, i: 3842351209, j: 0, k: 0 });
}

#[test]
fn log_of_an_exp_away_from_zero() {
    let q = quaternion_exp(vector(0.5, 0.0, 0.0));
    assert_eq!(q, UnitQuaternion { w: 3161886329, i: 2906754017, j: 0, k: 0 });
    assert_eq!(quaternion_log(q), Vector3 { x: 3192800547, y: 0, z: 0 });
}

#[test]
fn exp_and_log_agree_at_the_identity() {
    let v = quaternion_log(identity());
    assert_eq!(quaternion_exp(v), identity());
    let q = quaternion_exp(Vector3 { x: 0, y: 0, z: 0 });
    assert_eq!(quaternion_log(q), Vector3 { x: 0, y: 0, z: 0 });
}

#[test]
fn angle_axis_follows_its_formula() {
    let angle = 0.3;
    let q = quaternion_from_angleaxis(to_raw(angle), axis(vector(0.0, 0.0, 5.0)));
    let a = (1.0f64 + 4.0 * angle * angle).sqrt();
    let (w, k) = (a.cos(), 2.0 * angle * a.sin() / a);
    let n = (w * w + k * k).sqrt();
    assert!(close(&q, w / n, 0.0, 0.0, k / n, 1e-8));
}

#[test]
fn angle_axis_to_the_unit() {
    let q = quaternion_from_angleaxis(to_raw(0.3), axis(vector(0.0, 0.0, 5.0)));
    assert_eq!(q, UnitQuaternion { w: 2747626796, i: 0, j: 0, k: 3301104522 });
}

#[test]
fn angle_axis_does_not_depend_on_the_length_of_the_axis() {
    let short = quaternion_from_angleaxis(to_raw(0.7), axis(Vector3 { x: 3, y: -4, z: 12 }));
    let long = quaternion_from_angleaxis(to_raw(0.7), axis(vector(3.0, -4.0, 12.0)));
    assert_eq!(short, long);
}

#[test]
fn angle_axis_of_no_angle_is_the_identity() {
    assert_eq!(quaternion_from_angleaxis(0, axis(vector(1.0, 2.0, 3.0))), identity());
}

#[test]
fn displacement_from_an_orientation_to_itself() {
    let mut numbers = Numbers(13);
    for _ in 0..100 {
        let q = numbers.rotation();
        assert_eq!(quaternion_dispQ(q, q), identity());
        assert_eq!(quaternion_disp(q, q), Vector3 { x: 0, y: 0, z: 0 });
        assert_eq!(angle_between_quaternion(q, q), 0);
    }
}

#[test]
fn angle_to_a_quarter_turn_about_x() {
    let q = about((1.0, 0.0, 0.0), std::f64::consts::FRAC_PI_2);
    let angle = angle_between_quaternion(identity(), q);
    assert!((to_real(angle) - std::f64::consts::FRAC_PI_2).abs() < 1e-6);
}

#[test]
fn angle_between_two_orientations() {
    let mut numbers = Numbers(17);
    for _ in 0..100 {
        let axis = (numbers.next(), numbers.next() + 1.5, numbers.next());
        let first = 0.2 + numbers.next().abs();
        let turn = 0.1 + numbers.next().abs() * 2.5;
        let q = about(axis, first);
        let q_prime = about(axis, first + turn);
        let angle = angle_between_quaternion(q, q_prime);
        assert!((to_real(angle) - turn).abs() < 1e-6, "turn {}", turn);
    }
}

#[test]
fn angles_stay_below_a_full_turn() {
    let mut numbers = Numbers(47);
    let most = 2 * LOG_LIMIT;
    assert!((to_real(most) - 2.0 * std::f64::consts::PI).abs() < 1e-3);
    for _ in 0..300 {
        let q = numbers.rotation();
        let q_prime = numbers.rotation();
        let angle = angle_between_quaternion(q, q_prime);
        assert!(0 <= angle && angle <= most);
        let v = quaternion_log(q);
        assert!(vector_norm(&v) <= LOG_LIMIT && max_component(&v) <= LOG_LIMIT);
    }
    // Nearly a full turn: the real part is next to minus one, where one
    // unit of it is many of the angle.
    let q = about((0.0, 0.0, 1.0), 6.27);
    let angle = angle_between_quaternion(identity(), q);
    assert!((to_real(angle) - 6.27).abs() < 1e-4);
    let q = about((0.0, 0.0, 1.0), 6.0);
    let angle = angle_between_quaternion(identity(), q);
    assert!((to_real(angle) - 6.0).abs() < 1e-7);
}

#[test]
fn displacement_leads_to_the_second_orientation() {
    let mut numbers = Numbers(53);
    for _ in 0..300 {
        let q = numbers.rotation();
        let q_prime = numbers.rotation();
        let back = q.compose(&quaternion_dispQ(q, q_prime));
        assert!((back.w - q_prime.w).abs() <= 16 && (back.i - q_prime.i).abs() <= 16);
        assert!((back.j - q_prime.j).abs() <= 16 && (back.k - q_prime.k).abs() <= 16);
    }
}

#[test]
fn displacement_is_taken_in_the_first_frame() {
    let q = about((0.0, 0.0, 1.0), std::f64::consts::FRAC_PI_2);
    let q_prime = about((1.0, 0.0, 0.0), std::f64::consts::FRAC_PI_2).compose(&q);
    let d = quaternion_dispQ(q, q_prime);
    // A quarter turn about the world's x axis is one about -y as seen from q.
    let h = std::f64::consts::FRAC_1_SQRT_2;
    assert!(close(&d, h, 0.0, -h, 0.0, TOLERANCE));
}

#[test]
fn swing_and_twist_give_the_rotation_back() {
    let mut numbers = Numbers(19);
    for _ in 0..300 {
        let q = numbers.rotation();
        let d = vector(numbers.next() * 4.0, numbers.next() * 4.0, numbers.next() * 4.0 + 0.01);
        let (swing, twist) = swing_twist_decomposition(q, axis(d)).unwrap();
        assert!(is_unit(&swing) && is_unit(&twist));
        let back = swing.compose(&twist);
        assert!((back.w - q.w).abs() <= 16 && (back.i - q.i).abs() <= 16);
        assert!((back.j - q.j).abs() <= 16 && (back.k - q.k).abs() <= 16);
    }
}

#[test]
fn twist_turns_about_the_axis() {
    let mut numbers = Numbers(23);
    for _ in 0..300 {
        let q = numbers.rotation();
        let d = vector(numbers.next() * 4.0, numbers.next() * 4.0, numbers.next() * 4.0 + 0.01);
        let (_, twist) = swing_twist_decomposition(q, axis(d)).unwrap();
        let (x, y, z) = (to_real(twist.i), to_real(twist.j), to_real(twist.k));
        let (a, b, c) = (to_real(d.x), to_real(d.y), to_real(d.z));
        let n = (a * a + b * b + c * c).sqrt();
        let cross = (y * c - z * b, z * a - x * c, x * b - y * a);
        assert!(cross.0.abs() / n < 1e-6 && cross.1.abs() / n < 1e-6 && cross.2.abs() / n < 1e-6);
        assert!(x * a + y * b + z * c >= 0.0);
    }
}

#[test]
fn twist_is_parallel_to_the_axis_within_its_bound() {
    let mut numbers = Numbers(31);
    let part: i128 = 1 << 28;
    for _ in 0..300 {
        let q = numbers.rotation();
        let d = vector(numbers.next() * 4.0, numbers.next() * 4.0, numbers.next() * 4.0 + 0.01);
        let (_, twist) = swing_twist_decomposition(q, axis(d)).unwrap();
        let (x, y, z) = (twist.i as i128, twist.j as i128, twist.k as i128);
        let (a, b, c) = (d.x as i128, d.y as i128, d.z as i128);
        assert!(part * 2 * (y * c - z * b).abs() <= (b.abs() + c.abs()) * (part + 1));
        assert!(part * 2 * (z * a - x * c).abs() <= (c.abs() + a.abs()) * (part + 1));
        assert!(part * 2 * (x * b - y * a).abs() <= (a.abs() + b.abs()) * (part + 1));
    }
}

#[test]
fn twist_does_not_turn_against_the_axis() {
    let mut numbers = Numbers(37);
    for _ in 0..300 {
        let q = numbers.rotation();
        let d = vector(numbers.next() * 4.0, numbers.next() * 4.0, numbers.next() * 4.0 + 0.01);
        let (_, twist) = swing_twist_decomposition(q, axis(d)).unwrap();
        assert!(twist.i as i128 * d.x as i128 >= 0);
        assert!(twist.j as i128 * d.y as i128 >= 0);
        assert!(twist.k as i128 * d.z as i128 >= 0);
    }
}

#[test]
fn swing_is_orthogonal_to_the_axis_within_its_bound() {
    let mut numbers = Numbers(41);
    for _ in 0..300 {
        let q = numbers.rotation();
        let d = vector(numbers.next() * 4.0, numbers.next() * 4.0, numbers.next() * 4.0 + 0.01);
        let (swing, _) = swing_twist_decomposition(q, axis(d)).unwrap();
        let along = dot(&Vector3 { x: swing.i, y: swing.j, z: swing.k }, &d);
        let sum = (d.x.abs() + d.y.abs() + d.z.abs()) as i128;
        assert!((1 << 24) * along.abs() <= ((1 << 25) + 1) * sum);
    }
}

#[test]
fn swing_turns_about_an_axis_orthogonal_to_the_axis() {
    let mut numbers = Numbers(29);
    for _ in 0..300 {
        let q = numbers.rotation();
        let d = vector(numbers.next() * 4.0, numbers.next() * 4.0, numbers.next() * 4.0 + 0.01);
        let (swing, _) = swing_twist_decomposition(q, axis(d)).unwrap();
        let along = to_real(swing.i) * to_real(d.x)
            + to_real(swing.j) * to_real(d.y)
            + to_real(swing.k) * to_real(d.z);
        assert!(along.abs() < 1e-7, "along {}", along);
    }
}

#[test]
fn a_pure_twist_has_no_swing() {
    let q = about((0.0, 0.0, 1.0), 1.2);
    let (swing, twist) = swing_twist_decomposition(q, axis(vector(0.0, 0.0, 3.0))).unwrap();
    assert!(close(&swing, 1.0, 0.0, 0.0, 0.0, TOLERANCE));
    assert!((swing.w - ONE).abs() <= 3 && swing.i.abs() <= 1);
    assert!(swing.j.abs() <= 1 && swing.k.abs() <= 1);
    assert!((twist.w - q.w).abs() <= 4 && (twist.k - q.k).abs() <= 4);
    assert_eq!((twist.i, twist.j), (0, 0));
}

#[test]
fn a_pure_twist_about_a_skew_axis() {
    // The imaginary part is twice the axis, component by component.
    let q = UnitQuaternion { w: 3579139413, i: 1193046472, j: -1193046470, k: 1670265060 };
    let d = Vector3 { x: 596523236, y: -596523235, z: 835132530 };
    let (swing, twist) = swing_twist_decomposition(q, axis(d)).unwrap();
    assert!((twist.w - q.w).abs() <= 4 && (twist.i - q.i).abs() <= 4);
    assert!((twist.j - q.j).abs() <= 4 && (twist.k - q.k).abs() <= 4);
    assert!((swing.w - ONE).abs() <= 3 && swing.i.abs() <= 1);
    assert!(swing.j.abs() <= 1 && swing.k.abs() <= 1);
}

#[test]
fn a_pure_twist_against_the_axis_is_negated() {
    let q = about((0.0, 0.0, 1.0), 1.2);
    let (swing, twist) = swing_twist_decomposition(q, axis(vector(0.0, 0.0, -3.0))).unwrap();
    assert!(close(&swing, -1.0, 0.0, 0.0, 0.0, TOLERANCE));
    assert!((twist.w + q.w).abs() <= 3 && (twist.k + q.k).abs() <= 3);
    assert!((swing.w + ONE).abs() <= 3 && swing.i.abs() <= 1);
    assert!(swing.j.abs() <= 1 && swing.k.abs() <= 1);
}

#[test]
fn a_rotation_at_the_edge_of_the_tolerance_comes_back_normalized() {
    // The norm is one less 4.29 units, all that a rotation may lack:
    // normalizing moves the real part by four units, and so does decomposing
    // about an axis orthogonal to its own and composing again.
    let q = UnitQuaternion { w: ONE - 5, i: 77822, j: 0, k: 0 };
    assert_eq!(validate_quaternion(Quaternion { w: q.w, i: q.i, j: q.j, k: q.k }), Ok(q));
    let d = ScaledVector3 { digits: Vector3 { x: 0, y: 1, z: 0 }, exponent: 0 };
    let (swing, twist) = swing_twist_decomposition(q, d).unwrap();
    assert_eq!(twist, identity().negated());
    assert_eq!(swing, UnitQuaternion { w: 1 - ONE, i: -77822, j: 0, k: 0 });
    assert_eq!(swing.compose(&twist), UnitQuaternion { w: ONE - 1, i: 77822, j: 0, k: 0 });
    let shorter = Quaternion { w: ONE - 5, i: 77821, j: 0, k: 0 };
    assert_eq!(validate_quaternion(shorter), Err(RotationError::InvalidQuaternion));
    // Half a unit further off it is no rotation.
    let off = Quaternion { w: ONE - 5, i: 65534, j: 504, k: 90 };
    assert_eq!(validate_quaternion(off), Err(RotationError::InvalidQuaternion));
}

#[test]
fn real_parts_have_the_signs_of_the_sign_test() {
    let mut numbers = Numbers(83);
    for _ in 0..500 {
        let q = numbers.rotation();
        let d = vector(numbers.next() * 4.0, numbers.next() * 4.0, numbers.next() * 4.0 + 0.01);
        let (swing, twist) = swing_twist_decomposition(q, axis(d)).unwrap();
        let along = dot(&d, &Vector3 { x: q.i, y: q.j, z: q.k });
        let side = if along > 0 { 1 } else { -1 };
        assert!(side * swing.w >= -1);
        assert!(side * twist.w * q.w.signum() >= 0);
    }
    // A quarter turn about x, seen about x and about its opposite.
    let q = about((1.0, 0.0, 0.0), 1.5);
    let (swing, twist) = swing_twist_decomposition(q, axis(vector(1.0, 0.0, 0.0))).unwrap();
    assert!(swing.w > 0 && twist.w > 0);
    let (swing, twist) = swing_twist_decomposition(q, axis(vector(-1.0, 0.0, 0.0))).unwrap();
    assert!(swing.w < 0 && twist.w < 0);
}

#[test]
fn only_the_direction_of_an_axis_counts() {
    let mut numbers = Numbers(97);
    for round in 0..200 {
        let (q, q_prime) = (numbers.rotation(), numbers.rotation());
        let digit = |x: f64| (x * 1e6) as i64;
        let d = Vector3 { x: digit(numbers.next()), y: digit(numbers.next()), z: 1 + round };
        let short = ScaledVector3 { digits: d, exponent: -(1 << 40) };
        let long = ScaledVector3 {
            digits: Vector3 { x: 1024 * d.x, y: 1024 * d.y, z: 1024 * d.z },
            exponent: 1 << 40,
        };
        assert_eq!(short.axis(), long.axis());
        assert_eq!(swing_twist_decomposition(q, short), swing_twist_decomposition(q, long));
        assert_eq!(
            angle_between_swing_quaternion(q, q_prime, short),
            angle_between_swing_quaternion(q, q_prime, long)
        );
        assert_eq!(
            angle_between_twist_quaternion(q, q_prime, short),
            angle_between_twist_quaternion(q, q_prime, long)
        );
        assert_eq!(quaternion_from_angleaxis(ONE, short), quaternion_from_angleaxis(ONE, long));
        // A multiple that is no power of two may cost a unit.
        let triple = ScaledVector3 {
            digits: Vector3 { x: 3 * d.x, y: 3 * d.y, z: 3 * d.z },
            exponent: 0,
        };
        let (swing, twist) = swing_twist_decomposition(q, short).unwrap();
        let (other_swing, other_twist) = swing_twist_decomposition(q, triple).unwrap();
        assert!((twist.w - other_twist.w).abs() <= 1 && (twist.i - other_twist.i).abs() <= 1);
        assert!((twist.j - other_twist.j).abs() <= 1 && (twist.k - other_twist.k).abs() <= 1);
        assert!((swing.w - other_swing.w).abs() <= 2 && (swing.i - other_swing.i).abs() <= 2);
        assert!((swing.j - other_swing.j).abs() <= 2 && (swing.k - other_swing.k).abs() <= 2);
    }
}

#[test]
fn twist_is_small_where_the_axis_is_nearly_orthogonal() {
    // A turn about x, and an axis that has one part in 2^30 along x.
    let q = about((1.0, 0.0, 0.0), 1.0);
    let d = ScaledVector3 { digits: Vector3 { x: 1, y: 0, z: 1 << 30 }, exponent: 0 };
    let (swing, twist) = swing_twist_decomposition(q, d).unwrap();
    assert!(twist.i.abs() <= 1 && twist.j == 0 && twist.k.abs() <= 3);
    assert!((twist.w - ONE).abs() <= 1);
    assert!((swing.w - q.w).abs() <= 4 && (swing.i - q.i).abs() <= 4);
    assert!(swing.j.abs() <= 4 && swing.k.abs() <= 4);
    let mut numbers = Numbers(71);
    for _ in 0..300 {
        let q = numbers.rotation();
        let v = vector(numbers.next(), numbers.next(), numbers.next() + 0.001);
        let (_, twist) = swing_twist_decomposition(q, axis(v)).unwrap();
        let d = axis(v).axis();
        let along = dot(&d, &Vector3 { x: q.i, y: q.j, z: q.k }).abs() as f64;
        let real = q.w.abs() as f64 * dot(&d, &d) as f64;
        let bound = |c: i64| (ONE + 5) as f64 * along * c.abs() as f64 / real + 0.500001;
        assert!(twist.i.abs() as f64 <= bound(d.x));
        assert!(twist.j.abs() as f64 <= bound(d.y));
        assert!(twist.k.abs() as f64 <= bound(d.z));
    }
}

#[test]
fn axis_of_a_scaled_vector() {
    let v = ScaledVector3 { digits: Vector3 { x: 3, y: -4, z: 0 }, exponent: 7 };
    assert_eq!(v.axis(), Vector3 { x: 3 << 37, y: -(4 << 37), z: 0 });
    let top = ScaledVector3 { digits: Vector3 { x: 1 << 39, y: 1, z: -1 }, exponent: 0 };
    assert_eq!(top.axis(), top.digits);
    let most = ScaledVector3 { digits: Vector3 { x: 0, y: 0, z: 1 - (1 << 40) }, exponent: 0 };
    assert_eq!(most.axis(), most.digits);
    let below = ScaledVector3 { digits: Vector3 { x: (1 << 39) - 1, y: 0, z: 0 }, exponent: 0 };
    assert_eq!(below.axis(), Vector3 { x: (1 << 40) - 2, y: 0, z: 0 });
    let zero = ScaledVector3 { digits: Vector3 { x: 0, y: 0, z: 0 }, exponent: 3 };
    assert_eq!(zero.axis(), zero.digits);
}

#[test]
fn recomposition_at_the_edge_of_the_tolerance() {
    // The norm of q is 4.29 units below one. Swing and twist are units,
    // and so is what they compose to: it is q normalized, four units from q
    // in the largest component, within the 16 that are promised.
    let q = UnitQuaternion { w: -4259054829, i: 6926560, j: -554209368, k: 9116 };
    assert_eq!(validate_quaternion(Quaternion { w: q.w, i: q.i, j: q.j, k: q.k }), Ok(q));
    let d = ScaledVector3 {
        digits: Vector3 { x: 1005022347264, y: -79456894976, z: 229780750336 },
        exponent: 0,
    };
    let (swing, twist) = swing_twist_decomposition(q, d).unwrap();
    assert_eq!(swing, UnitQuaternion { w: 4259340406, i: 42435611, j: 550400153, k: 4719064 });
    assert_eq!(twist, UnitQuaternion { w: -4294679334, i: 48339787, j: -3821735, k: 11052045 });
    let back = swing.compose(&twist);
    assert_eq!(back, UnitQuaternion { w: -4259054833, i: 6926560, j: -554209369, k: 9116 });
    // Composing a rotation with the displacement to one at that edge gives
    // it back five units off.
    let p = UnitQuaternion { w: -1397868916, i: 3508414606, j: -1598572919, k: -1276047847 };
    let p_prime = UnitQuaternion { w: 3604950054, i: -558049186, j: -2034059749, k: 1001129956 };
    let raw = Quaternion { w: p_prime.w, i: p_prime.i, j: p_prime.j, k: p_prime.k };
    assert_eq!(validate_quaternion(raw), Ok(p_prime));
    assert_eq!(
        p.compose(&quaternion_dispQ(p, p_prime)),
        UnitQuaternion { w: 3604950059, i: -558049186, j: -2034059750, k: 1001129956 }
    );
}

#[test]
fn a_pure_swing_has_no_twist() {
    // With a negative real part the twist is the identity itself.
    let q = about((1.0, 0.0, 0.0), 4.0);
    assert!(q.w < 0);
    let (swing, twist) = swing_twist_decomposition(q, axis(vector(0.0, 0.0, 1.0))).unwrap();
    assert_eq!(twist, identity());
    assert_eq!(swing, q.compose(&identity()));
    assert!((swing.w - q.w).abs() <= 4 && (swing.i - q.i).abs() <= 4);
    assert_eq!((swing.j, swing.k), (0, 0));
}

#[test]
fn a_pure_swing_with_positive_real_part_is_negated() {
    let q = about((1.0, 0.0, 0.0), 1.0);
    let (swing, twist) = swing_twist_decomposition(q, axis(vector(0.0, 0.0, 1.0))).unwrap();
    assert_eq!(twist, identity().negated());
    assert!((swing.w + q.w).abs() <= 4 && (swing.i + q.i).abs() <= 4);
}

#[test]
fn a_rotation_that_is_too_long_comes_back_normalized() {
    // Four units longer than one: the twist is as far from it.
    let q = UnitQuaternion { w: ONE + 4, i: 0, j: 0, k: 0 };
    let (swing, twist) = swing_twist_decomposition(q, axis(vector(0.0, 0.0, 1.0))).unwrap();
    assert_eq!(twist, identity().negated());
    assert_eq!(swing, identity().negated());
}

#[test]
fn the_identity_decomposes_into_negated_identities() {
    let (swing, twist) = swing_twist_decomposition(identity(), axis(vector(0.0, 0.0, 1.0))).unwrap();
    assert_eq!(twist, identity().negated());
    assert_eq!(swing, identity().negated());
}

#[test]
fn a_half_turn_about_an_orthogonal_axis_has_no_decomposition() {
    let q = UnitQuaternion { w: 0, i: ONE, j: 0, k: 0 };
    assert_eq!(swing_twist_decomposition(q, axis(vector(0.0, 0.0, 1.0))), None);
    assert_eq!(swing_twist_decomposition(q, axis(vector(0.0, 2.0, 1.0))), None);
    assert!(swing_twist_decomposition(q, axis(vector(1.0, 2.0, 1.0))).is_some());
}

#[test]
fn a_half_turn_one_unit_off_the_orthogonal_has_its_twist_about_the_axis() {
    // One unit of the imaginary part lies along the axis: the twist is the
    // half turn about the axis, and the swing composed with it gives q back.
    let q = UnitQuaternion { w: 0, i: ONE, j: 0, k: 1 };
    let (swing, twist) = swing_twist_decomposition(q, axis(vector(0.0, 3.0, 1.0))).unwrap();
    assert_eq!(twist, UnitQuaternion { w: 0, i: 0, j: 4074563739, k: 1358187913 });
    assert_eq!(swing, UnitQuaternion { w: 0, i: 1, j: 1358187913, k: -4074563739 });
    let back = swing.compose(&twist);
    assert!(back.w.abs() <= 16 && (back.i - q.i).abs() <= 16);
    assert!(back.j.abs() <= 16 && (back.k - q.k).abs() <= 16);
    let (swing, twist) = swing_twist_decomposition(q, axis(vector(0.0, 2.0, 3.0))).unwrap();
    assert_eq!(twist, UnitQuaternion { w: 0, i: 0, j: 2382419202, k: 3573628803 });
    assert_eq!(swing, UnitQuaternion { w: 1, i: 1, j: 3573628803, k: -2382419202 });
    // The twist is along (0, 2, 3), and the swing orthogonal to it.
    assert!((3 * twist.j - 2 * twist.k).abs() <= 3);
    assert!((2 * swing.j + 3 * swing.k).abs() <= 2 * 5);
}

#[test]
fn decomposition_at_the_limit_of_the_axis() {
    let limit: i64 = 1 << 45;
    let q = about((1.0, 2.0, 3.0), 1.0);
    let d = Vector3 { x: limit, y: -limit, z: limit };
    let (swing, twist) = swing_twist_decomposition(q, axis(d)).unwrap();
    assert!(is_unit(&swing) && is_unit(&twist));
    assert!((twist.i + twist.j).abs() <= 2 && (twist.i - twist.k).abs() <= 2);
}

#[test]
fn swing_and_twist_angles_of_a_twist() {
    let q = about((1.0, 1.0, 0.0), 0.4);
    let d = vector(0.0, 0.0, 1.0);
    let q_prime = q.compose(&about((0.0, 0.0, 1.0), 0.9));
    let twist = angle_between_twist_quaternion(q, q_prime, axis(d_in_world(&q, &d))).unwrap();
    let swing = angle_between_swing_quaternion(q, q_prime, axis(d_in_world(&q, &d))).unwrap();
    assert!((to_real(twist) - 0.9).abs() < 1e-6, "twist {}", to_real(twist));
    assert!(to_real(swing).abs() < 1e-4, "swing {}", to_real(swing));
}

#[test]
fn swing_and_twist_angles_of_a_swing() {
    let q = about((0.0, 1.0, 0.0), 0.3);
    let d = vector(0.0, 0.0, 1.0);
    let q_prime = q.compose(&about((1.0, 0.0, 0.0), 4.0));
    let world = d_in_world(&q, &d);
    let swing = angle_between_swing_quaternion(q, q_prime, axis(world)).unwrap();
    let twist = angle_between_twist_quaternion(q, q_prime, axis(world)).unwrap();
    assert!((to_real(swing) - 4.0).abs() < 1e-6, "swing {}", to_real(swing));
    assert!(to_real(twist).abs() < 1e-4, "twist {}", to_real(twist));
}

#[test]
fn swing_and_twist_angles_without_an_axis() {
    let q = about((0.0, 1.0, 0.0), 0.3);
    let zero = Vector3 { x: 0, y: 0, z: 0 };
    assert_eq!(angle_between_swing_quaternion(q, q, axis(zero)), None);
    assert_eq!(angle_between_twist_quaternion(q, q, axis(zero)), None);
}

#[test]
fn swing_and_twist_angles_at_the_half_turn() {
    let q_prime = UnitQuaternion { w: 0, i: ONE, j: 0, k: 0 };
    let d = vector(0.0, 0.0, 1.0);
    assert_eq!(angle_between_swing_quaternion(identity(), q_prime, axis(d)), None);
    assert_eq!(angle_between_twist_quaternion(identity(), q_prime, axis(d)), None);
}

#[test]
fn swing_and_twist_angles_at_the_limit_of_the_axis() {
    let limit: i64 = 1 << 44;
    let q = about((1.0, 2.0, 3.0), 1.0);
    let q_prime = about((3.0, -2.0, 1.0), 2.0);
    let d = Vector3 { x: limit, y: limit, z: -limit };
    assert!(angle_between_swing_quaternion(q, q_prime, axis(d)).unwrap() >= 0);
    assert!(angle_between_twist_quaternion(q, q_prime, axis(d)).unwrap() >= 0);
}

/// The axis that is `d` in the frame of `q`, in the frame in which `q` is
/// given.
fn d_in_world(q: &UnitQuaternion, d: &Vector3) -> Vector3 {
    q.rotate(d)
}

#[test]
fn decomposition_to_the_unit() {
    let q = about((1.0, 2.0, 3.0), 1.0);
    let d = vector(0.3, -0.2, 0.9);
    assert_eq!(d, Vector3 { x: 1288490189, y: -858993459, z: 3865470566 });
    assert_eq!(q.rotate(&d), Vector3 { x: 3381021077, y: 269227433, z: 2415813008 });
    let (swing, twist) = swing_twist_decomposition(q, axis(d)).unwrap();
    assert_eq!(
        swing,
        UnitQuaternion { w: 4047808797, i: -409449042, j: 1308362995, k: 427230346 }
    );
    assert_eq!(
        twist,
        UnitQuaternion { w: 3999334389, i: 484533299, j: -323022199, k: 1453599896 }
    );
}

#[test]
fn metrics_to_the_unit() {
    let q = about((1.0, 2.0, 3.0), 1.0);
    let q_prime = about((3.0, -2.0, 1.0), 2.0);
    assert_eq!(
        q_prime,
        UnitQuaternion { w: 2320580734, i: 2897718834, j: -1931812556, k: 965906278 }
    );
    let d = vector(0.3, -0.2, 0.9);
    assert_eq!(
        quaternion_dispQ(q, q_prime),
        UnitQuaternion { w: 2284027931, i: 1255540200, j: -3280112667, k: 945748476 }
    );
    assert_eq!(
        quaternion_disp(q, q_prime),
        Vector3 { x: 1497502762, y: -3912242537, z: 1128009246 }
    );
    assert_eq!(angle_between_quaternion(q, q_prime), 8676534112);
    assert_eq!(angle_between_swing_quaternion(q, q_prime, axis(d)), Some(8627273782));
    assert_eq!(angle_between_twist_quaternion(q, q_prime, axis(d)), Some(1155478716));
}
