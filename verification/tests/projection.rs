use rotation_metrics::fixed::ONE;
use rotation_metrics::scaled::{vector_projection, ScaledVector3, DIGIT_LIMIT, EXPONENT_LIMIT};
use rotation_metrics::vector::Vector3;

fn fixed(x: f64, y: f64, z: f64) -> Vector3 {
    let raw = |v: f64| (v * ONE as f64).round() as i64;
    Vector3 { x: raw(x), y: raw(y), z: raw(z) }
}

fn scaled(x: i64, y: i64, z: i64, exponent: i64) -> ScaledVector3 {
    ScaledVector3 { digits: Vector3 { x, y, z }, exponent }
}

fn value_of(v: &ScaledVector3) -> [f64; 3] {
    let unit = 2f64.powi(v.exponent as i32);
    [v.digits.x as f64 * unit, v.digits.y as f64 * unit, v.digits.z as f64 * unit]
}

fn inner(a: &[f64; 3], b: &[f64; 3]) -> f64 {
    a[0] * b[0] + a[1] * b[1] + a[2] * b[2]
}

fn length(a: &[f64; 3]) -> f64 {
    inner(a, a).sqrt()
}

fn apart(a: &[f64; 3], b: &[f64; 3]) -> f64 {
    length(&[a[0] - b[0], a[1] - b[1], a[2] - b[2]])
}

struct Numbers(u64);

impl Numbers {
    fn next(&mut self) -> u64 {
        self.0 = self.0.wrapping_mul(6364136223846793005).wrapping_add(1442695040888963407);
        self.0 >> 11
    }

    fn digit(&mut self, bits: u32) -> i64 {
        let span = 1i64 << bits;
        (self.next() % (2 * span as u64 - 1)) as i64 - (span - 1)
    }

    fn vector(&mut self) -> ScaledVector3 {
        let widths = [1, 3, 10, 20, 39, 40];
        let bits = widths[(self.next() % 6) as usize];
        let exponent = (self.next() % 200) as i64 - 100;
        scaled(self.digit(bits), self.digit(bits), self.digit(bits), exponent)
    }
}

#[test]
fn projection_onto_an_axis() {
    let a = ScaledVector3::from_vector(fixed(1.0, 2.0, 3.0));
    let b = ScaledVector3::from_vector(fixed(0.0, 0.0, 2.0));
    let p = vector_projection(a, b);
    assert_eq!(p, scaled(0, 0, 412316860416, -37));
    assert_eq!(p.to_vector(), Some(fixed(0.0, 0.0, 3.0)));
}

#[test]
fn projection_keeps_what_is_small_beside_the_axis() {
    // One sixteenth and one unit of 2^-32, onto an axis a hundred long.
    let a = scaled((1 << 28) + 1, 0, 0, -32);
    let b = ScaledVector3::from_vector(fixed(100.0, 100.0, 0.0));
    let p = vector_projection(a, b);
    assert_eq!(p, scaled((1 << 38) + 1024, (1 << 38) + 1024, 0, -43));
    // What is left, counted in 2^-43, is orthogonal to the axis exactly.
    let rest = [(a.digits.x << 11) - p.digits.x, -p.digits.y, 0];
    assert_eq!(rest[0] * b.digits.x + rest[1] * b.digits.y, 0);
}

#[test]
fn projection_of_one_unit_onto_a_long_axis() {
    let a = scaled(1, 0, 0, -32);
    let b = ScaledVector3::from_vector(fixed(100.0, 100.0, 100.0));
    let p = vector_projection(a, b);
    assert_eq!(p, scaled(366503875925, 366503875925, 366503875925, -72));
    let (ra, rb, rp) = (value_of(&a), value_of(&b), value_of(&p));
    let rest = [ra[0] - rp[0], ra[1] - rp[1], ra[2] - rp[2]];
    assert!(inner(&rest, &rb).abs() <= 1e-9 * length(&ra) * length(&rb));
}

#[test]
fn projecting_twice_is_projecting_once() {
    let a = ScaledVector3::from_vector(Vector3 { x: 91924888, y: 43635741, z: 379788612 });
    let b = ScaledVector3::from_vector(fixed(4.0, 4.0, 3.0));
    let p = vector_projection(a, b);
    assert_eq!(p, scaled(335993551697, 335993551697, 251995163773, -43));
    assert_eq!(vector_projection(p, b), p);
}

#[test]
fn projection_onto_a_multiple_of_the_axis() {
    let a = ScaledVector3::from_vector(Vector3 { x: 91924888, y: 43635741, z: 379788612 });
    let p = vector_projection(a, scaled(4, 4, 3, 0));
    assert_eq!(vector_projection(a, scaled(12, 12, 9, 0)), p);
    assert_eq!(vector_projection(a, scaled(-4, -4, -3, 0)), p);
    assert_eq!(vector_projection(a, scaled(4, 4, 3, -500)), p);
    assert_eq!(vector_projection(a, scaled(4, 4, 3, EXPONENT_LIMIT)), p);
}

#[test]
fn projection_of_what_is_orthogonal_is_zero() {
    let a = scaled(3, -4, 0, 17);
    let p = vector_projection(a, scaled(4, 3, 0, -2));
    assert_eq!(p, scaled(0, 0, 0, 17));
    assert!(p.is_zero() && !a.is_zero());
    assert_eq!(vector_projection(p, scaled(4, 3, 0, -2)), p);
}

#[test]
fn projection_leaves_nothing_along_the_axis() {
    let mut numbers = Numbers(11);
    let mut count = 0;
    while count < 2000 {
        let (a, b) = (numbers.vector(), numbers.vector());
        if b.is_zero() {
            continue;
        }
        count += 1;
        let p = vector_projection(a, b);
        assert!(p.is_wf());
        let (ra, rb, rp) = (value_of(&a), value_of(&b), value_of(&p));
        let rest = [ra[0] - rp[0], ra[1] - rp[1], ra[2] - rp[2]];
        let product = length(&ra) * length(&rb);
        assert!(inner(&rest, &rb).abs() <= 1e-9 * product, "at {:?} {:?}", a, b);
        // It is a multiple of the axis.
        let across = [
            rp[1] * rb[2] - rp[2] * rb[1],
            rp[2] * rb[0] - rp[0] * rb[2],
            rp[0] * rb[1] - rp[1] * rb[0],
        ];
        assert!(length(&across) <= 1e-9 * length(&rp) * length(&rb), "at {:?} {:?}", a, b);
        if !p.is_zero() {
            let largest = p.digits.x.abs().max(p.digits.y.abs()).max(p.digits.z.abs());
            assert!((1 << 38) <= largest && largest <= (1 << 39));
        }
        // Projected again it stays, and the length of the axis has no part.
        let again = value_of(&vector_projection(p, b));
        assert!(apart(&again, &rp) <= 1e-9 * length(&rp), "at {:?} {:?}", a, b);
        if b.digits.is_within((DIGIT_LIMIT - 1) / 7) {
            let longer = scaled(-7 * b.digits.x, -7 * b.digits.y, -7 * b.digits.z, 3);
            let other = value_of(&vector_projection(a, longer));
            assert!(apart(&other, &rp) <= 1e-9 * length(&rp), "at {:?} {:?}", a, b);
        }
    }
}

#[test]
fn scaled_vector_of_a_fixed_point_vector() {
    let small = Vector3 { x: (1 << 39) - 1, y: -5, z: 0 };
    assert_eq!(ScaledVector3::from_vector(small), ScaledVector3 { digits: small, exponent: -32 });
    // Halved once, the tie rounds away from zero.
    assert_eq!(
        ScaledVector3::from_vector(Vector3 { x: 1 << 39, y: 1, z: -1 }),
        scaled(1 << 38, 1, -1, -31)
    );
    assert_eq!(
        ScaledVector3::from_vector(Vector3 { x: i64::MAX, y: i64::MIN, z: 5 }),
        scaled(1 << 38, -(1 << 38), 0, -7)
    );
    assert_eq!(ScaledVector3::from_vector(Vector3 { x: 0, y: 0, z: 0 }), scaled(0, 0, 0, -32));
}

#[test]
fn fixed_point_vector_of_a_scaled_vector() {
    assert_eq!(scaled(3, -1, 0, -32).to_vector(), Some(Vector3 { x: 3, y: -1, z: 0 }));
    assert_eq!(scaled(3, -1, 0, -30).to_vector(), Some(Vector3 { x: 12, y: -4, z: 0 }));
    assert_eq!(scaled(3, -2, 5, -33).to_vector(), Some(Vector3 { x: 2, y: -1, z: 3 }));
    assert_eq!(
        scaled(DIGIT_LIMIT - 1, 0, 0, -10).to_vector(),
        Some(Vector3 { x: (DIGIT_LIMIT - 1) << 22, y: 0, z: 0 })
    );
    assert_eq!(scaled(1, 0, 0, -9).to_vector(), None);
    assert_eq!(scaled(DIGIT_LIMIT - 1, 0, 0, -72).to_vector(), Some(Vector3 { x: 1, y: 0, z: 0 }));
    assert_eq!(scaled(1 << 39, 0, 0, -72).to_vector(), Some(Vector3 { x: 1, y: 0, z: 0 }));
    assert_eq!(scaled(DIGIT_LIMIT - 1, 0, 0, -73).to_vector(), Some(Vector3 { x: 0, y: 0, z: 0 }));
    assert_eq!(scaled(DIGIT_LIMIT - 1, 0, 0, -74).to_vector(), Some(Vector3 { x: 0, y: 0, z: 0 }));
    assert_eq!(scaled(1, 0, 0, -EXPONENT_LIMIT).to_vector(), Some(Vector3 { x: 0, y: 0, z: 0 }));
}

#[test]
fn range_of_a_scaled_vector() {
    assert!(scaled(DIGIT_LIMIT - 1, 1 - DIGIT_LIMIT, 0, EXPONENT_LIMIT).is_wf());
    assert!(!scaled(DIGIT_LIMIT, 0, 0, 0).is_wf());
    assert!(!scaled(0, 0, -DIGIT_LIMIT, 0).is_wf());
    assert!(!scaled(0, 0, 0, EXPONENT_LIMIT + 1).is_wf());
    assert!(!scaled(0, 0, 0, -EXPONENT_LIMIT - 1).is_wf());
}
