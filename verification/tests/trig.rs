use rotation_metrics::fixed::ONE;
use rotation_metrics::trig::{acos, sin_cos, PI};

fn to_real(raw: i64) -> f64 {
    raw as f64 / ONE as f64
}

#[test]
fn sine_and_cosine_at_zero() {
    assert_eq!(sin_cos(0), (0, ONE));
}

#[test]
fn sine_and_cosine_at_pi() {
    assert_eq!(sin_cos(PI), (0, -ONE));
}

#[test]
fn sine_and_cosine_of_one_radian() {
    assert_eq!(sin_cos(ONE), (3614090360, 2320580734));
}

#[test]
fn sine_is_odd_and_cosine_even() {
    let (s, c) = sin_cos(3 * ONE);
    assert_eq!(sin_cos(-3 * ONE), (-s, c));
}

#[test]
fn sine_and_cosine_follow_the_real_functions() {
    let mut a: i64 = -40 * ONE;
    while a < 40 * ONE {
        let (s, c) = sin_cos(a);
        let x = to_real(a);
        assert!((to_real(s) - x.sin()).abs() < 1e-9, "sine at {}", x);
        assert!((to_real(c) - x.cos()).abs() < 1e-9, "cosine at {}", x);
        a += 123_456_789;
    }
}

#[test]
fn sine_and_cosine_of_the_extreme_angles() {
    for a in [i64::MIN, i64::MAX] {
        let (s, c) = sin_cos(a);
        assert!(s.abs() <= ONE && c.abs() <= ONE);
        assert!(2 * s.abs() >= ONE || 2 * c.abs() >= ONE);
    }
}

#[test]
fn arc_cosine_of_one_half() {
    let a = acos(ONE / 2);
    assert!((to_real(a) - std::f64::consts::FRAC_PI_3).abs() < 1e-9);
}

#[test]
fn arc_cosine_inverts_the_cosine() {
    let mut w: i64 = -ONE + 1000;
    while w < ONE {
        let a = acos(w);
        assert!((to_real(a) - to_real(w).acos()).abs() < 1e-6, "at {}", to_real(w));
        let (_, c) = sin_cos(a);
        assert!(c >= w);
        let (_, next) = sin_cos(a + 1);
        assert!(next < w);
        w += 98_765_432;
    }
}

#[test]
fn arc_cosine_outside_the_open_interval() {
    let a = acos(ONE);
    assert_eq!(sin_cos(a).1, ONE);
    assert!(sin_cos(a + 1).1 < ONE);
    assert_eq!(acos(ONE + 1), 0);
    assert_eq!(acos(-ONE), PI - 1);
    assert_eq!(acos(i64::MIN), PI - 1);
}

#[test]
fn sine_and_cosine_lie_on_the_unit_circle() {
    let one = ONE as i128;
    let mut a: i64 = -50 * ONE;
    while a < 50 * ONE {
        let (s, c) = sin_cos(a);
        let (s, c) = (s as i128, c as i128);
        assert!((s * s + c * c - one * one).abs() <= 3 * one, "at {}", a);
        a += 87_654_321;
    }
}

#[test]
fn cosine_changes_little_from_one_angle_to_the_next() {
    let mut a: i64 = 0;
    while a < PI {
        let here = sin_cos(a).1;
        let next = sin_cos(a + 1).1;
        assert!((here - next).abs() <= 4, "at {}", a);
        a += 7_654_321;
    }
    // Where the reduction changes its branch: at the eighth, the quarter
    // and three eighths of a turn, and at the end.
    for middle in [3373259426i64, 6746518852, 10119778278, PI - 1] {
        for a in middle - 3..middle + 3 {
            if a + 1 <= PI {
                assert!((sin_cos(a).1 - sin_cos(a + 1).1).abs() <= 4, "at {}", a);
            }
        }
    }
}

#[test]
fn arc_cosine_is_close_above() {
    let mut w: i64 = -ONE + 1;
    while w <= ONE {
        let c = sin_cos(acos(w)).1;
        assert!(c >= w && c - w <= 3, "at {}", w);
        w += 76_543_210;
    }
}

#[test]
fn cosine_falls_from_zero_to_pi() {
    let mut a: i64 = 0;
    let mut last = sin_cos(0).1;
    while a < PI {
        a = (a + 5_432_109).min(PI);
        let here = sin_cos(a).1;
        assert!(here <= last, "at {}", a);
        last = here;
    }
    for middle in [3373259426i64, 6746518852, 10119778278, PI - 2] {
        for a in middle - 3..middle + 3 {
            assert!(sin_cos(a).1 >= sin_cos(a + 1).1, "at {}", a);
        }
    }
}

#[test]
fn sine_and_cosine_at_a_quarter_and_an_eighth_of_a_turn() {
    assert_eq!(sin_cos(6746518852), (ONE, 0));
    assert_eq!(sin_cos(3373259426), (3037000500, 3037000500));
}

#[test]
fn arc_cosine_is_the_largest_angle_with_its_cosine() {
    let mut w: i64 = -ONE + 1;
    while w <= ONE {
        let a = acos(w);
        assert!(sin_cos(a).1 >= w && sin_cos(a + 1).1 < w);
        w += 65_432_109;
    }
    assert_eq!(acos(0), 6746518852);
    assert!((acos(3037000500) - 3373259426).abs() <= 2);
}

#[test]
fn sine_is_at_most_what_is_left_of_the_half_turn() {
    let mut a: i64 = 10119778279;
    while a < PI {
        let s = sin_cos(a).0;
        assert!(0 <= s && s <= PI - a, "at {}", a);
        a += 4_321_098;
    }
}
