use rotation_metrics::fixed::{abs_i64, div_round, isqrt, mul_wide, scale_for};

#[test]
fn division_rounds_to_nearest() {
    assert_eq!(div_round(7, 2), 4);
    assert_eq!(div_round(5, 2), 3);
    assert_eq!(div_round(4, 3), 1);
    assert_eq!(div_round(5, 3), 2);
    assert_eq!(div_round(0, 5), 0);
}

#[test]
fn division_rounds_ties_away_from_zero() {
    assert_eq!(div_round(1, 2), 1);
    assert_eq!(div_round(-1, 2), -1);
    assert_eq!(div_round(1, -2), -1);
    assert_eq!(div_round(-1, -2), 1);
    assert_eq!(div_round(-7, 2), -4);
}

#[test]
fn division_at_the_limit() {
    let limit: i128 = 1 << 125;
    assert_eq!(div_round(limit, limit), 1);
    assert_eq!(div_round(-limit, limit), -1);
    assert_eq!(div_round(limit, 1), limit);
    assert_eq!(div_round(1, limit), 0);
}

#[test]
fn square_roots_round_down() {
    assert_eq!(isqrt(0), 0);
    assert_eq!(isqrt(1), 1);
    assert_eq!(isqrt(3), 1);
    assert_eq!(isqrt(4), 2);
    assert_eq!(isqrt(99), 9);
    assert_eq!(isqrt(100), 10);
    assert_eq!(isqrt((1u128 << 126) - 1), (1u64 << 63) - 1);
}

#[test]
fn scale_lifts_to_the_top_range() {
    assert_eq!(scale_for(1), 1 << 61);
    assert_eq!(scale_for(3), 1 << 60);
    assert_eq!(scale_for(1 << 61), 1);
    assert_eq!(scale_for((1 << 62) - 1), 1);
    assert_eq!(scale_for((1 << 61) - 1), 2);
}

#[test]
fn wide_products_and_magnitudes() {
    assert_eq!(mul_wide(i64::MIN, i64::MIN), 1i128 << 126);
    assert_eq!(mul_wide(-3, 5), -15);
    assert_eq!(abs_i64(-5), 5);
    assert_eq!(abs_i64(i64::MAX), i64::MAX);
}
