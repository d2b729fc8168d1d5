//! Sine, cosine and arc cosine in fixed point.
//!
//! An angle is reduced to the first octant with pi taken to sixty fractional
//! bits. There the sine is ten terms of its power series, in nested form,
//! each step rounded to nearest at sixty fractional bits, and the cosine is
//! the square root of what the square of the sine leaves of one, so that the
//! two lie on the unit circle. The arc cosine is found by bisection on the
//! cosine.

use vstd::prelude::*;
use crate::arith::{
    lemma_below_root, lemma_distribute2, lemma_mul_bound, lemma_mul_permute, lemma_mul_regroup, mag,
};
use crate::fixed::{
    div_round, isqrt, lemma_round_div_bound, lemma_round_div_error, lemma_round_div_exact,
    lemma_round_div_is, lemma_round_div_monotone, lemma_round_div_near, lemma_round_div_nonneg,
    lemma_round_div_small, lemma_sqrt_floor_bounds, lemma_sqrt_floor_monotone,
    lemma_sqrt_floor_unique, round_div, sqrt_floor, ONE, ONE_SQ,
};

verus! {

/// The raw value of 1.0 at the precision of the series, 2^60.
pub const FINE_ONE: i128 = 0x1000_0000_0000_0000;

/// The raw value of 1.0 at the precision of the series, squared.
pub const FINE_ONE_SQ: i128 = 0x100_0000_0000_0000_0000_0000_0000_0000;

/// How many fine units make one unit of Q32.32, 2^28.
pub const FINE_PER_UNIT: i128 = 0x1000_0000;

/// Half of pi at sixty fractional bits, rounded to nearest.
pub const HALF_PI_FINE: i128 = 1811004864519280711;

/// Pi in Q32.32, rounded to nearest.
pub const PI: i64 = 13493037705;

/// The number of terms taken of the power series.
pub const TERMS: u64 = 10;

/// The divisor that takes term `k` of the series of the sine to term
/// `k + 1`, `(2k + 2)(2k + 3)`.
pub open spec fn series_divisor(k: int) -> int {
    (2 * k + 2) * (2 * k + 3)
}

/// The series of the sine from term `k` on, divided by term `k`, at the
/// squared argument `x2`: `1 - x2 / d(k) * (1 - x2 / d(k + 1) * (1 - ...))`.
pub open spec fn series_tail(x2: int, k: int) -> int
    decreases TERMS - k,
{
    if k >= TERMS {
        FINE_ONE as int
    } else {
        FINE_ONE - round_div(x2 * series_tail(x2, k + 1), FINE_ONE * series_divisor(k))
    }
}

/// The square of a fine argument, at fine precision.
pub open spec fn fine_square(x: int) -> int {
    round_div(x * x, FINE_ONE as int)
}

/// The sine of a fine argument of the first octant.
pub open spec fn sin_fine(x: int) -> int {
    round_div(x * series_tail(fine_square(x), 0), FINE_ONE as int)
}

/// The cosine of a fine argument of the first octant: the square root,
/// rounded down, of one less the square of the sine.
pub open spec fn cos_fine(x: int) -> int {
    sqrt_floor((FINE_ONE_SQ - sin_fine(x) * sin_fine(x)) as nat) as int
}

/// A quarter of pi in fine units, rounded down: the end of the first
/// octant, and the largest argument of the series.
pub open spec fn octant() -> int {
    905502432259640355
}

/// The cosine of a fine angle of the first quarter turn: in its second
/// half the sine of what is left of the quarter turn.
pub open spec fn cos_quarter(t: int) -> int {
    if 2 * t > HALF_PI_FINE {
        sin_fine(HALF_PI_FINE - t)
    } else {
        cos_fine(t)
    }
}

/// Sine and cosine of the Q32.32 angle `a`, in that order, at fine
/// precision.
pub open spec fn sin_cos_fine_of(a: int) -> (int, int) {
    let t = mag(a) * FINE_PER_UNIT;
    let quadrant = (t / (HALF_PI_FINE as int)) % 4;
    let r = t % (HALF_PI_FINE as int);
    let (s0, c0) = if 2 * r > HALF_PI_FINE {
        (cos_fine(HALF_PI_FINE - r), sin_fine(HALF_PI_FINE - r))
    } else {
        (sin_fine(r), cos_fine(r))
    };
    let (s1, c1) = if quadrant == 0 {
        (s0, c0)
    } else if quadrant == 1 {
        (c0, -s0)
    } else if quadrant == 2 {
        (-s0, -c0)
    } else {
        (-c0, s0)
    };
    (if a < 0 { -s1 } else { s1 }, c1)
}

/// The sine of the Q32.32 angle `a`.
pub open spec fn sine(a: int) -> int {
    round_div(sin_cos_fine_of(a).0, FINE_PER_UNIT as int)
}

/// The cosine of the Q32.32 angle `a`.
pub open spec fn cosine(a: int) -> int {
    round_div(sin_cos_fine_of(a).1, FINE_PER_UNIT as int)
}

/// Where a bisection between `lo` and `hi` ends: at each step the half is
/// kept at whose lower end the cosine is still at least `w`.
pub open spec fn arc_cosine_between(w: int, lo: int, hi: int) -> int
    decreases hi - lo,
{
    if hi - lo <= 1 {
        lo
    } else {
        let mid = lo + (hi - lo) / 2;
        if cosine(mid) >= w {
            arc_cosine_between(w, mid, hi)
        } else {
            arc_cosine_between(w, lo, mid)
        }
    }
}

/// The arc cosine of the Q32.32 number `w`, an angle from zero up to pi.
pub open spec fn arc_cosine(w: int) -> int {
    arc_cosine_between(w, 0, PI as int)
}

/// Sine and cosine of a Q32.32 angle, in that order.
#[verifier::rlimit(20)]
pub fn sin_cos(a: i64) -> (r: (i64, i64))
    ensures
        r.0 == sine(a as int),
        r.1 == cosine(a as int),
        -ONE <= r.0 <= ONE,
        -ONE <= r.1 <= ONE,
        mag(r.0 * r.0 + r.1 * r.1 - ONE_SQ) <= 3 * ONE,
{
    proof {
        lemma_sine_cosine_unit(a as int);
    }
    let m: i128 = if a < 0 { -(a as i128) } else { a as i128 };
    let t: i128 = m * FINE_PER_UNIT;
    let turns: i128 = t / HALF_PI_FINE;
    let r: i128 = t % HALF_PI_FINE;
    let quadrant: i128 = turns % 4;
    let (s0, c0) = if 2 * r > HALF_PI_FINE {
        let p = sin_cos_fine(HALF_PI_FINE - r);
        (p.1, p.0)
    } else {
        sin_cos_fine(r)
    };
    let (s1, c1) = if quadrant == 0 {
        (s0, c0)
    } else if quadrant == 1 {
        (c0, -s0)
    } else if quadrant == 2 {
        (-s0, -c0)
    } else {
        (-c0, s0)
    };
    let s2 = if a < 0 { -s1 } else { s1 };
    proof {
        let unit = FINE_PER_UNIT as int;
        assert(ONE * unit == FINE_ONE) by (nonlinear_arith)
            requires
                unit == 0x1000_0000,
        ;
        lemma_round_div_bound(s2 as int, unit, ONE as int);
        lemma_round_div_bound(c1 as int, unit, ONE as int);
    }
    (div_round(s2, FINE_PER_UNIT) as i64, div_round(c1, FINE_PER_UNIT) as i64)
}

/// The arc cosine by bisection: an angle `a` from zero up to pi at which the
/// cosine is at least `w`, by no more than three units, and one unit
/// further on is below it.
pub fn acos(w: i64) -> (a: i64)
    ensures
        a == arc_cosine(w as int),
        0 <= a < PI,
        -ONE < w <= ONE ==> w + 3 >= cosine(a as int) >= w > cosine(a + 1),
{
    let mut lo: i64 = 0;
    let mut hi: i64 = PI;
    proof {
        lemma_cosine_ends();
        if -ONE < w <= ONE {
            lemma_arc_cosine_passes(w as int);
        }
    }
    while hi - lo > 1
        invariant
            0 <= lo < hi <= PI,
            arc_cosine_between(w as int, lo as int, hi as int) == arc_cosine(w as int),
            -ONE < w <= ONE ==> cosine(lo as int) >= w > cosine(hi as int),
        decreases hi - lo,
    {
        let mid: i64 = lo + (hi - lo) / 2;
        let sc = sin_cos(mid);
        if sc.1 >= w {
            lo = mid;
        } else {
            hi = mid;
        }
    }
    lo
}

/// Sine and cosine of a fine argument of the first octant, at fine
/// precision.
fn sin_cos_fine(x: i128) -> (r: (i128, i128))
    requires
        0 <= 2 * x <= HALF_PI_FINE,
    ensures
        r.0 == sin_fine(x as int),
        r.1 == cos_fine(x as int),
        0 <= r.0 <= FINE_ONE,
        0 <= r.1 <= FINE_ONE,
{
    proof {
        let one = FINE_ONE as int;
        assert(0 <= x * x <= one * one) by (nonlinear_arith)
            requires
                0 <= x <= one,
        ;
        assert(one * one == FINE_ONE_SQ) by (nonlinear_arith)
            requires
                one == 0x1000_0000_0000_0000,
        ;
        lemma_round_div_bound(x * x, one, one);
        lemma_round_div_nonneg(x * x, one);
    }
    let x2 = div_round(x * x, FINE_ONE);
    let h = series(x2);
    proof {
        let one = FINE_ONE as int;
        assert(0 <= x * h <= one * one) by (nonlinear_arith)
            requires
                0 <= x <= one,
                0 <= h <= one,
        ;
        lemma_sin_cos_fine_range(x as int);
    }
    let s = div_round(x * h, FINE_ONE);
    proof {
        lemma_mul_bound(s as int, s as int, FINE_ONE as int, FINE_ONE as int);
    }
    let c = isqrt((FINE_ONE_SQ - s * s) as u128) as i128;
    (s, c)
}

/// Evaluates [`series_tail`] from its last term inwards.
fn series(x2: i128) -> (h: i128)
    requires
        0 <= x2 <= FINE_ONE,
    ensures
        h == series_tail(x2 as int, 0),
        0 <= h <= FINE_ONE,
{
    let mut h: i128 = FINE_ONE;
    let mut k: u64 = TERMS;
    while k > 0
        invariant
            0 <= x2 <= FINE_ONE,
            k <= TERMS,
            h == series_tail(x2 as int, k as int),
            0 <= h <= FINE_ONE,
        decreases k,
    {
        k = k - 1;
        let step: i128 = 2 * (k as i128) + 2;
        proof {
            assert(1 <= step * (step + 1) <= 420) by (nonlinear_arith)
                requires
                    1 <= step <= 20,
            ;
        }
        let d: i128 = step * (step + 1);
        proof {
            lemma_series_tail_range(x2 as int, k as int);
            let one = FINE_ONE as int;
            assert(d == series_divisor(k as int));
            assert(0 <= x2 * h <= one * one) by (nonlinear_arith)
                requires
                    0 <= x2 <= one,
                    0 <= h <= one,
            ;
            assert(one * one == FINE_ONE_SQ) by (nonlinear_arith)
                requires
                    one == 0x1000_0000_0000_0000,
            ;
        }
        h = FINE_ONE - div_round(x2 * h, FINE_ONE * d);
    }
    h
}

/// Sine and cosine of one angle lie on the unit circle, up to rounding: the
/// sum of their squares is within three units of one.
pub proof fn lemma_sine_cosine_unit(a: int)
    ensures
        mag(sine(a) * sine(a) + cosine(a) * cosine(a) - ONE_SQ) <= 3 * ONE,
{
    let unit = FINE_PER_UNIT as int;
    let p = sin_cos_fine_of(a);
    let (s, c) = (sine(a), cosine(a));
    lemma_fine_pair_unit(a);
    lemma_round_div_error(p.0, unit);
    lemma_round_div_error(p.1, unit);
    lemma_coarse_square(p.0, s);
    lemma_coarse_square(p.1, c);
    let uu = unit * unit;
    assert(uu == 0x100_0000_0000_0000) by (nonlinear_arith)
        requires
            uu == unit * unit,
            unit == 0x1000_0000,
    ;
    assert(FINE_ONE * unit == 0x100_0000_0000_0000_0000_0000) by (nonlinear_arith)
        requires
            unit == 0x1000_0000,
    ;
    let x = s * s + c * c;
    lemma_distribute2(s * s, c * c, uu);
    assert(mag(x - ONE_SQ) <= 3 * ONE) by (nonlinear_arith)
        requires
            4 * mag(x * 0x100_0000_0000_0000 - 0x100_0000_0000_0000_0000_0000_0000_0000) <= 8
                * 0x100_0000_0000_0000_0000_0000 + 2 * 0x100_0000_0000_0000 + 8
                * 0x1000_0000_0000_0000,
    ;
}

/// Sine and cosine lie between minus one and one.
pub proof fn lemma_sine_cosine_range(a: int)
    ensures
        mag(sine(a)) <= ONE,
        mag(cosine(a)) <= ONE,
{
    let unit = FINE_PER_UNIT as int;
    let p = sin_cos_fine_of(a);
    lemma_fine_pair_unit(a);
    assert(ONE * unit == FINE_ONE) by (nonlinear_arith)
        requires
            unit == 0x1000_0000,
    ;
    lemma_round_div_bound(p.0, unit, ONE as int);
    lemma_round_div_bound(p.1, unit, ONE as int);
}

/// From zero up to pi the cosine falls or rises by four units at most from
/// one angle to the next.
pub proof fn lemma_cosine_step(a: int)
    requires
        0 <= a < PI,
    ensures
        mag(cosine(a) - cosine(a + 1)) <= 4,
{
    let unit = FINE_PER_UNIT as int;
    lemma_cosine_fine_step(a);
    let c = sin_cos_fine_of(a).1;
    let e = sin_cos_fine_of(a + 1).1;
    lemma_round_div_near(c, e, unit);
    let diff = mag(cosine(a) - cosine(a + 1));
    assert(diff <= 4) by (nonlinear_arith)
        requires
            diff * unit <= 3 * unit + 9 + unit,
            unit == 0x1000_0000,
    ;
}

/// The arc cosine lies where the cosine passes `w`: at it the cosine is at
/// least `w`, one unit further on it is below, and so within three units
/// above `w`.
pub proof fn lemma_arc_cosine_passes(w: int)
    requires
        -ONE < w <= ONE,
    ensures
        0 <= arc_cosine(w) < PI,
        cosine(arc_cosine(w)) >= w > cosine(arc_cosine(w) + 1),
        cosine(arc_cosine(w)) - w <= 3,
{
    lemma_cosine_ends();
    lemma_arc_cosine_between(w, 0, PI as int);
    lemma_cosine_step(arc_cosine(w));
}

/// From zero up to pi the cosine falls: at a larger angle it is no larger.
pub proof fn lemma_cosine_falls(a: int, b: int)
    requires
        0 <= a <= b <= PI,
    ensures
        cosine(a) >= cosine(b),
    decreases b - a,
{
    if a < b {
        lemma_cosine_falls(a, b - 1);
        lemma_cosine_fine_falls(b - 1);
        lemma_round_div_monotone(
            sin_cos_fine_of(b).1,
            sin_cos_fine_of(b - 1).1,
            FINE_PER_UNIT as int,
        );
    }
}

/// The arc cosine is the largest angle, from zero up to pi, at which the
/// cosine is at least `w`.
pub proof fn lemma_arc_cosine_largest(w: int, b: int)
    requires
        -ONE < w <= ONE,
        0 <= b <= PI,
        cosine(b) >= w,
    ensures
        b <= arc_cosine(w),
        cosine(arc_cosine(w)) >= w,
{
    lemma_arc_cosine_passes(w);
    if b > arc_cosine(w) {
        lemma_cosine_falls(arc_cosine(w) + 1, b);
    }
}

/// At a quarter turn the cosine is zero and the sine is one.
pub proof fn lemma_quarter_turn()
    ensures
        cosine(6746518852) == 0,
        sine(6746518852) == ONE,
{
    let unit = FINE_PER_UNIT as int;
    let one = FINE_ONE as int;
    let hp = HALF_PI_FINE as int;
    let t = mag(6746518852) * unit;
    assert(t == 1811004864449216512) by (nonlinear_arith)
        requires
            t == 6746518852 * unit,
            unit == 0x1000_0000,
    ;
    assert(t / hp == 0);
    assert(t % hp == t);
    // What is left of the quarter turn is its own sine, and too little to
    // make a unit; its cosine is one fine unit below one.
    let y = hp - t;
    assert(y == 70064199);
    assert(2 * (y * y) < one) by (nonlinear_arith)
        requires
            y == 70064199,
            one == 0x1000_0000_0000_0000,
    ;
    lemma_sin_fine_small(y);
    lemma_round_div_small(y, unit);
    let c = one - 1;
    assert(c * c <= FINE_ONE_SQ - y * y < (c + 1) * (c + 1)) by (nonlinear_arith)
        requires
            y == 70064199,
            c == 0x1000_0000_0000_0000 - 1,
    ;
    lemma_sqrt_floor_unique((FINE_ONE_SQ - y * y) as nat, c as nat);
    assert(cos_fine(y) == c);
    lemma_round_div_error(c, unit);
    assert(round_div(c, unit) == ONE) by (nonlinear_arith)
        requires
            2 * mag(round_div(c, unit) * unit - c) <= unit,
            c == 0x1000_0000_0000_0000 - 1,
            unit == 0x1000_0000,
    ;
}

/// At an eighth of a turn sine and cosine are the square root of one half,
/// 3037000500 units, within two units.
pub proof fn lemma_eighth_turn()
    ensures
        mag(cosine(3373259426) - 3037000500) <= 2,
        mag(sine(3373259426) - 3037000500) <= 2,
{
    let unit = FINE_PER_UNIT as int;
    let hp = HALF_PI_FINE as int;
    let t = mag(3373259426) * unit;
    assert(t == 905502432224608256) by (nonlinear_arith)
        requires
            t == 3373259426 * unit,
            unit == 0x1000_0000,
    ;
    assert(t / hp == 0);
    assert(t % hp == t);
    // The end of the octant is 35032099 fine units further on.
    lemma_octant_meets();
    lemma_sin_fine_near(t, octant());
    lemma_cos_fine_near(t, octant());
    let s = sin_fine(t);
    let c = cos_fine(t);
    lemma_round_div_error(s, unit);
    lemma_round_div_error(c, unit);
    let x = round_div(s, unit);
    let y = round_div(c, unit);
    assert(mag(x - 3037000500) <= 2) by (nonlinear_arith)
        requires
            2 * mag(x * unit - s) <= unit,
            mag(815238614083298888 - s) <= 2 * 35032099 + 3,
            unit == 0x1000_0000,
    ;
    assert(mag(y - 3037000500) <= 2) by (nonlinear_arith)
        requires
            2 * mag(y * unit - c) <= unit,
            mag(815238614083298888 - c) <= 3 * 35032099 + 6,
            unit == 0x1000_0000,
    ;
}

/// At fine precision the cosine is no larger one unit of Q32.32 further on,
/// from zero up to pi.
proof fn lemma_cosine_fine_falls(a: int)
    requires
        0 <= a < PI,
    ensures
        sin_cos_fine_of(a).1 >= sin_cos_fine_of(a + 1).1,
{
    let unit = FINE_PER_UNIT as int;
    let hp = HALF_PI_FINE as int;
    let t = mag(a) * unit;
    let u = mag(a + 1) * unit;
    assert(u == t + unit && 0 <= t && u <= 13493037705 * 0x1000_0000) by (nonlinear_arith)
        requires
            t == a * unit,
            u == (a + 1) * unit,
            unit == 0x1000_0000,
            0 <= a < 13493037705,
    ;
    let r = t % hp;
    let v = u % hp;
    let c = sin_cos_fine_of(a).1;
    let e = sin_cos_fine_of(a + 1).1;
    if u < hp {
        // Both in the first quarter turn.
        assert(c == cos_quarter(r) && e == cos_quarter(v));
        lemma_cos_quarter_falls(r);
    } else if t < hp {
        // Across the quarter turn, from positive to negative.
        lemma_sin_cos_fine_range(hp - t);
        lemma_sin_cos_fine_range(v);
        assert(c == sin_fine(hp - t) && e == -sin_fine(v));
    } else if u < 2 * hp {
        // Both in the second quarter turn, where the cosine is that of the
        // first, mirrored and negated.
        assert(c == -cos_quarter(hp - r) && e == -cos_quarter(hp - v));
        lemma_cos_quarter_falls(hp - v);
    } else {
        // Across the half turn, on either side of which the cosine is that
        // of a small angle, negated; after it the angle is the smaller.
        assert(c == -cos_fine(hp - r) && e == -cos_fine(v));
        lemma_cos_fine_falls(v, hp - r);
    }
}

/// Over the first quarter turn the cosine is no larger one unit of Q32.32
/// further on.
proof fn lemma_cos_quarter_falls(x: int)
    requires
        0 <= x,
        x + FINE_PER_UNIT <= HALF_PI_FINE,
    ensures
        cos_quarter(x) >= cos_quarter(x + FINE_PER_UNIT),
{
    let hp = HALF_PI_FINE as int;
    let q = octant();
    let y = x + FINE_PER_UNIT;
    lemma_octant_meets();
    if y <= q {
        lemma_cos_fine_falls(x, y);
    } else if x > q {
        lemma_sin_fine_rises(hp - y, hp - x);
    } else {
        // Across the end of the octant: on one side of it at least the
        // angle is half a unit away from it.
        let z = hp - y;
        lemma_sin_fine_rises(z, q);
        if q - x >= 0x800_0000 {
            lemma_cos_fine_above_end(x);
        } else {
            lemma_cos_fine_falls(x, q);
        }
    }
}

/// In the first octant the cosine falls: it is no larger at an argument 64
/// fine units larger, and at most 7 larger at any larger argument.
proof fn lemma_cos_fine_falls(x: int, y: int)
    requires
        0 <= x <= y <= octant(),
    ensures
        cos_fine(x) >= cos_fine(y) - 7,
        y - x >= 64 ==> cos_fine(x) >= cos_fine(y),
{
    lemma_sin_fine_rises(x, y);
    lemma_sin_cos_fine_range(x);
    lemma_sin_cos_fine_range(y);
    lemma_cos_fine_lower(x);
    let s = sin_fine(x);
    let t = sin_fine(y);
    let c = cos_fine(x);
    let e = cos_fine(y);
    if y - x >= 64 {
        assert(s * s <= t * t) by (nonlinear_arith)
            requires
                0 <= s <= t,
        ;
        lemma_sqrt_floor_monotone((FINE_ONE_SQ - t * t) as nat, (FINE_ONE_SQ - s * s) as nat);
    }
    assert(e <= c + 7) by (nonlinear_arith)
        requires
            t >= s - 4,
            0 <= s <= 905502432259640355,
            0 <= t,
            e >= 0,
            5 * c >= 3 * 0x1000_0000_0000_0000,
            e * e <= 0x100_0000_0000_0000_0000_0000_0000_0000 - t * t,
            0x100_0000_0000_0000_0000_0000_0000_0000 - s * s < (c + 1) * (c + 1),
    ;
}

/// Half a unit of Q32.32 or more before the end of the first octant the
/// cosine is above that at the end, by 4 fine units at least.
proof fn lemma_cos_fine_above_end(x: int)
    requires
        0 <= x,
        x + 0x800_0000 <= octant(),
    ensures
        cos_fine(x) >= cos_fine(octant()) + 4,
{
    lemma_octant_meets();
    lemma_sin_fine_rises(x, octant());
    lemma_sin_cos_fine_range(x);
    let s = sin_fine(x);
    let c = cos_fine(x);
    assert(c >= 815238614083298888 + 4) by (nonlinear_arith)
        requires
            0 <= s <= 815238614083298888 - 8388604,
            c >= 0,
            0x100_0000_0000_0000_0000_0000_0000_0000 - s * s < (c + 1) * (c + 1),
    ;
}

/// In the first octant the sine rises at least a sixteenth as fast as its
/// argument, less four fine units.
proof fn lemma_sin_fine_rises(x: int, y: int)
    requires
        0 <= x <= y <= octant(),
    ensures
        16 * (sin_fine(y) - sin_fine(x)) >= (y - x) - 64,
{
    let one = FINE_ONE as int;
    let u = fine_square(x);
    let v = fine_square(y);
    lemma_fine_square_octant(x);
    lemma_fine_square_octant(y);
    lemma_fine_square_near(x, y);
    lemma_series_tail_near(v, u, 0);
    lemma_series_tail_range(u, 0);
    lemma_series_tail_range(v, 0);
    lemma_series_head(v);
    let h = series_tail(u, 0);
    let g = series_tail(v, 0);
    assert(g >= 1034391513398739661);
    lemma_distribute2(y, x, g);
    lemma_distribute2(g, h, x);
    assert(y * g - x * h == (y - x) * g + x * (g - h));
    lemma_mul_bound(x, g - h, octant(), mag(g - h));
    assert((y - x) * g >= (y - x) * 1034391513398739661) by (nonlinear_arith)
        requires
            y - x >= 0,
            g >= 1034391513398739661,
    ;
    lemma_round_div_error(y * g, one);
    lemma_round_div_error(x * h, one);
    let diff = sin_fine(y) - sin_fine(x);
    lemma_distribute2(sin_fine(y), sin_fine(x), one);
    let m = mag(g - h);
    assert(16 * diff >= (y - x) - 64) by (nonlinear_arith)
        requires
            diff * one >= (y - x) * 1034391513398739661 - 905502432259640355 * m - one,
            0 <= 2 * m <= 2 * (y - x) + 5,
            one == 0x1000_0000_0000_0000,
            y - x >= 0,
    ;
}

/// In the last eighth of the half turn the sine is at most what is left of
/// the half turn.
pub proof fn lemma_sine_near_pi(a: int)
    requires
        10119778279 <= a < PI,
    ensures
        0 <= sine(a) <= PI - a,
{
    let unit = FINE_PER_UNIT as int;
    let hp = HALF_PI_FINE as int;
    let t = mag(a) * unit;
    assert(t == a * 0x1000_0000 && 2716507296778921067 <= t < 3622009729038561422)
        by (nonlinear_arith)
        requires
            t == a * unit,
            unit == 0x1000_0000,
            10119778279 <= a < 13493037705,
    ;
    let r = t % hp;
    assert(t / hp == 1);
    assert(r == t - hp);
    lemma_sin_cos_fine_range(hp - r);
    let c = sin_fine(hp - r);
    assert(sin_cos_fine_of(a).0 == c);
    lemma_round_div_nonneg(c, unit);
    lemma_round_div_error(c, unit);
    let q = round_div(c, unit);
    assert(q <= PI - a) by (nonlinear_arith)
        requires
            2 * mag(q * unit - c) <= unit,
            0 <= c <= 3622009729038561422 - a * 0x1000_0000,
            unit == 0x1000_0000,
            PI == 13493037705,
    ;
}

/// The cosine of zero is one, and the cosine of pi is minus one.
pub proof fn lemma_cosine_ends()
    ensures
        cosine(0) == ONE,
        cosine(PI as int) == -ONE,
{
    let unit = FINE_PER_UNIT as int;
    let one = FINE_ONE as int;
    assert(ONE * unit == one) by (nonlinear_arith)
        requires
            unit == 0x1000_0000,
            one == 0x1000_0000_0000_0000,
    ;
    lemma_round_div_exact(ONE as int, unit);
    // At zero nothing is left after the reduction, and the sine is zero.
    assert(0 * unit == 0);
    lemma_sin_fine_small(0);
    assert(0 * 0 == 0);
    assert(one * one <= FINE_ONE_SQ < (one + 1) * (one + 1)) by (nonlinear_arith)
        requires
            one == 0x1000_0000_0000_0000,
    ;
    lemma_sqrt_floor_unique(FINE_ONE_SQ as nat, one as nat);
    assert(cos_fine(0) == one);
    assert(cosine(0) == ONE);
    // At pi two quarter turns are taken off, and what is left is its own
    // sine; the cosine is one fine unit below one, which rounds to one.
    let t = mag(PI as int) * unit;
    assert(t == 3622009729166868480) by (nonlinear_arith)
        requires
            t == 13493037705 * unit,
            unit == 0x1000_0000,
    ;
    let r = t % (HALF_PI_FINE as int);
    assert(t / (HALF_PI_FINE as int) == 2);
    assert(r == 128307058);
    lemma_sin_fine_small(r);
    let c = one - 1;
    assert(c * c <= FINE_ONE_SQ - r * r < (c + 1) * (c + 1)) by (nonlinear_arith)
        requires
            r == 128307058,
            c == 0x1000_0000_0000_0000 - 1,
    ;
    lemma_sqrt_floor_unique((FINE_ONE_SQ - r * r) as nat, c as nat);
    assert(cos_fine(r) == c);
    lemma_round_div_error(-c, unit);
    assert(round_div(-c, unit) == -ONE) by (nonlinear_arith)
        requires
            2 * mag(round_div(-c, unit) * unit - (-c)) <= unit,
            c == 0x1000_0000_0000_0000 - 1,
            unit == 0x1000_0000,
    ;
    assert(cosine(PI as int) == -ONE);
}

/// Sine and cosine of one angle are never both below one half in magnitude.
pub proof fn lemma_not_both_small(a: int)
    ensures
        2 * mag(sine(a)) >= ONE || 2 * mag(cosine(a)) >= ONE,
{
    let t = mag(a) * FINE_PER_UNIT;
    let hp = HALF_PI_FINE as int;
    let r = t % hp;
    let y = if 2 * r > hp { hp - r } else { r };
    lemma_cos_fine_lower(y);
    let c = cos_fine(y);
    lemma_coarse_keeps_large(c);
    lemma_coarse_keeps_large(-c);
}

/// The cosine of one radian is positive.
pub proof fn lemma_cosine_of_one()
    ensures
        cosine(ONE as int) > 0,
{
    let unit = FINE_PER_UNIT as int;
    let t = mag(ONE as int) * unit;
    assert(t == 0x1000_0000_0000_0000) by (nonlinear_arith)
        requires
            t == 0x1_0000_0000 * unit,
            unit == 0x1000_0000,
    ;
    let hp = HALF_PI_FINE as int;
    assert(t / hp == 0);
    assert(t % hp == t);
    let y = hp - t;
    lemma_sin_fine_lower(y);
    let c = sin_fine(y);
    assert(cosine(ONE as int) == round_div(c, unit));
    lemma_round_div_nonneg(c, unit);
    let q = round_div(c, unit);
    assert(q > 0) by (nonlinear_arith)
        requires
            2 * (q * unit) >= 2 * c - unit,
            c >= 0x1000_0000,
            unit == 0x1000_0000,
    ;
}

/// A bisection that starts with the cosine at least `w` at its lower end
/// and below `w` at its upper end, ends so one unit apart.
proof fn lemma_arc_cosine_between(w: int, lo: int, hi: int)
    requires
        lo < hi,
        cosine(lo) >= w > cosine(hi),
    ensures
        lo <= arc_cosine_between(w, lo, hi) < hi,
        cosine(arc_cosine_between(w, lo, hi)) >= w > cosine(arc_cosine_between(w, lo, hi) + 1),
    decreases hi - lo,
{
    if hi - lo > 1 {
        let mid = lo + (hi - lo) / 2;
        if cosine(mid) >= w {
            lemma_arc_cosine_between(w, mid, hi);
        } else {
            lemma_arc_cosine_between(w, lo, mid);
        }
    }
}

/// The same at fine precision: over one unit of Q32.32 the cosine changes
/// by at most three times as many fine units, and nine.
proof fn lemma_cosine_fine_step(a: int)
    requires
        0 <= a < PI,
    ensures
        mag(sin_cos_fine_of(a).1 - sin_cos_fine_of(a + 1).1) <= 3 * FINE_PER_UNIT + 9,
{
    let unit = FINE_PER_UNIT as int;
    let hp = HALF_PI_FINE as int;
    let t = mag(a) * unit;
    let u = mag(a + 1) * unit;
    assert(u == t + unit && 0 <= t && u <= 13493037705 * 0x1000_0000) by (nonlinear_arith)
        requires
            t == a * unit,
            u == (a + 1) * unit,
            unit == 0x1000_0000,
            0 <= a < 13493037705,
    ;
    let r = t % hp;
    let v = u % hp;
    let c = sin_cos_fine_of(a).1;
    let e = sin_cos_fine_of(a + 1).1;
    if u < hp {
        // Both in the first quarter turn.
        assert(c == cos_quarter(r) && e == cos_quarter(v));
        lemma_cos_quarter_near(r, v);
    } else if t < hp {
        // Across the quarter turn: the cosine is the sine of what is left
        // of it, or of what is beyond it, negated.
        lemma_sin_cos_fine_range(hp - t);
        lemma_sin_cos_fine_range(v);
        assert(c == sin_fine(hp - t) && e == -sin_fine(v));
    } else if u < 2 * hp {
        // Both in the second quarter turn, where the cosine is that of the
        // first, mirrored and negated.
        assert(c == -cos_quarter(hp - r) && e == -cos_quarter(hp - v));
        lemma_cos_quarter_near(hp - v, hp - r);
    } else {
        // Across the half turn, by less than one unit.
        assert(c == -cos_quarter(hp - r) && e == -cos_quarter(v));
        lemma_cos_quarter_near(v, hp - r);
    }
}

/// Over the first quarter turn the cosine changes at most three times as
/// fast as the angle.
proof fn lemma_cos_quarter_near(x: int, y: int)
    requires
        0 <= x <= y <= HALF_PI_FINE,
    ensures
        mag(cos_quarter(y) - cos_quarter(x)) <= 3 * (y - x) + 9,
{
    let hp = HALF_PI_FINE as int;
    let q = octant();
    lemma_octant_meets();
    if y <= q {
        lemma_cos_fine_near(x, y);
    } else if x > q {
        lemma_sin_fine_near(hp - y, hp - x);
    } else {
        lemma_cos_fine_near(x, q);
        lemma_sin_fine_near(hp - y, q);
    }
}

/// At the end of the first octant sine and cosine are the same number: the
/// series is evaluated there, term by term.
proof fn lemma_octant_meets()
    ensures
        sin_fine(octant()) == 815238614083298888,
        cos_fine(octant()) == 815238614083298888,
        2 * octant() + 1 == HALF_PI_FINE,
{
    let one = FINE_ONE as int;
    let x = octant();
    // The squared argument.
    let nx = x * x;
    let dx = one;
    let qx: int = 711179947248643885;
    assert(nx == 819934654828124569863099833944526025 && dx == 1152921504606846976 && qx * dx ==
        819934654828124570234282101713141760)
        by (nonlinear_arith)
        requires
            nx == x * x,
            x == 905502432259640355,
            dx == 1152921504606846976,
            qx == 711179947248643885,
    ;
    lemma_round_div_is(nx, dx, qx);
    let u = fine_square(x);
    // The series, from its last term inwards.
    let t10 = series_tail(u, 10);
    let c9 = series_divisor(9);
    let n9 = u * t10;
    let d9 = one * c9;
    let q9: int = 1693285588687247;
    assert(n9 == 819934654828124570234282101713141760 && d9 == 484227031934875729920 && q9 * d9 ==
        819934654828124403060663933720330240)
        by (nonlinear_arith)
        requires
            n9 == u * t10,
            u == 711179947248643885,
            t10 == 1152921504606846976,
            d9 == one * c9,
            one == 1152921504606846976,
            c9 == (2 * 9 + 2) * (2 * 9 + 3),
            q9 == 1693285588687247,
    ;
    lemma_round_div_is(n9, d9, q9);
    let t9 = series_tail(u, 9);
    assert(t9 == 1151228219018159729);
    let c8 = series_divisor(8);
    let n8 = u * t9;
    let d8 = one * c8;
    let q8: int = 2076419425635945;
    assert(n8 == 818730424072485085006060483569107165 && d8 == 394299154575541665792 && q8 * d8 ==
        818730424072484920603909654252093440)
        by (nonlinear_arith)
        requires
            n8 == u * t9,
            u == 711179947248643885,
            t9 == 1151228219018159729,
            d8 == one * c8,
            one == 1152921504606846976,
            c8 == (2 * 8 + 2) * (2 * 8 + 3),
            q8 == 2076419425635945,
    ;
    lemma_round_div_is(n8, d8, q8);
    let t8 = series_tail(u, 8);
    assert(t8 == 1150845085181211031);
    let c7 = series_divisor(7);
    let n7 = u * t8;
    let d7 = one * c7;
    let q7: int = 2609923188804352;
    assert(n7 == 818457946970534739435007596752695435 && d7 == 313594649253062377472 && q7 * d7 ==
        818457946970534862290580850180358144)
        by (nonlinear_arith)
        requires
            n7 == u * t8,
            u == 711179947248643885,
            t8 == 1150845085181211031,
            d7 == one * c7,
            one == 1152921504606846976,
            c7 == (2 * 7 + 2) * (2 * 7 + 3),
            q7 == 2609923188804352,
    ;
    lemma_round_div_is(n7, d7, q7);
    let t7 = series_tail(u, 7);
    assert(t7 == 1150311581418042624);
    let c6 = series_divisor(6);
    let n6 = u * t7;
    let d6 = one * c6;
    let q6: int = 3378904835293921;
    assert(n6 == 818078529792387678744336855126954240 && d6 == 242113515967437864960 && q6 * d6 ==
        818078529792387751202086386306908160)
        by (nonlinear_arith)
        requires
            n6 == u * t7,
            u == 711179947248643885,
            t7 == 1150311581418042624,
            d6 == one * c6,
            one == 1152921504606846976,
            c6 == (2 * 6 + 2) * (2 * 6 + 3),
            q6 == 3378904835293921,
    ;
    lemma_round_div_is(n6, d6, q6);
    let t6 = series_tail(u, 6);
    assert(t6 == 1149542599771553055);
    let c5 = series_divisor(5);
    let n5 = u * t6;
    let d5 = one * c5;
    let q5: int = 4545485056869000;
    assert(n5 == 817531645465602051742787149078818675 && d5 == 179855754718668128256 && q5 * d5 ==
        817531645465602112061661945790464000)
        by (nonlinear_arith)
        requires
            n5 == u * t6,
            u == 711179947248643885,
            t6 == 1149542599771553055,
            d5 == one * c5,
            one == 1152921504606846976,
            c5 == (2 * 5 + 2) * (2 * 5 + 3),
            q5 == 4545485056869000,
    ;
    lemma_round_div_is(n5, d5, q5);
    let t5 = series_tail(u, 5);
    assert(t5 == 1148376019549977976);
    let c4 = series_divisor(4);
    let n4 = u * t5;
    let d4 = one * c4;
    let q4: int = 6439782395827240;
    assert(n4 == 816701997005160975764589747617076760 && d4 == 126821365506753167360 && q4 * d4 ==
        816701997005161007177223117366886400)
        by (nonlinear_arith)
        requires
            n4 == u * t5,
            u == 711179947248643885,
            t5 == 1148376019549977976,
            d4 == one * c4,
            one == 1152921504606846976,
            c4 == (2 * 4 + 2) * (2 * 4 + 3),
            q4 == 6439782395827240,
    ;
    lemma_round_div_is(n4, d4, q4);
    let t4 = series_tail(u, 4);
    assert(t4 == 1146481722211019736);
    let c3 = series_divisor(3);
    let n3 = u * t4;
    let d3 = one * c3;
    let q3: int = 9822327301477767;
    assert(n3 == 815354810723567408156472728970714360 && d3 == 83010348331692982272 && q3 * d3 ==
        815354810723567388411762568933146624)
        by (nonlinear_arith)
        requires
            n3 == u * t4,
            u == 711179947248643885,
            t4 == 1146481722211019736,
            d3 == one * c3,
            one == 1152921504606846976,
            c3 == (2 * 3 + 2) * (2 * 3 + 3),
            q3 == 9822327301477767,
    ;
    lemma_round_div_is(n3, d3, q3);
    let t3 = series_tail(u, 3);
    assert(t3 == 1143099177305369209);
    let c2 = series_divisor(2);
    let n2 = u * t3;
    let d2 = one * c2;
    let q2: int = 16788596236926632;
    assert(n2 == 812949212616000697257562754485136965 && d2 == 48422703193487572992 && q2 * d2 ==
        812949212616000673951854234848722944)
        by (nonlinear_arith)
        requires
            n2 == u * t3,
            u == 711179947248643885,
            t3 == 1143099177305369209,
            d2 == one * c2,
            one == 1152921504606846976,
            c2 == (2 * 2 + 2) * (2 * 2 + 3),
            q2 == 16788596236926632,
    ;
    lemma_round_div_is(n2, d2, q2);
    let t2 = series_tail(u, 2);
    assert(t2 == 1136132908369920344);
    let c1 = series_divisor(1);
    let n1 = u * t2;
    let d1 = one * c1;
    let q1: int = 35041194852094434;
    assert(n1 == 807994941841968306853587779472696440 && d1 == 23058430092136939520 && q1 * d1 ==
        807994941841968310574580210786631680)
        by (nonlinear_arith)
        requires
            n1 == u * t2,
            u == 711179947248643885,
            t2 == 1136132908369920344,
            d1 == one * c1,
            one == 1152921504606846976,
            c1 == (2 * 1 + 2) * (2 * 1 + 3),
            q1 == 35041194852094434,
    ;
    lemma_round_div_is(n1, d1, q1);
    let t1 = series_tail(u, 1);
    assert(t1 == 1117880309754752542);
    let c0 = series_divisor(0);
    let n0 = u * t1;
    let d0 = one * c0;
    let q0: int = 114927462760902512;
    assert(n0 == 795014059721682599000100343256505670 && d0 == 6917529027641081856 && q0 * d0 ==
        795014059721682598609346090628022272)
        by (nonlinear_arith)
        requires
            n0 == u * t1,
            u == 711179947248643885,
            t1 == 1117880309754752542,
            d0 == one * c0,
            one == 1152921504606846976,
            c0 == (2 * 0 + 2) * (2 * 0 + 3),
            q0 == 114927462760902512,
    ;
    lemma_round_div_is(n0, d0, q0);
    let t0 = series_tail(u, 0);
    assert(t0 == 1037994041845944464);
    // The sine, and the cosine as the root of what its square leaves.
    let ns = x * t0;
    let ds = one;
    let qs: int = 815238614083298888;
    assert(ns == 939906129562517623001702323943244720 && ds == 1152921504606846976 && qs * ds ==
        939906129562517622909368494286962688)
        by (nonlinear_arith)
        requires
            ns == x * t0,
            x == 905502432259640355,
            t0 == 1037994041845944464,
            ds == 1152921504606846976,
            qs == 815238614083298888,
    ;
    lemma_round_div_is(ns, ds, qs);
    let s = sin_fine(x);
    assert(s == 815238614083298888);
    assert(s * s <= 1329227995784915872903807060280344576 - s * s < (s + 1) * (s +
        1)) by (nonlinear_arith)
        requires
            s == 815238614083298888,
    ;
    lemma_sqrt_floor_unique((FINE_ONE_SQ - s * s) as nat, s as nat);
}

/// In the first octant the cosine changes at most three times as fast as
/// its argument.
pub proof fn lemma_cos_fine_near(x: int, y: int)
    requires
        0 <= x <= y <= octant(),
    ensures
        mag(cos_fine(y) - cos_fine(x)) <= 3 * (y - x) + 6,
{
    lemma_sin_fine_near(x, y);
    lemma_sin_cos_fine_range(x);
    lemma_sin_cos_fine_range(y);
    lemma_cos_fine_lower(x);
    lemma_cos_fine_lower(y);
    lemma_root_near(sin_fine(x), sin_fine(y), cos_fine(x), cos_fine(y));
}

/// In the first octant the sine changes at most twice as fast as its
/// argument.
pub proof fn lemma_sin_fine_near(x: int, y: int)
    requires
        0 <= x <= y <= octant(),
    ensures
        mag(sin_fine(y) - sin_fine(x)) <= 2 * (y - x) + 3,
{
    let one = FINE_ONE as int;
    let u = fine_square(x);
    let v = fine_square(y);
    lemma_fine_square_octant(x);
    lemma_fine_square_octant(y);
    lemma_fine_square_near(x, y);
    lemma_series_tail_near(v, u, 0);
    lemma_series_tail_range(u, 0);
    lemma_series_tail_range(v, 0);
    let h = series_tail(u, 0);
    let g = series_tail(v, 0);
    lemma_distribute2(y, x, g);
    lemma_distribute2(g, h, x);
    assert(y * g - x * h == (y - x) * g + x * (g - h));
    lemma_mul_bound(y - x, g, y - x, one);
    lemma_mul_bound(x, g - h, octant(), mag(g - h));
    lemma_round_div_near(y * g, x * h, one);
    let diff = mag(sin_fine(y) - sin_fine(x));
    assert(diff <= 2 * (y - x) + 3) by (nonlinear_arith)
        requires
            diff * one <= (y - x) * one + 905502432259640355 * mag(g - h) + one,
            2 * mag(g - h) <= 2 * (y - x) + 5,
            one == 0x1000_0000_0000_0000,
            y - x >= 0,
    ;
}

/// Two points of the first octant of the unit circle: the cosines differ
/// by at most four thirds of what the sines differ by, and two.
proof fn lemma_root_near(s: int, t: int, c: int, e: int)
    requires
        0 <= s <= octant(),
        0 <= t <= octant(),
        5 * c >= 3 * FINE_ONE,
        5 * e >= 3 * FINE_ONE,
        c * c <= FINE_ONE_SQ - s * s < (c + 1) * (c + 1),
        e * e <= FINE_ONE_SQ - t * t < (e + 1) * (e + 1),
    ensures
        3 * mag(c - e) <= 4 * mag(s - t) + 6,
{
    let sum = c + e;
    let d = mag(c - e);
    let g = mag(s - t);
    // The squares of the cosines differ by what those of the sines do, and
    // by what the two roots were rounded down by.
    assert(d * sum == mag(c * c - e * e)) by (nonlinear_arith)
        requires
            d == mag(c - e),
            sum == c + e,
            c >= 0,
            e >= 0,
    ;
    assert(g * (s + t) == mag(s * s - t * t)) by (nonlinear_arith)
        requires
            g == mag(s - t),
            s >= 0,
            t >= 0,
    ;
    assert((c + 1) * (c + 1) == c * c + 2 * c + 1 && (e + 1) * (e + 1) == e * e + 2 * e + 1)
        by (nonlinear_arith);
    assert(d * sum <= g * (s + t) + 2 * sum);
    assert(3 * (g * (s + t)) <= 4 * (g * sum)) by (nonlinear_arith)
        requires
            g >= 0,
            0 <= s + t <= 2 * 905502432259640355,
            5 * sum >= 6 * 0x1000_0000_0000_0000,
    ;
    assert(3 * d <= 4 * g + 6) by (nonlinear_arith)
        requires
            3 * (d * sum) <= 4 * (g * sum) + 6 * sum,
            sum > 0,
    ;
}

/// In the first octant the squared argument changes at most twice as fast
/// as the argument.
proof fn lemma_fine_square_near(x: int, y: int)
    requires
        0 <= x <= y <= octant(),
    ensures
        mag(fine_square(y) - fine_square(x)) <= 2 * (y - x) + 1,
{
    let one = FINE_ONE as int;
    lemma_round_div_near(y * y, x * x, one);
    let diff = mag(fine_square(y) - fine_square(x));
    assert(0 <= y * y - x * x <= (y - x) * (2 * 905502432259640355)) by (nonlinear_arith)
        requires
            0 <= x <= y <= 905502432259640355,
    ;
    assert(diff <= 2 * (y - x) + 1) by (nonlinear_arith)
        requires
            diff * one <= (y - x) * (2 * 905502432259640355) + one,
            one == 0x1000_0000_0000_0000,
            y - x >= 0,
    ;
}

/// The partial series change half as fast as the squared argument: twice
/// the difference of two values is at most the difference of the arguments,
/// and four.
proof fn lemma_series_tail_near(u: int, v: int, k: int)
    requires
        0 <= u <= FINE_ONE,
        0 <= v <= FINE_ONE,
        0 <= k,
    ensures
        2 * mag(series_tail(u, k) - series_tail(v, k)) <= mag(u - v) + 4,
    decreases TERMS - k,
{
    if k < TERMS {
        let one = FINE_ONE as int;
        lemma_series_tail_near(u, v, k + 1);
        lemma_series_tail_range(u, k + 1);
        lemma_series_tail_range(v, k + 1);
        let a = series_tail(u, k + 1);
        let b = series_tail(v, k + 1);
        let c = series_divisor(k);
        let d = one * c;
        assert(c >= 6) by (nonlinear_arith)
            requires
                k >= 0,
                c == (2 * k + 2) * (2 * k + 3),
        ;
        assert(d > 0) by (nonlinear_arith)
            requires
                d == one * c,
                one > 0,
                c >= 6,
        ;
        // The numerators differ by the difference of the arguments times
        // one factor, and by that of the factors times one argument.
        lemma_distribute2(u, v, a);
        lemma_distribute2(a, b, v);
        assert(u * a - v * b == (u - v) * a + v * (a - b));
        lemma_mul_bound(u - v, a, mag(u - v), one);
        lemma_mul_bound(v, a - b, one, mag(a - b));
        lemma_mul_regroup(mag(u - v), one, 1);
        lemma_round_div_near(u * a, v * b, d);
        let diff = mag(round_div(u * a, d) - round_div(v * b, d));
        assert(2 * diff <= mag(u - v) + 4) by (nonlinear_arith)
            requires
                diff * d <= one * mag(u - v) + one * mag(a - b) + d,
                2 * mag(a - b) <= mag(u - v) + 4,
                d == one * c,
                c >= 6,
                one > 0,
                diff >= 0,
        ;
    }
}

/// At fine precision sine and cosine lie on the unit circle: the sum of
/// their squares is at most the square of one, and falls short of it by no
/// more than twice one.
pub proof fn lemma_fine_pair_unit(a: int)
    ensures
        mag(sin_cos_fine_of(a).0) <= FINE_ONE,
        mag(sin_cos_fine_of(a).1) <= FINE_ONE,
        FINE_ONE_SQ - 2 * FINE_ONE <= sin_cos_fine_of(a).0 * sin_cos_fine_of(a).0
            + sin_cos_fine_of(a).1 * sin_cos_fine_of(a).1 <= FINE_ONE_SQ,
{
    let hp = HALF_PI_FINE as int;
    let t = mag(a) * FINE_PER_UNIT;
    let r = t % hp;
    let y = if 2 * r > hp { hp - r } else { r };
    lemma_sin_cos_fine_range(y);
    let s = sin_fine(y);
    let c = cos_fine(y);
    assert((-s) * (-s) == s * s && (-c) * (-c) == c * c) by (nonlinear_arith);
    assert((c + 1) * (c + 1) == c * c + 2 * c + 1) by (nonlinear_arith);
}

/// The square of a fine value and that of its rounding to Q32.32: with `v`
/// at most one in magnitude and `q` its rounded quotient by the number of
/// fine units in a unit, the square of `q` in fine units is that of `v` up
/// to one fine unit times a unit, and a quarter of the square of a unit.
proof fn lemma_coarse_square(v: int, q: int)
    requires
        mag(v) <= FINE_ONE,
        2 * mag(q * FINE_PER_UNIT - v) <= FINE_PER_UNIT,
    ensures
        4 * mag((q * q) * (FINE_PER_UNIT * FINE_PER_UNIT) - v * v) <= 4 * (FINE_ONE
            * FINE_PER_UNIT) + FINE_PER_UNIT * FINE_PER_UNIT,
{
    let unit = FINE_PER_UNIT as int;
    let one = FINE_ONE as int;
    let e = q * unit - v;
    assert((q * q) * (unit * unit) == (q * unit) * (q * unit)) by (nonlinear_arith);
    assert((v + e) * (v + e) == v * v + 2 * (v * e) + e * e) by (nonlinear_arith);
    lemma_mul_bound(v, e, one, mag(e));
    assert(2 * (one * mag(e)) <= one * unit && 0 <= 4 * (e * e) <= unit * unit)
        by (nonlinear_arith)
        requires
            one >= 0,
            2 * mag(e) <= unit,
    ;
}

/// Rounding to Q32.32 keeps a fine value of at least three fifths at one
/// half or more.
proof fn lemma_coarse_keeps_large(v: int)
    requires
        5 * mag(v) >= 3 * FINE_ONE,
    ensures
        2 * mag(round_div(v, FINE_PER_UNIT as int)) >= ONE,
{
    let unit = FINE_PER_UNIT as int;
    let q = round_div(v, unit);
    lemma_round_div_error(v, unit);
    assert(2 * mag(q) >= ONE) by (nonlinear_arith)
        requires
            2 * mag(q * unit - v) <= unit,
            5 * mag(v) >= 3 * 0x1000_0000_0000_0000,
            unit == 0x1000_0000,
    ;
}

/// In the first octant sine and cosine, at fine precision, lie between zero
/// and one, the sine is at most its argument, and the square of the cosine
/// is what the square of the sine leaves of one, rounded down.
pub proof fn lemma_sin_cos_fine_range(x: int)
    requires
        0 <= 2 * x <= HALF_PI_FINE,
    ensures
        0 <= sin_fine(x) <= x,
        0 <= cos_fine(x) <= FINE_ONE,
        0 <= sin_fine(x) * sin_fine(x) <= FINE_ONE_SQ,
        cos_fine(x) * cos_fine(x) <= FINE_ONE_SQ - sin_fine(x) * sin_fine(x),
        FINE_ONE_SQ - sin_fine(x) * sin_fine(x) < (cos_fine(x) + 1) * (cos_fine(x) + 1),
{
    let one = FINE_ONE as int;
    lemma_fine_square_octant(x);
    let x2 = fine_square(x);
    lemma_series_tail_range(x2, 0);
    let h = series_tail(x2, 0);
    assert(0 <= x * h <= x * one) by (nonlinear_arith)
        requires
            0 <= x,
            0 <= h <= one,
    ;
    lemma_round_div_bound(x * h, one, x);
    lemma_round_div_nonneg(x * h, one);
    let s = sin_fine(x);
    assert(0 <= s * s <= one * one) by (nonlinear_arith)
        requires
            0 <= s <= one,
    ;
    assert(one * one == FINE_ONE_SQ) by (nonlinear_arith)
        requires
            one == 0x1000_0000_0000_0000,
    ;
    let rest = FINE_ONE_SQ - s * s;
    lemma_sqrt_floor_bounds(rest as nat);
    let c = cos_fine(x);
    assert(c * c <= one * one);
    lemma_below_root(c, one);
}

/// In the first octant the cosine is above three fifths.
pub proof fn lemma_cos_fine_lower(x: int)
    requires
        0 <= 2 * x <= HALF_PI_FINE,
    ensures
        5 * cos_fine(x) >= 3 * FINE_ONE,
        cos_fine(x) <= FINE_ONE,
{
    lemma_sin_cos_fine_range(x);
    let s = sin_fine(x);
    let c = cos_fine(x);
    assert(5 * c >= 3 * FINE_ONE) by (nonlinear_arith)
        requires
            c >= 0,
            0 <= s <= 905502432259640355,
            0x100_0000_0000_0000_0000_0000_0000_0000 - s * s < (c + 1) * (c + 1),
    ;
}

/// In the first octant the sine is at least four fifths of its argument.
pub proof fn lemma_sin_fine_lower(x: int)
    requires
        0 <= 2 * x <= HALF_PI_FINE,
    ensures
        5 * sin_fine(x) >= 4 * x - 5,
{
    let one = FINE_ONE as int;
    lemma_fine_square_octant(x);
    lemma_series_head(fine_square(x));
    let h = series_tail(fine_square(x), 0);
    assert(5 * h >= 4 * one);
    let s = sin_fine(x);
    assert(x * h >= 0) by (nonlinear_arith)
        requires
            x >= 0,
            h >= 0,
    ;
    lemma_round_div_nonneg(x * h, one);
    assert(5 * s >= 4 * x - 5) by (nonlinear_arith)
        requires
            2 * (s * one) >= 2 * (x * h) - one,
            5 * h >= 4 * one,
            x >= 0,
            one == 0x1000_0000_0000_0000,
    ;
}

/// An argument whose square rounds to zero is its own sine.
proof fn lemma_sin_fine_small(x: int)
    requires
        0 <= x,
        2 * (x * x) < FINE_ONE,
    ensures
        sin_fine(x) == x,
{
    let one = FINE_ONE as int;
    assert(x * x >= 0) by (nonlinear_arith);
    lemma_round_div_small(x * x, one);
    lemma_series_tail_at_zero(0);
    lemma_round_div_exact(x, one);
}

/// The denominator of the series of the sine from term `k` on, as an exact
/// fraction: the product of the square of one and the divisor, for each
/// term from `k` on.
pub open spec fn series_denominator(k: int) -> int
    decreases TERMS - k,
{
    if k >= TERMS {
        1
    } else {
        (FINE_ONE_SQ * series_divisor(k)) * series_denominator(k + 1)
    }
}

/// The numerator of the series of the sine from term `k` on, divided by
/// term `k`, at the fine argument `x`: over [`series_denominator`] it is
/// `1 - x^2 / d(k) * (1 - x^2 / d(k + 1) * (1 - ...))` with nothing
/// rounded. From term 0 on and times `x`, that is the polynomial of Taylor
/// of the sine of degree 21.
pub open spec fn series_numerator(x: int, k: int) -> int
    decreases TERMS - k,
{
    if k >= TERMS {
        1
    } else {
        series_denominator(k) - (x * x) * series_numerator(x, k + 1)
    }
}

/// The series as it is computed is the exact series within seven tenths of
/// a fine unit: what rounding adds at one term is divided by six or more at
/// the next.
pub proof fn lemma_series_tail_exact(x: int, k: int)
    requires
        0 <= x <= FINE_ONE,
        0 <= k,
    ensures
        series_denominator(k) >= 1,
        10 * mag(series_tail(fine_square(x), k) * series_denominator(k) - FINE_ONE
            * series_numerator(x, k)) <= 7 * series_denominator(k),
    decreases TERMS - k,
{
    let one = FINE_ONE as int;
    let x2 = fine_square(x);
    let xx = x * x;
    assert(0 <= xx <= one * one) by (nonlinear_arith)
        requires
            xx == x * x,
            0 <= x <= one,
    ;
    lemma_round_div_error(xx, one);
    lemma_round_div_bound(xx, one, one);
    lemma_round_div_nonneg(xx, one);
    if k < TERMS {
        lemma_series_tail_exact(x, k + 1);
        lemma_series_tail_range(x2, k + 1);
        let t1 = series_tail(x2, k + 1);
        let b1 = series_denominator(k + 1);
        let a1 = series_numerator(x, k + 1);
        let d = series_divisor(k);
        let r = round_div(x2 * t1, one * d);
        let t = series_tail(x2, k);
        let b = series_denominator(k);
        let a = series_numerator(x, k);
        assert(d >= 6) by (nonlinear_arith)
            requires
                k >= 0,
                d == (2 * k + 2) * (2 * k + 3),
        ;
        assert(one * d > 0) by (nonlinear_arith)
            requires
                one > 0,
                d >= 6,
        ;
        lemma_round_div_error(x2 * t1, one * d);
        let e1 = r * (one * d) - x2 * t1;
        let delta = x2 * one - xx;
        let ob1 = one * b1;
        assert(b == (one * d) * ob1) by (nonlinear_arith)
            requires
                b == ((one * one) * d) * b1,
                ob1 == one * b1,
        ;
        // What the term takes off, times the denominator.
        assert(r * b == (x2 * t1 + e1) * ob1) by (nonlinear_arith)
            requires
                b == (one * d) * ob1,
                e1 == r * (one * d) - x2 * t1,
        ;
        let t1b1 = t1 * b1;
        assert((x2 * t1) * ob1 == (xx + delta) * t1b1) by (nonlinear_arith)
            requires
                ob1 == one * b1,
                t1b1 == t1 * b1,
                delta == x2 * one - xx,
        ;
        lemma_distribute2(x2 * t1, e1, ob1);
        lemma_distribute2(xx, delta, t1b1);
        let u = one * a1 - t1b1;
        lemma_distribute2(one * a1, t1b1, xx);
        lemma_mul_permute(xx, one, a1);
        lemma_distribute2(one, r, b);
        lemma_distribute2(b, xx * a1, one);
        lemma_mul_regroup(one, b, 1);
        assert(t * b - one * a == xx * u - delta * t1b1 - e1 * ob1);
        // Each part beside the denominator.
        lemma_mul_bound(xx, u, one * one, mag(u));
        lemma_mul_bound(t1, b1, one, b1);
        lemma_mul_bound(delta, t1b1, mag(delta), one * b1);
        lemma_mul_bound(e1, ob1, mag(e1), ob1);
        let (yu, yd, ye) = (mag(u), mag(delta), mag(e1));
        let f2 = one * one;
        let fb = f2 * b1;
        assert(b == d * fb && fb >= 1) by (nonlinear_arith)
            requires
                b == (f2 * d) * b1,
                fb == f2 * b1,
                f2 >= 1,
                b1 >= 1,
        ;
        assert(10 * (f2 * yu) <= 7 * fb) by (nonlinear_arith)
            requires
                10 * yu <= 7 * b1,
                fb == f2 * b1,
                f2 >= 0,
        ;
        assert(2 * (yd * (one * b1)) <= fb) by (nonlinear_arith)
            requires
                0 <= 2 * yd <= one,
                fb == (one * one) * b1,
                b1 >= 1,
                one >= 0,
        ;
        assert(2 * (ye * ob1) <= d * fb) by (nonlinear_arith)
            requires
                0 <= 2 * ye <= one * d,
                ob1 == one * b1,
                fb == (one * one) * b1,
                b1 >= 1,
                one >= 0,
        ;
        let y = mag(t * b - one * a);
        assert(10 * y <= 7 * b) by (nonlinear_arith)
            requires
                y <= f2 * yu + yd * (one * b1) + ye * ob1,
                10 * (f2 * yu) <= 7 * fb,
                2 * (yd * (one * b1)) <= fb,
                2 * (ye * ob1) <= d * fb,
                b == d * fb,
                d >= 6,
                fb >= 1,
        ;
        assert(b >= 1) by (nonlinear_arith)
            requires
                b == d * fb,
                d >= 6,
                fb >= 1,
        ;
    } else {
        assert(series_tail(x2, k) == one);
        assert(one * 1 == one);
    }
}

/// The sine as it is computed in the first octant is the polynomial of
/// Taylor of degree 21, with nothing rounded, within six fifths of a fine
/// unit. That polynomial is the sine itself within the next term of the
/// series, which in the first octant is below 2^-76.
pub proof fn lemma_sine_series(x: int)
    requires
        0 <= x <= octant(),
    ensures
        5 * mag(sin_fine(x) * series_denominator(0) - x * series_numerator(x, 0)) <= 6
            * series_denominator(0),
{
    let one = FINE_ONE as int;
    let t = series_tail(fine_square(x), 0);
    let b = series_denominator(0);
    let a = series_numerator(x, 0);
    let s = sin_fine(x);
    lemma_series_tail_exact(x, 0);
    lemma_round_div_error(x * t, one);
    let e = s * one - x * t;
    let u = t * b - one * a;
    let v = s * b - x * a;
    lemma_distribute2(x * t, e, b);
    lemma_mul_regroup(x, t, b);
    lemma_distribute2(t * b, one * a, x);
    lemma_mul_permute(x, one, a);
    lemma_mul_regroup(s, one, b);
    lemma_distribute2(s * b, x * a, one);
    assert(one * v == x * u + e * b);
    lemma_mul_bound(x, u, x, mag(u));
    lemma_mul_bound(e, b, mag(e), b);
    lemma_mul_bound(one, v, one, mag(v));
    let (yv, yu, ye) = (mag(v), mag(u), mag(e));
    assert(5 * yv <= 6 * b) by (nonlinear_arith)
        requires
            one * yv <= x * yu + ye * b,
            10 * yu <= 7 * b,
            2 * ye <= one,
            0 <= x <= one,
            one >= 1,
            b >= 1,
            yv >= 0,
    ;
}

/// Every partial series lies between zero and one.
pub proof fn lemma_series_tail_range(x2: int, k: int)
    requires
        0 <= x2 <= FINE_ONE,
        0 <= k,
    ensures
        0 <= series_tail(x2, k) <= FINE_ONE,
    decreases TERMS - k,
{
    if k < TERMS {
        lemma_series_tail_range(x2, k + 1);
        let h = series_tail(x2, k + 1);
        let d = series_divisor(k);
        let one = FINE_ONE as int;
        assert(d >= 1) by (nonlinear_arith)
            requires
                k >= 0,
                d == (2 * k + 2) * (2 * k + 3),
        ;
        assert(0 <= x2 * h <= one * (one * d) && one * d > 0) by (nonlinear_arith)
            requires
                0 <= x2 <= one,
                0 <= h <= one,
                d >= 1,
                one > 0,
        ;
        lemma_round_div_bound(x2 * h, one * d, one);
        lemma_round_div_nonneg(x2 * h, one * d);
    }
}

/// At a squared argument of zero every partial series is one.
proof fn lemma_series_tail_at_zero(k: int)
    requires
        0 <= k,
    ensures
        series_tail(0, k) == FINE_ONE,
    decreases TERMS - k,
{
    if k < TERMS {
        lemma_series_tail_at_zero(k + 1);
        let d = FINE_ONE * series_divisor(k);
        assert(0 * (FINE_ONE as int) == 0);
        assert(d > 0) by (nonlinear_arith)
            requires
                d == FINE_ONE * ((2 * k + 2) * (2 * k + 3)),
                k >= 0,
                FINE_ONE > 0,
        ;
        lemma_round_div_exact(0, d);
        assert(0 * d == 0);
    }
}

/// The first step of the series, bounded from below: the series is at least
/// `1 - (x2 + 3) / 6`.
proof fn lemma_series_head(x2: int)
    requires
        0 <= x2 <= FINE_ONE,
    ensures
        6 * (FINE_ONE - series_tail(x2, 0)) <= x2 + 3,
        series_tail(x2, 0) <= FINE_ONE,
{
    let one = FINE_ONE as int;
    let c = series_divisor(0);
    assert(c == 6) by (nonlinear_arith)
        requires
            c == (2 * 0 + 2) * (2 * 0 + 3),
    ;
    lemma_series_tail_range(x2, 1);
    lemma_series_tail_range(x2, 0);
    let h = series_tail(x2, 1);
    let d = one * c;
    let q = round_div(x2 * h, d);
    assert(0 <= x2 * h <= x2 * one && d > 0) by (nonlinear_arith)
        requires
            0 <= x2,
            0 <= h <= one,
            d == one * c,
            c == 6,
            one > 0,
    ;
    lemma_round_div_nonneg(x2 * h, d);
    assert(c * q <= x2 + 3) by (nonlinear_arith)
        requires
            2 * (q * d) <= 2 * (x2 * h) + d,
            x2 * h <= x2 * one,
            d == one * c,
            one > 0,
            c == 6,
            q >= 0,
            x2 >= 0,
    ;
}

/// The squared argument of the first octant is below 0.62.
proof fn lemma_fine_square_octant(x: int)
    requires
        0 <= 2 * x <= HALF_PI_FINE,
    ensures
        0 <= fine_square(x) <= 711179947248643885,
{
    let one = FINE_ONE as int;
    let x2 = fine_square(x);
    assert(0 <= x * x <= 819934654828124569863099833944526025) by (nonlinear_arith)
        requires
            0 <= x <= 905502432259640355,
    ;
    lemma_round_div_nonneg(x * x, one);
    assert(x2 * one == 0x1000_0000_0000_0000 * x2) by (nonlinear_arith)
        requires
            one == 0x1000_0000_0000_0000,
    ;
}

} // verus!
