//! Vectors of any size, and the orthogonal projection of one onto another.
//!
//! A scaled vector is three whole numbers below 2^40 in magnitude and the
//! power of two that they count, so that what rounding takes is small
//! beside the vector itself, whatever its length.

use vstd::prelude::*;
use crate::algebra::Vec3;
use crate::arith::{
    lemma_distribute2, lemma_distribute3, lemma_monomial_square, lemma_mul_bound, lemma_mul_permute,
    lemma_mul_regroup, lemma_mul_sign, mag,
};
use crate::fixed::{
    div_round, lemma_round_div_bound, lemma_round_div_error, lemma_round_div_exact,
    lemma_round_div_small, round_div, DIV_LIMIT,
};
use crate::vector::{
    dot, lemma_dot_bound, lemma_dot_commutes, lemma_dot_linear, lemma_dot_self_positive,
    lemma_dot_within, lemma_lagrange, max_component, Vector3,
};

verus! {

/// The digits of a scaled vector are below this in magnitude: 2^40.
pub const DIGIT_LIMIT: i64 = 0x100_0000_0000;

/// The digits of a projection are at most this in magnitude: 2^39.
pub const DIGIT_TOP: i64 = 0x80_0000_0000;

/// The largest digit of a projection other than zero is at least this:
/// 2^38.
pub const DIGIT_FLOOR: i64 = 0x40_0000_0000;

/// The exponent of a scaled vector is at most this in magnitude: 2^40.
pub const EXPONENT_LIMIT: i64 = 0x100_0000_0000;

/// The inner product of the two vectors is lifted to this, 2^84, before it
/// is divided.
pub const LIFT_FLOOR: i128 = 0x10_0000_0000_0000_0000_0000;

/// How far the exponent of a projection may lie below that of what was
/// projected.
pub const LIFT_MOST: i64 = 84;

/// How far the exponent of a projection may lie above that of what was
/// projected.
pub const DROP_MOST: i64 = 47;

/// The power of two with exponent `n`.
pub open spec fn two_to(n: nat) -> int
    decreases n,
{
    if n == 0 {
        1
    } else {
        2 * two_to((n - 1) as nat)
    }
}

/// How often a magnitude `c` below 2^84 is doubled to reach 2^84; zero for
/// any other `c`.
pub open spec fn lift_count(c: int) -> nat
    decreases 2 * LIFT_FLOOR - c,
{
    if c <= 0 || c >= LIFT_FLOOR {
        0
    } else {
        1 + lift_count(2 * c)
    }
}

/// How often a magnitude `m` is halved, rounding down, to come below 2^39.
pub open spec fn drop_count(m: int) -> nat
    decreases m,
{
    if m < DIGIT_TOP {
        0
    } else {
        1 + drop_count(m / 2)
    }
}

/// How often a magnitude `m` below 2^39 is doubled to reach 2^39; zero for
/// any other `m`.
pub open spec fn raise_count(m: int) -> nat
    decreases 2 * DIGIT_TOP - m,
{
    if m <= 0 || m >= DIGIT_TOP {
        0
    } else {
        1 + raise_count(2 * m)
    }
}

/// The model of a scaled vector: the vector `digits` times two to the power
/// `exponent`.
pub struct Scaled {
    pub digits: Vec3,
    pub exponent: int,
}

impl Scaled {
    /// The digits are below 2^40 and the exponent is at most 2^40 in
    /// magnitude.
    pub open spec fn wf(self) -> bool {
        self.digits.within(DIGIT_LIMIT - 1) && mag(self.exponent) <= EXPONENT_LIMIT
    }

    /// The direction of the vector, as an axis: its digits, doubled until
    /// the largest is 2^39 at least. Neither the exponent nor a doubling of
    /// the digits has a part in it.
    pub open spec fn axis(self) -> Vec3 {
        self.digits.times(two_to(raise_count(self.digits.max_mag())))
    }

    /// The vector counted in the unit two to the power `e`, which is no
    /// larger than its own.
    pub open spec fn at(self, e: int) -> Vec3
        recommends
            e <= self.exponent,
    {
        self.digits.times(two_to((self.exponent - e) as nat))
    }
}

/// Each component of `v` divided by `d` and rounded to nearest.
pub open spec fn divided(v: Vec3, d: int) -> Vec3 {
    Vec3 { x: round_div(v.x, d), y: round_div(v.y, d), z: round_div(v.z, d) }
}

/// The quotients that a projection is rounded from: the inner product of
/// `a` with `b`, lifted to 2^84, times `b`, over the inner product of `b`
/// with itself.
pub open spec fn projection_quotient(a: Vec3, b: Vec3) -> Vec3 {
    let c = a.dot(b);
    divided(b.times(c * two_to(lift_count(mag(c)))), b.dot(b))
}

/// The orthogonal projection of `a` onto `b`, `(a.b / b.b) b`. Its digits
/// are the quotients of [`projection_quotient`], halved until the largest
/// is below 2^39 and rounded once; its exponent is that of `a`, less the
/// doublings that lifted the inner product, plus the halvings. Where the
/// inner product is zero, so are the digits.
pub open spec fn projected(a: Scaled, b: Scaled) -> Scaled {
    let c = a.digits.dot(b.digits);
    if c == 0 {
        Scaled { digits: Vec3 { x: 0, y: 0, z: 0 }, exponent: a.exponent }
    } else {
        let q = projection_quotient(a.digits, b.digits);
        let s = drop_count(q.max_mag());
        Scaled {
            digits: divided(q, two_to(s)),
            exponent: a.exponent - lift_count(mag(c)) + s,
        }
    }
}

/// A vector of any size: three digits and the power of two that they
/// count.
#[derive(Clone, Copy, Debug, PartialEq, Eq)]
pub struct ScaledVector3 {
    pub digits: Vector3,
    pub exponent: i64,
}

impl View for ScaledVector3 {
    type V = Scaled;

    open spec fn view(&self) -> Scaled {
        Scaled { digits: self.digits@, exponent: self.exponent as int }
    }
}

impl ScaledVector3 {
    /// The digits and the exponent are in range.
    pub open spec fn wf(&self) -> bool {
        self@.wf()
    }

    /// Whether the digits and the exponent are in range.
    pub fn is_wf(&self) -> (r: bool)
        ensures
            r == self.wf(),
    {
        self.digits.is_within(DIGIT_LIMIT - 1) && self.exponent <= EXPONENT_LIMIT && self.exponent
            >= -EXPONENT_LIMIT
    }

    /// Whether every digit is zero.
    pub fn is_zero(&self) -> (r: bool)
        ensures
            r == self@.digits.is_zero(),
    {
        self.digits.is_zero()
    }

    /// The direction of the vector, as an axis of fixed-point numbers.
    pub fn axis(&self) -> (r: Vector3)
        requires
            self.wf(),
        ensures
            r@ == self@.axis(),
            r@.within(DIGIT_LIMIT - 1),
            r@.is_zero() == self@.digits.is_zero(),
            !r@.is_zero() ==> r@.max_mag() >= DIGIT_TOP,
    {
        let d = self.digits;
        let top = max_component(&d);
        let mut f: i64 = 1;
        let mut cur: i64 = top;
        proof {
            assert(top * 1 == top);
            reveal_with_fuel(two_to, 1);
        }
        while 0 < cur && cur < DIGIT_TOP
            invariant
                0 <= top < DIGIT_LIMIT,
                0 <= cur < DIGIT_LIMIT,
                cur == top * f,
                1 <= f,
                f <= cur || top == 0,
                f == two_to((raise_count(top as int) - raise_count(cur as int)) as nat),
                raise_count(cur as int) <= raise_count(top as int),
            decreases 2 * DIGIT_TOP - cur,
        {
            proof {
                assert(top * (2 * f) == 2 * (top * f)) by (nonlinear_arith);
                lemma_two_to_top((raise_count(top as int) - raise_count(cur as int)) as nat);
            }
            cur = 2 * cur;
            f = 2 * f;
        }
        proof {
            assert(raise_count(cur as int) == 0);
            lemma_mul_bound(f as int, d.x as int, f as int, top as int);
            lemma_mul_bound(f as int, d.y as int, f as int, top as int);
            lemma_mul_bound(f as int, d.z as int, f as int, top as int);
            lemma_times_largest(d@, f as int);
            if top == 0 {
                assert(f * 0 == 0);
            } else {
                assert(d@.times(f as int).max_mag() >= 1) by (nonlinear_arith)
                    requires
                        d@.times(f as int).max_mag() == f * top,
                        f >= 1,
                        top >= 1,
                ;
            }
            assert(f * top == top * f) by (nonlinear_arith);
        }
        Vector3 { x: f * d.x, y: f * d.y, z: f * d.z }
    }

    /// The scaled vector of a vector of Q32.32 numbers: the same numbers
    /// where the largest is below 2^39, else halved until it is, and
    /// rounded once.
    pub fn from_vector(v: Vector3) -> (r: ScaledVector3)
        ensures
            r@ == scaled_of(v@),
            r.wf(),
            v@.max_mag() < DIGIT_TOP ==> r@.digits == v@ && r@.exponent == -32,
    {
        let (x, y, z) = (v.x as i128, v.y as i128, v.z as i128);
        let (ax, ay, az) = (abs_wide(x), abs_wide(y), abs_wide(z));
        let top = if ax >= ay { ax } else { ay };
        let top = if top >= az { top } else { az };
        let (g, s) = drop_for(top);
        proof {
            lemma_round_div_bound(x as int, g as int, DIGIT_TOP as int);
            lemma_round_div_bound(y as int, g as int, DIGIT_TOP as int);
            lemma_round_div_bound(z as int, g as int, DIGIT_TOP as int);
            if top < DIGIT_TOP as i128 {
                reveal_with_fuel(drop_count, 1);
                reveal_with_fuel(two_to, 1);
                lemma_round_div_exact(x as int, 1);
                lemma_round_div_exact(y as int, 1);
                lemma_round_div_exact(z as int, 1);
                assert(x * 1 == x && y * 1 == y && z * 1 == z);
            }
        }
        ScaledVector3 {
            digits: Vector3 {
                x: div_round(x, g) as i64,
                y: div_round(y, g) as i64,
                z: div_round(z, g) as i64,
            },
            exponent: s - 32,
        }
    }

    /// The vector of Q32.32 numbers nearest to this one; none where the
    /// exponent is above -10, for the digits might then not fit.
    pub fn to_vector(&self) -> (r: Option<Vector3>)
        requires
            self.wf(),
        ensures
            r.is_none() <==> self.exponent > -10,
            r.is_some() ==> r.unwrap()@ == fixed_of(self@),
    {
        let e = self.exponent + 32;
        if e > 22 {
            return None;
        }
        let d = self.digits;
        if e >= 0 {
            let f = power_of_two(e);
            proof {
                lemma_two_to_monotone(e as nat, 22);
                lemma_two_to_add(20, 2);
                lemma_two_to_add(16, 4);
                lemma_two_to_add(8, 8);
                lemma_two_to_add(4, 4);
                lemma_two_to_values();
                assert(two_to(22) == 0x40_0000) by (nonlinear_arith)
                    requires
                        two_to(22) == two_to(20) * two_to(2),
                        two_to(20) == two_to(16) * two_to(4),
                        two_to(16) == two_to(8) * two_to(8),
                        two_to(8) == two_to(4) * two_to(4),
                        two_to(4) == 16,
                        two_to(2) == 4,
                ;
                lemma_mul_bound(f as int, d.x as int, 0x40_0000, DIGIT_LIMIT - 1);
                lemma_mul_bound(f as int, d.y as int, 0x40_0000, DIGIT_LIMIT - 1);
                lemma_mul_bound(f as int, d.z as int, 0x40_0000, DIGIT_LIMIT - 1);
            }
            Some(
                Vector3 {
                    x: (f * (d.x as i128)) as i64,
                    y: (f * (d.y as i128)) as i64,
                    z: (f * (d.z as i128)) as i64,
                },
            )
        } else if e < -41 {
            proof {
                lemma_two_to_monotone(41, (-e) as nat);
                lemma_two_to_values();
                lemma_two_to_add(40, 1);
                lemma_round_div_small(d.x as int, two_to((-e) as nat));
                lemma_round_div_small(d.y as int, two_to((-e) as nat));
                lemma_round_div_small(d.z as int, two_to((-e) as nat));
            }
            Some(Vector3 { x: 0, y: 0, z: 0 })
        } else {
            let f = power_of_two(-e);
            proof {
                lemma_two_to_add((-e) as nat, 0);
                lemma_round_div_bound(d.x as int, f as int, DIGIT_LIMIT as int);
                lemma_round_div_bound(d.y as int, f as int, DIGIT_LIMIT as int);
                lemma_round_div_bound(d.z as int, f as int, DIGIT_LIMIT as int);
                lemma_two_to_monotone((-e) as nat, 41);
                lemma_two_to_values();
                lemma_two_to_add(40, 1);
            }
            Some(
                Vector3 {
                    x: div_round(d.x as i128, f) as i64,
                    y: div_round(d.y as i128, f) as i64,
                    z: div_round(d.z as i128, f) as i64,
                },
            )
        }
    }
}

/// The scaled vector of a vector of Q32.32 numbers.
pub open spec fn scaled_of(v: Vec3) -> Scaled {
    let s = drop_count(v.max_mag());
    Scaled { digits: divided(v, two_to(s)), exponent: s - 32 }
}

/// The vector of Q32.32 numbers nearest to a scaled vector: its digits
/// times the power of two where the exponent is -32 or more, else divided
/// by it and rounded.
pub open spec fn fixed_of(v: Scaled) -> Vec3 {
    if v.exponent >= -32 {
        v.digits.times(two_to((v.exponent + 32) as nat))
    } else {
        divided(v.digits, two_to((-32 - v.exponent) as nat))
    }
}

/// Two to the power `n`, for `n` up to 62.
fn power_of_two(n: i64) -> (r: i128)
    requires
        0 <= n <= 62,
    ensures
        r == two_to(n as nat),
        r >= 1,
{
    let mut r: i128 = 1;
    let mut i: i64 = 0;
    while i < n
        invariant
            0 <= i <= n <= 62,
            r == two_to(i as nat),
            1 <= r,
            r <= 0x4000_0000_0000_0000 || i == n,
        decreases n - i,
    {
        proof {
            lemma_two_to_top(i as nat);
            if i + 1 < n {
                lemma_two_to_monotone((i + 1) as nat, 61);
                lemma_two_to_sixty();
            }
            if r > 0x4000_0000_0000_0000 {
                lemma_two_to_monotone(i as nat, 61);
                lemma_two_to_sixty();
            }
        }
        r = 2 * r;
        i = i + 1;
    }
    r
}

/// Two to the power 61 and 62.
proof fn lemma_two_to_sixty()
    ensures
        two_to(61) == 0x2000_0000_0000_0000,
        two_to(62) == 0x4000_0000_0000_0000,
{
    lemma_two_to_values();
    lemma_two_to_add(40, 20);
    lemma_two_to_add(60, 1);
    lemma_two_to_add(60, 2);
    lemma_two_to_add(16, 4);
    lemma_two_to_add(8, 8);
    lemma_two_to_add(4, 4);
    reveal_with_fuel(two_to, 3);
    let (part4, part8, p16, p20, p40, p60) = (
        two_to(4),
        two_to(8),
        two_to(16),
        two_to(20),
        two_to(40),
        two_to(60),
    );
    assert(part8 == 256) by (nonlinear_arith)
        requires
            part8 == part4 * part4,
            part4 == 16,
    ;
    assert(p16 == 65536) by (nonlinear_arith)
        requires
            p16 == part8 * part8,
            part8 == 256,
    ;
    assert(p20 == 0x10_0000) by (nonlinear_arith)
        requires
            p20 == p16 * part4,
            p16 == 65536,
            part4 == 16,
    ;
    assert(p60 == 0x1000_0000_0000_0000) by (nonlinear_arith)
        requires
            p60 == p40 * p20,
            p40 == 0x100_0000_0000,
            p20 == 0x10_0000,
    ;
}

/// The power of two that lifts `c` to 2^84, and its exponent.
fn lift_for(c: i128) -> (r: (i128, i64))
    requires
        0 < c < LIFT_FLOOR,
    ensures
        r.1 == lift_count(c as int),
        r.0 == two_to(lift_count(c as int)),
        1 <= r.1 <= LIFT_MOST,
        1 <= r.0,
        LIFT_FLOOR <= c * r.0 < 2 * LIFT_FLOOR,
{
    let mut f: i128 = 1;
    let mut k: i64 = 0;
    let mut cur: i128 = c;
    proof {
        assert(c * 1 == c);
    }
    while cur < LIFT_FLOOR
        invariant
            0 < c < LIFT_FLOOR,
            0 < cur < 2 * LIFT_FLOOR,
            cur == c * f,
            1 <= f <= cur,
            0 <= k <= LIFT_MOST,
            f == two_to(k as nat),
            k < LIFT_MOST || cur >= LIFT_FLOOR,
            cur >= two_to(k as nat),
            lift_count(c as int) == k + lift_count(cur as int),
        decreases 2 * LIFT_FLOOR - cur,
    {
        proof {
            assert(c * (2 * f) == 2 * (c * f)) by (nonlinear_arith);
            lemma_two_to_top(k as nat);
            lemma_two_to_top((k + 1) as nat);
        }
        cur = 2 * cur;
        f = 2 * f;
        k = k + 1;
    }
    (f, k)
}

/// The power of two that takes `m` below 2^39, and its exponent.
fn drop_for(m: i128) -> (r: (i128, i64))
    requires
        0 <= m <= 2 * LIFT_FLOOR,
    ensures
        r.1 == drop_count(m as int),
        r.0 == two_to(drop_count(m as int)),
        0 <= r.1 <= DROP_MOST,
        1 <= r.0,
        m < DIGIT_TOP * r.0,
        r.1 == 0 || 2 * m >= DIGIT_TOP * r.0,
{
    let mut g: i128 = 1;
    let mut s: i64 = 0;
    let mut cur: i128 = m;
    proof {
        assert(m * 1 == m);
        assert((m + 1) * 1 == m + 1);
    }
    while cur >= DIGIT_TOP as i128
        invariant
            0 <= cur <= m <= 2 * LIFT_FLOOR,
            1 <= g,
            g == two_to(s as nat),
            0 <= s <= DROP_MOST,
            cur * g <= m < (cur + 1) * g,
            s == 0 || 2 * cur + 1 >= DIGIT_TOP,
            drop_count(m as int) == s + drop_count(cur as int),
        decreases cur,
    {
        proof {
            let h = cur / 2;
            assert(h * (2 * g) <= cur * g && (cur + 1) * g <= (h + 1) * (2 * g))
                by (nonlinear_arith)
                requires
                    h == cur / 2,
                    cur >= 0,
                    g >= 1,
            ;
            assert(g < 0x8000_0000_0000) by (nonlinear_arith)
                requires
                    cur >= 0x80_0000_0000,
                    g >= 1,
                    cur * g <= 0x20_0000_0000_0000_0000_0000,
            ;
            if s >= DROP_MOST {
                lemma_two_to_monotone(47, s as nat);
                lemma_two_to_values();
                lemma_two_to_add(40, 7);
                reveal_with_fuel(two_to, 8);
                assert(two_to(7) == 128);
                assert(false);
            }
            lemma_two_to_top(s as nat);
        }
        cur = cur / 2;
        g = 2 * g;
        s = s + 1;
    }
    proof {
        assert(2 * m >= DIGIT_TOP * g || s == 0) by (nonlinear_arith)
            requires
                cur * g <= m,
                g >= 1,
                s == 0 || 2 * cur + 1 >= 0x80_0000_0000,
                cur >= 0,
        ;
        assert(m < DIGIT_TOP * g) by (nonlinear_arith)
            requires
                m < (cur + 1) * g,
                cur + 1 <= 0x80_0000_0000,
                g >= 1,
        ;
    }
    (g, s)
}

/// A larger exponent gives a larger power.
pub proof fn lemma_two_to_monotone(a: nat, b: nat)
    requires
        a <= b,
    ensures
        1 <= two_to(a) <= two_to(b),
    decreases b,
{
    if a < b {
        lemma_two_to_monotone(a, (b - 1) as nat);
    } else {
        lemma_two_to_add(a, 0);
    }
}

/// The magnitude of a wide integer.
fn abs_wide(a: i128) -> (r: i128)
    requires
        a > i128::MIN,
    ensures
        r == mag(a as int),
{
    if a < 0 {
        -a
    } else {
        a
    }
}

/// The orthogonal projection of `a` onto `b`, `(a.b / b.b) b`, as a scaled
/// vector: what rounding takes is below one part in 2^37 of its length.
pub fn vector_projection(a: ScaledVector3, b: ScaledVector3) -> (r: ScaledVector3)
    requires
        a.wf(),
        b.wf(),
        !b@.digits.is_zero(),
        -EXPONENT_LIMIT + LIFT_MOST <= a.exponent <= EXPONENT_LIMIT - DROP_MOST,
    ensures
        r@ == projected(a@, b@),
        r.wf(),
{
    proof {
        lemma_mul_bound(a@.digits.max_mag(), b@.digits.max_mag(), DIGIT_LIMIT - 1, DIGIT_LIMIT - 1);
        lemma_mul_bound(b@.digits.max_mag(), b@.digits.max_mag(), DIGIT_LIMIT - 1, DIGIT_LIMIT - 1);
        lemma_dot_bound(a@.digits, b@.digits);
        lemma_dot_bound(b@.digits, b@.digits);
        lemma_dot_self_positive(b@.digits);
        assert((DIGIT_LIMIT - 1) * (DIGIT_LIMIT - 1) < 0x1_0000_0000_0000_0000_0000)
            by (nonlinear_arith);
    }
    let c = dot(&a.digits, &b.digits);
    let n = dot(&b.digits, &b.digits);
    if c == 0 {
        return ScaledVector3 { digits: Vector3 { x: 0, y: 0, z: 0 }, exponent: a.exponent };
    }
    let (f, k) = lift_for(abs_wide(c));
    proof {
        lemma_mul_bound(c as int, f as int, mag(c as int), f as int);
    }
    let lifted = c * f;
    proof {
        lemma_quotient_bound(lifted as int, b@.digits.x, n as int, b@.digits);
        lemma_quotient_bound(lifted as int, b@.digits.y, n as int, b@.digits);
        lemma_quotient_bound(lifted as int, b@.digits.z, n as int, b@.digits);
    }
    let qx = div_round(lifted * (b.digits.x as i128), n);
    let qy = div_round(lifted * (b.digits.y as i128), n);
    let qz = div_round(lifted * (b.digits.z as i128), n);
    let (ax, ay, az) = (abs_wide(qx), abs_wide(qy), abs_wide(qz));
    let top = if ax >= ay { ax } else { ay };
    let top = if top >= az { top } else { az };
    let (g, s) = drop_for(top);
    proof {
        lemma_round_div_bound(qx as int, g as int, DIGIT_TOP as int);
        lemma_round_div_bound(qy as int, g as int, DIGIT_TOP as int);
        lemma_round_div_bound(qz as int, g as int, DIGIT_TOP as int);
    }
    ScaledVector3 {
        digits: Vector3 {
            x: div_round(qx, g) as i64,
            y: div_round(qy, g) as i64,
            z: div_round(qz, g) as i64,
        },
        exponent: a.exponent - k + s,
    }
}

/// One quotient of a projection: the lifted inner product times a
/// component of `b`, over the inner product of `b` with itself, is no
/// larger than the lifted inner product.
proof fn lemma_quotient_bound(lifted: int, t: int, n: int, b: Vec3)
    requires
        mag(lifted) < 2 * LIFT_FLOOR,
        t == b.x || t == b.y || t == b.z,
        n == b.dot(b),
        b.within(DIGIT_LIMIT - 1),
        !b.is_zero(),
    ensures
        n > 0,
        mag(lifted * t) <= DIV_LIMIT,
        mag(lifted * t) <= mag(lifted) * n,
        mag(round_div(lifted * t, n)) <= mag(lifted),
        lifted * t == t * lifted,
{
    lemma_dot_self_positive(b);
    lemma_mul_bound(lifted, t, mag(lifted), mag(t));
    let m = mag(t);
    assert(m <= n) by (nonlinear_arith)
        requires
            m == mag(t),
            t == b.x || t == b.y || t == b.z,
            n == b.x * b.x + b.y * b.y + b.z * b.z,
    ;
    let l = mag(lifted);
    assert(l * m <= l * n && l * m <= 0x2000_0000_0000_0000_0000_0000_0000_0000)
        by (nonlinear_arith)
        requires
            0 <= l < 0x20_0000_0000_0000_0000_0000,
            0 <= m <= n,
            m < 0x100_0000_0000,
    ;
    lemma_round_div_bound(lifted * t, n, l);
    assert(lifted * t == t * lifted) by (nonlinear_arith);
}

/// The unit in which a projection is compared with what was projected:
/// two to the power of the exponent of `a`, less the doublings that lifted
/// the inner product.
pub open spec fn projection_unit(a: Scaled, b: Scaled) -> int {
    a.exponent - lift_count(mag(a.digits.dot(b.digits)))
}

/// What is left of `a` beside its projection onto `b` is orthogonal to `b`:
/// its inner product with `b` is below one part in 2^38 of the product of
/// the lengths of `a` and `b`. Both are counted in the unit of
/// [`projection_unit`], and the bound is stated of the squares.
pub proof fn lemma_projection_orthogonal(a: Scaled, b: Scaled)
    requires
        a.wf(),
        b.wf(),
        !b.digits.is_zero(),
    ensures
        ({
            let p = projected(a, b);
            let e = projection_unit(a, b);
            let rest = a.at(e).minus(p.at(e));
            &&& e <= a.exponent && e <= p.exponent
            &&& 0x10000000000000000000 * (rest.dot(b.digits) * rest.dot(b.digits)) <= a.at(e).dot(
                a.at(e),
            ) * b.digits.dot(b.digits)
        }),
{
    let (da, db) = (a.digits, b.digits);
    let c = da.dot(db);
    let n = db.dot(db);
    let p = projected(a, b);
    let e = projection_unit(a, b);
    let k = lift_count(mag(c));
    let f = two_to(k);
    let af = da.times(f);
    lemma_dot_self_positive(db);
    lemma_dot_self_positive(af);
    assert((a.exponent - e) as nat == k);
    assert(a.at(e) == af);
    if c == 0 {
        reveal_with_fuel(lift_count, 1);
        reveal_with_fuel(two_to, 1);
        assert(k == 0 && f == 1);
        assert(p.at(e) == Vec3 { x: 0, y: 0, z: 0 }) by {
            assert(two_to(0) * 0 == 0);
        }
        let rest = a.at(e).minus(p.at(e));
        assert(rest == da);
        assert(0 * 0 == 0);
        assert(af.dot(af) * n >= 0) by (nonlinear_arith)
            requires
                af.dot(af) >= 0,
                n >= 0,
        ;
    } else {
        lemma_projection_frame(da, db);
        let q = projection_quotient(da, db);
        let s = drop_count(q.max_mag());
        let g = two_to(s);
        let l = c * f;
        let pg = p.digits.times(g);
        assert((p.exponent - e) as nat == s);
        assert(p.at(e) == pg);
        let rest = af.minus(pg);
        let x = rest.dot(db);
        // With n, what is left along b is what the two roundings left.
        let er = q.times(n).minus(db.times(l));
        let fr = pg.minus(q);
        lemma_dot_linear(af, pg, 1, db);
        lemma_dot_linear(da, da, f, db);
        lemma_dot_linear(p.digits, p.digits, g, db);
        lemma_dot_linear(q.times(n), db.times(l), 1, db);
        lemma_dot_linear(q, q, n, db);
        lemma_dot_linear(db, db, l, db);
        lemma_dot_linear(pg, q, 1, db);
        let (pb, qb) = (p.digits.dot(db), q.dot(db));
        assert(x == f * c - g * pb);
        assert(er.dot(db) == n * qb - l * n);
        assert(fr.dot(db) == g * pb - qb);
        lemma_mul_regroup(f, c, 1);
        assert(n * x == -er.dot(db) - n * fr.dot(db)) by (nonlinear_arith)
            requires
                x == l - g * pb,
                er.dot(db) == n * qb - l * n,
                fr.dot(db) == g * pb - qb,
        ;
        lemma_dot_within(er.times(2), db, n);
        lemma_dot_within(fr.times(2), db, g);
        lemma_dot_linear(er, er, 2, db);
        lemma_dot_linear(fr, fr, 2, db);
        let sum = db.sum_mag();
        let (y, ye, yf) = (mag(x), mag(er.dot(db)), mag(fr.dot(db)));
        lemma_mul_bound(n, x, n, y);
        lemma_mul_bound(n, fr.dot(db), n, yf);
        assert(2 * y <= (1 + g) * sum) by (nonlinear_arith)
            requires
                n > 0,
                g >= 1,
                sum >= 0,
                n * y <= ye + n * yf,
                2 * ye <= n * sum,
                2 * yf <= g * sum,
        ;
        lemma_projection_room(da, db);
        lemma_sum_square(db);
        let big = af.dot(af);
        let w = 1 + g;
        assert(x * x == y * y) by (nonlinear_arith)
            requires
                y == mag(x),
        ;
        assert(4 * (y * y) <= (w * w) * (3 * n)) by (nonlinear_arith)
            requires
                0 <= 2 * y <= w * sum,
                0 <= sum,
                sum * sum <= 3 * n,
                w >= 0,
        ;
        assert(0x10000000000000000000 * (y * y) <= big * n) by (nonlinear_arith)
            requires
                4 * (y * y) <= (w * w) * (3 * n),
                0xc000000000000000000 * (w * w) <= big,
                n >= 0,
                y * y >= 0,
        ;
    }
}

/// A projection onto `b` is a multiple of `b`: each component of its
/// vector product with `b` is at most nine sixteenths of the sum of two
/// magnitudes of `b`, while its largest digit is 2^38 at least.
pub proof fn lemma_projection_parallel(a: Scaled, b: Scaled)
    requires
        a.wf(),
        b.wf(),
        a.digits.dot(b.digits) != 0,
    ensures
        ({
            let p = projected(a, b).digits;
            let d = b.digits;
            &&& DIGIT_FLOOR <= p.max_mag() <= DIGIT_TOP
            &&& 16 * mag(p.cross(d).x) <= 9 * (mag(d.y) + mag(d.z))
            &&& 16 * mag(p.cross(d).y) <= 9 * (mag(d.z) + mag(d.x))
            &&& 16 * mag(p.cross(d).z) <= 9 * (mag(d.x) + mag(d.y))
        }),
{
    let (da, d) = (a.digits, b.digits);
    let n = d.dot(d);
    let l = da.dot(d) * two_to(lift_count(mag(da.dot(d))));
    let q = projection_quotient(da, d);
    let g = two_to(drop_count(q.max_mag()));
    let p = projected(a, b).digits;
    let w = projection_error(da, d);
    lemma_projection_frame(da, d);
    lemma_projection_size(da, d);
    lemma_projection_error(da, d);
    lemma_cross_component(p.y, p.z, d.y, d.z, w.y, w.z, l, n, g);
    lemma_cross_component(p.z, p.x, d.z, d.x, w.z, w.x, l, n, g);
    lemma_cross_component(p.x, p.y, d.x, d.y, w.x, w.y, l, n, g);
}

/// One component of [`lemma_projection_parallel`].
proof fn lemma_cross_component(
    part1: int,
    part2: int,
    b1: int,
    b2: int,
    w1: int,
    w2: int,
    l: int,
    n: int,
    g: int,
)
    requires
        n > 0,
        g >= 16,
        (g * n) * part1 == l * b1 + w1,
        (g * n) * part2 == l * b2 + w2,
        2 * mag(w1) <= n * (1 + g),
        2 * mag(w2) <= n * (1 + g),
    ensures
        16 * mag(part1 * b2 - part2 * b1) <= 9 * (mag(b1) + mag(b2)),
{
    let x = part1 * b2 - part2 * b1;
    let gn = g * n;
    lemma_distribute2(part1 * b2, part2 * b1, gn);
    lemma_mul_regroup(gn, part1, b2);
    lemma_mul_regroup(gn, part2, b1);
    lemma_distribute2(l * b1, w1, b2);
    lemma_distribute2(l * b2, w2, b1);
    lemma_mul_regroup(l, b1, b2);
    assert(gn * x == w1 * b2 - w2 * b1);
    lemma_mul_bound(w1, b2, mag(w1), mag(b2));
    lemma_mul_bound(w2, b1, mag(w2), mag(b1));
    lemma_mul_bound(gn, x, gn, mag(x));
    let (y, s, m1, m2) = (mag(x), mag(b1) + mag(b2), mag(w1), mag(w2));
    assert(16 * y <= 9 * s) by (nonlinear_arith)
        requires
            n > 0,
            g >= 16,
            y >= 0,
            (g * n) * y <= m1 * mag(b2) + m2 * mag(b1),
            2 * m1 <= n * (1 + g),
            2 * m2 <= n * (1 + g),
            s == mag(b1) + mag(b2),
            mag(b1) >= 0,
            mag(b2) >= 0,
    ;
}

/// What the two roundings of a projection add: the inner product of `b`
/// with itself times the power that the quotients were halved by, times a
/// digit, is the lifted inner product times the component of `b`, and `w`.
pub open spec fn projection_error(a: Vec3, b: Vec3) -> Vec3 {
    let n = b.dot(b);
    let l = a.dot(b) * two_to(lift_count(mag(a.dot(b))));
    let q = projection_quotient(a, b);
    let g = two_to(drop_count(q.max_mag()));
    divided(q, g).times(g * n).minus(b.times(l))
}

/// The size of [`projection_error`]: half of one and the power that the
/// quotients were halved by, times the inner product of `b` with itself.
proof fn lemma_projection_error(a: Vec3, b: Vec3)
    requires
        a.within(DIGIT_LIMIT - 1),
        b.within(DIGIT_LIMIT - 1),
        a.dot(b) != 0,
    ensures
        ({
            let n = b.dot(b);
            let g = two_to(drop_count(projection_quotient(a, b).max_mag()));
            projection_error(a, b).times(2).within(n * (1 + g))
        }),
{
    let n = b.dot(b);
    let l = a.dot(b) * two_to(lift_count(mag(a.dot(b))));
    let q = projection_quotient(a, b);
    let g = two_to(drop_count(q.max_mag()));
    let p = divided(q, g);
    lemma_projection_frame(a, b);
    lemma_error_component(p.x, q.x, b.x, l, n, g);
    lemma_error_component(p.y, q.y, b.y, l, n, g);
    lemma_error_component(p.z, q.z, b.z, l, n, g);
}

/// One component of [`lemma_projection_error`].
proof fn lemma_error_component(p: int, q: int, b: int, l: int, n: int, g: int)
    requires
        n > 0,
        g >= 1,
        2 * mag(n * q - l * b) <= n,
        2 * mag(g * p - q) <= g,
    ensures
        mag(2 * ((g * n) * p - l * b)) <= n * (1 + g),
{
    let e = n * q - l * b;
    let f = g * p - q;
    lemma_distribute2(g * p, q, n);
    lemma_mul_regroup(n, g, p);
    lemma_mul_regroup(g, n, p);
    assert((g * n) * p - l * b == e + n * f);
    lemma_mul_bound(n, f, n, mag(f));
    assert(2 * (n * mag(f)) <= n * g) by (nonlinear_arith)
        requires
            n > 0,
            2 * mag(f) <= g,
    ;
    assert(n * (1 + g) == n + n * g) by (nonlinear_arith);
}

/// The quotients of a projection are large: they are halved at least four
/// times, and the largest digit is 2^38 at least.
pub proof fn lemma_projection_size(a: Vec3, b: Vec3)
    requires
        a.within(DIGIT_LIMIT - 1),
        b.within(DIGIT_LIMIT - 1),
        a.dot(b) != 0,
    ensures
        ({
            let q = projection_quotient(a, b);
            let g = two_to(drop_count(q.max_mag()));
            &&& g >= 16
            &&& DIGIT_FLOOR <= divided(q, g).max_mag() <= DIGIT_TOP
        }),
{
    let c = a.dot(b);
    let n = b.dot(b);
    let f = two_to(lift_count(mag(c)));
    let l = c * f;
    let q = projection_quotient(a, b);
    let s = drop_count(q.max_mag());
    let g = two_to(s);
    let p = divided(q, g);
    lemma_projection_frame(a, b);
    // The largest component of b gives a quotient of 2^42 at least.
    let m = b.max_mag();
    let t = if m == mag(b.x) { b.x } else if m == mag(b.y) { b.y } else { b.z };
    let qt = if m == mag(b.x) { q.x } else if m == mag(b.y) { q.y } else { q.z };
    assert(2 * mag(n * qt - l * t) <= n);
    lemma_mul_bound(n, qt, n, mag(qt));
    lemma_mul_bound(l, t, mag(l), m);
    let (ml, mq) = (mag(l), mag(qt));
    assert(n <= 3 * (m * m) && 1 <= m) by (nonlinear_arith)
        requires
            n == b.x * b.x + b.y * b.y + b.z * b.z,
            n > 0,
            mag(b.x) <= m && mag(b.y) <= m && mag(b.z) <= m,
    ;
    let (nq, lt) = (n * qt, l * t);
    assert(mq >= 0x400_0000_0000) by (nonlinear_arith)
        requires
            2 * mag(nq - lt) <= n,
            mag(nq) == n * mq,
            mag(lt) == ml * m,
            ml >= 0x10_0000_0000_0000_0000_0000,
            0 < n <= 3 * (m * m),
            1 <= m < 0x100_0000_0000,
            mq >= 0,
    ;
    assert(q.max_mag() >= mq);
    if s < 4 {
        reveal_with_fuel(two_to, 5);
        assert(g <= 8);
        assert(false);
    }
    lemma_two_to_monotone(4, s);
    lemma_two_to_values();
    // The largest quotient gives a digit of 2^38 at least.
    let top = q.max_mag();
    let pt = if top == mag(q.x) { p.x } else if top == mag(q.y) { p.y } else { p.z };
    let qm = if top == mag(q.x) { q.x } else if top == mag(q.y) { q.y } else { q.z };
    assert(2 * mag(g * pt - qm) <= g);
    lemma_mul_bound(g, pt, g, mag(pt));
    let gp = g * pt;
    let mp = mag(pt);
    assert(mp >= 0x40_0000_0000) by (nonlinear_arith)
        requires
            2 * mag(gp - qm) <= g,
            mag(gp) == g * mp,
            mag(qm) == top,
            2 * top >= 0x80_0000_0000 * g,
            g >= 16,
            mp >= 0,
    ;
    assert(p.max_mag() >= mp);
}

/// Projecting a projection onto `b` again changes it by less than one part
/// in 2^35: counted in the unit of the second projection, the two differ by
/// six at most where the largest component of the first is 2^38 at least.
pub proof fn lemma_projection_again(a: Scaled, b: Scaled)
    requires
        a.wf(),
        b.wf(),
        !b.digits.is_zero(),
    ensures
        ({
            let p = projected(a, b);
            let r = projected(p, b);
            let e = projection_unit(p, b);
            let t = two_to((p.exponent - e) as nat);
            &&& a.digits.dot(b.digits) == 0 ==> r == p
            &&& e <= p.exponent && e <= r.exponent
            &&& r.at(e).minus(p.at(e)).within(6 * t)
            &&& a.digits.dot(b.digits) != 0 ==> p.at(e).max_mag() >= DIGIT_FLOOR * t
        }),
{
    let (da, d) = (a.digits, b.digits);
    let p = projected(a, b);
    let r = projected(p, b);
    let e = projection_unit(p, b);
    let c2 = p.digits.dot(d);
    let k2 = lift_count(mag(c2));
    let t = two_to(k2);
    assert((p.exponent - e) as nat == k2);
    lemma_two_to_add(k2, 0);
    if da.dot(d) == 0 {
        assert(0 * d.x == 0 && 0 * d.y == 0 && 0 * d.z == 0);
        assert(c2 == 0);
        assert(r == p);
        reveal_with_fuel(lift_count, 1);
        reveal_with_fuel(two_to, 1);
        assert(t * 0 == 0);
    } else {
        let n = d.dot(d);
        let l = da.dot(d) * two_to(lift_count(mag(da.dot(d))));
        let q = projection_quotient(da, d);
        let g = two_to(drop_count(q.max_mag()));
        let pd = p.digits;
        lemma_projection_frame(da, d);
        lemma_projection_size(da, d);
        assert(p.at(e) == pd.times(t));
        lemma_mul_bound(t, pd.x, t, mag(pd.x));
        lemma_mul_bound(t, pd.y, t, mag(pd.y));
        lemma_mul_bound(t, pd.z, t, mag(pd.z));
        assert(pd.times(t).max_mag() == t * pd.max_mag()) by (nonlinear_arith)
            requires
                t >= 1,
                mag(t * pd.x) == t * mag(pd.x),
                mag(t * pd.y) == t * mag(pd.y),
                mag(t * pd.z) == t * mag(pd.z),
                pd.times(t).max_mag() == (if (if mag(t * pd.x) >= mag(t * pd.y) {
                    mag(t * pd.x)
                } else {
                    mag(t * pd.y)
                }) >= mag(t * pd.z) {
                    if mag(t * pd.x) >= mag(t * pd.y) {
                        mag(t * pd.x)
                    } else {
                        mag(t * pd.y)
                    }
                } else {
                    mag(t * pd.z)
                }),
                pd.max_mag() == (if (if mag(pd.x) >= mag(pd.y) {
                    mag(pd.x)
                } else {
                    mag(pd.y)
                }) >= mag(pd.z) {
                    if mag(pd.x) >= mag(pd.y) {
                        mag(pd.x)
                    } else {
                        mag(pd.y)
                    }
                } else {
                    mag(pd.z)
                }),
        ;
        assert(t * pd.max_mag() >= DIGIT_FLOOR * t) by (nonlinear_arith)
            requires
                t >= 1,
                pd.max_mag() >= DIGIT_FLOOR,
        ;
        // What the first projection has across b, times the inner product
        // of b with itself.
        let w = projection_error(da, d);
        let h = n * (1 + g);
        lemma_projection_error(da, d);
        lemma_dot_within(w.times(2), d, h);
        lemma_dot_linear(w, w, 2, d);
        let wb = w.dot(d);
        let x = Vec3 { x: c2 * d.x - n * pd.x, y: c2 * d.y - n * pd.y, z: c2 * d.z - n * pd.z };
        lemma_mul_regroup(g * n, pd.x, 1);
        lemma_mul_regroup(g * n, pd.y, 1);
        lemma_mul_regroup(g * n, pd.z, 1);
        lemma_mul_regroup(l, d.x, 1);
        lemma_mul_regroup(l, d.y, 1);
        lemma_mul_regroup(l, d.z, 1);
        lemma_across_component(pd, d, w, l, n, g, pd.x, d.x, w.x);
        lemma_across_component(pd, d, w, l, n, g, pd.y, d.y, w.y);
        lemma_across_component(pd, d, w, l, n, g, pd.z, d.z, w.z);
        lemma_projection_nonzero(da, d);
        {
            lemma_projection_frame(pd, d);
            let l2 = c2 * t;
            let q2 = projection_quotient(pd, d);
            let s2 = drop_count(q2.max_mag());
            let g2 = two_to(s2);
            let rd = r.digits;
            assert((r.exponent - e) as nat == s2);
            assert(r.at(e) == rd.times(g2));
            lemma_dot_bound(pd, d);
            lemma_again_factor(pd, d);
            lemma_again_component(rd.x, pd.x, q2.x, d.x, c2, t, n, g2, x.x);
            lemma_again_component(rd.y, pd.y, q2.y, d.y, c2, t, n, g2, x.y);
            lemma_again_component(rd.z, pd.z, q2.z, d.z, c2, t, n, g2, x.z);
        }
    }
}

/// What a projection `p` has across `b`: the inner product of `p` with
/// `b`, times a component of `b`, less that component of `p` times the
/// inner product of `b` with itself, is small beside the latter.
proof fn lemma_across_component(
    p: Vec3,
    b: Vec3,
    w: Vec3,
    l: int,
    n: int,
    g: int,
    pt: int,
    bt: int,
    wt: int,
)
    requires
        n == b.dot(b),
        n > 0,
        g >= 16,
        (pt == p.x && bt == b.x && wt == w.x) || (pt == p.y && bt == b.y && wt == w.y) || (pt
            == p.z && bt == b.z && wt == w.z),
        (g * n) * p.x == l * b.x + w.x,
        (g * n) * p.y == l * b.y + w.y,
        (g * n) * p.z == l * b.z + w.z,
        w.times(2).within(n * (1 + g)),
        2 * mag(w.dot(b)) <= (n * (1 + g)) * b.sum_mag(),
    ensures
        4 * mag(p.dot(b) * bt - n * pt) <= 9 * n,
{
    let x = p.dot(b) * bt - n * pt;
    let wb = w.dot(b);
    let gn = g * n;
    let pb = p.dot(b);
    lemma_scaled_dot(p, b, w, l, gn);
    lemma_distribute2(pb * bt, n * pt, gn);
    lemma_mul_regroup(gn, pb, bt);
    lemma_mul_regroup(gn, n, pt);
    lemma_mul_regroup(n, gn, pt);
    lemma_distribute2(l * n, wb, bt);
    lemma_distribute2(l * bt, wt, n);
    lemma_mul_regroup(l, n, bt);
    lemma_mul_regroup(n, wt, 1);
    assert(gn * x == wb * bt - n * wt);
    let h = n * (1 + g);
    let sum = b.sum_mag();
    let m = mag(bt);
    lemma_mul_bound(wb, bt, mag(wb), m);
    lemma_mul_bound(n, wt, n, mag(wt));
    lemma_mul_bound(gn, x, gn, mag(x));
    assert(sum * m <= 3 * n) by (nonlinear_arith)
        requires
            sum == mag(b.x) + mag(b.y) + mag(b.z),
            m == mag(b.x) || m == mag(b.y) || m == mag(b.z),
            n == b.x * b.x + b.y * b.y + b.z * b.z,
    ;
    let (y, ywb, ywt) = (mag(x), mag(wb), mag(wt));
    assert(2 * (ywb * m) <= h * (3 * n)) by (nonlinear_arith)
        requires
            2 * ywb <= h * sum,
            0 <= sum * m <= 3 * n,
            m >= 0,
            h >= 0,
    ;
    assert(4 * y <= 9 * n) by (nonlinear_arith)
        requires
            n > 0,
            g >= 16,
            y >= 0,
            h == n * (1 + g),
            gn == g * n,
            gn * y <= ywb * m + n * ywt,
            2 * (ywb * m) <= h * (3 * n),
            2 * ywt <= h,
    ;
}

/// The inner product of a projection with `b`, times the inner product of
/// `b` with itself and the power that the quotients were halved by: the
/// lifted inner product times the inner product of `b` with itself, and
/// what the roundings have along `b`.
proof fn lemma_scaled_dot(p: Vec3, b: Vec3, w: Vec3, l: int, gn: int)
    requires
        gn * p.x == l * b.x + w.x,
        gn * p.y == l * b.y + w.y,
        gn * p.z == l * b.z + w.z,
    ensures
        gn * p.dot(b) == l * b.dot(b) + w.dot(b),
{
    lemma_distribute3(p.x * b.x, p.y * b.y, p.z * b.z, gn);
    lemma_mul_regroup(gn, p.x, b.x);
    lemma_mul_regroup(gn, p.y, b.y);
    lemma_mul_regroup(gn, p.z, b.z);
    lemma_distribute2(l * b.x, w.x, b.x);
    lemma_distribute2(l * b.y, w.y, b.y);
    lemma_distribute2(l * b.z, w.z, b.z);
    lemma_distribute3(b.x * b.x, b.y * b.y, b.z * b.z, l);
    lemma_mul_regroup(l, b.x, b.x);
    lemma_mul_regroup(l, b.y, b.y);
    lemma_mul_regroup(l, b.z, b.z);
}

/// A projection other than zero has an inner product other than zero with
/// `b`, of the sign of that of `a`.
pub proof fn lemma_projection_nonzero(a: Vec3, b: Vec3)
    requires
        a.within(DIGIT_LIMIT - 1),
        b.within(DIGIT_LIMIT - 1),
        a.dot(b) != 0,
    ensures
        ({
            let q = projection_quotient(a, b);
            let p = divided(q, two_to(drop_count(q.max_mag())));
            &&& p.dot(b) != 0
            &&& (p.dot(b) > 0) == (a.dot(b) > 0)
        }),
{
    let c = a.dot(b);
    let n = b.dot(b);
    let f = two_to(lift_count(mag(c)));
    let l = c * f;
    let q = projection_quotient(a, b);
    let g = two_to(drop_count(q.max_mag()));
    let p = divided(q, g);
    let w = projection_error(a, b);
    let h = n * (1 + g);
    lemma_projection_frame(a, b);
    lemma_projection_size(a, b);
    lemma_projection_error(a, b);
    lemma_dot_within(w.times(2), b, h);
    lemma_dot_linear(w, w, 2, b);
    lemma_mul_regroup(g * n, p.x, 1);
    lemma_mul_regroup(g * n, p.y, 1);
    lemma_mul_regroup(g * n, p.z, 1);
    lemma_mul_regroup(l, b.x, 1);
    lemma_mul_regroup(l, b.y, 1);
    lemma_mul_regroup(l, b.z, 1);
    lemma_scaled_dot(p, b, w, l, g * n);
    // The largest quotient bounds the power that they were halved by.
    let top = q.max_mag();
    let t = if top == mag(q.x) { b.x } else if top == mag(q.y) { b.y } else { b.z };
    let qt = if top == mag(q.x) { q.x } else if top == mag(q.y) { q.y } else { q.z };
    assert(2 * mag(n * qt - l * t) <= n);
    lemma_mul_bound(n, qt, n, top);
    lemma_mul_bound(l, t, mag(l), mag(t));
    let m = b.max_mag();
    let sum = b.sum_mag();
    let (mt, ml) = (mag(t), mag(l));
    assert(mt * m <= n && 0 <= sum <= 3 * m && m >= 1) by (nonlinear_arith)
        requires
            mt == mag(t),
            t == b.x || t == b.y || t == b.z,
            mag(b.x) <= m && mag(b.y) <= m && mag(b.z) <= m,
            m == mag(b.x) || m == mag(b.y) || m == mag(b.z),
            sum == mag(b.x) + mag(b.y) + mag(b.z),
            n == b.x * b.x + b.y * b.y + b.z * b.z,
            n > 0,
    ;
    let (nq, lt) = (n * qt, l * t);
    let gm = g * m;
    assert(0x80_0000_0000 * (gm * n) <= (2 * ml + m) * n) by (nonlinear_arith)
        requires
            gm == g * m,
            2 * mag(nq - lt) <= n,
            mag(nq) == n * top,
            mag(lt) == ml * mt,
            2 * top >= 0x80_0000_0000 * g,
            0 <= mt,
            mt * m <= n,
            m >= 1,
            ml >= 0,
            g >= 1,
            n > 0,
    ;
    assert(0x80_0000_0000 * gm <= 2 * ml + m) by (nonlinear_arith)
        requires
            0x80_0000_0000 * (gm * n) <= (2 * ml + m) * n,
            n > 0,
    ;
    let yw = mag(w.dot(b));
    assert(2 * yw <= (n * (6 * gm))) by (nonlinear_arith)
        requires
            2 * yw <= (n * (1 + g)) * sum,
            0 <= sum <= 3 * m,
            gm == g * m,
            g >= 1,
            n > 0,
    ;
    assert(yw < ml * n) by (nonlinear_arith)
        requires
            2 * yw <= (n * (6 * gm)),
            0x80_0000_0000 * gm <= 2 * ml + m,
            m < 0x100_0000_0000,
            ml >= 0x10_0000_0000_0000_0000_0000,
            n > 0,
            gm >= 0,
    ;
    let pb = p.dot(b);
    let gn = g * n;
    lemma_mul_bound(l, n, ml, n);
    lemma_mul_sign(l, n);
    let ln = l * n;
    assert(gn > 0 && mag(ln) > 0) by (nonlinear_arith)
        requires
            gn == g * n,
            g >= 1,
            n > 0,
            mag(ln) == ml * n,
            ml >= 1,
    ;
    assert(pb != 0 && (pb > 0) == (l > 0)) by (nonlinear_arith)
        requires
            gn * pb == ln + w.dot(b),
            mag(w.dot(b)) < mag(ln),
            gn > 0,
            (ln > 0) == (l > 0),
            ln != 0,
    ;
    lemma_mul_sign(c, f);
}

/// The power that the quotients of a second projection are halved by is
/// at most six times the power that lifted its inner product.
proof fn lemma_again_factor(p: Vec3, b: Vec3)
    requires
        p.within(DIGIT_TOP as int),
        b.within(DIGIT_LIMIT - 1),
        p.dot(b) != 0,
    ensures
        two_to(drop_count(projection_quotient(p, b).max_mag())) <= 6 * two_to(
            lift_count(mag(p.dot(b))),
        ),
{
    let c = p.dot(b);
    let n = b.dot(b);
    let f = two_to(lift_count(mag(c)));
    let l = c * f;
    let q = projection_quotient(p, b);
    let g = two_to(drop_count(q.max_mag()));
    lemma_projection_frame(p, b);
    if g != 1 {
        let top = q.max_mag();
        let t = if top == mag(q.x) { b.x } else if top == mag(q.y) { b.y } else { b.z };
        let qt = if top == mag(q.x) { q.x } else if top == mag(q.y) { q.y } else { q.z };
        assert(2 * mag(n * qt - l * t) <= n);
        lemma_mul_bound(n, qt, n, top);
        lemma_mul_bound(l, t, mag(l), mag(t));
        lemma_dot_bound(p, b);
        let m = b.max_mag();
        lemma_mul_bound(p.max_mag(), m, DIGIT_TOP as int, m);
        let (mc, mt) = (mag(c), mag(t));
        assert(mt * m <= n && mt <= m) by (nonlinear_arith)
            requires
                mt == mag(t),
                t == b.x || t == b.y || t == b.z,
                mag(b.x) <= m && mag(b.y) <= m && mag(b.z) <= m,
                m == mag(b.x) || m == mag(b.y) || m == mag(b.z),
                n == b.x * b.x + b.y * b.y + b.z * b.z,
        ;
        let (nq, lt, ml) = (n * qt, l * t, mag(l));
        assert(ml * mt <= (3 * (0x80_0000_0000 * f)) * n) by (nonlinear_arith)
            requires
                ml == mc * f,
                0 <= mc <= 3 * (0x80_0000_0000 * m),
                0 <= mt,
                mt * m <= n,
                f >= 1,
        ;
        assert(g <= 6 * f) by (nonlinear_arith)
            requires
                2 * mag(nq - lt) <= n,
                mag(nq) == n * top,
                mag(lt) == ml * mt,
                ml * mt <= (3 * (0x80_0000_0000 * f)) * n,
                n > 0,
                2 * top >= 0x80_0000_0000 * g,
                f >= 1,
                g >= 1,
        ;
    }
}

/// One component of [`lemma_projection_again`]: `r` is the digit of the
/// second projection, `p` that of the first, and `x` what the first has
/// across `b`.
proof fn lemma_again_component(
    r: int,
    p: int,
    q2: int,
    bt: int,
    c2: int,
    t: int,
    n: int,
    g2: int,
    x: int,
)
    requires
        n > 0,
        t >= 1,
        1 <= g2 <= 6 * t,
        x == c2 * bt - n * p,
        4 * mag(x) <= 9 * n,
        2 * mag(n * q2 - (c2 * t) * bt) <= n,
        2 * mag(g2 * r - q2) <= g2,
    ensures
        mag(g2 * r - t * p) <= 6 * t,
{
    let d = g2 * r - t * p;
    let e2 = n * q2 - (c2 * t) * bt;
    let f2 = g2 * r - q2;
    lemma_distribute2(g2 * r, t * p, n);
    lemma_distribute2(c2 * bt, n * p, t);
    lemma_distribute2(g2 * r, q2, n);
    lemma_mul_permute(n, t, p);
    lemma_mul_regroup(c2, t, bt);
    lemma_mul_regroup(c2 * bt, t, 1);
    assert(n * d == t * x + e2 + n * f2);
    lemma_mul_bound(n, d, n, mag(d));
    lemma_mul_bound(t, x, t, mag(x));
    lemma_mul_bound(n, f2, n, mag(f2));
    let (y, yx, ye, yf) = (mag(d), mag(x), mag(e2), mag(f2));
    assert(y <= 6 * t) by (nonlinear_arith)
        requires
            n > 0,
            t >= 1,
            1 <= g2 <= 6 * t,
            y >= 0,
            n * y <= t * yx + ye + n * yf,
            4 * yx <= 9 * n,
            2 * ye <= n,
            2 * yf <= g2,
    ;
}

/// Only the direction of `b` counts. The exponent of `b` has no part in
/// the projection, and a whole multiple of its digits changes the
/// projection by less than one part in 2^36: counted in a unit below both,
/// the two differ by three at most where the largest component of the
/// first is 2^38 at least.
pub proof fn lemma_projection_scale(a: Scaled, b: Scaled, o: Scaled, m: int)
    requires
        a.wf(),
        b.wf(),
        o.wf(),
        !b.digits.is_zero(),
        m != 0,
        o.digits == b.digits.times(m),
    ensures
        ({
            let p = projected(a, b);
            let r = projected(a, o);
            let k = lift_count(mag(a.digits.dot(b.digits)));
            let j = lift_count(mag(a.digits.dot(o.digits)));
            let e = a.exponent - k - j;
            let t = two_to((p.exponent - e) as nat);
            &&& m == 1 ==> r == p
            &&& a.digits.dot(b.digits) == 0 ==> r == p
            &&& e <= p.exponent && e <= r.exponent
            &&& r.at(e).minus(p.at(e)).within(3 * t)
            &&& a.digits.dot(b.digits) != 0 ==> p.at(e).max_mag() >= DIGIT_FLOOR * t
        }),
{
    let (da, d, dm) = (a.digits, b.digits, o.digits);
    let p = projected(a, b);
    let r = projected(a, o);
    let c = da.dot(d);
    let cm = da.dot(dm);
    let k = lift_count(mag(c));
    let j = lift_count(mag(cm));
    let e = a.exponent - k - j;
    let n = d.dot(d);
    let nm = dm.dot(dm);
    lemma_dot_linear(d, d, m, da);
    lemma_dot_commutes(da, d);
    lemma_dot_commutes(da, dm);
    lemma_dot_linear(d, d, m, dm);
    lemma_dot_linear(d, d, m, d);
    lemma_dot_commutes(d, dm);
    assert(cm == m * c);
    assert(nm == m * (m * n));
    if m == 1 {
        assert(dm == d) by {
            assert(1 * d.x == d.x && 1 * d.y == d.y && 1 * d.z == d.z);
        }
    }
    if c == 0 {
        assert(m * 0 == 0);
        reveal_with_fuel(lift_count, 1);
        reveal_with_fuel(two_to, 1);
        assert(two_to(0) * 0 == 0);
        assert(r == p);
        assert(3 * two_to(0) >= 0);
    } else {
        assert(cm != 0) by (nonlinear_arith)
            requires
                cm == m * c,
                m != 0,
                c != 0,
        ;
        let f = two_to(k);
        let fm = two_to(j);
        let q = projection_quotient(da, d);
        let qm = projection_quotient(da, dm);
        let s = drop_count(q.max_mag());
        let sm = drop_count(qm.max_mag());
        let g = two_to(s);
        let gm = two_to(sm);
        let (pd, rd) = (p.digits, r.digits);
        lemma_projection_frame(da, d);
        lemma_projection_frame(da, dm);
        lemma_projection_size(da, d);
        lemma_projection_size(da, dm);
        lemma_projection_error(da, d);
        lemma_projection_error(da, dm);
        let w = projection_error(da, d);
        let wm = projection_error(da, dm);
        // Both counted in the unit below.
        assert((p.exponent - e) as nat == s + j);
        assert((r.exponent - e) as nat == sm + k);
        lemma_two_to_add(s, j);
        lemma_two_to_add(sm, k);
        let t = g * fm;
        let tm = gm * f;
        assert(p.at(e) == pd.times(t));
        assert(r.at(e) == rd.times(tm));
        lemma_scale_component(pd.x, rd.x, d.x, w.x, wm.x, c, m, n, f, fm, g, gm);
        lemma_scale_component(pd.y, rd.y, d.y, w.y, wm.y, c, m, n, f, fm, g, gm);
        lemma_scale_component(pd.z, rd.z, d.z, w.z, wm.z, c, m, n, f, fm, g, gm);
        // The largest digit of the second bounds its power by the first.
        let top = rd.max_mag();
        let rt = if top == mag(rd.x) { rd.x } else if top == mag(rd.y) { rd.y } else { rd.z };
        let pt = if top == mag(rd.x) { pd.x } else if top == mag(rd.y) { pd.y } else { pd.z };
        assert(2 * mag(tm * rt - t * pt) <= (1 + g) * fm + (1 + gm) * f);
        lemma_mul_bound(tm, rt, tm, top);
        lemma_mul_bound(t, pt, t, DIGIT_TOP as int);
        let (x1, x2) = (tm * rt, t * pt);
        assert(tm <= 3 * t && t >= 1) by (nonlinear_arith)
            requires
                t == g * fm,
                tm == gm * f,
                g >= 16,
                gm >= 16,
                f >= 1,
                fm >= 1,
                2 * mag(x1 - x2) <= (1 + g) * fm + (1 + gm) * f,
                mag(x1) == tm * top,
                mag(x2) <= t * 0x80_0000_0000,
                top >= 0x40_0000_0000,
        ;
        lemma_scale_bound(tm * rd.x - t * pd.x, f, fm, g, gm);
        lemma_scale_bound(tm * rd.y - t * pd.y, f, fm, g, gm);
        lemma_scale_bound(tm * rd.z - t * pd.z, f, fm, g, gm);
        lemma_mul_bound(t, pd.x, t, mag(pd.x));
        lemma_mul_bound(t, pd.y, t, mag(pd.y));
        lemma_mul_bound(t, pd.z, t, mag(pd.z));
        lemma_times_largest(pd, t);
        assert(t * pd.max_mag() >= DIGIT_FLOOR * t) by (nonlinear_arith)
            requires
                t >= 1,
                pd.max_mag() >= DIGIT_FLOOR,
        ;
    }
}

/// The largest magnitude of a vector times a positive number.
proof fn lemma_times_largest(v: Vec3, t: int)
    requires
        t >= 1,
    ensures
        v.times(t).max_mag() == t * v.max_mag(),
{
    lemma_mul_bound(t, v.x, t, mag(v.x));
    lemma_mul_bound(t, v.y, t, mag(v.y));
    lemma_mul_bound(t, v.z, t, mag(v.z));
    let (x, y, z) = (mag(v.x), mag(v.y), mag(v.z));
    assert((x >= y) == (t * x >= t * y) && (x >= z) == (t * x >= t * z) && (y >= z) == (t * y >= t
        * z)) by (nonlinear_arith)
        requires
            t >= 1,
    ;
}

/// One component of [`lemma_projection_scale`]: the two digits, each times
/// the powers of the other, differ by what the roundings of both added.
proof fn lemma_scale_component(
    p: int,
    r: int,
    b: int,
    w: int,
    wm: int,
    c: int,
    m: int,
    n: int,
    f: int,
    fm: int,
    g: int,
    gm: int,
)
    requires
        n > 0,
        m != 0,
        f >= 1,
        fm >= 1,
        w == (g * n) * p - (c * f) * b,
        wm == (gm * (m * (m * n))) * r - ((m * c) * fm) * (m * b),
        mag(2 * w) <= n * (1 + g),
        mag(2 * wm) <= (m * (m * n)) * (1 + gm),
    ensures
        2 * mag((gm * f) * r - (g * fm) * p) <= (1 + g) * fm + (1 + gm) * f,
{
    let mm = m * m;
    let x = (gm * f) * r - (g * fm) * p;
    let y = (gm * n) * r - (c * fm) * b;
    assert(mm >= 1) by (nonlinear_arith)
        requires
            mm == m * m,
            m != 0,
    ;
    // The error of the second is that of the digits of `b` themselves,
    // times the square of `m`.
    lemma_mul_regroup(m, m, n);
    lemma_mul_permute(gm, mm, n);
    lemma_mul_regroup(mm, gm * n, r);
    lemma_mul_regroup(m, c, fm);
    lemma_mul_regroup(m, c * fm, m * b);
    lemma_mul_permute(c * fm, m, b);
    lemma_mul_regroup(m, m, (c * fm) * b);
    lemma_distribute2((gm * n) * r, (c * fm) * b, mm);
    assert((gm * (m * (m * n))) * r == mm * ((gm * n) * r));
    assert(((m * c) * fm) * (m * b) == mm * ((c * fm) * b));
    assert(wm == mm * y);
    lemma_mul_bound(mm, y, mm, mag(y));
    lemma_mul_regroup(mm, n, 1 + gm);
    let h = n * (1 + gm);
    assert(2 * mag(y) <= h) by (nonlinear_arith)
        requires
            mm >= 1,
            2 * (mm * mag(y)) <= mm * h,
    ;
    // With n, the difference of the two is the difference of the errors.
    let (u1, u2, v) = (gm * r, g * p, c * b);
    lemma_mul_regroup(gm, n, r);
    lemma_mul_regroup(gm, f, r);
    lemma_mul_permute(f, u1, n);
    lemma_mul_regroup(g, n, p);
    lemma_mul_regroup(g, fm, p);
    lemma_mul_permute(fm, u2, n);
    lemma_mul_regroup(c, fm, b);
    lemma_mul_regroup(c, f, b);
    lemma_mul_permute(f, v, fm);
    lemma_distribute2((gm * n) * r, (c * fm) * b, f);
    lemma_distribute2((g * n) * p, (c * f) * b, fm);
    lemma_distribute2((gm * f) * r, (g * fm) * p, n);
    assert(n * x == f * y - fm * w);
    lemma_mul_bound(n, x, n, mag(x));
    lemma_mul_bound(f, y, f, mag(y));
    lemma_mul_bound(fm, w, fm, mag(w));
    let (zx, zy, zw) = (mag(x), mag(y), mag(w));
    assert(2 * zx <= (1 + g) * fm + (1 + gm) * f) by (nonlinear_arith)
        requires
            n > 0,
            f >= 1,
            fm >= 1,
            zx >= 0,
            n * zx <= f * zy + fm * zw,
            2 * zy <= n * (1 + gm),
            2 * zw <= n * (1 + g),
    ;
}

/// The bound of [`lemma_projection_scale`], from that of its components.
proof fn lemma_scale_bound(x: int, f: int, fm: int, g: int, gm: int)
    requires
        g >= 16,
        gm >= 16,
        f >= 1,
        fm >= 1,
        gm * f <= 3 * (g * fm),
        2 * mag(x) <= (1 + g) * fm + (1 + gm) * f,
    ensures
        mag(x) <= 3 * (g * fm),
{
    assert(mag(x) <= 3 * (g * fm)) by (nonlinear_arith)
        requires
            g >= 16,
            gm >= 16,
            f >= 1,
            fm >= 1,
            gm * f <= 3 * (g * fm),
            2 * mag(x) <= (1 + g) * fm + (1 + gm) * f,
    ;
}

/// Only the direction of a scaled vector counts as an axis: neither a
/// doubling of its digits nor its exponent changes the axis.
pub proof fn lemma_axis_doubled(v: Scaled, w: Scaled)
    requires
        v.wf(),
        w.wf(),
        w.digits == v.digits || w.digits == v.digits.times(2),
    ensures
        w.axis() == v.axis(),
{
    if w.digits != v.digits {
        let d = v.digits;
        let m = d.max_mag();
        lemma_times_largest(d, 2);
        if m == 0 {
            assert(2 * 0 == 0);
            assert(w.digits == d);
        } else {
            let k = raise_count(2 * m);
            assert(raise_count(m) == 1 + k);
            lemma_two_to_top(k);
            let f = two_to(k);
            lemma_mul_regroup(f, 2, d.x);
            lemma_mul_regroup(f, 2, d.y);
            lemma_mul_regroup(f, 2, d.z);
            lemma_mul_regroup(2, f, d.x);
            lemma_mul_regroup(2, f, d.y);
            lemma_mul_regroup(2, f, d.z);
        }
    }
}

/// The square of the sum of the magnitudes of a vector is at most three
/// times its inner product with itself.
pub proof fn lemma_sum_square(b: Vec3)
    ensures
        b.sum_mag() * b.sum_mag() <= 3 * b.dot(b),
{
    let (x, y, z) = (mag(b.x), mag(b.y), mag(b.z));
    assert((x + y + z) * (x + y + z) <= 3 * (x * x + y * y + z * z)) by (nonlinear_arith);
    assert(x * x == b.x * b.x && y * y == b.y * b.y && z * z == b.z * b.z) by (nonlinear_arith)
        requires
            x == mag(b.x),
            y == mag(b.y),
            z == mag(b.z),
    ;
}

/// What a projection is made of. With `l` the lifted inner product and `q`
/// the quotients: `l` is between 2^84 and 2^85 in magnitude, each quotient
/// times the inner product of `b` with itself is `l` times the component
/// of `b` within half of that inner product, each digit times the power
/// that the quotients were halved by is the quotient within half of that
/// power, and the largest digit is between 2^38 and 2^39.
pub proof fn lemma_projection_frame(a: Vec3, b: Vec3)
    requires
        a.within(DIGIT_LIMIT - 1),
        b.within(DIGIT_LIMIT - 1),
        a.dot(b) != 0,
    ensures
        ({
            let c = a.dot(b);
            let n = b.dot(b);
            let f = two_to(lift_count(mag(c)));
            let l = c * f;
            let q = projection_quotient(a, b);
            let g = two_to(drop_count(q.max_mag()));
            let p = divided(q, g);
            &&& n > 0 && f >= 1 && g >= 1
            &&& 0 < mag(c) < LIFT_FLOOR
            &&& LIFT_FLOOR <= mag(l) < 2 * LIFT_FLOOR
            &&& mag(l) == mag(c) * f
            &&& q.times(n).minus(b.times(l)).times(2).within(n)
            &&& p.times(g).minus(q).times(2).within(g)
            &&& q.max_mag() < DIGIT_TOP * g
            &&& g == 1 || 2 * q.max_mag() >= DIGIT_TOP * g
            &&& p.within(DIGIT_TOP as int)
        }),
{
    let c = a.dot(b);
    let n = b.dot(b);
    let k = lift_count(mag(c));
    let f = two_to(k);
    let l = c * f;
    let q = projection_quotient(a, b);
    let s = drop_count(q.max_mag());
    let g = two_to(s);
    if b.is_zero() {
        assert(a.x * 0 == 0 && a.y * 0 == 0 && a.z * 0 == 0);
    }
    lemma_dot_self_positive(b);
    lemma_mul_bound(a.max_mag(), b.max_mag(), DIGIT_LIMIT - 1, DIGIT_LIMIT - 1);
    lemma_dot_bound(a, b);
    assert((DIGIT_LIMIT - 1) * (DIGIT_LIMIT - 1) < 0x1_0000_0000_0000_0000_0000)
        by (nonlinear_arith);
    lemma_lift_count(mag(c));
    lemma_two_to_add(k, 0);
    lemma_mul_bound(c, f, mag(c), f);
    lemma_round_div_error(l * b.x, n);
    lemma_round_div_error(l * b.y, n);
    lemma_round_div_error(l * b.z, n);
    lemma_mul_regroup(n, q.x, 1);
    lemma_mul_regroup(n, q.y, 1);
    lemma_mul_regroup(n, q.z, 1);
    lemma_drop_count(q.max_mag());
    lemma_two_to_add(s, 0);
    lemma_round_div_error(q.x, g);
    lemma_round_div_error(q.y, g);
    lemma_round_div_error(q.z, g);
    let p = divided(q, g);
    lemma_mul_regroup(g, p.x, 1);
    lemma_mul_regroup(g, p.y, 1);
    lemma_mul_regroup(g, p.z, 1);
    lemma_round_div_bound(q.x, g, DIGIT_TOP as int);
    lemma_round_div_bound(q.y, g, DIGIT_TOP as int);
    lemma_round_div_bound(q.z, g, DIGIT_TOP as int);
}

/// Doubling `c` as often as [`lift_count`] says takes it to 2^84.
pub proof fn lemma_lift_count(c: int)
    requires
        0 < c < LIFT_FLOOR,
    ensures
        LIFT_FLOOR <= c * two_to(lift_count(c)) < 2 * LIFT_FLOOR,
        1 <= lift_count(c) <= LIFT_MOST,
    decreases 2 * LIFT_FLOOR - c,
{
    if 2 * c < LIFT_FLOOR {
        lemma_lift_count(2 * c);
        let g = two_to(lift_count(2 * c));
        assert(c * (2 * g) == (2 * c) * g) by (nonlinear_arith);
        if lift_count(2 * c) >= LIFT_MOST {
            lemma_two_to_monotone(84, lift_count(2 * c));
            lemma_two_to_values();
            assert((2 * c) * g >= 2 * LIFT_FLOOR) by (nonlinear_arith)
                requires
                    c >= 1,
                    g >= LIFT_FLOOR,
            ;
        }
    } else {
        reveal_with_fuel(lift_count, 2);
        reveal_with_fuel(two_to, 2);
        assert(lift_count(c) == 1);
        assert(two_to(1) == 2);
    }
}

/// Halving `m` as often as [`drop_count`] says takes it below 2^39, and
/// not below 2^38 if it was halved at all.
pub proof fn lemma_drop_count(m: int)
    requires
        m >= 0,
    ensures
        m < DIGIT_TOP * two_to(drop_count(m)),
        drop_count(m) == 0 || 2 * m >= DIGIT_TOP * two_to(drop_count(m)),
        drop_count(m) == 0 ==> two_to(drop_count(m)) == 1,
    decreases m,
{
    if m >= DIGIT_TOP {
        lemma_drop_count(m / 2);
        let g = two_to(drop_count(m / 2));
        lemma_two_to_add(drop_count(m / 2), 0);
        assert(m < DIGIT_TOP * (2 * g) && 2 * m >= DIGIT_TOP * (2 * g)) by (nonlinear_arith)
            requires
                m >= 0x80_0000_0000,
                g >= 1,
                m / 2 < 0x80_0000_0000 * g,
                g == 1 || 2 * (m / 2) >= 0x80_0000_0000 * g,
        ;
    } else {
        assert(DIGIT_TOP * 1 == DIGIT_TOP);
    }
}

/// What [`lemma_projection_orthogonal`] needs of the sizes: the square of
/// one and the power that the quotients were halved by, times three and
/// 2^74, is at most the squared length of `a` in the unit of the
/// projection.
proof fn lemma_projection_room(a: Vec3, b: Vec3)
    requires
        a.within(DIGIT_LIMIT - 1),
        b.within(DIGIT_LIMIT - 1),
        a.dot(b) != 0,
    ensures
        ({
            let f = two_to(lift_count(mag(a.dot(b))));
            let g = two_to(drop_count(projection_quotient(a, b).max_mag()));
            0xc000000000000000000 * ((1 + g) * (1 + g)) <= a.times(f).dot(a.times(f))
        }),
{
    let c = a.dot(b);
    let n = b.dot(b);
    let f = two_to(lift_count(mag(c)));
    let l = c * f;
    let q = projection_quotient(a, b);
    let g = two_to(drop_count(q.max_mag()));
    let af = a.times(f);
    let big = af.dot(af);
    lemma_projection_frame(a, b);
    // The square of the lifted inner product is at most the squared
    // lengths of the two.
    lemma_lagrange(af, b);
    lemma_dot_linear(a, a, f, b);
    assert(af.dot(b) == l) by {
        lemma_mul_regroup(f, c, 1);
    }
    lemma_dot_bound(b, b);
    lemma_mul_bound(b.max_mag(), b.max_mag(), DIGIT_LIMIT - 1, DIGIT_LIMIT - 1);
    assert((DIGIT_LIMIT - 1) * (DIGIT_LIMIT - 1) < 0x1_0000_0000_0000_0000_0000)
        by (nonlinear_arith);
    let ll = l * l;
    assert(ll >= 0x10_0000_0000_0000_0000_0000 * 0x10_0000_0000_0000_0000_0000)
        by (nonlinear_arith)
        requires
            ll == l * l,
            mag(l) >= 0x10_0000_0000_0000_0000_0000,
    ;
    assert(big >= 0x4000000000000000000000) by (nonlinear_arith)
        requires
            big * n >= 0x10_0000_0000_0000_0000_0000 * 0x10_0000_0000_0000_0000_0000,
            0 < n <= 3 * 0x1_0000_0000_0000_0000_0000,
    ;
    if g == 1 {
        assert((1 + g) * (1 + g) == 4);
    } else {
        // The largest quotient is at most the length of a in that unit,
        // and half a unit.
        let m = q.max_mag();
        let t = if m == mag(q.x) { b.x } else if m == mag(q.y) { b.y } else { b.z };
        let qt = if m == mag(q.x) { q.x } else if m == mag(q.y) { q.y } else { q.z };
        assert(2 * mag(n * qt - l * t) <= n);
        let u = 2 * m - 1;
        lemma_mul_bound(n, qt, n, m);
        lemma_mul_bound(l, t, mag(l), mag(t));
        let (ml, mt) = (mag(l), mag(t));
        let (nq, lt) = (n * qt, l * t);
        assert(0 <= u * n <= 2 * (ml * mt)) by (nonlinear_arith)
            requires
                u == 2 * m - 1,
                m >= 1,
                n > 0,
                2 * mag(nq - lt) <= n,
                mag(nq) == n * m,
                mag(lt) == ml * mt,
        ;
        assert(mt * mt <= n) by (nonlinear_arith)
            requires
                mt == mag(t),
                t == b.x || t == b.y || t == b.z,
                n == b.x * b.x + b.y * b.y + b.z * b.z,
        ;
        assert(ml * ml == ll) by (nonlinear_arith)
            requires
                ml == mag(l),
                ll == l * l,
        ;
        assert((u * n) * (u * n) <= 4 * (ll * n)) by (nonlinear_arith)
            requires
                0 <= u * n <= 2 * (ml * mt),
                ml * ml == ll,
                0 <= mt * mt <= n,
                ml >= 0,
                mt >= 0,
        ;
        lemma_monomial_square(u, n);
        assert(u * u <= 4 * big) by (nonlinear_arith)
            requires
                (u * u) * (n * n) <= 4 * (ll * n),
                ll <= big * n,
                n > 0,
                u * u >= 0,
                big >= 0,
        ;
        let v = 0x80_0000_0001int;
        let w = 0x80_0000_0000 * (1 + g);
        assert(0 <= w <= u + v);
        assert(4 * (w * w) <= 5 * (u * u) + 20 * (v * v)) by (nonlinear_arith)
            requires
                0 <= w <= u + v,
                u >= 0,
                v >= 0,
        ;
        assert(v * v <= 0x80000000000000000000) by (nonlinear_arith)
            requires
                v == 0x80_0000_0001,
        ;
        assert(w * w == 0x40000000000000000000 * ((1 + g) * (1 + g))) by (nonlinear_arith)
            requires
                w == 0x80_0000_0000 * (1 + g),
        ;
    }
}

/// Two to the power 84 is [`LIFT_FLOOR`], and the powers below it are
/// smaller.
proof fn lemma_two_to_top(k: nat)
    ensures
        k >= 84 ==> two_to(k) >= LIFT_FLOOR,
        two_to(k) >= 1,
        two_to(k + 1) == 2 * two_to(k),
    decreases k,
{
    if k > 84 {
        lemma_two_to_top((k - 1) as nat);
    } else if k == 84 {
        lemma_two_to_values();
    } else if k > 0 {
        lemma_two_to_top((k - 1) as nat);
    }
}

/// The power of a sum is the product of the powers.
pub proof fn lemma_two_to_add(a: nat, b: nat)
    ensures
        two_to(a + b) == two_to(a) * two_to(b),
        two_to(a) >= 1,
    decreases a,
{
    if a == 0 {
        assert(1 * two_to(b) == two_to(b));
    } else {
        lemma_two_to_add((a - 1) as nat, b);
        let x = two_to((a - 1) as nat);
        let y = two_to(b);
        assert(((a - 1) as nat + b) as nat == (a + b - 1) as nat);
        assert((2 * x) * y == 2 * (x * y)) by (nonlinear_arith);
    }
}

/// Some powers of two.
pub proof fn lemma_two_to_values()
    ensures
        two_to(0) == 1,
        two_to(1) == 2,
        two_to(4) == 16,
        two_to(38) == DIGIT_FLOOR,
        two_to(39) == DIGIT_TOP,
        two_to(40) == DIGIT_LIMIT,
        two_to(84) == LIFT_FLOOR,
{
    reveal_with_fuel(two_to, 6);
    assert(two_to(4) == 16);
    assert(two_to(2) == 4);
    lemma_two_to_add(4, 4);
    lemma_two_to_add(8, 8);
    lemma_two_to_add(16, 16);
    lemma_two_to_add(32, 4);
    lemma_two_to_add(36, 2);
    lemma_two_to_add(38, 1);
    lemma_two_to_add(38, 2);
    lemma_two_to_add(40, 40);
    lemma_two_to_add(80, 4);
    let (part4, part8, p16, p32, p40, p80) = (
        two_to(4),
        two_to(8),
        two_to(16),
        two_to(32),
        two_to(40),
        two_to(80),
    );
    assert(part8 == 256) by (nonlinear_arith)
        requires
            part8 == part4 * part4,
            part4 == 16,
    ;
    assert(p16 == 65536) by (nonlinear_arith)
        requires
            p16 == part8 * part8,
            part8 == 256,
    ;
    assert(p32 == 0x1_0000_0000) by (nonlinear_arith)
        requires
            p32 == p16 * p16,
            p16 == 65536,
    ;
    assert(two_to(36) == 0x10_0000_0000) by (nonlinear_arith)
        requires
            two_to(36) == p32 * part4,
            p32 == 0x1_0000_0000,
            part4 == 16,
    ;
    assert(two_to(38) == 0x40_0000_0000);
    assert(p40 == 0x100_0000_0000);
    assert(p80 == 0x1_0000_0000_0000_0000_0000) by (nonlinear_arith)
        requires
            p80 == p40 * p40,
            p40 == 0x100_0000_0000,
    ;
    assert(two_to(84) == 0x10_0000_0000_0000_0000_0000) by (nonlinear_arith)
        requires
            two_to(84) == p80 * part4,
            p80 == 0x1_0000_0000_0000_0000_0000,
            part4 == 16,
    ;
}

} // verus!
