//! Normalizing a quaternion: what the result is, that it is a unit, and how
//! far it lies from a quaternion that was nearly one already.

use vstd::prelude::*;
use crate::algebra::{lemma_norm_sq_times, Quat, UNIT_TOLERANCE};
use crate::arith::{
    lemma_below_root, lemma_distribute2, lemma_distribute4, lemma_monomial_square, lemma_mul_bound,
    lemma_mul_permute, lemma_mul_regroup, mag,
};
use crate::fixed::{
    abs_i64, div_round, isqrt, lemma_round_div_bound, lemma_round_div_error, lemma_round_div_exact,
    lemma_scale_factor, lemma_scale_factor_top, lemma_shrink_factor, lemma_sqrt_floor_bounds,
    lemma_sqrt_floor_unique, mul_wide, scale_factor, scale_for, shrink_for, DIV_LIMIT, ONE, ONE_SQ,
    SCALE_FLOOR, SCALE_LIMIT,
};
use crate::quaternion::Quaternion;

verus! {

/// The quaternion of length `len` in the direction of `q`.
pub fn stretch(q: Quaternion, len: i64) -> (r: Quaternion)
    requires
        !q@.is_zero(),
        q@.within(SCALE_LIMIT - 1),
        mag(len as int) <= SCALE_LIMIT,
    ensures
        r@ == q@.stretched(len as int),
        r@.within(mag(len as int)),
{
    let aw = abs_i64(q.w);
    let ai = abs_i64(q.i);
    let aj = abs_i64(q.j);
    let ak = abs_i64(q.k);
    let m1 = if aw >= ai { aw } else { ai };
    let m2 = if aj >= ak { aj } else { ak };
    let m = if m1 >= m2 { m1 } else { m2 };
    assert(m == q@.max_mag());
    let f = scale_for(m);
    let ghost t = q@.times(f as int);
    proof {
        lemma_scaled(q@);
        lemma_norm_floor(t);
        lemma_stretched_within(q@, len as int);
        let lim = SCALE_LIMIT as int;
        lemma_mul_bound(t.w, t.w, lim, lim);
        lemma_mul_bound(t.i, t.i, lim, lim);
        lemma_mul_bound(t.j, t.j, lim, lim);
        lemma_mul_bound(t.k, t.k, lim, lim);
        lemma_mul_bound(len as int, t.w, lim, lim);
        lemma_mul_bound(len as int, t.i, lim, lim);
        lemma_mul_bound(len as int, t.j, lim, lim);
        lemma_mul_bound(len as int, t.k, lim, lim);
        assert(lim * lim == 0x1000_0000_0000_0000_0000_0000_0000_0000) by (nonlinear_arith)
            requires
                lim == 0x4000_0000_0000_0000,
        ;
        assert(t.w * t.w < lim * lim && t.i * t.i < lim * lim && t.j * t.j < lim * lim && t.k * t.k
            < lim * lim) by (nonlinear_arith)
            requires
                mag(t.w) < lim,
                mag(t.i) < lim,
                mag(t.j) < lim,
                mag(t.k) < lim,
        ;
    }
    let tw: i64 = f * q.w;
    let ti: i64 = f * q.i;
    let tj: i64 = f * q.j;
    let tk: i64 = f * q.k;
    let nsq: i128 = mul_wide(tw, tw) + mul_wide(ti, ti) + mul_wide(tj, tj) + mul_wide(tk, tk);
    let n: i128 = isqrt(nsq as u128) as i128;
    let rw = div_round(mul_wide(len, tw), n);
    let ri = div_round(mul_wide(len, ti), n);
    let rj = div_round(mul_wide(len, tj), n);
    let rk = div_round(mul_wide(len, tk), n);
    Quaternion { w: rw as i64, i: ri as i64, j: rj as i64, k: rk as i64 }
}

/// The unit quaternion in the direction of the quaternion with the four
/// components given, which may be as large as 2^125.
#[verifier::rlimit(40)]
pub fn direction_of(w: i128, i: i128, j: i128, k: i128) -> (r: Quaternion)
    requires
        !(Quat { w: w as int, i: i as int, j: j as int, k: k as int }).is_zero(),
        (Quat { w: w as int, i: i as int, j: j as int, k: k as int }).within(DIV_LIMIT as int),
    ensures
        r@ == (Quat { w: w as int, i: i as int, j: j as int, k: k as int }).direction(),
        r@.is_unit(),
{
    let ghost t = Quat { w: w as int, i: i as int, j: j as int, k: k as int };
    let aw = if w < 0 { -w } else { w };
    let ai = if i < 0 { -i } else { i };
    let aj = if j < 0 { -j } else { j };
    let ak = if k < 0 { -k } else { k };
    let m1 = if aw >= ai { aw } else { ai };
    let m2 = if aj >= ak { aj } else { ak };
    let m = if m1 >= m2 { m1 } else { m2 };
    assert(m == t.max_mag());
    proof {
        lemma_reduced(t);
        lemma_stretched_unit(t.reduced());
    }
    if m < SCALE_LIMIT as i128 {
        stretch(Quaternion { w: w as i64, i: i as i64, j: j as i64, k: k as i64 }, ONE)
    } else {
        let p = shrink_for(m);
        stretch(
            Quaternion {
                w: div_round(w, p) as i64,
                i: div_round(i, p) as i64,
                j: div_round(j, p) as i64,
                k: div_round(k, p) as i64,
            },
            ONE,
        )
    }
}

/// What is normalized in place of a large quaternion is not zero, has every
/// component below 2^62, and times what the quaternion was divided by is
/// the quaternion within half of that divisor; where the quaternion was
/// divided, its largest component is now 2^60 at least.
pub proof fn lemma_reduced(t: Quat)
    requires
        !t.is_zero(),
    ensures
        !t.reduced().is_zero(),
        t.reduced().within(SCALE_LIMIT - 1),
        t.reduction() >= 1,
        t.reduction() == 1 ==> t.reduced() == t,
        t.reduction() != 1 ==> t.reduced().max_mag() >= 0x1000_0000_0000_0000,
        2 * mag(t.reduced().w * t.reduction() - t.w) <= t.reduction(),
        2 * mag(t.reduced().i * t.reduction() - t.i) <= t.reduction(),
        2 * mag(t.reduced().j * t.reduction() - t.j) <= t.reduction(),
        2 * mag(t.reduced().k * t.reduction() - t.k) <= t.reduction(),
{
    let m = t.max_mag();
    let p = t.reduction();
    let r = t.reduced();
    if m < SCALE_LIMIT {
        lemma_mul_regroup(t.w, 1, 1);
        lemma_mul_regroup(t.i, 1, 1);
        lemma_mul_regroup(t.j, 1, 1);
        lemma_mul_regroup(t.k, 1, 1);
    } else {
        let top = SCALE_FLOOR as int;
        lemma_shrink_factor(m);
        lemma_mul_regroup(top, p, 1);
        lemma_round_div_bound(t.w, p, top);
        lemma_round_div_bound(t.i, p, top);
        lemma_round_div_bound(t.j, p, top);
        lemma_round_div_bound(t.k, p, top);
        lemma_round_div_error(t.w, p);
        lemma_round_div_error(t.i, p);
        lemma_round_div_error(t.j, p);
        lemma_round_div_error(t.k, p);
        lemma_reduced_largest(t.w, r.w, p, m);
        lemma_reduced_largest(t.i, r.i, p, m);
        lemma_reduced_largest(t.j, r.j, p, m);
        lemma_reduced_largest(t.k, r.k, p, m);
    }
}

/// One component of [`lemma_reduced`]: the largest stays 2^60 at least.
proof fn lemma_reduced_largest(t: int, r: int, p: int, m: int)
    requires
        p >= 1,
        2 * m >= SCALE_FLOOR * p,
        2 * mag(r * p - t) <= p,
    ensures
        mag(t) == m ==> mag(r) >= 0x1000_0000_0000_0000,
{
    if mag(t) == m {
        lemma_mul_bound(r, p, mag(r), p);
        assert(mag(r) >= 0x1000_0000_0000_0000) by (nonlinear_arith)
            requires
                p >= 1,
                2 * m >= 0x2000_0000_0000_0000 * p,
                2 * (mag(r) * p) >= 2 * m - p,
        ;
    }
}

/// No component of a stretched quaternion exceeds the length asked for.
pub proof fn lemma_stretched_within(t: Quat, len: int)
    requires
        !t.is_zero(),
        t.within(SCALE_LIMIT - 1),
    ensures
        t.stretched(len).within(mag(len)),
{
    lemma_scaled(t);
    let u = t.times(scale_factor(t.max_mag()));
    let n = u.norm_floor();
    lemma_norm_floor(u);
    let l = mag(len);
    assert(mag(len * u.w) <= l * n && mag(len * u.i) <= l * n && mag(len * u.j) <= l * n && mag(
        len * u.k,
    ) <= l * n) by (nonlinear_arith)
        requires
            l == mag(len),
            mag(u.w) <= n,
            mag(u.i) <= n,
            mag(u.j) <= n,
            mag(u.k) <= n,
    ;
    lemma_round_div_bound(len * u.w, n, l);
    lemma_round_div_bound(len * u.i, n, l);
    lemma_round_div_bound(len * u.j, n, l);
    lemma_round_div_bound(len * u.k, n, l);
}

/// Stretching to length one gives a unit quaternion, with its squared norm
/// within five units of one and so its norm within three.
pub proof fn lemma_stretched_unit(t: Quat)
    requires
        !t.is_zero(),
        t.within(SCALE_LIMIT - 1),
    ensures
        t.stretched(ONE as int).is_unit(),
        t.stretched(ONE as int).defect() <= 5 * ONE,
        t.stretched(ONE as int).is_unit_within(3),
{
    assert((ONE - 3) * (ONE - 3) <= ONE_SQ - 5 * ONE && ONE_SQ + 5 * ONE <= (ONE + 3) * (ONE + 3));
    lemma_scaled(t);
    let s = ONE as int;
    let u = t.times(scale_factor(t.max_mag()));
    let n = u.norm_floor();
    let nn = n * n;
    let big = u.norm_sq();
    lemma_norm_floor(u);
    let o = t.stretched(s);
    lemma_round_div_error(s * u.w, n);
    lemma_round_div_error(s * u.i, n);
    lemma_round_div_error(s * u.j, n);
    lemma_round_div_error(s * u.k, n);
    lemma_unit_component(s, u.w, n, o.w, o.w * n - s * u.w);
    lemma_unit_component(s, u.i, n, o.i, o.i * n - s * u.i);
    lemma_unit_component(s, u.j, n, o.j, o.j * n - s * u.j);
    lemma_unit_component(s, u.k, n, o.k, o.k * n - s * u.k);
    let x = o.norm_sq();
    lemma_distribute4(o.w * o.w, o.i * o.i, o.j * o.j, o.k * o.k, nn);
    let ss = s * s;
    lemma_distribute4(u.w * u.w, u.i * u.i, u.j * u.j, u.k * u.k, ss);
    assert(ss == 0x1_0000_0000_0000_0000) by (nonlinear_arith)
        requires
            ss == s * s,
            s == 0x1_0000_0000,
    ;
    assert((n + 1) * (n + 1) == nn + 2 * n + 1) by (nonlinear_arith)
        requires
            nn == n * n,
    ;
    assert(ss * big <= ss * nn + ss * (2 * n) && ss * big >= ss * nn) by (nonlinear_arith)
        requires
            ss > 0,
            nn <= big <= nn + 2 * n,
    ;
    assert(nn >= SCALE_FLOOR * n) by (nonlinear_arith)
        requires
            nn == n * n,
            n >= SCALE_FLOOR,
    ;
    assert(ss * (2 * n) == 0x2_0000_0000_0000_0000 * n) by (nonlinear_arith)
        requires
            ss == 0x1_0000_0000_0000_0000,
    ;
    assert(ss * nn == 0x1_0000_0000_0000_0000 * nn) by (nonlinear_arith)
        requires
            ss == 0x1_0000_0000_0000_0000,
    ;
    assert(s * nn == 0x1_0000_0000 * nn) by (nonlinear_arith)
        requires
            s == 0x1_0000_0000,
    ;
    let hi = ONE_SQ + 0x5_0000_0000;
    let lo = ONE_SQ - 0x5_0000_0000;
    assert(x * nn <= hi * nn);
    assert(x * nn >= lo * nn);
    assert(lo <= x <= hi) by (nonlinear_arith)
        requires
            nn > 0,
            lo * nn <= x * nn <= hi * nn,
    ;
}

/// A quaternion without imaginary part stretches to the length asked for,
/// with the sign of its real part.
pub proof fn lemma_stretched_real(m: int, len: int)
    requires
        m != 0,
        mag(m) < SCALE_LIMIT,
    ensures
        (Quat { w: m, i: 0, j: 0, k: 0 }).stretched(len) == (Quat {
            w: if m > 0 { len } else { -len },
            i: 0,
            j: 0,
            k: 0,
        }),
{
    let q = Quat { w: m, i: 0, j: 0, k: 0 };
    let f = scale_factor(q.max_mag());
    lemma_scale_factor(mag(m));
    let t = q.times(f);
    let n = mag(f * m);
    assert(f * 0 == 0);
    assert(t.norm_sq() == n * n && n > 0 && (n + 1) * (n + 1) > n * n) by (nonlinear_arith)
        requires
            t.norm_sq() == (f * m) * (f * m) + 0 * 0 + 0 * 0 + 0 * 0,
            n == mag(f * m),
            f >= 1,
            m != 0,
    ;
    lemma_sqrt_floor_unique(t.norm_sq() as nat, n as nat);
    assert(t.norm_floor() == n);
    let k = if m > 0 { len } else { -len };
    assert(len * (f * m) == k * n) by (nonlinear_arith)
        requires
            n == mag(f * m),
            f >= 1,
            m != 0,
            k == (if m > 0 { len } else { -len }),
    ;
    lemma_round_div_exact(k, n);
    assert(len * 0 == 0);
    lemma_round_div_exact(0, n);
    assert(0 * n == 0);
}

/// Normalizing moves a quaternion that is nearly a unit only a little: with
/// the norm between `1 - c` and `1 + c`, no component moves by more than
/// `c + 1`.
pub proof fn lemma_stretched_near(x: Quat, c: int)
    requires
        0 <= c <= 1000,
        x.is_unit_within(c),
        x.within(SCALE_LIMIT - 1),
    ensures
        !x.is_zero(),
        x.stretched(ONE as int).minus(x).within(c + 1),
        x.within(ONE + c),
{
    let one = ONE as int;
    let lo = one - c;
    let hi = one + c;
    let big = x.norm_sq();
    assert(lo * lo > 0) by (nonlinear_arith)
        requires
            lo >= 0x1_0000_0000 - 1000,
    ;
    if x.is_zero() {
        assert(big == 0) by (nonlinear_arith)
            requires
                big == x.w * x.w + x.i * x.i + x.j * x.j + x.k * x.k,
                x.w == 0,
                x.i == 0,
                x.j == 0,
                x.k == 0,
        ;
    }
    lemma_scaled(x);
    let f = scale_factor(x.max_mag());
    let u = x.times(f);
    let n = u.norm_floor();
    lemma_norm_floor(u);
    lemma_norm_sq_times(x, f);
    // The rounded norm lies between f (1 - c) and f (1 + c).
    lemma_monomial_square(f, lo);
    lemma_monomial_square(f, hi);
    assert((f * f) * (lo * lo) <= (f * f) * big <= (f * f) * (hi * hi)) by (nonlinear_arith)
        requires
            lo * lo <= big <= hi * hi,
    ;
    assert(n <= f * hi) by (nonlinear_arith)
        requires
            n >= 0,
            f * hi >= 0,
            n * n <= (f * hi) * (f * hi),
    ;
    assert(f * hi >= 0 && f * lo >= 0) by (nonlinear_arith)
        requires
            f >= 1,
            hi >= 0,
            lo >= 0,
    ;
    assert(f * lo <= n) by (nonlinear_arith)
        requires
            n >= 0,
            f * lo >= 0,
            (f * lo) * (f * lo) < (n + 1) * (n + 1),
    ;
    // No component exceeds 1 + c.
    assert(x.w * x.w >= 0 && x.i * x.i >= 0 && x.j * x.j >= 0 && x.k * x.k >= 0)
        by (nonlinear_arith);
    lemma_below_root(x.w, hi);
    lemma_below_root(x.i, hi);
    lemma_below_root(x.j, hi);
    lemma_below_root(x.k, hi);
    assert(2 * (c * c) + c <= one) by (nonlinear_arith)
        requires
            0 <= c <= 1000,
            one == 0x1_0000_0000,
    ;
    let o = x.stretched(one);
    lemma_round_div_error(one * u.w, n);
    lemma_round_div_error(one * u.i, n);
    lemma_round_div_error(one * u.j, n);
    lemma_round_div_error(one * u.k, n);
    lemma_near_component(x.w, f, n, o.w, c, one);
    lemma_near_component(x.i, f, n, o.i, c, one);
    lemma_near_component(x.j, f, n, o.j, c, one);
    lemma_near_component(x.k, f, n, o.k, c, one);
}

/// What the direction of any quaternion is made of. With `r` the
/// quaternion reduced by `p`, `f` the scale, `n` the norm that was divided
/// by and `m` that norm times `p`: each component of the direction, times
/// `m`, is one times `f` times that of `t` within half of `m` and one part
/// in 2^28 of that, and the square of `m` is the square of `f` times the
/// squared norm of `t` within one part in 2^55.
pub proof fn lemma_direction_parts(t: Quat)
    requires
        !t.is_zero(),
    ensures
        ({
            let r = t.reduced();
            let f = scale_factor(r.max_mag());
            let m = r.times(f).norm_floor() * t.reduction();
            let x = (f * f) * t.norm_sq();
            let o = t.direction();
            &&& f >= 1 && m >= 0x2000_0000_0000_0000 && x >= 1
            &&& 0x80_0000_0000_0000 * mag(m * m - x) <= x
            &&& 0x1000_0000 * (2 * mag(o.w * m - ONE * (f * t.w))) <= 0x1000_0001 * m
            &&& 0x1000_0000 * (2 * mag(o.i * m - ONE * (f * t.i))) <= 0x1000_0001 * m
            &&& 0x1000_0000 * (2 * mag(o.j * m - ONE * (f * t.j))) <= 0x1000_0001 * m
            &&& 0x1000_0000 * (2 * mag(o.k * m - ONE * (f * t.k))) <= 0x1000_0001 * m
            &&& o.is_unit()
        }),
{
    let one = ONE as int;
    let r = t.reduced();
    let p = t.reduction();
    let h = if p == 1 { 0 } else { p };
    let f = scale_factor(r.max_mag());
    let v = r.times(f);
    let n = v.norm_floor();
    let m = n * p;
    let o = t.direction();
    let x = (f * f) * t.norm_sq();
    lemma_reduced(t);
    lemma_scaled(r);
    lemma_norm_floor(v);
    lemma_stretched_unit(r);
    lemma_round_div_error(one * v.w, n);
    lemma_round_div_error(one * v.i, n);
    lemma_round_div_error(one * v.j, n);
    lemma_round_div_error(one * v.k, n);
    // What the reduction rounded off is small beside the norm.
    let top = t.max_mag();
    let y = v.norm_sq() * (p * p);
    if p != 1 {
        lemma_shrink_factor(top);
        lemma_scale_factor_top(r.max_mag());
        assert(0x1000_0000 * (one * (f * h)) <= n * p) by (nonlinear_arith)
            requires
                one == 0x1_0000_0000,
                1 <= f <= 2,
                h == p,
                p >= 1,
                n >= 0x2000_0000_0000_0000,
        ;
    } else {
        assert(one * (f * 0) == 0);
        assert(n * 1 == n);
    }
    assert(m >= 0x2000_0000_0000_0000 * p && m >= 0x2000_0000_0000_0000) by (nonlinear_arith)
        requires
            m == n * p,
            n >= 0x2000_0000_0000_0000,
            p >= 1,
    ;
    lemma_direction_component(t.w, 1, r.w, p, f, h, n, o.w, one);
    lemma_direction_component(t.i, 1, r.i, p, f, h, n, o.i, one);
    lemma_direction_component(t.j, 1, r.j, p, f, h, n, o.j, one);
    lemma_direction_component(t.k, 1, r.k, p, f, h, n, o.k, one);
    assert(f * 1 == f);
    // The squared norm of what was divided by, times the square of the
    // reduction, beside that of t.
    lemma_distribute4(v.w * v.w, v.i * v.i, v.j * v.j, v.k * v.k, p * p);
    lemma_monomial_square(v.w, p);
    lemma_monomial_square(v.i, p);
    lemma_monomial_square(v.j, p);
    lemma_monomial_square(v.k, p);
    lemma_distribute4(t.w * t.w, t.i * t.i, t.j * t.j, t.k * t.k, f * f);
    lemma_parts_square(t.w, r.w, p, f, h, top);
    lemma_parts_square(t.i, r.i, p, f, h, top);
    lemma_parts_square(t.j, r.j, p, f, h, top);
    lemma_parts_square(t.k, r.k, p, f, h, top);
    let ft = f * top;
    let ee = (2 * ft + f * h) * (f * h);
    assert(mag(y - x) <= 4 * ee);
    lemma_monomial_square(n, p);
    lemma_monomial_square(n + 1, p);
    lemma_distribute2(n, 1, p);
    assert(m * m <= y < (m + p) * (m + p)) by (nonlinear_arith)
        requires
            y == v.norm_sq() * (p * p),
            m == n * p,
            (n + 1) * p == m + p,
            n * n <= v.norm_sq() < (n + 1) * (n + 1),
            (n * p) * (n * p) == (n * n) * (p * p),
            ((n + 1) * p) * ((n + 1) * p) == ((n + 1) * (n + 1)) * (p * p),
            p >= 1,
    ;
    // The largest component bounds the squared norm from below.
    let tm = if top == mag(t.w) {
        t.w
    } else if top == mag(t.i) {
        t.i
    } else if top == mag(t.j) {
        t.j
    } else {
        t.k
    };
    lemma_square_nonneg_here(t.w);
    lemma_square_nonneg_here(t.i);
    lemma_square_nonneg_here(t.j);
    lemma_square_nonneg_here(t.k);
    assert(tm * tm == top * top) by (nonlinear_arith)
        requires
            top == mag(tm),
    ;
    lemma_monomial_square(f, top);
    assert(x >= ft * ft) by (nonlinear_arith)
        requires
            x == (f * f) * t.norm_sq(),
            t.norm_sq() >= top * top,
            ft * ft == (f * f) * (top * top),
            f >= 1,
    ;
    lemma_parts_norm(m, p, h, f, ft, top, x, y, ee);
}

/// A square is not negative.
proof fn lemma_square_nonneg_here(x: int)
    ensures
        x * x >= 0,
{
    assert(x * x >= 0) by (nonlinear_arith);
}

/// One component of [`lemma_direction_parts`]: the square of the scaled
/// and reduced component, times the square of the reduction, beside the
/// square of the scaled component.
proof fn lemma_parts_square(t: int, r: int, p: int, f: int, h: int, top: int)
    requires
        f >= 1,
        p >= 1,
        h >= 0,
        mag(t) <= top,
        2 * mag(r * p - t) <= h,
    ensures
        mag(((f * r) * (f * r)) * (p * p) - (f * f) * (t * t)) <= (2 * (f * top) + f * h) * (f * h),
{
    let a = (f * r) * p;
    let b = f * t;
    let e = r * p - t;
    lemma_mul_regroup(f, r, p);
    lemma_distribute2(r * p, t, f);
    assert(a - b == f * e);
    lemma_monomial_square(f * r, p);
    lemma_monomial_square(f, t);
    assert(a * a - b * b == (a - b) * (a + b)) by (nonlinear_arith);
    lemma_mul_bound(f, e, f, mag(e));
    lemma_mul_bound(f, t, f, top);
    let (d, c) = (a - b, a + b);
    let fh = f * h;
    let ft = f * top;
    assert(2 * mag(d) <= fh) by (nonlinear_arith)
        requires
            mag(d) <= f * mag(e),
            2 * mag(e) <= h,
            fh == f * h,
            f >= 1,
    ;
    assert(mag(c) <= 2 * ft + fh);
    lemma_mul_bound(d, c, mag(d), 2 * ft + fh);
    assert(mag(d) * (2 * ft + fh) <= (2 * ft + fh) * fh) by (nonlinear_arith)
        requires
            0 <= 2 * mag(d) <= fh,
            2 * ft + fh >= 0,
    ;
}

/// The arithmetic of [`lemma_direction_parts`]: `m` is the root of `y`
/// within `p`, `y` is `x` within four times `ee`, and both `p` and what the
/// reduction rounded off are small beside `m` and beside the largest
/// component.
proof fn lemma_parts_norm(
    m: int,
    p: int,
    h: int,
    f: int,
    ft: int,
    top: int,
    x: int,
    y: int,
    ee: int,
)
    requires
        m >= 0x2000_0000_0000_0000 * p,
        p >= 1,
        f >= 1,
        ft == f * top,
        h == 0 || (h == p && 2 * top >= 0x2000_0000_0000_0000 * p),
        ee == (2 * ft + f * h) * (f * h),
        mag(y - x) <= 4 * ee,
        m * m <= y < (m + p) * (m + p),
        x >= ft * ft,
        top >= 1,
    ensures
        x >= 1,
        0x80_0000_0000_0000 * mag(m * m - x) <= x,
{
    let mm = m * m;
    let ftt = ft * ft;
    assert(ftt >= 1) by (nonlinear_arith)
        requires
            ftt == ft * ft,
            ft == f * top,
            f >= 1,
            top >= 1,
    ;
    // What the reduction rounded off, beside x.
    let fh = f * h;
    assert(0 <= 0x1000_0000_0000_0000 * fh <= ft) by (nonlinear_arith)
        requires
            fh == f * h,
            ft == f * top,
            f >= 1,
            top >= 1,
            h == 0 || (h >= 1 && 0x1000_0000_0000_0000 * h <= top),
    ;
    assert(0x100_0000_0000_0000 * (4 * ee) <= ftt) by (nonlinear_arith)
        requires
            ee == (2 * ft + fh) * fh,
            ftt == ft * ft,
            0 <= 0x1000_0000_0000_0000 * fh <= ft,
    ;
    // The step of the root, beside the square of m.
    let step = (m + p) * (m + p) - mm;
    assert(0 <= 0x800_0000_0000_0000 * step <= mm) by (nonlinear_arith)
        requires
            step == (m + p) * (m + p) - mm,
            mm == m * m,
            m >= 0x2000_0000_0000_0000 * p,
            p >= 1,
    ;
    assert(x - 4 * ee <= y && y <= x + 4 * ee);
    assert(mm <= x + 4 * ee);
    assert(mm > x - 4 * ee - step);
}

/// Only the direction counts: the unit quaternion in the direction of a
/// multiple of `t` is that in the direction of `t` within one unit.
pub proof fn lemma_direction_multiple(t: Quat, c: int)
    requires
        !t.is_zero(),
        c >= 1,
    ensures
        !t.times(c).is_zero(),
        t.times(c).direction().minus(t.direction()).within(1),
{
    let one = ONE as int;
    let tc = t.times(c);
    if tc.is_zero() {
        assert(t.w == 0 && t.i == 0 && t.j == 0 && t.k == 0) by (nonlinear_arith)
            requires
                c >= 1,
                c * t.w == 0,
                c * t.i == 0,
                c * t.j == 0,
                c * t.k == 0,
        ;
    }
    lemma_direction_parts(t);
    lemma_direction_parts(tc);
    let f = scale_factor(t.reduced().max_mag());
    let m = t.reduced().times(f).norm_floor() * t.reduction();
    let fc = scale_factor(tc.reduced().max_mag());
    let mc = tc.reduced().times(fc).norm_floor() * tc.reduction();
    let (o, oc) = (t.direction(), tc.direction());
    let nt = t.norm_sq();
    let x = (f * f) * nt;
    let xc = (fc * fc) * tc.norm_sq();
    lemma_norm_sq_times(t, c);
    let g = fc * c;
    let u = m * g;
    let v = mc * f;
    lemma_multiple_ratio(m, mc, f, fc, c, nt, x, xc);
    lemma_unit_within(o);
    lemma_multiple_part(o.w, oc.w, t.w, m, mc, f, fc, c);
    lemma_multiple_part(o.i, oc.i, t.i, m, mc, f, fc, c);
    lemma_multiple_part(o.j, oc.j, t.j, m, mc, f, fc, c);
    lemma_multiple_part(o.k, oc.k, t.k, m, mc, f, fc, c);
}

/// The two norms of [`lemma_direction_multiple`], each times the scale of
/// the other, are equal within one part in 2^53.
proof fn lemma_multiple_ratio(m: int, mc: int, f: int, fc: int, c: int, nt: int, x: int, xc: int)
    requires
        f >= 1 && fc >= 1 && c >= 1,
        m >= 1 && mc >= 1,
        x == (f * f) * nt,
        xc == (fc * fc) * ((c * c) * nt),
        x >= 1,
        0x80_0000_0000_0000 * mag(m * m - x) <= x,
        0x80_0000_0000_0000 * mag(mc * mc - xc) <= xc,
    ensures
        0x20_0000_0000_0000 * mag(m * (fc * c) - mc * f) <= mc * f,
{
    let g = fc * c;
    let u = m * g;
    let v = mc * f;
    let gg = g * g;
    let ff = f * f;
    let w = gg * x;
    lemma_monomial_square(m, g);
    lemma_monomial_square(mc, f);
    lemma_monomial_square(fc, c);
    lemma_mul_permute(gg, ff, nt);
    lemma_mul_regroup(fc * fc, c * c, nt);
    assert(w == ff * xc);
    let (mm, mmc) = (m * m, mc * mc);
    lemma_distribute2(mm, x, gg);
    lemma_distribute2(mmc, xc, ff);
    lemma_mul_bound(gg, mm - x, gg, mag(mm - x));
    lemma_mul_bound(ff, mmc - xc, ff, mag(mmc - xc));
    lemma_mul_regroup(mm, gg, 1);
    lemma_mul_regroup(mmc, ff, 1);
    let (uu, vv) = (u * u, v * v);
    assert(gg >= 1 && ff >= 1) by (nonlinear_arith)
        requires
            gg == g * g,
            ff == f * f,
            g == fc * c,
            f >= 1 && fc >= 1 && c >= 1,
    ;
    assert(0x80_0000_0000_0000 * mag(uu - w) <= w) by (nonlinear_arith)
        requires
            mag(uu - w) <= gg * mag(mm - x),
            0x80_0000_0000_0000 * mag(mm - x) <= x,
            w == gg * x,
            gg >= 1,
    ;
    assert(0x80_0000_0000_0000 * mag(vv - w) <= w) by (nonlinear_arith)
        requires
            mag(vv - w) <= ff * mag(mmc - xc),
            0x80_0000_0000_0000 * mag(mmc - xc) <= xc,
            w == ff * xc,
            ff >= 1,
    ;
    assert(u >= 1 && v >= 1) by (nonlinear_arith)
        requires
            u == m * g,
            v == mc * f,
            g == fc * c,
            f >= 1 && fc >= 1 && c >= 1,
            m >= 1 && mc >= 1,
    ;
    let d = mag(u - v);
    assert(d * (u + v) == mag(uu - vv)) by (nonlinear_arith)
        requires
            d == mag(u - v),
            uu == u * u,
            vv == v * v,
            u >= 1,
            v >= 1,
    ;
    assert(0x20_0000_0000_0000 * d <= v) by (nonlinear_arith)
        requires
            d >= 0,
            u >= 1,
            v >= 1,
            vv == v * v,
            d * (u + v) <= mag(uu - w) + mag(vv - w),
            0x80_0000_0000_0000 * mag(uu - w) <= w,
            0x80_0000_0000_0000 * mag(vv - w) <= w,
            w >= 0,
    ;
}

/// One component of [`lemma_direction_multiple`].
proof fn lemma_multiple_part(
    o: int,
    oc: int,
    t: int,
    m: int,
    mc: int,
    f: int,
    fc: int,
    c: int,
)
    requires
        f >= 1 && fc >= 1 && c >= 1,
        m >= 1 && mc >= 1,
        mag(o) <= ONE + 4,
        0x1000_0000 * (2 * mag(o * m - ONE * (f * t))) <= 0x1000_0001 * m,
        0x1000_0000 * (2 * mag(oc * mc - ONE * (fc * (c * t)))) <= 0x1000_0001 * mc,
        0x20_0000_0000_0000 * mag(m * (fc * c) - mc * f) <= mc * f,
    ensures
        mag(oc - o) <= 1,
{
    let one = ONE as int;
    let g = fc * c;
    let u = m * g;
    let v = mc * f;
    let e = o * m - one * (f * t);
    let ec = oc * mc - one * (fc * (c * t));
    // With both norms, the two differ by what each rounding added.
    lemma_distribute2(o * m, one * (f * t), g);
    lemma_mul_regroup(o, m, g);
    lemma_distribute2(oc * mc, one * (fc * (c * t)), f);
    lemma_mul_regroup(oc, mc, f);
    lemma_mul_regroup(fc, c, t);
    lemma_mul_permute(one, f * t, g);
    lemma_mul_permute(one, g * t, f);
    lemma_mul_permute(f, t, g);
    lemma_mul_permute(g, t, f);
    assert(o * u - oc * v == e * g - ec * f);
    lemma_distribute2(oc, o, v);
    lemma_distribute2(u, v, o);
    lemma_mul_regroup(o, u, 1);
    lemma_mul_regroup(o, v, 1);
    let d = oc - o;
    assert(d * v == (u - v) * o - (e * g - ec * f));
    lemma_mul_bound(d, v, mag(d), v);
    lemma_mul_bound(u - v, o, mag(u - v), one + 4);
    lemma_mul_bound(e, g, mag(e), g);
    lemma_mul_bound(ec, f, mag(ec), f);
    let (yd, yu, ye, yc) = (mag(d), mag(u - v), mag(e), mag(ec));
    assert(v >= 1 && g >= 1) by (nonlinear_arith)
        requires
            v == mc * f,
            g == fc * c,
            f >= 1 && fc >= 1 && c >= 1,
            mc >= 1,
    ;
    assert(0x1000_0000 * (2 * (ye * g)) <= 0x1000_0001 * u) by (nonlinear_arith)
        requires
            0x1000_0000 * (2 * ye) <= 0x1000_0001 * m,
            u == m * g,
            g >= 1,
    ;
    assert(0x1000_0000 * (2 * (yc * f)) <= 0x1000_0001 * v) by (nonlinear_arith)
        requires
            0x1000_0000 * (2 * yc) <= 0x1000_0001 * mc,
            v == mc * f,
            f >= 1,
    ;
    assert(yd <= 1) by (nonlinear_arith)
        requires
            v >= 1,
            yd >= 0,
            yd * v <= yu * 0x1_0000_0004 + ye * g + yc * f,
            0x20_0000_0000_0000 * yu <= v,
            yu == mag(u - v),
            0x1000_0000 * (2 * (ye * g)) <= 0x1000_0001 * u,
            0x1000_0000 * (2 * (yc * f)) <= 0x1000_0001 * v,
    ;
}

/// What [`lemma_direction_unit`] rests on. With `g` the factor `c` times
/// the scale, and `m` the norm that the direction was divided by times what
/// the multiple was divided by: `m` is between `1 - u` and `1 + u` times
/// `g`, within half of `g`, and each component of the direction, times `m`,
/// is one times `g` times that of `x`, within half of `m` and one part in
/// 2^28 of that. For a unit quaternion `m` is `g` times one within 139
/// parts in 32 of a unit.
pub proof fn lemma_direction_frame(x: Quat, c: int, u: int)
    requires
        c >= 1,
        0 <= u <= 5,
        x.is_unit_within(u),
    ensures
        !x.times(c).is_zero(),
        x.within(ONE + u),
        ({
            let t = x.times(c);
            let r = t.reduced();
            let g = scale_factor(r.max_mag()) * c;
            let m = r.times(scale_factor(r.max_mag())).norm_floor() * t.reduction();
            let o = t.direction();
            &&& g >= 1 && m >= 1
            &&& g * (2 * (ONE - u) - 1) <= 2 * m <= g * (2 * (ONE + u) + 1)
            &&& g * (ONE - 7) <= m <= g * (ONE + 7)
            &&& x.is_unit() ==> g * (32 * ONE - 139) <= 32 * m <= g * (32 * ONE + 139)
            &&& 0x1000_0000 * (2 * mag(o.w * m - ONE * (g * x.w))) <= 0x1000_0001 * m
            &&& 0x1000_0000 * (2 * mag(o.i * m - ONE * (g * x.i))) <= 0x1000_0001 * m
            &&& 0x1000_0000 * (2 * mag(o.j * m - ONE * (g * x.j))) <= 0x1000_0001 * m
            &&& 0x1000_0000 * (2 * mag(o.k * m - ONE * (g * x.k))) <= 0x1000_0001 * m
        }),
{
    let one = ONE as int;
    let lo = one - u;
    let hi = one + u;
    let big = x.norm_sq();
    let t = x.times(c);
    assert(lo * lo > 0) by (nonlinear_arith)
        requires
            lo >= 0xffff_fffb,
    ;
    assert(x.w * x.w >= 0 && x.i * x.i >= 0 && x.j * x.j >= 0 && x.k * x.k >= 0)
        by (nonlinear_arith);
    lemma_below_root(x.w, hi);
    lemma_below_root(x.i, hi);
    lemma_below_root(x.j, hi);
    lemma_below_root(x.k, hi);
    if t.is_zero() {
        assert(x.w == 0 && x.i == 0 && x.j == 0 && x.k == 0) by (nonlinear_arith)
            requires
                c >= 1,
                c * x.w == 0,
                c * x.i == 0,
                c * x.j == 0,
                c * x.k == 0,
        ;
        assert(0 * 0 == 0);
    }
    lemma_reduced(t);
    let r = t.reduced();
    let p = t.reduction();
    let h = if p == 1 { 0 } else { p };
    lemma_scaled(r);
    let f = scale_factor(r.max_mag());
    let v = r.times(f);
    let n = v.norm_floor();
    lemma_norm_floor(v);
    let g = f * c;
    let w = f * h;
    let m = n * p;
    lemma_mul_bound(c, x.w, c, hi);
    lemma_mul_bound(c, x.i, c, hi);
    lemma_mul_bound(c, x.j, c, hi);
    lemma_mul_bound(c, x.k, c, hi);
    assert(t.max_mag() <= c * hi);
    // What the multiple was divided by is small beside the factor, and so
    // is what the division rounded off.
    if p != 1 {
        lemma_shrink_factor(t.max_mag());
        lemma_scale_factor_top(r.max_mag());
        assert(0x800_0000 * p <= c) by (nonlinear_arith)
            requires
                0x2000_0000_0000_0000 * p <= 2 * (c * hi),
                0 <= hi <= 0x1_0000_0005,
                p >= 1,
                c >= 1,
        ;
        assert(0x1000_0000 * (one * w) <= m && 0x800_0000 * w <= g && 0x800_0000 * p <= g)
            by (nonlinear_arith)
            requires
                w == f * p,
                g == f * c,
                m == n * p,
                1 <= f <= 2,
                0x800_0000 * p <= c,
                p >= 1,
                n >= 0x2000_0000_0000_0000,
                one == 0x1_0000_0000,
        ;
    } else {
        lemma_mul_regroup(f, c, x.w);
        lemma_mul_regroup(f, c, x.i);
        lemma_mul_regroup(f, c, x.j);
        lemma_mul_regroup(f, c, x.k);
        assert(v == x.times(g));
        lemma_mul_bound(g, x.w, g, hi);
        lemma_mul_bound(g, x.i, g, hi);
        lemma_mul_bound(g, x.j, g, hi);
        lemma_mul_bound(g, x.k, g, hi);
        assert(v.max_mag() <= g * hi);
        assert(w == 0 && one * w == 0 && m >= 0 && 0x800_0000 * p <= g) by (nonlinear_arith)
            requires
                w == f * 0,
                m == n * 1,
                p == 1,
                g == f * c,
                f >= 1,
                c >= 1,
                n >= 0,
                g * hi >= 0x2000_0000_0000_0000,
                0 <= hi <= 0x1_0000_0005,
        ;
    }
    assert(g >= 1 && w >= 0 && m >= 1) by (nonlinear_arith)
        requires
            g == f * c,
            w == f * h,
            m == n * p,
            f >= 1,
            c >= 1,
            h >= 0,
            n >= 1,
            p >= 1,
    ;
    // Each component of the scaled quaternion, times the divisor, is the
    // multiple of that of x, and what the division rounded off.
    lemma_multiple_component(x.w, c, r.w, p, f, h, hi);
    lemma_multiple_component(x.i, c, r.i, p, f, h, hi);
    lemma_multiple_component(x.j, c, r.j, p, f, h, hi);
    lemma_multiple_component(x.k, c, r.k, p, f, h, hi);
    let up = v.norm_sq() * (p * p);
    lemma_distribute4(v.w * v.w, v.i * v.i, v.j * v.j, v.k * v.k, p * p);
    lemma_monomial_square(v.w, p);
    lemma_monomial_square(v.i, p);
    lemma_monomial_square(v.j, p);
    lemma_monomial_square(v.k, p);
    lemma_distribute4(x.w * x.w, x.i * x.i, x.j * x.j, x.k * x.k, g * g);
    let gg = g * g;
    let gw = g * w;
    assert(gg * big - 4 * (gw * hi) <= up <= gg * big + 4 * (gw * hi) + w * w);
    lemma_monomial_square(n, p);
    lemma_monomial_square(n + 1, p);
    lemma_distribute2(n, 1, p);
    assert(m * m <= up < (m + p) * (m + p)) by (nonlinear_arith)
        requires
            up == v.norm_sq() * (p * p),
            m == n * p,
            (n + 1) * p == m + p,
            n * n <= v.norm_sq() < (n + 1) * (n + 1),
            (n * p) * (n * p) == (n * n) * (p * p),
            ((n + 1) * p) * ((n + 1) * p) == ((n + 1) * (n + 1)) * (p * p),
            p >= 1,
    ;
    lemma_frame_norm(g, w, p, m, up, big, lo, hi);
    if x.is_unit() {
        lemma_frame_norm_fine(g, w, p, m, up, big, hi);
    }
    assert(g * (2 * (ONE - u) - 1) == g * (2 * lo - 1));
    assert(g * (2 * (ONE + u) + 1) == g * (2 * hi + 1));
    lemma_distribute2(2 * one, 2 * u + 1, g);
    assert(g * (one - 7) <= m <= g * (one + 7)) by (nonlinear_arith)
        requires
            g * (2 * lo - 1) <= 2 * m <= g * (2 * hi + 1),
            lo >= one - 5,
            hi <= one + 5,
            g >= 1,
    ;
    let o = t.direction();
    lemma_round_div_error(one * v.w, n);
    lemma_round_div_error(one * v.i, n);
    lemma_round_div_error(one * v.j, n);
    lemma_round_div_error(one * v.k, n);
    lemma_direction_component(x.w, c, r.w, p, f, h, n, o.w, one);
    lemma_direction_component(x.i, c, r.i, p, f, h, n, o.i, one);
    lemma_direction_component(x.j, c, r.j, p, f, h, n, o.j, one);
    lemma_direction_component(x.k, c, r.k, p, f, h, n, o.k, one);
}

/// The arithmetic of [`lemma_direction_frame`]: `m` is the root of `up`
/// within `p`, `up` is the square of `g` times `big` within what `w` adds,
/// and `big` is between the squares of `lo` and `hi`.
proof fn lemma_frame_norm(g: int, w: int, p: int, m: int, up: int, big: int, lo: int, hi: int)
    requires
        g >= 1,
        m >= 0,
        0 <= 0x800_0000 * w <= g,
        1 <= 0x800_0000 * p <= g,
        0xffff_fffb <= lo <= 0x1_0000_0000 <= hi <= 0x1_0000_0005,
        lo * lo <= big <= hi * hi,
        (g * g) * big - 4 * ((g * w) * hi) <= up <= (g * g) * big + 4 * ((g * w) * hi) + w * w,
        m * m <= up < (m + p) * (m + p),
    ensures
        g * (2 * lo - 1) <= 2 * m <= g * (2 * hi + 1),
{
    let gg = g * g;
    let gw = g * w;
    let ll = lo * lo;
    let hh = hi * hi;
    // What `w` adds is below 130 times the square of `g`.
    assert(0 <= 0x800_0000 * gw <= gg && 0 <= w * w <= gg) by (nonlinear_arith)
        requires
            gg == g * g,
            gw == g * w,
            g >= 1,
            0 <= 0x800_0000 * w <= g,
    ;
    assert(0 <= 0x800_0000 * (gw * hi) <= gg * 0x1_0000_0005) by (nonlinear_arith)
        requires
            0 <= 0x800_0000 * gw <= gg,
            0 <= hi <= 0x1_0000_0005,
    ;
    assert(4 * (gw * hi) <= 129 * gg);
    assert(gg * ll <= gg * big <= gg * hh) by (nonlinear_arith)
        requires
            gg >= 0,
            ll <= big <= hh,
    ;
    assert(gg * ll - 129 * gg <= up <= gg * hh + 130 * gg);
    // Above.
    let top = g * (2 * hi + 1);
    lemma_monomial_square(g, 2 * hi + 1);
    assert((2 * hi + 1) * (2 * hi + 1) == 4 * hh + (4 * hi + 1)) by (nonlinear_arith)
        requires
            hh == hi * hi,
    ;
    lemma_distribute2(4 * hh, 4 * hi + 1, gg);
    lemma_mul_regroup(gg, 4, hh);
    assert(gg * (4 * hi + 1) >= 520 * gg) by (nonlinear_arith)
        requires
            gg >= 0,
            hi >= 130,
    ;
    assert(gg * (4 * hh) == 4 * (gg * hh)) by (nonlinear_arith);
    assert(top * top >= 4 * up);
    assert(2 * m <= top) by (nonlinear_arith)
        requires
            top * top >= 4 * up,
            m * m <= up,
            m >= 0,
            top >= 0,
    ;
    // Below.
    let low = g * (2 * lo - 1);
    let q = 0x1000_0000 * lo - 0x800_0000 + 2;
    let far = 0x1000_0000 * (m + p);
    if 2 * m < low {
        lemma_distribute2(0x1000_0000 * lo - 0x800_0000, 2, g);
        assert(0x800_0000 * low == g * (0x1000_0000 * lo - 0x800_0000)) by (nonlinear_arith)
            requires
                low == g * (2 * lo - 1),
        ;
        assert(0 <= far < g * q);
        assert(far * far < (g * q) * (g * q)) by (nonlinear_arith)
            requires
                0 <= far < g * q,
        ;
        lemma_monomial_square(g, q);
        assert(far * far == 0x100_0000_0000_0000 * ((m + p) * (m + p))) by (nonlinear_arith)
            requires
                far == 0x1000_0000 * (m + p),
        ;
        assert(q * q <= 0x100_0000_0000_0000 * ll - 129 * 0x100_0000_0000_0000)
            by (nonlinear_arith)
            requires
                q == 0x1000_0000 * lo - 0x800_0000 + 2,
                ll == lo * lo,
                lo >= 0xffff_fffb,
        ;
        assert(gg * (q * q) <= gg * (0x100_0000_0000_0000 * ll - 129 * 0x100_0000_0000_0000))
            by (nonlinear_arith)
            requires
                gg >= 0,
                q * q <= 0x100_0000_0000_0000 * ll - 129 * 0x100_0000_0000_0000,
        ;
        assert(gg * (0x100_0000_0000_0000 * ll - 129 * 0x100_0000_0000_0000) == 0x100_0000_0000_0000
            * (gg * ll - 129 * gg)) by (nonlinear_arith);
        assert(false);
    }
}

/// The arithmetic of [`lemma_direction_frame`] for a unit quaternion, in
/// parts of 32 of a unit: the norm of which is one within 4.3 units, and
/// so is `m` beside `g`, to a thirty-second.
proof fn lemma_frame_norm_fine(g: int, w: int, p: int, m: int, up: int, big: int, hi: int)
    requires
        g >= 1,
        m >= 0,
        0 <= 0x800_0000 * w <= g,
        1 <= 0x800_0000 * p <= g,
        0x1_0000_0000 <= hi <= 0x1_0000_0005,
        mag(big - ONE_SQ) <= UNIT_TOLERANCE,
        (g * g) * big - 4 * ((g * w) * hi) <= up <= (g * g) * big + 4 * ((g * w) * hi) + w * w,
        m * m <= up < (m + p) * (m + p),
    ensures
        g * (32 * ONE - 139) <= 32 * m <= g * (32 * ONE + 139),
{
    let gg = g * g;
    let gw = g * w;
    assert(0 <= 0x800_0000 * gw <= gg && 0 <= w * w <= gg) by (nonlinear_arith)
        requires
            gg == g * g,
            gw == g * w,
            g >= 1,
            0 <= 0x800_0000 * w <= g,
    ;
    assert(0 <= 0x800_0000 * (gw * hi) <= gg * 0x1_0000_0005) by (nonlinear_arith)
        requires
            0 <= 0x800_0000 * gw <= gg,
            0 <= hi <= 0x1_0000_0005,
    ;
    assert(4 * (gw * hi) <= 129 * gg);
    assert(gg * 0xfffffff768fa0bda <= gg * big <= gg * 0x1000000089705f426) by (nonlinear_arith)
        requires
            gg >= 0,
            0xfffffff768fa0bda <= big <= 0x1000000089705f426,
    ;
    // Above.
    let top = g * 0x200000008b;
    lemma_monomial_square(g, 0x200000008b);
    assert(0x200000008b * 0x200000008b >= 1024 * (0x1000000089705f426 + 130)) by (nonlinear_arith);
    assert(gg * (0x200000008b * 0x200000008b) >= gg * (1024 * (0x1000000089705f426 + 130))) by (nonlinear_arith)
        requires
            gg >= 0,
            0x200000008b * 0x200000008b >= 1024 * (0x1000000089705f426 + 130),
    ;
    assert(top * top >= 1024 * up);
    assert(32 * m <= top) by (nonlinear_arith)
        requires
            top * top >= 1024 * up,
            m * m <= up,
            m >= 0,
            top >= 0,
    ;
    // Below.
    let low = g * 0x1fffffff75;
    let far = 0x800_0000 * (m + p);
    if 32 * m < low {
        assert(0x40_0000 * low + g == g * 0x7ffffffdd400001) by (nonlinear_arith)
            requires
                low == g * 0x1fffffff75,
        ;
        assert(0 <= far < g * 0x7ffffffdd400001);
        assert(far * far < (g * 0x7ffffffdd400001) * (g * 0x7ffffffdd400001)) by (nonlinear_arith)
            requires
                0 <= far < g * 0x7ffffffdd400001,
        ;
        lemma_monomial_square(g, 0x7ffffffdd400001);
        assert(far * far == 0x40_0000_0000_0000 * ((m + p) * (m + p))) by (nonlinear_arith)
            requires
                far == 0x800_0000 * (m + p),
        ;
        assert(0x7ffffffdd400001 * 0x7ffffffdd400001 <= 0x40_0000_0000_0000 * (0xfffffff768fa0bda - 129)) by (nonlinear_arith);
        assert(gg * (0x7ffffffdd400001 * 0x7ffffffdd400001) <= gg * (0x40_0000_0000_0000 * (0xfffffff768fa0bda - 129))) by (nonlinear_arith)
            requires
                gg >= 0,
                0x7ffffffdd400001 * 0x7ffffffdd400001 <= 0x40_0000_0000_0000 * (0xfffffff768fa0bda - 129),
        ;
        assert(gg * (0x40_0000_0000_0000 * (0xfffffff768fa0bda - 129)) == 0x40_0000_0000_0000 * (gg * 0xfffffff768fa0bda - 129
            * gg)) by (nonlinear_arith);
        assert(false);
    }
}

/// The unit quaternion in the direction of a multiple of a unit quaternion
/// is that quaternion within 4 units.
pub proof fn lemma_direction_unit(x: Quat, c: int)
    requires
        c >= 1,
        x.is_unit(),
    ensures
        !x.times(c).is_zero(),
        x.times(c).direction().minus(x).within(4),
{
    let t = x.times(c);
    let r = t.reduced();
    let g = scale_factor(r.max_mag()) * c;
    let m = r.times(scale_factor(r.max_mag())).norm_floor() * t.reduction();
    let o = t.direction();
    lemma_unit_is_within(x);
    lemma_direction_frame(x, c, 5);
    lemma_near_fine_component(x.w, g, m, o.w);
    lemma_near_fine_component(x.i, g, m, o.i);
    lemma_near_fine_component(x.j, g, m, o.j);
    lemma_near_fine_component(x.k, g, m, o.k);
}

/// One component of [`lemma_direction_unit`].
proof fn lemma_near_fine_component(x: int, f: int, n: int, o: int)
    requires
        n > 0,
        f >= 1,
        mag(x) <= ONE + 5,
        f * (32 * ONE - 139) <= 32 * n <= f * (32 * ONE + 139),
        0x1000_0000 * (2 * mag(o * n - ONE * (f * x))) <= 0x1000_0001 * n,
    ensures
        mag(o - x) <= 4,
{
    let one = ONE as int;
    let e = o * n - one * (f * x);
    let d = o - x;
    let g = one * f - n;
    assert(32 * mag(g) <= 139 * f) by (nonlinear_arith)
        requires
            g == 0x1_0000_0000 * f - n,
            f * (32 * 0x1_0000_0000 - 139) <= 32 * n <= f * (32 * 0x1_0000_0000 + 139),
    ;
    lemma_distribute2(o, x, n);
    lemma_distribute2(one * f, n, x);
    lemma_mul_regroup(one, f, x);
    assert(d * n == x * g + e);
    lemma_mul_bound(x, g, one + 5, mag(g));
    lemma_mul_bound(d, n, mag(d), n);
    let k = mag(d);
    let y = mag(g);
    assert(k <= 4) by (nonlinear_arith)
        requires
            n > 0,
            f >= 1,
            k >= 0,
            y >= 0,
            32 * y <= 139 * f,
            32 * n >= f * (32 * 0x1_0000_0000 - 139),
            0x1000_0000 * (2 * (k * n)) <= 0x1000_0000 * (2 * (0x1_0000_0005 * y)) + 0x1000_0001
                * n,
    ;
}

/// One component of [`lemma_direction_unit`]: the square of a scaled
/// component, times that of the divisor, is that of the multiple of `x` up
/// to what the division rounded off.
proof fn lemma_multiple_component(x: int, c: int, r: int, p: int, f: int, h: int, hi: int)
    requires
        f >= 1,
        c >= 1,
        p >= 1,
        h >= 0,
        mag(x) <= hi,
        2 * mag(r * p - c * x) <= h,
    ensures
        ((f * r) * p) * ((f * r) * p) >= ((f * c) * (f * c)) * (x * x) - ((f * c) * (f * h)) * hi,
        ((f * r) * p) * ((f * r) * p) <= ((f * c) * (f * c)) * (x * x) + ((f * c) * (f * h)) * hi
            + ((f * h) * (f * h)) / 4,
        4 * (((f * h) * (f * h)) / 4) <= (f * h) * (f * h),
{
    let g = f * c;
    let w = f * h;
    let e = r * p - c * x;
    let a = g * x;
    let b = f * e;
    lemma_mul_regroup(f, r, p);
    lemma_distribute2(c * x, e, f);
    lemma_mul_regroup(f, c, x);
    assert((f * r) * p == a + b);
    assert((a + b) * (a + b) == a * a + 2 * (a * b) + b * b) by (nonlinear_arith);
    lemma_monomial_square(g, x);
    lemma_mul_bound(g, x, g, hi);
    lemma_mul_bound(f, e, f, mag(e));
    lemma_mul_bound(a, b, g * hi, f * mag(e));
    assert(2 * ((g * hi) * (f * mag(e))) <= (g * w) * hi && 0 <= 4 * (b * b) <= w * w)
        by (nonlinear_arith)
        requires
            w == f * h,
            b == f * e,
            g >= 0,
            hi >= 0,
            f >= 1,
            2 * mag(e) <= h,
    ;
}

/// One component of [`lemma_direction_unit`]: the component of the
/// direction, times the norm and the divisor, is one times the multiple of
/// `x`, up to the two roundings.
proof fn lemma_direction_component(
    x: int,
    c: int,
    r: int,
    p: int,
    f: int,
    h: int,
    n: int,
    o: int,
    one: int,
)
    requires
        f >= 1,
        p >= 1,
        h >= 0,
        n >= 1,
        one >= 0,
        0x1000_0000 * (one * (f * h)) <= n * p,
        2 * mag(r * p - c * x) <= h,
        2 * mag(o * n - one * (f * r)) <= n,
    ensures
        0x1000_0000 * (2 * mag(o * (n * p) - one * ((f * c) * x))) <= 0x1000_0001 * (n * p),
{
    let e = o * n - one * (f * r);
    let g = r * p - c * x;
    lemma_mul_regroup(o, n, p);
    lemma_distribute2(one * (f * r), e, p);
    lemma_mul_regroup(one, f * r, p);
    lemma_mul_regroup(f, r, p);
    lemma_distribute2(c * x, g, f);
    lemma_mul_regroup(f, c, x);
    lemma_distribute2((f * c) * x, f * g, one);
    assert(o * (n * p) - one * ((f * c) * x) == e * p + one * (f * g));
    lemma_mul_bound(e, p, mag(e), p);
    lemma_mul_bound(f, g, f, mag(g));
    lemma_mul_bound(one, f * g, one, f * mag(g));
    assert(2 * (mag(e) * p) <= n * p && 2 * (one * (f * mag(g))) <= one * (f * h))
        by (nonlinear_arith)
        requires
            p >= 1,
            f >= 1,
            one >= 0,
            2 * mag(e) <= n,
            2 * mag(g) <= h,
    ;
}

/// The components of a unit quaternion barely exceed one.
pub proof fn lemma_unit_within(q: Quat)
    requires
        q.is_unit(),
    ensures
        q.within(ONE + 4),
        !q.is_zero(),
{
    let (a, b, c, d) = (q.w, q.i, q.j, q.k);
    assert(a * a >= 0 && b * b >= 0 && c * c >= 0 && d * d >= 0) by (nonlinear_arith);
    assert(mag(a) <= 0x1_0000_0004) by (nonlinear_arith)
        requires
            a * a <= 0x1_0000_0009_0000_0000,
    ;
    assert(mag(b) <= 0x1_0000_0004) by (nonlinear_arith)
        requires
            b * b <= 0x1_0000_0009_0000_0000,
    ;
    assert(mag(c) <= 0x1_0000_0004) by (nonlinear_arith)
        requires
            c * c <= 0x1_0000_0009_0000_0000,
    ;
    assert(mag(d) <= 0x1_0000_0004) by (nonlinear_arith)
        requires
            d * d <= 0x1_0000_0009_0000_0000,
    ;
    if q.is_zero() {
        assert(a * a == 0 && b * b == 0 && c * c == 0 && d * d == 0) by (nonlinear_arith)
            requires
                a == 0,
                b == 0,
                c == 0,
                d == 0,
        ;
    }
}

/// A unit quaternion has its norm between `1 - 5` and `1 + 5` units.
pub proof fn lemma_unit_is_within(x: Quat)
    requires
        x.is_unit(),
    ensures
        x.is_unit_within(5),
{
    let one = ONE as int;
    assert((one - 5) * (one - 5) <= ONE_SQ - UNIT_TOLERANCE && ONE_SQ + UNIT_TOLERANCE <= (one + 5)
        * (one + 5)) by (nonlinear_arith)
        requires
            one == 0x1_0000_0000,
    ;
}

/// A squared norm is not negative, and no component exceeds the rounded norm.
pub proof fn lemma_norm_floor(t: Quat)
    ensures
        t.norm_sq() >= 0,
        t.norm_floor() * t.norm_floor() <= t.norm_sq(),
        t.norm_sq() < (t.norm_floor() + 1) * (t.norm_floor() + 1),
        t.within(t.norm_floor()),
        t.max_mag() <= t.norm_floor(),
{
    let (a, b, c, d) = (t.w, t.i, t.j, t.k);
    assert(a * a >= 0 && b * b >= 0 && c * c >= 0 && d * d >= 0) by (nonlinear_arith);
    lemma_sqrt_floor_bounds(t.norm_sq() as nat);
    let n = t.norm_floor();
    assert(mag(a) <= n) by (nonlinear_arith)
        requires
            a * a < (n + 1) * (n + 1),
            n >= 0,
    ;
    assert(mag(b) <= n) by (nonlinear_arith)
        requires
            b * b < (n + 1) * (n + 1),
            n >= 0,
    ;
    assert(mag(c) <= n) by (nonlinear_arith)
        requires
            c * c < (n + 1) * (n + 1),
            n >= 0,
    ;
    assert(mag(d) <= n) by (nonlinear_arith)
        requires
            d * d < (n + 1) * (n + 1),
            n >= 0,
    ;
}

/// Scaling by the scale factor brings the largest component into the top
/// range, so that the rounded norm is at least 2^61.
pub proof fn lemma_scaled(t: Quat)
    requires
        !t.is_zero(),
        t.within(SCALE_LIMIT - 1),
    ensures
        t.times(scale_factor(t.max_mag())).within(SCALE_LIMIT - 1),
        t.times(scale_factor(t.max_mag())).max_mag() >= SCALE_FLOOR,
        t.times(scale_factor(t.max_mag())).norm_floor() >= SCALE_FLOOR,
        t.times(scale_factor(t.max_mag())).norm_floor() >= scale_factor(t.max_mag()) * t.max_mag(),
        scale_factor(t.max_mag()) >= 1,
{
    let m = t.max_mag();
    let f = scale_factor(m);
    lemma_scale_factor(m);
    let u = t.times(f);
    assert(mag(f * t.w) == f * mag(t.w) && mag(f * t.i) == f * mag(t.i) && mag(f * t.j) == f * mag(
        t.j,
    ) && mag(f * t.k) == f * mag(t.k)) by (nonlinear_arith)
        requires
            f >= 1,
    ;
    assert(f * mag(t.w) <= f * m && f * mag(t.i) <= f * m && f * mag(t.j) <= f * m && f * mag(t.k)
        <= f * m) by (nonlinear_arith)
        requires
            f >= 1,
            mag(t.w) <= m,
            mag(t.i) <= m,
            mag(t.j) <= m,
            mag(t.k) <= m,
    ;
    assert(f * m == m * f) by (nonlinear_arith);
    assert(u.max_mag() == f * m);
    lemma_norm_floor(u);
}

/// One component of the norm computation: with `o` the rounded quotient of
/// `s * t` by `n`, the square of `o * n` is that of `s * t` up to the
/// rounding error `e`.
proof fn lemma_unit_component(s: int, t: int, n: int, o: int, e: int)
    requires
        s > 0,
        n > 0,
        mag(t) <= n,
        o * n == s * t + e,
        2 * mag(e) <= n,
    ensures
        (o * o) * (n * n) == (s * s) * (t * t) + 2 * (s * (t * e)) + e * e,
        -(s * (n * n)) <= 2 * (s * (t * e)) <= s * (n * n),
        0 <= 4 * (e * e) <= n * n,
{
    assert((o * o) * (n * n) == (o * n) * (o * n)) by (nonlinear_arith);
    assert((s * t + e) * (s * t + e) == (s * s) * (t * t) + 2 * (s * (t * e)) + e * e)
        by (nonlinear_arith);
    assert(-(n * n) <= 2 * (t * e) <= n * n) by (nonlinear_arith)
        requires
            mag(t) <= n,
            2 * mag(e) <= n,
    ;
    assert(-(s * (n * n)) <= 2 * (s * (t * e)) <= s * (n * n)) by (nonlinear_arith)
        requires
            s > 0,
            -(n * n) <= 2 * (t * e) <= n * n,
    ;
    assert(0 <= 4 * (e * e) <= n * n) by (nonlinear_arith)
        requires
            2 * mag(e) <= n,
    ;
}

/// One component of [`lemma_stretched_near`]: `o` is the quotient of
/// `one * (f * x)` by `n`, rounded within half a unit and one part in 2^28
/// of that, and `n` is within `c * f` of `one * f`.
proof fn lemma_near_component(x: int, f: int, n: int, o: int, c: int, one: int)
    requires
        n > 0,
        f >= 1,
        c >= 0,
        2 * (c * c) + c <= one,
        mag(x) <= one + c,
        f * (one - c) <= n <= f * (one + c),
        0x1000_0000 * (2 * mag(o * n - one * (f * x))) <= 0x1000_0001 * n,
    ensures
        mag(o - x) <= c + 1,
{
    let e = o * n - one * (f * x);
    let d = o - x;
    let g = one * f - n;
    lemma_distribute2(one, c, f);
    lemma_mul_regroup(one, f, c);
    lemma_mul_regroup(f, one, c);
    lemma_mul_regroup(c, f, one);
    assert(mag(g) <= c * f);
    lemma_distribute2(o, x, n);
    lemma_distribute2(one * f, n, x);
    lemma_mul_regroup(one, f, x);
    assert(d * n == x * g + e);
    lemma_mul_bound(x, g, one + c, c * f);
    assert((one + c) * (c * f) <= (c + 1) * (f * (one - c))) by (nonlinear_arith)
        requires
            f >= 1,
            c >= 0,
            2 * (c * c) + c <= one,
    ;
    assert((c + 1) * (f * (one - c)) <= (c + 1) * n) by (nonlinear_arith)
        requires
            c >= 0,
            f * (one - c) <= n,
    ;
    lemma_mul_bound(d, n, mag(d), n);
    assert(mag(d) <= c + 1) by (nonlinear_arith)
        requires
            n > 0,
            c >= 0,
            0x1000_0000 * (2 * (mag(d) * n)) <= 0x1000_0000 * (2 * ((c + 1) * n)) + 0x1000_0001 * n,
    ;
}

} // verus!
