//! The curve is the cubic Hermite spline whose tangents are the means of the chords, where these are gentle.

use vstd::prelude::*;
use crate::curve::Point;
use crate::curve::{FLAT, NINE};
use crate::double::Double;
use crate::double::{HALF, ONE, ZERO};

verus! {

// ---------------------------------------------------------------------------
// Chords
// ---------------------------------------------------------------------------

/// How far apart the points `k` and `k + 1` are in light.
pub open spec fn gap(points: Seq<Point>, k: int) -> real {
    crate::measure::value(points[k + 1].x) - crate::measure::value(points[k].x)
}

/// How far apart the points `k` and `k + 1` are in level.
pub open spec fn rise(points: Seq<Point>, k: int) -> real {
    crate::measure::value(points[k + 1].y) - crate::measure::value(points[k].y)
}

/// The slope of the chord between the points `k` and `k + 1`.
pub open spec fn slope(points: Seq<Point>, k: int) -> real {
    rise(points, k) / gap(points, k)
}

/// The mean of the slopes of the chords beside the point `i`, or that of the only one at an end.
pub open spec fn mean(points: Seq<Point>, i: int) -> real {
    let n = points.len();
    if i == 0 {
        slope(points, 0)
    } else if i == n - 1 {
        slope(points, n - 2)
    } else {
        (slope(points, i - 1) + slope(points, i)) / 2 as real
    }
}

/// The chord between the points `k` and `k + 1` is not flat, and the means at its ends lie, in chords,
/// within the circle of radius three, in which a cubic is monotone.
pub open spec fn gentle(points: Seq<Point>, k: int) -> bool {
    let d = slope(points, k);
    let a = mean(points, k);
    let b = mean(points, k + 1);
    &&& 1 as real <= 100_000_000 as real * d
    &&& a * a + b * b <= (9 as real - 1 as real / 1_000_000 as real) * (d * d)
}

/// Each point is at a greater light than the one before it.
pub open spec fn distinct_lights(points: Seq<Point>) -> bool {
    forall|i: int, j: int|
        #![trigger points[i], points[j]]
        0 <= i && i + 1 == j && j < points.len() ==> points[i].x.less(points[j].x)
}

/// Points of a curve, not too near each other.
pub open spec fn plain(points: Seq<Point>) -> bool {
    &&& points.len() >= 2
    &&& crate::tangents::tame(points)
    &&& crate::spacing::spaced(points)
    &&& distinct_lights(points)
}

proof fn lemma_cancel(a: real, b: real, h: real)
    requires
        a * h <= b * h,
        h > 0 as real,
    ensures
        a <= b,
{
    assert(a <= b) by (nonlinear_arith)
        requires
            a * h <= b * h,
            h > 0 as real,
    ;
}

/// A quotient of two numbers that are off by a part `e` each.
pub proof fn lemma_quotient_near(x: real, g: real, r: real, h: real, e: real)
    requires
        0 as real <= x,
        g > 0 as real,
        h > 0 as real,
        0 as real <= r,
        (0 as real) < e <= 1 as real / 1024 as real,
        x - e * x <= r <= x + e * x,
        g - e * g <= h <= g + e * g,
    ensures
        x / g >= 0 as real,
        r / h >= 0 as real,
        x / g - 4 as real * e * (x / g) <= r / h <= x / g + 4 as real * e * (x / g),
{
    let s = x / g;
    let c = r / h;
    crate::limits::lemma_quotient(x, g);
    crate::limits::lemma_quotient(r, h);
    // upwards: c h = r <= (1 + e) s g and g <= (1 + 2 e) h
    let up = s + 4 as real * e * s;
    assert(c * h <= up * h) by {
        assert(g <= h + 2 as real * e * h) by (nonlinear_arith)
            requires
                g - e * g <= h,
                (0 as real) < e <= 1 as real / 1024 as real,
                g > 0 as real,
                h > 0 as real,
        ;
        let sg = s * g;
        let sh = s * h;
        let f = e * sh;
        assert(sg <= sh + 2 as real * f) by (nonlinear_arith)
            requires
                g <= h + 2 as real * e * h,
                s >= 0 as real,
                sg == s * g,
                sh == s * h,
                f == e * sh,
        ;
        assert(sh >= 0 as real) by (nonlinear_arith)
            requires
                s >= 0 as real,
                h > 0 as real,
                sh == s * h,
        ;
        assert(e * sg <= f + 2 as real * (e * f)) by (nonlinear_arith)
            requires
                sg <= sh + 2 as real * f,
                f == e * sh,
                e > 0 as real,
        ;
        assert(e * f <= f / 4 as real && 0 as real <= f) by (nonlinear_arith)
            requires
                f == e * sh,
                sh >= 0 as real,
                (0 as real) < e <= 1 as real / 1024 as real,
        ;
        assert(up * h == sh + 4 as real * f) by (nonlinear_arith)
            requires
                up == s + 4 as real * e * s,
                sh == s * h,
                f == e * sh,
        ;
    }
    lemma_cancel(c, up, h);
    let down = s - 4 as real * e * s;
    assert(down * h <= c * h) by {
        assert(g >= h - e * h) by (nonlinear_arith)
            requires
                h <= g + e * g,
                (0 as real) < e <= 1 as real / 1024 as real,
                g > 0 as real,
                h > 0 as real,
        ;
        let sg = s * g;
        let sh = s * h;
        let f = e * sh;
        assert(sg >= sh - f) by (nonlinear_arith)
            requires
                g >= h - e * h,
                s >= 0 as real,
                sg == s * g,
                sh == s * h,
                f == e * sh,
        ;
        assert(sh >= 0 as real) by (nonlinear_arith)
            requires
                s >= 0 as real,
                h > 0 as real,
                sh == s * h,
        ;
        assert(f >= 0 as real) by (nonlinear_arith)
            requires
                f == e * sh,
                sh >= 0 as real,
                e > 0 as real,
        ;
        assert(sg <= 2 as real * sh) by (nonlinear_arith)
            requires
                g - e * g <= h,
                (0 as real) < e <= 1 as real / 1024 as real,
                g > 0 as real,
                s >= 0 as real,
                sg == s * g,
                sh == s * h,
        {
            assert(g <= 2 as real * h);
        }
        assert(e * sg <= 2 as real * f) by (nonlinear_arith)
            requires
                sg <= 2 as real * sh,
                f == e * sh,
                e > 0 as real,
        ;
        assert(down * h == sh - 4 as real * f) by (nonlinear_arith)
            requires
                down == s - 4 as real * e * s,
                sh == s * h,
                f == e * sh,
        ;
    }
    lemma_cancel(down, c, h);
}

/// `v` is off from `x` by the part `k` times `2^-52` at most, and `t` more.
pub open spec fn close(v: real, x: real, k: real, t: real) -> bool {
    let f = k * (crate::measure::epsilon() * x) + t;
    x - f <= v <= x + f
}

/// A computed chord is close to the exact one.
proof fn lemma_slope(points: Seq<Point>, k: int)
    requires
        plain(points),
        0 <= k,
        k + 1 < points.len(),
    ensures
        ({
            let d = crate::curve::chord(points[k], points[k + 1]);
            &&& d.finite()
            &&& !d.negative()
            &&& 0 as real <= slope(points, k)
            &&& 0 as real <= crate::measure::value(d) <= crate::measure::scale(62)
            &&& close(crate::measure::value(d), slope(points, k), 8 as real, crate::measure::smallest())
        }),
{
    let p = points[k];
    let q = points[k + 1];
    let e = crate::measure::epsilon();
    let zero = Double::from_bits(ZERO);
    let one = Double::from_bits(ONE);
    assert(points[k].x.less(points[k + 1].x));
    crate::spacing::lemma_chord_within(points, k);
    crate::tangents::lemma_neighbours(points, k);
    crate::tangents::lemma_width(p, q);
    crate::tangents::lemma_step(p, q);
    crate::measure::lemma_constants();
    crate::measure::lemma_small();
    crate::lesson_laws::lemma_proper(p.y);
    crate::lesson_laws::lemma_proper(q.y);
    crate::measure::lemma_value_order(zero, p.x);
    crate::measure::lemma_value_order(q.x, one);
    crate::measure::lemma_value_order(p.x, q.x);
    let h = q.x.minus(p.x);
    let r = q.y.minus(p.y);
    crate::measure::lemma_minus(q.x, p.x);
    crate::measure::lemma_minus(q.y, p.y);
    let g = gap(points, k);
    let x = rise(points, k);
    let hv = crate::measure::value(h);
    let rv = crate::measure::value(r);
    lemma_quotient_near(x, g, rv, hv, e);
    crate::measure::lemma_finite_quotient(r, h);
    let s = x / g;
    let c = rv / hv;
    let d = crate::measure::value(crate::curve::chord(p, q));
    let es = e * s;
    assert(0 as real <= es) by {
        crate::algebra::lemma_nonnegative_product(e, s);
    }
    crate::algebra::lemma_regroup(4 as real, e, s);
    assert(c <= 2 as real * s) by {
        assert(es <= s / 8 as real) by (nonlinear_arith)
            requires
                es == e * s,
                s >= 0 as real,
                e <= 1 as real / 8 as real,
        ;
    }
    assert(e * c <= 2 as real * es) by {
        crate::algebra::lemma_scaled_up(c, 2 as real * s, e);
        assert(e * (2 as real * s) == 2 as real * (e * s)) by (nonlinear_arith);
    }
}

/// A tangent before it is limited is close to the mean of the chords.
proof fn lemma_mean(points: Seq<Point>, i: int)
    requires
        plain(points),
        0 <= i < points.len(),
    ensures
        ({
            let m = crate::curve::mean_slope(points, i);
            &&& m.finite()
            &&& !m.negative()
            &&& 0 as real <= mean(points, i)
            &&& 0 as real <= crate::measure::value(m) <= crate::measure::scale(65)
            &&& close(crate::measure::value(m), mean(points, i), 16 as real, 4 as real * crate::measure::smallest())
        }),
{
    let n = points.len();
    let e = crate::measure::epsilon();
    let s = crate::measure::smallest();
    crate::measure::lemma_small();
    crate::spacing::lemma_mean_within(points, i);
    let m = crate::measure::value(crate::curve::mean_slope(points, i));
    if i == 0 {
        lemma_slope(points, 0);
        crate::algebra::lemma_nonnegative_product(e, slope(points, 0));
    } else if i == n - 1 {
        lemma_slope(points, n - 2);
        crate::algebra::lemma_nonnegative_product(e, slope(points, n - 2));
    } else {
        lemma_slope(points, i - 1);
        lemma_slope(points, i);
        let a = crate::curve::chord(points[i - 1], points[i]);
        let b = crate::curve::chord(points[i], points[i + 1]);
        let half = Double::from_bits(HALF);
        crate::measure::lemma_constants();
        let x = slope(points, i - 1);
        let y = slope(points, i);
        let u = crate::measure::value(a);
        let v = crate::measure::value(b);
        let sum = a.plus(b);
        crate::measure::lemma_scale(62, 62);
        crate::measure::lemma_scale(62, 63);
        crate::spacing::lemma_plus_within(a, b, 62);
        crate::measure::lemma_plus(a, b);
        let w = crate::measure::value(sum);
        crate::measure::lemma_scale(64, 64);
        crate::measure::lemma_times(sum, half);
        lemma_mean_errors(x, y, u, v, w, m, e, s);
    }
}

/// The errors of a mean, in real numbers.
proof fn lemma_mean_errors(x: real, y: real, u: real, v: real, w: real, m: real, e: real, s: real)
    requires
        0 as real <= x,
        0 as real <= y,
        0 as real <= u,
        0 as real <= v,
        0 as real <= w,
        (0 as real) < e <= 1 as real / 1024 as real,
        0 as real <= s,
        x - (8 as real * (e * x) + s) <= u <= x + (8 as real * (e * x) + s),
        y - (8 as real * (e * y) + s) <= v <= y + (8 as real * (e * y) + s),
        crate::measure::abs(w - (u + v)) <= e * crate::measure::abs(u + v),
        crate::measure::abs(m - w * (1 as real / 2 as real)) <= e * crate::measure::abs(w * (1 as real / 2 as real)) + s,
    ensures
        ({
            let z = (x + y) / 2 as real;
            let f = 16 as real * (e * z) + 4 as real * s;
            z - f <= m <= z + f
        }),
{
    let z = (x + y) / 2 as real;
    let ez = e * z;
    assert(e * x + e * y == 2 as real * ez) by (nonlinear_arith)
        requires
            z == (x + y) / 2 as real,
            ez == e * z,
    ;
    crate::algebra::lemma_nonnegative_product(e, x);
    crate::algebra::lemma_nonnegative_product(e, y);
    let t = u + v;
    // t is off from 2z by 16 ez + 2s
    assert(ez <= z / 1024 as real) by (nonlinear_arith)
        requires
            ez == e * z,
            z >= 0 as real,
            e <= 1 as real / 1024 as real,
    ;
    assert(t <= 3 as real * z + 2 as real * s);
    crate::algebra::lemma_scaled_up(t, 3 as real * z + 2 as real * s, e);
    let es = e * s;
    assert(e * (3 as real * z + 2 as real * s) == 3 as real * ez + 2 as real * es) by (nonlinear_arith)
        requires
            ez == e * z,
            es == e * s,
    ;
    assert(es <= s / 1024 as real && 0 as real <= es) by (nonlinear_arith)
        requires
            es == e * s,
            s >= 0 as real,
            (0 as real) < e <= 1 as real / 1024 as real,
    ;
    assert(w <= 4 as real * z + 4 as real * s);
    let hw = w * (1 as real / 2 as real);
    crate::algebra::lemma_scaled_up(hw, 2 as real * z + 2 as real * s, e);
    assert(e * (2 as real * z + 2 as real * s) == 2 as real * ez + 2 as real * es) by (nonlinear_arith)
        requires
            ez == e * z,
            es == e * s,
    ;
}

// ---------------------------------------------------------------------------
// Limiting
// ---------------------------------------------------------------------------

/// One more rounding of a number that is close to `b` from above.
proof fn lemma_inflate(y: real, b: real, j: real, t: real, e: real)
    requires
        0 as real <= b,
        0 as real <= y,
        0 as real <= t,
        0 as real <= j <= 64 as real,
        (0 as real) < e <= 1 as real / 1024 as real,
        y <= b + j * (e * b) + t,
    ensures
        y + e * y <= b + (j + 2 as real) * (e * b) + 2 as real * t,
{
    let f = e * b;
    let g = b + j * f + t;
    crate::algebra::lemma_scaled_up(y, g, e);
    assert(e * g == f + j * (e * f) + e * t) by (nonlinear_arith)
        requires
            g == b + j * f + t,
            f == e * b,
    ;
    assert(j * (e * f) <= f) by (nonlinear_arith)
        requires
            0 as real <= j <= 64 as real,
            (0 as real) < e <= 1 as real / 1024 as real,
            f == e * b,
            b >= 0 as real,
    {
        assert(f >= 0 as real);
        assert(e * f <= f / 1024 as real);
        assert(e * f >= 0 as real);
    }
    assert(e * t <= t) by (nonlinear_arith)
        requires
            t >= 0 as real,
            (0 as real) < e <= 1 as real / 1024 as real,
    ;
    assert((j + 2 as real) * f == j * f + 2 as real * f) by (nonlinear_arith);
}

/// The factor by which tangents are brought in is one at most, but for rounding.
proof fn lemma_factor(r: real, g: real, dist: real, e: real)
    requires
        r >= 1 as real,
        g >= 0 as real,
        g * r == 3 as real,
        dist > 9 as real,
        dist <= r * r * (1 as real + 2 as real * e),
        (0 as real) < e <= 1 as real / 1024 as real,
    ensures
        g <= 1 as real + e,
{
    let rr = r * r;
    let gg = g * g;
    assert(gg * rr == 9 as real) by (nonlinear_arith)
        requires
            g * r == 3 as real,
            gg == g * g,
            rr == r * r,
    ;
    let k = 1 as real + 2 as real * e;
    assert(rr > 0 as real) by (nonlinear_arith)
        requires
            r >= 1 as real,
            rr == r * r,
    ;
    assert(gg <= k) by (nonlinear_arith)
        requires
            gg * rr == 9 as real,
            rr * k > 9 as real,
            rr > 0 as real,
    {
        if gg > k {
            assert(gg * rr > k * rr);
        }
    }
    assert(g <= 1 as real + e) by (nonlinear_arith)
        requires
            g * g <= 1 as real + 2 as real * e,
            g >= 0 as real,
            e > 0 as real,
    {
        if g > 1 as real + e {
            assert(g * g > (1 as real + e) * (1 as real + e));
        }
    }
}

/// The second tangent of an interval does not grow when it is limited, but for rounding.
proof fn lemma_second(a: Double, b: Double, d: Double)
    requires
        crate::spacing::within(a, 165),
        crate::spacing::within(b, 65),
        crate::spacing::within(d, 62),
    ensures
        ({
            let y = crate::curve::limited_pair(a, b, d).1;
            let v = crate::measure::value(b);
            &&& y.finite()
            &&& !y.negative()
            &&& crate::measure::value(y) <= v + 16 as real * (crate::measure::epsilon() * v) + 1 as real
                / 0x100_0000_0000_0000 as real
        }),
{
    let e = crate::measure::epsilon();
    let s = crate::measure::smallest();
    let z = 1 as real / 0x2000_0000_0000_0000 as real;
    let v = crate::measure::value(b);
    let alpha = a.over(d);
    let beta = b.over(d);
    let dist = alpha.times(alpha).plus(beta.times(beta));
    let y = crate::curve::limited_pair(a, b, d).1;
    crate::measure::lemma_constants();
    crate::measure::lemma_small();
    crate::algebra::lemma_nonnegative_product(e, v);
    crate::spacing::lemma_pair_within(a, b, d, 165, 65);
    let nine = Double::from_bits(NINE);
    if !d.absolute().less(Double::from_bits(FLAT)) && nine.less(dist) {
        let w = crate::measure::value(d);
        crate::tangents::lemma_steep(d);
        crate::measure::lemma_smallest_scaled(w);
        lemma_finite_parts(a, b, d);
        crate::measure::lemma_value_order(nine, dist);
        crate::tangents::lemma_tau(dist);
        let tau = Double::from_bits(crate::double::THREE).over(dist.square_root());
        let r = crate::measure::value(dist.square_root());
        let g = 3 as real / r;
        let tv = crate::measure::value(tau);
        lemma_factor(r, g, crate::measure::value(dist), e);
        crate::algebra::lemma_scaled_up(g, 2 as real, e);
        assert(tv <= 1 as real + 4 as real * e);
        crate::measure::lemma_not_below_zero(d);
        if w == 0 as real {
            crate::measure::lemma_value_order(d, Double::from_bits(ZERO));
        }
        let bv = crate::measure::value(beta);
        let q = v / w;
        crate::limits::lemma_quotient(v, w);
        crate::measure::lemma_finite_quotient(b, d);
        crate::measure::lemma_not_below_zero(beta);
        // beta d <= b + e b + z
        let x1 = bv * w;
        assert(x1 <= v + 1 as real * (e * v) + z) by {
            crate::algebra::lemma_scaled_up(bv, q + e * q + s, w);
            crate::algebra::lemma_swap(w, bv);
            assert(w * (q + e * q + s) == q * w + e * (q * w) + s * w) by (nonlinear_arith);
        }
        crate::algebra::lemma_nonnegative_product(bv, w);
        // tau beta d
        let x2 = tv * x1;
        crate::algebra::lemma_scaled_up(tv, 1 as real + 4 as real * e, x1);
        crate::algebra::lemma_swap(tv, x1);
        assert(x1 * (1 as real + 4 as real * e) == x1 + 4 as real * (e * x1)) by (nonlinear_arith);
        crate::algebra::lemma_nonnegative_product(tv, x1);
        lemma_inflate(x1, v, 1 as real, z, e);
        assert(e * x1 <= 2 as real * (e * v) + z) by {
            crate::algebra::lemma_scaled_up(x1, v + 1 as real * (e * v) + z, e);
            assert(e * (v + 1 as real * (e * v) + z) == e * v + e * (e * v) + e * z) by (nonlinear_arith);
            crate::algebra::lemma_scaled_up(e, 1 as real, e * v);
            crate::algebra::lemma_swap(e, e * v);
        }
        assert(x2 <= v + 9 as real * (e * v) + 5 as real * z);
        lemma_inflate(x2, v, 9 as real, 5 as real * z, e);
        let tb = tau.times(beta);
        crate::spacing::lemma_pair_within(a, b, d, 165, 65);
        crate::measure::lemma_finite_product(tau, beta);
        let p = crate::measure::value(tb);
        crate::tangents::lemma_clear_times(tau, beta);
        crate::measure::lemma_not_below_zero(tb);
        let tbv = tv * bv;
        crate::algebra::lemma_nonnegative_product(tv, bv);
        let x3 = p * w;
        assert(x3 <= x2 + e * x2 + z) by {
            crate::algebra::lemma_scaled_up(p, tbv + e * tbv + s, w);
            crate::algebra::lemma_swap(w, p);
            assert(w * (tbv + e * tbv + s) == tbv * w + e * (tbv * w) + s * w) by (nonlinear_arith);
            crate::algebra::lemma_regroup(tv, bv, w);
        }
        crate::algebra::lemma_nonnegative_product(p, w);
        assert(x3 <= v + 11 as real * (e * v) + 11 as real * z);
        lemma_inflate(x3, v, 11 as real, 11 as real * z, e);
        crate::measure::lemma_finite_product(tb, d);
    }
}

/// What is computed on the way to a limited tangent is finite.
proof fn lemma_finite_parts(a: Double, b: Double, d: Double)
    requires
        crate::spacing::within(a, 165),
        crate::spacing::within(b, 65),
        crate::spacing::within(d, 62),
        !d.absolute().less(Double::from_bits(FLAT)),
    ensures
        ({
            let alpha = a.over(d);
            let beta = b.over(d);
            let dist = alpha.times(alpha).plus(beta.times(beta));
            &&& alpha.finite()
            &&& !alpha.negative()
            &&& beta.finite()
            &&& !beta.negative()
            &&& alpha.times(alpha).finite()
            &&& beta.times(beta).finite()
            &&& dist.finite()
            &&& !dist.negative()
            &&& Double::from_bits(NINE).less(dist) ==> Double::from_bits(crate::double::THREE).over(
                dist.square_root(),
            ).times(beta).finite()
        }),
{
    let flat = Double::from_bits(FLAT);
    let alpha = a.over(d);
    let beta = b.over(d);
    crate::measure::lemma_constants();
    crate::measure::lemma_flat();
    crate::measure::lemma_value_order(d, flat);
    crate::measure::lemma_scale(30, 30);
    crate::algebra::lemma_scaled_up(crate::measure::value(flat), crate::measure::value(d), crate::measure::scale(30));
    crate::spacing::lemma_over_within(a, d, 165, 30);
    crate::spacing::lemma_over_within(b, d, 65, 30);
    crate::spacing::lemma_within(beta, 96, 196);
    crate::spacing::lemma_times_within(alpha, alpha, 196, 196);
    crate::spacing::lemma_times_within(beta, beta, 196, 196);
    crate::spacing::lemma_plus_within(alpha.times(alpha), beta.times(beta), 393);
    let dist = alpha.times(alpha).plus(beta.times(beta));
    if Double::from_bits(NINE).less(dist) {
        crate::measure::lemma_value_order(Double::from_bits(NINE), dist);
        crate::spacing::lemma_tau_within(dist);
        crate::spacing::lemma_times_within(
            Double::from_bits(crate::double::THREE).over(dist.square_root()),
            beta,
            3,
            96,
        );
    }
}

/// A tangent in chords is no more than the exact mean in exact chords, but for rounding.
proof fn lemma_in_chords(a: real, d: real, x: real, s: real, e: real)
    requires
        0 as real <= a,
        0 as real <= x <= 3 as real * s,
        1 as real <= 100_000_000 as real * s,
        (0 as real) < e <= 1 as real / 0x10_0000_0000_0000 as real,
        a <= x + 40 as real * (e * x) + 1 as real / 0x80_0000_0000_0000 as real,
        s - 9 as real * (e * s) <= d,
        d > 0 as real,
    ensures
        0 as real <= a / d <= x / s + 1 as real / 100_000_000 as real,
{
    let q = a / d;
    let r = x / s;
    let eta = 1 as real / 100_000_000 as real;
    crate::limits::lemma_quotient(a, d);
    crate::limits::lemma_quotient(x, s);
    assert(r <= 3 as real) by {
        lemma_cancel(r, 3 as real, s);
    }
    let m = r + eta;
    let es = e * s;
    crate::algebra::lemma_nonnegative_product(e, s);
    assert(e * x <= 3 as real * es) by (nonlinear_arith)
        requires
            x <= 3 as real * s,
            e > 0 as real,
            es == e * s,
    ;
    assert(m * d >= m * s - 9 as real * (m * es)) by (nonlinear_arith)
        requires
            s - 9 as real * es <= d,
            m >= 0 as real,
    ;
    assert(m * es <= 4 as real * es) by (nonlinear_arith)
        requires
            m <= 4 as real,
            es >= 0 as real,
    ;
    assert(m * s == x + eta * s) by {
        crate::algebra::lemma_sum(r, eta, s);
    }
    assert(es <= s / 0x10_0000_0000_0000 as real) by (nonlinear_arith)
        requires
            es == e * s,
            e <= 1 as real / 0x10_0000_0000_0000 as real,
            s >= 0 as real,
    ;
    assert(q * d <= m * d);
    lemma_cancel(q, m, d);
}

/// An interval whose exact means are gentle does not limit tangents that are no greater than these, but for
/// rounding.
proof fn lemma_left_alone(a: Double, b: Double, d: Double, x: real, y: real, s: real)
    requires
        crate::spacing::within(a, 165),
        crate::spacing::within(b, 65),
        crate::spacing::within(d, 62),
        0 as real <= x,
        0 as real <= y,
        1 as real <= 100_000_000 as real * s,
        x * x + y * y <= (9 as real - 1 as real / 1_000_000 as real) * (s * s),
        crate::measure::value(a) <= x + 40 as real * (crate::measure::epsilon() * x) + 1 as real
            / 0x80_0000_0000_0000 as real,
        crate::measure::value(b) <= y + 40 as real * (crate::measure::epsilon() * y) + 1 as real
            / 0x80_0000_0000_0000 as real,
        s - 9 as real * (crate::measure::epsilon() * s) <= crate::measure::value(d),
        !d.absolute().less(Double::from_bits(FLAT)),
    ensures
        crate::curve::limited_pair(a, b, d) == (a, b),
{
    let e = crate::measure::epsilon();
    let eta = 1 as real / 100_000_000 as real;
    let w = crate::measure::value(d);
    crate::measure::lemma_constants();
    crate::measure::lemma_small();
    lemma_finite_parts(a, b, d);
    let es = e * s;
    assert(es <= s / 1024 as real) by (nonlinear_arith)
        requires
            es == e * s,
            e <= 1 as real / 1024 as real,
            s > 0 as real,
    ;
    assert(w > 0 as real);
    crate::measure::lemma_positive(d);
    let r = x / s;
    let t = y / s;
    crate::limits::lemma_quotient(x, s);
    crate::limits::lemma_quotient(y, s);
    let rr = r * r;
    let tt = t * t;
    let ss = s * s;
    let c = 9 as real - 1 as real / 1_000_000 as real;
    assert(rr + tt <= c && 0 as real <= rr && 0 as real <= tt) by {
        crate::algebra::lemma_square(r);
        crate::algebra::lemma_square(t);
        assert(rr * ss == x * x) by (nonlinear_arith)
            requires
                r * s == x,
                rr == r * r,
                ss == s * s,
        ;
        assert(tt * ss == y * y) by (nonlinear_arith)
            requires
                t * s == y,
                tt == t * t,
                ss == s * s,
        ;
        crate::algebra::lemma_sum(rr, tt, ss);
        assert(ss > 0 as real) by (nonlinear_arith)
            requires
                s > 0 as real,
                ss == s * s,
        ;
        lemma_cancel(rr + tt, c, ss);
    }
    lemma_root_of_nine(r);
    lemma_root_of_nine(t);
    assert(x <= 3 as real * s && y <= 3 as real * s) by {
        crate::algebra::lemma_scaled_up(r, 3 as real, s);
        crate::algebra::lemma_scaled_up(t, 3 as real, s);
        crate::algebra::lemma_swap(r, s);
        crate::algebra::lemma_swap(t, s);
    }
    lemma_in_chords(crate::measure::value(a), w, x, s, e);
    lemma_in_chords(crate::measure::value(b), w, y, s, e);
    let alpha = a.over(d);
    let beta = b.over(d);
    crate::measure::lemma_finite_quotient(a, d);
    crate::measure::lemma_finite_quotient(b, d);
    crate::measure::lemma_not_below_zero(alpha);
    crate::measure::lemma_not_below_zero(beta);
    let p = crate::measure::value(a) / w;
    let q = crate::measure::value(b) / w;
    crate::measure::lemma_part_of_error(e, p, 4 as real);
    crate::measure::lemma_part_of_error(e, q, 4 as real);
    let u = crate::measure::value(alpha);
    let v = crate::measure::value(beta);
    assert(u <= r + 2 as real * eta && v <= t + 2 as real * eta);
    lemma_square_bound(u, r, eta);
    lemma_square_bound(v, t, eta);
    crate::measure::lemma_finite_product(alpha, alpha);
    crate::measure::lemma_finite_product(beta, beta);
    crate::measure::lemma_part_of_error(e, u * u, 16 as real);
    crate::measure::lemma_part_of_error(e, v * v, 16 as real);
    let f = crate::measure::value(alpha.times(alpha));
    let g = crate::measure::value(beta.times(beta));
    crate::measure::lemma_plus(alpha.times(alpha), beta.times(beta));
    crate::measure::lemma_part_of_error(e, f + g, 64 as real);
    let dist = alpha.times(alpha).plus(beta.times(beta));
    assert(crate::measure::value(dist) <= 9 as real);
    crate::measure::lemma_value_order(Double::from_bits(NINE), dist);
}

proof fn lemma_root_of_nine(r: real)
    requires
        r >= 0 as real,
        r * r <= 9 as real,
    ensures
        r <= 3 as real,
{
    assert(r <= 3 as real) by (nonlinear_arith)
        requires
            r >= 0 as real,
            r * r <= 9 as real,
    ;
}

proof fn lemma_square_bound(u: real, r: real, eta: real)
    requires
        0 as real <= u <= r + 2 as real * eta,
        0 as real <= r <= 3 as real,
        eta == 1 as real / 100_000_000 as real,
    ensures
        0 as real <= u * u <= r * r + 13 as real * eta,
        u * u <= 16 as real,
{
    let m = r + 2 as real * eta;
    crate::algebra::lemma_product_bound(u, u, m, m);
    assert(m * m == r * r + 4 as real * eta * r + 4 as real * eta * eta) by (nonlinear_arith)
        requires
            m == r + 2 as real * eta,
    ;
    assert(4 as real * eta * r <= 12 as real * eta) by (nonlinear_arith)
        requires
            r <= 3 as real,
            eta > 0 as real,
    ;
    crate::algebra::lemma_product_bound(r, r, 3 as real, 3 as real);
}

// ---------------------------------------------------------------------------
// Tangents
// ---------------------------------------------------------------------------

/// A chord that is not flat by `1e-8` is not taken as flat.
proof fn lemma_not_flat(d: Double, s: real)
    requires
        d.finite(),
        !d.negative(),
        1 as real <= 100_000_000 as real * s,
        close(crate::measure::value(d), s, 8 as real, crate::measure::smallest()),
    ensures
        !d.absolute().less(Double::from_bits(FLAT)),
        s - 9 as real * (crate::measure::epsilon() * s) <= crate::measure::value(d),
{
    let e = crate::measure::epsilon();
    crate::measure::lemma_small();
    crate::measure::lemma_scale(62, 62);
    crate::measure::lemma_smallest_scaled(1 as real);
    let es = e * s;
    assert(es >= 1 as real / 0x1_0000_0000_0000_0000_0000 as real && es <= s / 1024 as real) by (nonlinear_arith)
        requires
            es == e * s,
            e == 1 as real / 0x10_0000_0000_0000 as real,
            1 as real <= 100_000_000 as real * s,
    ;
    crate::measure::lemma_tiny_against(es);
    crate::measure::lemma_flat_bound();
    crate::measure::lemma_value_order(d, Double::from_bits(FLAT));
}

/// The interval after the point `k` leaves both its tangents alone where it is gentle, the first being no
/// greater than the mean, but for rounding.
proof fn lemma_gentle_interval(points: Seq<Point>, k: int)
    requires
        plain(points),
        0 <= k,
        k + 1 < points.len(),
        gentle(points, k),
    ensures
        ({
            let before = crate::curve::limited(points, k as nat);
            let after = crate::curve::limited(points, (k + 1) as nat);
            &&& before.len() == points.len()
            &&& after.len() == points.len()
            &&& after[k] == before[k]
            &&& after[k + 1] == crate::curve::mean_slope(points, k + 1)
        }),
{
    let e = crate::measure::epsilon();
    let before = crate::curve::limited(points, k as nat);
    let after = crate::curve::limited(points, (k + 1) as nat);
    let d = crate::curve::chord(points[k], points[k + 1]);
    crate::measure::lemma_small();
    crate::measure::lemma_scale(62, 62);
    crate::measure::lemma_smallest_scaled(1 as real);
    crate::tangents::lemma_limited(points, k as nat);
    crate::tangents::lemma_limited(points, (k + 1) as nat);
    crate::spacing::lemma_limited_within(points, k as nat);
    crate::spacing::lemma_chord_within(points, k);
    crate::spacing::lemma_mean_within(points, k + 1);
    lemma_slope(points, k);
    lemma_mean(points, k);
    lemma_mean(points, k + 1);
    lemma_not_flat(d, slope(points, k));
    assert(before[k + 1] == crate::curve::mean_slope(points, k + 1));
    let x = mean(points, k);
    let y = mean(points, k + 1);
    crate::algebra::lemma_nonnegative_product(e, x);
    crate::algebra::lemma_nonnegative_product(e, y);
    let z = 1 as real / 0x80_0000_0000_0000 as real;
    assert(crate::measure::value(before[k]) <= x + 40 as real * (e * x) + z) by {
        if k == 0 {
            assert(before[0] == crate::curve::mean_slope(points, 0));
        } else {
            let earlier = crate::curve::limited(points, (k - 1) as nat);
            crate::tangents::lemma_limited(points, (k - 1) as nat);
            crate::spacing::lemma_limited_within(points, (k - 1) as nat);
            crate::spacing::lemma_chord_within(points, k - 1);
            crate::spacing::lemma_mean_within(points, k);
            assert(earlier[k] == crate::curve::mean_slope(points, k));
            let c = crate::curve::chord(points[k - 1], points[k]);
            lemma_second(earlier[k - 1], earlier[k], c);
            let m = crate::measure::value(earlier[k]);
            lemma_after_mean(m, x, e);
        }
    }
    lemma_left_alone(before[k], before[k + 1], d, x, y, slope(points, k));
}

/// A tangent that is close to a mean, after one more limiting.
proof fn lemma_after_mean(m: real, x: real, e: real)
    requires
        0 as real <= x,
        0 as real <= m,
        (0 as real) < e <= 1 as real / 1024 as real,
        m <= x + (16 as real * (e * x) + 4 as real * (1 as real / 0x2000_0000_0000_0000 as real)),
    ensures
        m + 16 as real * (e * m) + 1 as real / 0x100_0000_0000_0000 as real <= x + 40 as real * (e * x) + 1 as real
            / 0x80_0000_0000_0000 as real,
{
    let f = e * x;
    let t = 4 as real * (1 as real / 0x2000_0000_0000_0000 as real);
    let g = x + 16 as real * f + t;
    crate::algebra::lemma_nonnegative_product(e, x);
    crate::algebra::lemma_scaled_up(m, g, e);
    assert(e * g == f + 16 as real * (e * f) + e * t) by (nonlinear_arith)
        requires
            g == x + 16 as real * f + t,
            f == e * x,
    ;
    assert(e * f <= f / 1024 as real) by (nonlinear_arith)
        requires
            f >= 0 as real,
            e <= 1 as real / 1024 as real,
    ;
    assert(e * t <= t / 1024 as real) by (nonlinear_arith)
        requires
            t >= 0 as real,
            e <= 1 as real / 1024 as real,
    ;
}

/// At a point whose intervals are gentle the tangent of the curve is the mean of the slopes of the chords
/// beside it, or the only one at an end, but for rounding.
pub proof fn law_tangents_are_means_of_chords(points: Seq<Point>, i: int)
    requires
        plain(points),
        0 <= i < points.len(),
        i > 0 ==> gentle(points, i - 1),
        i + 1 < points.len() ==> gentle(points, i),
    ensures
        crate::curve::tangents(points).len() == points.len(),
        crate::curve::tangents(points)[i].finite(),
        ({
            let t = crate::measure::value(crate::curve::tangents(points)[i]);
            let m = mean(points, i);
            crate::measure::abs(t - m) <= 20 as real * (crate::measure::epsilon() * m)
        }),
{
    let n = points.len();
    let e = crate::measure::epsilon();
    let last = (n - 1) as nat;
    let s = crate::curve::tangents(points);
    crate::tangents::lemma_limited(points, last);
    lemma_mean(points, i);
    crate::measure::lemma_small();
    if i > 0 {
        lemma_gentle_interval(points, i - 1);
    } else {
        crate::tangents::lemma_limited(points, 0);
        assert(crate::curve::limited(points, 0)[0] == crate::curve::mean_slope(points, 0));
    }
    let here = crate::curve::limited(points, i as nat);
    assert(here[i] == crate::curve::mean_slope(points, i));
    if i + 1 < n {
        lemma_gentle_interval(points, i);
        crate::tangents::lemma_limited_stays(points, (i + 1) as nat, last, i);
    }
    assert(s[i] == crate::curve::mean_slope(points, i));
    // the mean is half a chord that is not flat at least
    let m = mean(points, i);
    assert(m >= 1 as real / 200_000_000 as real) by {
        if i == 0 {
        } else if i == n - 1 {
        } else {
            lemma_slope(points, i);
        }
    }
    let em = e * m;
    assert(em >= 1 as real / 0x1_0000_0000_0000_0000_0000 as real) by (nonlinear_arith)
        requires
            em == e * m,
            e == 1 as real / 0x10_0000_0000_0000 as real,
            m >= 1 as real / 200_000_000 as real,
    ;
    crate::measure::lemma_tiny_against(em);
}

} // verus!
