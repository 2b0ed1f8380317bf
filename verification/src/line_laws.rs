//! Between its points the curve is the Hermite cubic, and points on a straight line give the line.

use vstd::prelude::*;
use crate::curve::Point;
use crate::curve::LOWEST_LEVEL;
use crate::double::Double;
use crate::double::{ONE, ZERO};

verus! {

/// The Hermite cubic from `y0` to `y1` at the part `t` of the way, `a` and `b` being the tangents times the
/// width.
pub open spec fn hermite_cubic(y0: real, y1: real, a: real, b: real, t: real) -> real {
    let t2 = t * t;
    let t3 = t * t * t;
    y0 * (1 as real - 3 as real * t2 + 2 as real * t3) + y1 * (3 as real * t2 - 2 as real * t3) + a * (t3 - 2 as real
        * t2 + t) + b * (t3 - t2)
}

/// Within an interval the level of a smooth curve is that of the Hermite cubic through its ends with their
/// tangents, held to the range of the curve; but for rounding.
pub proof fn law_curve_is_a_hermite_cubic(points: Seq<Point>, k: int, x: Double)
    requires
        crate::monotone::smooth(points),
        0 <= k,
        k + 1 < points.len(),
        points[k].x.less(x),
        x.less(points[k + 1].x),
    ensures
        ({
            let s = crate::curve::tangents(points);
            let h = points[k + 1].x.minus(points[k].x);
            let w = crate::measure::value(h);
            let t = crate::measure::value(x.minus(points[k].x).over(h));
            let exact = hermite_cubic(
                crate::measure::value(points[k].y),
                crate::measure::value(points[k + 1].y),
                w * crate::measure::value(s[k]),
                w * crate::measure::value(s[k + 1]),
                t,
            );
            &&& 0 as real <= t <= 1 as real
            &&& crate::measure::abs(
                crate::measure::value(crate::curve::level(points, s, x)) - crate::lesson_laws::held_real(exact),
            ) <= 1024 as real * crate::measure::epsilon()
        }),
{
    let s = crate::curve::tangents(points);
    let p = points[k];
    let q = points[k + 1];
    let e = crate::measure::epsilon();
    assert(points[0].x.at_most(points[k].x));
    crate::measure::lemma_constants();
    crate::measure::lemma_small();
    crate::monotone::lemma_cubic(points, k);
    crate::monotone::lemma_part(p, q, x, x);
    crate::between::lemma_hermite(p, q, s[k], s[k + 1], x, 160 as real * e);
    crate::monotone::lemma_level_between(points, k, x);
    let f = crate::curve::hermite(p, q, s[k], s[k + 1], x);
    crate::monotone::lemma_held(f);
    let h = q.x.minus(p.x);
    let w = crate::measure::value(h);
    let t = crate::measure::value(x.minus(p.x).over(h));
    let y0 = crate::measure::value(p.y);
    let y1 = crate::measure::value(q.y);
    let a = w * crate::measure::value(s[k]);
    let b = w * crate::measure::value(s[k + 1]);
    lemma_forms(y0, y1, a, b, t);
}

/// Two ways to write the cubic.
proof fn lemma_forms(y0: real, y1: real, a: real, b: real, t: real)
    ensures
        hermite_cubic(y0, y1, a, b, t) == y0 + crate::cubic::rise(t, y1 - y0, a, b),
{
    let c = 3 as real * (t * t) - 2 as real * (t * t * t);
    crate::algebra::lemma_distribute(1 as real, c, y0);
    crate::algebra::lemma_swap(y0, 1 as real - c);
    crate::algebra::lemma_swap(y0, c);
    crate::algebra::lemma_distribute(y1, y0, c);
    assert(1 as real - 3 as real * (t * t) + 2 as real * (t * t * t) == 1 as real - c);
}

// ---------------------------------------------------------------------------
// Straight lines
// ---------------------------------------------------------------------------

/// The points lie on the line with the height `c` at no light and the slope `m`, but for `u` times the least
/// distance `g` of two of them in light.
pub open spec fn on_a_line(points: Seq<Point>, c: real, m: real, u: real, g: real) -> bool {
    &&& (0 as real) < g
    &&& 0 as real <= u
    &&& 64 as real * u <= m
    &&& 1 as real <= 50_000_000 as real * m
    &&& forall|i: int|
        0 <= i < points.len() ==> crate::measure::abs(
            crate::measure::value((#[trigger] points[i]).y) - (c + m * crate::measure::value(points[i].x)),
        ) <= u * g
    &&& forall|i: int, j: int|
        #![trigger points[i], points[j]]
        0 <= i && i + 1 == j && j < points.len() ==> g <= crate::measure::value(points[j].x) - crate::measure::value(
            points[i].x,
        )
}

/// The chords of points on a line have its slope.
proof fn lemma_line_slope(points: Seq<Point>, c: real, m: real, u: real, g: real, k: int)
    requires
        crate::spline_laws::plain(points),
        on_a_line(points, c, m, u, g),
        0 <= k,
        k + 1 < points.len(),
    ensures
        m - 2 as real * u <= crate::spline_laws::slope(points, k) <= m + 2 as real * u,
        crate::spline_laws::gap(points, k) >= g,
        crate::measure::abs(crate::spline_laws::rise(points, k) - m * crate::spline_laws::gap(points, k)) <= 2 as real * (u
            * g),
{
    let p = points[k];
    let q = points[k + 1];
    let w = crate::spline_laws::gap(points, k);
    let r = crate::spline_laws::rise(points, k);
    let xp = crate::measure::value(p.x);
    let xq = crate::measure::value(q.x);
    assert(g <= crate::measure::value(points[k + 1].x) - crate::measure::value(points[k].x));
    assert(m * w == m * xq - m * xp) by (nonlinear_arith)
        requires
            w == xq - xp,
    ;
    let s = r / w;
    assert(s * w == r) by (nonlinear_arith)
        requires
            w > 0 as real,
            s == r / w,
    ;
    assert(u * g <= u * w) by {
        crate::algebra::lemma_scaled_up(g, w, u);
    }
    let hi = m + 2 as real * u;
    let lo = m - 2 as real * u;
    assert(hi * w == m * w + 2 as real * (u * w)) by (nonlinear_arith)
        requires
            hi == m + 2 as real * u,
    ;
    assert(lo * w == m * w - 2 as real * (u * w)) by (nonlinear_arith)
        requires
            lo == m - 2 as real * u,
    ;
    assert(s <= hi && lo <= s) by (nonlinear_arith)
        requires
            s * w <= hi * w,
            lo * w <= s * w,
            w > 0 as real,
    ;
}

proof fn lemma_line_mean(points: Seq<Point>, c: real, m: real, u: real, g: real, i: int)
    requires
        crate::spline_laws::plain(points),
        on_a_line(points, c, m, u, g),
        0 <= i < points.len(),
    ensures
        m - 2 as real * u <= crate::spline_laws::mean(points, i) <= m + 2 as real * u,
{
    let n = points.len();
    if i == 0 {
        lemma_line_slope(points, c, m, u, g, 0);
    } else if i == n - 1 {
        lemma_line_slope(points, c, m, u, g, n - 2);
    } else {
        lemma_line_slope(points, c, m, u, g, i - 1);
        lemma_line_slope(points, c, m, u, g, i);
    }
}

proof fn lemma_line_gentle(points: Seq<Point>, c: real, m: real, u: real, g: real, k: int)
    requires
        crate::spline_laws::plain(points),
        on_a_line(points, c, m, u, g),
        0 <= k,
        k + 1 < points.len(),
    ensures
        crate::spline_laws::gentle(points, k),
{
    lemma_line_slope(points, c, m, u, g, k);
    lemma_line_mean(points, c, m, u, g, k);
    lemma_line_mean(points, c, m, u, g, k + 1);
    let d = crate::spline_laws::slope(points, k);
    let a = crate::spline_laws::mean(points, k);
    let b = crate::spline_laws::mean(points, k + 1);
    let hi = 33 as real * m / 32 as real;
    let lo = 31 as real * m / 32 as real;
    crate::algebra::lemma_product_bound(a, a, hi, hi);
    crate::algebra::lemma_product_bound(b, b, hi, hi);
    crate::algebra::lemma_product_bound(lo, lo, d, d);
    let mm = m * m;
    assert(hi * hi == 1089 as real * mm / 1024 as real) by (nonlinear_arith)
        requires
            hi == 33 as real * m / 32 as real,
            mm == m * m,
    ;
    assert(lo * lo == 961 as real * mm / 1024 as real) by (nonlinear_arith)
        requires
            lo == 31 as real * m / 32 as real,
            mm == m * m,
    ;
    crate::algebra::lemma_square(m);
    let nine = 9 as real - 1 as real / 1_000_000 as real;
    crate::algebra::lemma_scaled_up(lo * lo, d * d, nine);
    let ll = lo * lo;
    assert(nine * ll >= 8 as real * ll) by (nonlinear_arith)
        requires
            nine >= 8 as real,
            ll >= 0 as real,
    ;
}

/// A tangent over the width of an interval of points on a line is what the line rises there.
proof fn lemma_line_tangent(points: Seq<Point>, c: real, m: real, u: real, g: real, k: int, i: int)
    requires
        crate::spline_laws::plain(points),
        on_a_line(points, c, m, u, g),
        0 <= k,
        k + 1 < points.len(),
        i == k || i == k + 1,
    ensures
        ({
            let w = crate::measure::value(points[k + 1].x.minus(points[k].x));
            let rise = m * crate::spline_laws::gap(points, k);
            let a = w * crate::measure::value(crate::curve::tangents(points)[i]);
            crate::measure::abs(a - rise) <= 2 as real * u + 100 as real * crate::measure::epsilon()
        }),
        0 as real <= m * crate::spline_laws::gap(points, k) <= 2 as real,
{
    let e = crate::measure::epsilon();
    let p = points[k];
    let q = points[k + 1];
    let zero = Double::from_bits(ZERO);
    let one = Double::from_bits(ONE);
    if i > 0 {
        lemma_line_gentle(points, c, m, u, g, i - 1);
    }
    if i + 1 < points.len() {
        lemma_line_gentle(points, c, m, u, g, i);
    }
    crate::spline_laws::law_tangents_are_means_of_chords(points, i);
    lemma_line_mean(points, c, m, u, g, i);
    lemma_line_slope(points, c, m, u, g, k);
    crate::measure::lemma_constants();
    crate::measure::lemma_small();
    assert(points[k].x.less(points[k + 1].x));
    crate::tangents::lemma_neighbours(points, k);
    crate::tangents::lemma_width(p, q);
    let ys = crate::curve::levels(points);
    assert(crate::lesson_laws::proper_level(ys[k]) && crate::lesson_laws::proper_level(ys[k + 1]));
    crate::lesson_laws::lemma_proper(p.y);
    crate::lesson_laws::lemma_proper(q.y);
    crate::measure::lemma_value_order(zero, p.x);
    crate::measure::lemma_value_order(q.x, one);
    crate::measure::lemma_minus(q.x, p.x);
    let v = crate::spline_laws::gap(points, k);
    let w = crate::measure::value(q.x.minus(p.x));
    let t = crate::measure::value(crate::curve::tangents(points)[i]);
    let mu = crate::spline_laws::mean(points, i);
    let s = crate::spline_laws::rise(points, k);
    let mv = m * v;
    // what the line rises in the interval
    assert(0 as real <= mv <= 2 as real) by {
        crate::algebra::lemma_nonnegative_product(m, v);
        crate::algebra::lemma_scaled_up(g, v, u);
        crate::algebra::lemma_scaled_up(64 as real * u, m, v);
        crate::algebra::lemma_swap(m, v);
        assert(v * (64 as real * u) == 64 as real * (u * v)) by (nonlinear_arith);
    }
    let muv = mu * v;
    let f = mu - m;
    crate::algebra::lemma_distribute(mu, m, v);
    assert(crate::measure::abs(muv - mv) <= 2 as real * u) by {
        crate::algebra::lemma_scaled(f, v, 2 as real * u);
        crate::algebra::lemma_scaled_up(v, 1 as real, 2 as real * u);
    }
    assert(0 as real <= muv <= 3 as real) by {
        crate::algebra::lemma_scaled(f, v, m / 32 as real);
        assert((m / 32 as real) * v == mv / 32 as real) by (nonlinear_arith)
            requires
                mv == m * v,
        ;
    }
    lemma_width_tangent(w, v, t, mu, e);
}

/// The errors of a width and a tangent together.
proof fn lemma_width_tangent(w: real, v: real, t: real, mu: real, e: real)
    requires
        (0 as real) < e <= 1 as real / 1024 as real,
        v > 0 as real,
        crate::measure::abs(w - v) <= e * crate::measure::abs(v),
        crate::measure::abs(t - mu) <= 20 as real * (e * mu),
        mu >= 0 as real,
        0 as real <= mu * v <= 3 as real,
    ensures
        crate::measure::abs(w * t - mu * v) <= 100 as real * e,
{
    let x = mu * v;
    let f = w - v;
    let h = t - mu;
    let a = f * mu;
    let b = v * h;
    let c = f * h;
    assert(w * t - x == a + b + c) by (nonlinear_arith)
        requires
            x == mu * v,
            f == w - v,
            h == t - mu,
            a == f * mu,
            b == v * h,
            c == f * h,
    ;
    let ex = e * x;
    assert(0 as real - ex <= a <= ex) by (nonlinear_arith)
        requires
            0 as real - e * v <= f <= e * v,
            mu >= 0 as real,
            a == f * mu,
            ex == e * (mu * v),
    ;
    assert(0 as real - 20 as real * ex <= b <= 20 as real * ex) by (nonlinear_arith)
        requires
            0 as real - 20 as real * (e * mu) <= h <= 20 as real * (e * mu),
            v > 0 as real,
            b == v * h,
            ex == e * (mu * v),
    ;
    let em = e * mu;
    assert(0 as real - 20 as real * (e * ex) <= c <= 20 as real * (e * ex)) by (nonlinear_arith)
        requires
            0 as real - e * v <= f <= e * v,
            0 as real - 20 as real * em <= h <= 20 as real * em,
            e > 0 as real,
            v > 0 as real,
            em == e * mu,
            mu >= 0 as real,
            c == f * h,
            ex == e * (mu * v),
    {
        let ev = e * v;
        assert(f * h <= ev * (20 as real * em));
        assert(f * h >= 0 as real - ev * (20 as real * em));
        assert(ev * (20 as real * em) == 20 as real * (e * ex));
    }
    crate::algebra::lemma_scaled_up(x, 3 as real, e);
    crate::algebra::lemma_nonnegative_product(e, x);
    assert(e * ex <= ex / 1024 as real) by (nonlinear_arith)
        requires
            ex >= 0 as real,
            e <= 1 as real / 1024 as real,
    ;
}

/// A cubic whose rise and tangents over the width are all near `r` rises evenly.
proof fn lemma_even_rise(t: real, r: real, d: real, a: real, b: real, f: real, h: real)
    requires
        0 as real <= t <= 1 as real,
        crate::measure::abs(d - r) <= f,
        crate::measure::abs(a - r) <= h,
        crate::measure::abs(b - r) <= h,
    ensures
        crate::measure::abs(crate::cubic::rise(t, d, a, b) - r * t) <= f + 2 as real * h,
{
    crate::cubic::lemma_basis_bounds(t);
    let p = crate::cubic::exact_h01(t);
    let q = crate::cubic::exact_h10(t);
    let s = crate::cubic::exact_h11(t);
    crate::algebra::lemma_distribute(d, r, p);
    crate::algebra::lemma_distribute(a, r, q);
    crate::algebra::lemma_distribute(b, r, s);
    crate::algebra::lemma_scaled(d - r, p, f);
    crate::algebra::lemma_scaled(a - r, q, h);
    let n = 0 as real - s;
    crate::algebra::lemma_scaled(b - r, n, h);
    crate::algebra::lemma_scaled_up(p, 1 as real, f);
    crate::algebra::lemma_scaled_up(q, 1 as real, h);
    crate::algebra::lemma_scaled_up(n, 1 as real, h);
    assert((b - r) * n == 0 as real - (b - r) * s) by (nonlinear_arith)
        requires
            n == 0 as real - s,
    ;
    assert(r * p + r * q + r * s == r * t) by (nonlinear_arith)
        requires
            p + q + s == t,
    ;
}

/// The part of the way, over the width of the interval, is the way.
proof fn lemma_way(p: Point, q: Point, x: Double)
    requires
        crate::tangents::neighbours(p, q),
        p.x.less(x),
        x.less(q.x),
    ensures
        ({
            let v = crate::measure::value(q.x) - crate::measure::value(p.x);
            let d = crate::measure::value(x) - crate::measure::value(p.x);
            let t = crate::measure::value(x.minus(p.x).over(q.x.minus(p.x)));
            &&& (0 as real) < d < v
            &&& crate::measure::abs(t * v - d) <= 8 as real * (crate::measure::epsilon() * v)
        }),
{
    let e = crate::measure::epsilon();
    let h = q.x.minus(p.x);
    let g = x.minus(p.x);
    crate::measure::lemma_constants();
    crate::measure::lemma_small();
    crate::monotone::lemma_part(p, q, x, x);
    crate::tangents::lemma_width(p, q);
    crate::measure::lemma_value_order(p.x, x);
    crate::measure::lemma_value_order(x, q.x);
    crate::measure::lemma_value_order(Double::from_bits(ZERO), p.x);
    crate::measure::lemma_value_order(q.x, Double::from_bits(ONE));
    crate::measure::lemma_minus(q.x, p.x);
    crate::measure::lemma_minus(x, p.x);
    let v = crate::measure::value(q.x) - crate::measure::value(p.x);
    let d = crate::measure::value(x) - crate::measure::value(p.x);
    let w = crate::measure::value(h);
    let r = crate::measure::value(g);
    let t = crate::measure::value(g.over(h));
    let ev = e * v;
    let ed = e * d;
    assert(ed <= ev) by {
        crate::algebra::lemma_scaled_up(d, v, e);
    }
    crate::algebra::lemma_nonnegative_product(e, d);
    crate::algebra::lemma_nonnegative_product(e, v);
    let z = r / w;
    assert(z * w == r) by (nonlinear_arith)
        requires
            z == r / w,
            w > 0 as real,
    ;
    assert(ev <= v / 1024 as real) by (nonlinear_arith)
        requires
            ev == e * v,
            v > 0 as real,
            e <= 1 as real / 1024 as real,
    ;
    assert(0 as real <= z <= 2 as real) by (nonlinear_arith)
        requires
            z * w == r,
            0 as real <= r <= 2 as real * w,
            w > 0 as real,
    ;
    crate::measure::lemma_over(g, h);
    crate::algebra::lemma_scaled_up(z, 2 as real, e);
    let f = t - z;
    crate::algebra::lemma_scaled(f, v, 3 as real * e);
    crate::algebra::lemma_scaled(w - v, z, ev);
    crate::algebra::lemma_scaled_up(z, 2 as real, ev);
    assert(t * v - d == f * v - (w - v) * z + (r - d)) by (nonlinear_arith)
        requires
            f == t - z,
            z * w == r,
    ;
    assert(3 as real * e * v == 3 as real * ev) by (nonlinear_arith)
        requires
            ev == e * v,
    ;
}

/// Between its ends, a curve through points on a straight line is the line. It is off it by ten times as much as
/// the points are, in their least distance, and by rounding.
pub proof fn law_points_on_a_line_give_the_line(
    points: Seq<Point>,
    c: real,
    m: real,
    u: real,
    g: real,
    k: int,
    x: Double,
)
    requires
        crate::spline_laws::plain(points),
        on_a_line(points, c, m, u, g),
        0 <= k,
        k + 1 < points.len(),
        points[k].x.less(x),
        x.less(points[k + 1].x),
    ensures
        crate::measure::abs(
            crate::measure::value(crate::curve::level(points, crate::curve::tangents(points), x)) - (c + m
                * crate::measure::value(x)),
        ) <= 10 as real * u + 4096 as real * crate::measure::epsilon(),
{
    let e = crate::measure::epsilon();
    let s = crate::curve::tangents(points);
    let p = points[k];
    let q = points[k + 1];
    let zero = Double::from_bits(ZERO);
    let one = Double::from_bits(ONE);
    let ys = crate::curve::levels(points);
    crate::measure::lemma_constants();
    crate::measure::lemma_small();
    crate::spacing::law_spaced_points_are_smooth(points);
    law_curve_is_a_hermite_cubic(points, k, x);
    lemma_line_tangent(points, c, m, u, g, k, k);
    lemma_line_tangent(points, c, m, u, g, k, k + 1);
    lemma_line_slope(points, c, m, u, g, k);
    assert(crate::lesson_laws::proper_level(ys[k]) && crate::lesson_laws::proper_level(ys[k + 1]));
    crate::lesson_laws::lemma_proper(p.y);
    crate::lesson_laws::lemma_proper(q.y);
    crate::tangents::lemma_neighbours(points, k);
    crate::tangents::lemma_width(p, q);
    crate::measure::lemma_value_order(zero, p.x);
    crate::measure::lemma_value_order(p.x, x);
    crate::measure::lemma_value_order(x, q.x);
    crate::measure::lemma_value_order(q.x, one);
    let h = q.x.minus(p.x);
    let w = crate::measure::value(h);
    let t = crate::measure::value(x.minus(p.x).over(h));
    let v = crate::spline_laws::gap(points, k);
    let d = crate::measure::value(x) - crate::measure::value(p.x);
    lemma_way(p, q, x);
    let y0 = crate::measure::value(p.y);
    let y1 = crate::measure::value(q.y);
    let a = w * crate::measure::value(s[k]);
    let b = w * crate::measure::value(s[k + 1]);
    let mv = m * v;
    let exact = hermite_cubic(y0, y1, a, b, t);
    lemma_forms(y0, y1, a, b, t);
    let ug = u * g;
    assert(0 as real <= ug <= u) by {
        crate::algebra::lemma_nonnegative_product(u, g);
        crate::algebra::lemma_scaled_up(g, 1 as real, u);
    }
    lemma_even_rise(t, mv, y1 - y0, a, b, 2 as real * ug, 2 as real * u + 100 as real * e);
    // the even rise is that of the line
    let md = m * d;
    assert(crate::measure::abs(mv * t - md) <= 16 as real * e) by {
        let f = t * v - d;
        let c8 = 8 as real * (e * v);
        crate::algebra::lemma_scaled(f, m, c8);
        assert(f * m == mv * t - md) by (nonlinear_arith)
            requires
                f == t * v - d,
                mv == m * v,
                md == m * d,
        ;
        assert(c8 * m == 8 as real * (e * mv)) by (nonlinear_arith)
            requires
                c8 == 8 as real * (e * v),
                mv == m * v,
        ;
        crate::algebra::lemma_scaled_up(mv, 2 as real, e);
    }
    let px = crate::measure::value(p.x);
    let line = c + m * crate::measure::value(x);
    assert(line == c + m * px + md) by (nonlinear_arith)
        requires
            line == c + m * crate::measure::value(x),
            d == crate::measure::value(x) - px,
            md == m * d,
    ;
    assert(0 as real <= md <= mv) by {
        crate::algebra::lemma_nonnegative_product(m, d);
        crate::algebra::lemma_scaled_up(d, v, m);
    }
    assert(mv == m * crate::measure::value(q.x) - m * px) by (nonlinear_arith)
        requires
            mv == m * v,
            v == crate::measure::value(q.x) - px,
    ;
    assert(crate::measure::abs(exact - line) <= 7 as real * u + 216 as real * e);
    let low = crate::measure::value(Double::from_bits(LOWEST_LEVEL));
    assert(low - u <= line <= 1 as real + u);
    assert(crate::measure::abs(crate::lesson_laws::held_real(exact) - line) <= 8 as real * u + 216 as real * e);
}

} // verus!
