//! Tangents that are too steep for a monotone cubic are brought onto the circle of three chords, in their
//! proportion.

use vstd::prelude::*;
use crate::curve::{FLAT, NINE};
use crate::double::Double;
use crate::double::{THREE, ZERO};

verus! {

/// Tangents and a chord of moderate size: none is negative, the chord is not flat, and the tangents are no more
/// than `2^20` chords.
pub open spec fn moderate(a: Double, b: Double, d: Double) -> bool {
    &&& a.finite()
    &&& b.finite()
    &&& d.finite()
    &&& 0 as real <= crate::measure::value(a) <= 0x10_0000 as real * crate::measure::value(d)
    &&& 0 as real <= crate::measure::value(b) <= 0x10_0000 as real * crate::measure::value(d)
    &&& 1 as real <= 100_000_000 as real * crate::measure::value(d)
    &&& crate::measure::value(d) <= 0x1_0000_0000 as real
}

/// A tangent in chords.
proof fn lemma_in_chords(a: Double, d: Double)
    requires
        a.finite(),
        d.finite(),
        0 as real <= crate::measure::value(a) <= 0x10_0000 as real * crate::measure::value(d),
        1 as real <= 100_000_000 as real * crate::measure::value(d),
    ensures
        ({
            let x = crate::measure::value(a) / crate::measure::value(d);
            let v = crate::measure::value(a.over(d));
            &&& a.over(d).finite()
            &&& 0 as real <= x <= 0x10_0000 as real
            &&& 0 as real <= v <= 0x20_0000 as real
            &&& crate::measure::abs(v - x) <= crate::measure::epsilon() * x + crate::measure::smallest()
            &&& crate::measure::abs(v - x) <= crate::measure::epsilon() * x + crate::measure::epsilon() / 1024 as real
        }),
{
    let zero = Double::from_bits(ZERO);
    let e = crate::measure::epsilon();
    let y = crate::measure::value(a);
    let z = crate::measure::value(d);
    let x = y / z;
    crate::measure::lemma_constants();
    crate::measure::lemma_small();
    crate::measure::lemma_positive(d);
    crate::limits::lemma_quotient(y, z);
    assert(x <= 0x10_0000 as real) by (nonlinear_arith)
        requires
            x * z == y,
            y <= 0x10_0000 as real * z,
            z > 0 as real,
    ;
    crate::measure::lemma_over(a, d);
    assert(0 as real * z == 0 as real);
    crate::measure::lemma_over_at_least(a, d, zero);
    crate::measure::lemma_value_order(zero, a.over(d));
    crate::measure::lemma_tiny_against(crate::measure::epsilon() / 1024 as real);
    crate::algebra::lemma_scaled_up(x, 0x10_0000 as real, e);
}

/// A rounded square.
proof fn lemma_square_of(a: Double)
    requires
        a.finite(),
        0 as real <= crate::measure::value(a) <= 0x20_0000 as real,
    ensures
        ({
            let v = crate::measure::value(a);
            let s = crate::measure::value(a.times(a));
            &&& a.times(a).finite()
            &&& 0 as real <= v * v <= 0x400_0000_0000 as real
            &&& crate::measure::abs(s - v * v) <= crate::measure::epsilon() * (v * v) + crate::measure::epsilon() / 1024 as real
        }),
{
    let v = crate::measure::value(a);
    crate::measure::lemma_small();
    crate::algebra::lemma_product_bound(v, v, 0x20_0000 as real, 0x20_0000 as real);
    crate::measure::lemma_times(a, a);
    crate::measure::lemma_tiny_against(crate::measure::epsilon() / 1024 as real);
}

/// The square of a number that is off by the part `e` and a little more.
proof fn lemma_square_error(v: real, x: real, e: real)
    requires
        (0 as real) < e <= 1 as real / 0x10_0000_0000_0000 as real,
        0 as real <= x <= 0x10_0000 as real,
        0 as real <= v,
        crate::measure::abs(v - x) <= e * x + e / 1024 as real,
    ensures
        crate::measure::abs(v * v - x * x) <= 3 as real * (e * (x * x)) + 1 as real / 0x1000_0000 as real,
{
    let f = v - x;
    let xx = x * x;
    let ex = e * x;
    let b = ex + e / 1024 as real;
    crate::algebra::lemma_nonnegative_product(e, x);
    crate::algebra::lemma_scaled_up(x, 0x10_0000 as real, e);
    assert(v * v - xx == 2 as real * (f * x) + f * f) by (nonlinear_arith)
        requires
            f == v - x,
            xx == x * x,
    ;
    crate::algebra::lemma_scaled(f, x, b);
    assert(b * x == e * xx + (e / 1024 as real) * x) by (nonlinear_arith)
        requires
            b == ex + e / 1024 as real,
            ex == e * x,
            xx == x * x,
    ;
    crate::algebra::lemma_scaled_up(x, 0x10_0000 as real, e / 1024 as real);
    assert(f * f <= b * b && f * f >= 0 as real) by (nonlinear_arith)
        requires
            0 as real - b <= f <= b,
    ;
    assert(b <= 1 as real / 0x10_0000 as real);
    assert(b * b <= 1 as real / 0x1_0000_0000 as real) by (nonlinear_arith)
        requires
            0 as real <= b <= 1 as real / 0x10_0000 as real,
    ;
    crate::algebra::lemma_square(x);
    crate::algebra::lemma_nonnegative_product(e, xx);
}

/// The tangents `a` and `b` are too steep for the chord `d`: they lie, in chords, outside the circle of radius three.
pub open spec fn steep(a: Double, b: Double, d: Double) -> bool {
    let x = crate::measure::value(a);
    let y = crate::measure::value(b);
    let z = crate::measure::value(d);
    x * x + y * y >= (9 as real + 1 as real / 1_000_000 as real) * (z * z)
}

/// The squares of tangents in chords, and what the distance is computed as.
proof fn lemma_distance(a: Double, b: Double, d: Double)
    requires
        moderate(a, b, d),
        steep(a, b, d),
    ensures
        ({
            let alpha = a.over(d);
            let beta = b.over(d);
            let dist = alpha.times(alpha).plus(beta.times(beta));
            let x = crate::measure::value(alpha);
            let y = crate::measure::value(beta);
            let s = x * x + y * y;
            &&& dist.finite()
            &&& !dist.negative()
            &&& crate::measure::value(dist) > 9 as real
            &&& s >= 9 as real
            &&& crate::measure::abs(crate::measure::value(dist) - s) <= 4 as real * (crate::measure::epsilon() * s)
        }),
{
    let e = crate::measure::epsilon();
    let alpha = a.over(d);
    let beta = b.over(d);
    crate::measure::lemma_small();
    crate::measure::lemma_constants();
    lemma_in_chords(a, d);
    lemma_in_chords(b, d);
    lemma_square_of(alpha);
    lemma_square_of(beta);
    let z = crate::measure::value(d);
    let p = crate::measure::value(a);
    let q = crate::measure::value(b);
    let xx = p / z;
    let yy = q / z;
    let x = crate::measure::value(alpha);
    let y = crate::measure::value(beta);
    let s = x * x + y * y;
    crate::limits::lemma_quotient(p, z);
    crate::limits::lemma_quotient(q, z);
    let exact = xx * xx + yy * yy;
    let zz = z * z;
    let least = 9 as real + 1 as real / 1_000_000 as real;
    assert(exact * zz == p * p + q * q) by (nonlinear_arith)
        requires
            xx * z == p,
            yy * z == q,
            exact == xx * xx + yy * yy,
            zz == z * z,
    {
        assert((xx * xx) * zz == (xx * z) * (xx * z));
        assert((yy * yy) * zz == (yy * z) * (yy * z));
    }
    assert(exact >= least) by (nonlinear_arith)
        requires
            exact * zz >= least * zz,
            zz == z * z,
            z > 0 as real,
    {
        assert(zz > 0 as real);
    }
    lemma_square_error(x, xx, e);
    lemma_square_error(y, yy, e);
    crate::algebra::lemma_square(xx);
    crate::algebra::lemma_square(yy);
    crate::algebra::lemma_sum(xx * xx, yy * yy, e);
    crate::algebra::lemma_swap(e, xx * xx);
    crate::algebra::lemma_swap(e, yy * yy);
    crate::algebra::lemma_swap(e, exact);
    assert(3 as real * (e * exact) <= exact / 100_000_000 as real) by (nonlinear_arith)
        requires
            exact >= 0 as real,
            e <= 1 as real / 0x10_0000_0000_0000 as real,
    ;
    assert(s >= 9 as real + 1 as real / 2_000_000 as real);
    let m = alpha.times(alpha);
    let n = beta.times(beta);
    let mv = crate::measure::value(m);
    let nv = crate::measure::value(n);
    crate::measure::lemma_plus(m, n);
    crate::algebra::lemma_sum(x * x, y * y, e);
    crate::algebra::lemma_swap(e, x * x);
    crate::algebra::lemma_swap(e, y * y);
    crate::algebra::lemma_swap(e, s);
    let es = e * s;
    assert(es >= 9 as real * e) by {
        crate::algebra::lemma_scaled_up(9 as real, s, e);
    }
    let t = mv + nv;
    assert(crate::measure::abs(t - s) <= es + e / 512 as real);
    assert(es <= s / 1024 as real) by (nonlinear_arith)
        requires
            es == e * s,
            s >= 0 as real,
            e <= 1 as real / 1024 as real,
    ;
    crate::algebra::lemma_scaled_up(crate::measure::abs(t), 2 as real * s, e);
    let dist = m.plus(n);
    let u = crate::measure::abs(t);
    assert(u <= s + es + e / 512 as real);
    crate::algebra::lemma_scaled_up(u, s + es + e / 512 as real, e);
    assert(e * (s + es + e / 512 as real) <= es + es / 4 as real) by (nonlinear_arith)
        requires
            es == e * s,
            s >= 9 as real,
            (0 as real) < e <= 1 as real / 1024 as real,
    {
        assert(e * (s + es + e / 512 as real) == es + e * es + e * (e / 512 as real));
        assert(e * es <= es / 1024 as real);
        assert(e * (e / 512 as real) <= e / 1024 as real);
        assert(e <= es);
    }
    assert(crate::measure::abs(crate::measure::value(dist) - s) <= 4 as real * es);
    assert(4 as real * es <= s / 10_000_000 as real) by (nonlinear_arith)
        requires
            es == e * s,
            s >= 0 as real,
            e <= 1 as real / 0x10_0000_0000_0000 as real,
    ;
    crate::measure::lemma_positive(dist);
}

/// A factor and a coordinate and a chord, multiplied and rounded twice.
proof fn lemma_brought_in(tau: Double, alpha: Double, d: Double)
    requires
        tau.finite(),
        alpha.finite(),
        d.finite(),
        0 as real <= crate::measure::value(tau) <= 4 as real,
        0 as real <= crate::measure::value(alpha) <= 0x20_0000 as real,
        crate::measure::value(tau) * crate::measure::value(alpha) <= 4 as real,
        1 as real <= 100_000_000 as real * crate::measure::value(d),
        crate::measure::value(d) <= 0x1_0000_0000 as real,
    ensures
        ({
            let z = crate::measure::value(d);
            let p = crate::measure::value(tau.times(alpha).times(d));
            let x = crate::measure::value(tau) * crate::measure::value(alpha);
            &&& tau.times(alpha).times(d).finite()
            &&& crate::measure::abs(p - x * z) <= 16 as real * (crate::measure::epsilon() * z)
        }),
{
    let e = crate::measure::epsilon();
    let t = crate::measure::value(tau);
    let v = crate::measure::value(alpha);
    let z = crate::measure::value(d);
    crate::measure::lemma_small();
    crate::algebra::lemma_nonnegative_product(t, v);
    let x = t * v;
    crate::measure::lemma_times(tau, alpha);
    crate::measure::lemma_part_of_error(e, x, 4 as real);
    let m = tau.times(alpha);
    let y = crate::measure::value(m);
    assert(crate::measure::abs(y - x) <= 5 as real * e);
    let f = y - x;
    crate::algebra::lemma_scaled(f, z, 5 as real * e);
    crate::algebra::lemma_distribute(y, x, z);
    assert(0 as real - 1 as real <= y <= 5 as real);
    let yz = y * z;
    assert(crate::measure::abs(yz) <= 5 as real * z) by (nonlinear_arith)
        requires
            0 as real - 1 as real <= y <= 5 as real,
            z > 0 as real,
            yz == y * z,
            crate::measure::abs(yz) == (if yz < 0 as real { 0 as real - yz } else { yz }),
    ;
    crate::measure::lemma_times(m, d);
    crate::measure::lemma_part_of_error(e, yz, 5 as real * z);
    let ez = e * z;
    assert(5 as real * e * z == 5 as real * ez && e * (5 as real * z) == 5 as real * ez) by (nonlinear_arith)
        requires
            ez == e * z,
    ;
    assert(ez >= 1 as real / 0x1_0000_0000_0000_0000_0000 as real) by (nonlinear_arith)
        requires
            ez == e * z,
            e == 1 as real / 0x10_0000_0000_0000 as real,
            1 as real <= 100_000_000 as real * z,
    ;
    crate::measure::lemma_tiny_against(ez);
}

/// The factor that brings tangents onto the circle: with the sum of their squares it gives nine.
proof fn lemma_factor(tau: real, g: real, r: real, dist: real, s: real, e: real)
    requires
        (0 as real) < e <= 1 as real / 0x10_0000_0000_0000 as real,
        s >= 9 as real,
        crate::measure::abs(dist - s) <= 4 as real * (e * s),
        r >= 1 as real,
        r * r * (1 as real - e) <= dist,
        dist <= r * r * (1 as real + 2 as real * e),
        g * r == 3 as real,
        g >= 0 as real,
        tau >= 0 as real,
        crate::measure::abs(tau - g) <= 2 as real * (e * g),
    ensures
        crate::measure::abs(tau * tau * s - 9 as real) <= 200 as real * e,
{
    let rr = r * r;
    let gg = g * g;
    assert(gg * rr == 9 as real) by (nonlinear_arith)
        requires
            g * r == 3 as real,
            gg == g * g,
            rr == r * r,
    {
        assert(gg * rr == (g * r) * (g * r));
    }
    assert(rr >= 1 as real) by (nonlinear_arith)
        requires
            r >= 1 as real,
            rr == r * r,
    ;
    let er = e * rr;
    let es = e * s;
    assert(rr * (1 as real - e) == rr - er) by (nonlinear_arith)
        requires
            er == e * rr,
    ;
    assert(rr * (1 as real + 2 as real * e) == rr + 2 as real * er) by (nonlinear_arith)
        requires
            er == e * rr,
    ;
    assert(er <= rr / 1024 as real && es <= s / 1024 as real) by (nonlinear_arith)
        requires
            er == e * rr,
            es == e * s,
            rr >= 0 as real,
            s >= 0 as real,
            e <= 1 as real / 1024 as real,
    ;
    // the sum of the squares and the square of the root
    assert(s <= 2 as real * rr);
    assert(es <= 2 as real * er) by (nonlinear_arith)
        requires
            es == e * s,
            er == e * rr,
            s <= 2 as real * rr,
            e > 0 as real,
    ;
    assert(crate::measure::abs(s - rr) <= 10 as real * er);
    let gs = gg * s;
    assert(gg >= 0 as real) by {
        crate::algebra::lemma_square(g);
    }
    let f = s - rr;
    crate::algebra::lemma_scaled(f, gg, 10 as real * er);
    assert(f * gg == gs - 9 as real) by (nonlinear_arith)
        requires
            f == s - rr,
            gs == gg * s,
            gg * rr == 9 as real,
    ;
    assert(10 as real * er * gg == 90 as real * e) by (nonlinear_arith)
        requires
            er == e * rr,
            gg * rr == 9 as real,
    {
        assert(10 as real * er * gg == 10 as real * (e * (gg * rr)));
    }
    assert(crate::measure::abs(gs - 9 as real) <= 90 as real * e);
    // the square of the factor
    let tt = tau * tau;
    let eg = e * gg;
    assert(crate::measure::abs(tt - gg) <= 5 as real * eg) by {
        let d = tau - g;
        let b = 2 as real * (e * g);
        assert(tt - gg == 2 as real * (d * g) + d * d) by (nonlinear_arith)
            requires
                d == tau - g,
                tt == tau * tau,
                gg == g * g,
        ;
        crate::algebra::lemma_scaled(d, g, b);
        assert(b * g == 2 as real * eg) by (nonlinear_arith)
            requires
                b == 2 as real * (e * g),
                eg == e * gg,
                gg == g * g,
        ;
        assert(d * d <= b * b && d * d >= 0 as real) by (nonlinear_arith)
            requires
                0 as real - b <= d <= b,
        ;
        assert(b * b <= eg / 4 as real) by (nonlinear_arith)
            requires
                b == 2 as real * (e * g),
                eg == e * gg,
                gg == g * g,
                gg >= 0 as real,
                (0 as real) < e <= 1 as real / 1024 as real,
        {
            assert(b * b == 4 as real * (e * eg));
            assert(eg >= 0 as real);
            assert(e * eg <= eg / 1024 as real);
        }
    }
    let k = tt - gg;
    crate::algebra::lemma_scaled(k, s, 5 as real * eg);
    assert(k * s == tt * s - gs) by (nonlinear_arith)
        requires
            k == tt - gg,
            gs == gg * s,
    ;
    assert(5 as real * eg * s == 5 as real * (e * gs)) by (nonlinear_arith)
        requires
            eg == e * gg,
            gs == gg * s,
    ;
    crate::algebra::lemma_scaled_up(gs, 10 as real, e);
}

/// Tangents outside the circle of radius three are brought onto it, and keep their proportion, but for rounding.
pub proof fn law_steep_tangents_go_to_the_circle(a: Double, b: Double, d: Double)
    requires
        moderate(a, b, d),
        steep(a, b, d),
    ensures
        ({
            let (p, q) = crate::curve::limited_pair(a, b, d);
            let x = crate::measure::value(p);
            let y = crate::measure::value(q);
            let z = crate::measure::value(d);
            let e = crate::measure::epsilon();
            &&& crate::measure::abs(x * x + y * y - 9 as real * (z * z)) <= 1024 as real * (e * (z * z))
            &&& crate::measure::abs(x * crate::measure::value(b) - y * crate::measure::value(a)) <= 64 as real * (e * (z * (
            crate::measure::value(a) + crate::measure::value(b))))
        }),
{
    let e = crate::measure::epsilon();
    let three = Double::from_bits(THREE);
    let nine = Double::from_bits(NINE);
    let alpha = a.over(d);
    let beta = b.over(d);
    let dist = alpha.times(alpha).plus(beta.times(beta));
    crate::measure::lemma_small();
    crate::measure::lemma_constants();
    lemma_in_chords(a, d);
    lemma_in_chords(b, d);
    lemma_distance(a, b, d);
    crate::measure::lemma_value_order(nine, dist);
    assert(nine.less(dist));
    crate::measure::lemma_positive(d);
    crate::measure::lemma_absolute(d);
    crate::measure::lemma_flat_bound();
    crate::measure::lemma_value_order(d.absolute(), Double::from_bits(FLAT));
    assert(!d.absolute().less(Double::from_bits(FLAT)));
    crate::tangents::lemma_tau(dist);
    crate::measure::lemma_root_above(dist);
    let root = dist.square_root();
    let tau = three.over(root);
    let r = crate::measure::value(root);
    let g = 3 as real / r;
    let t = crate::measure::value(tau);
    let u = crate::measure::value(alpha);
    let v = crate::measure::value(beta);
    let s = u * u + v * v;
    let z = crate::measure::value(d);
    let zz = z * z;
    let x1 = t * u;
    let y1 = t * v;
    // the factor is not so small that its error counts
    assert(crate::measure::smallest() <= e * g) by {
        lemma_factor_is_not_small(u, v, r, crate::measure::value(dist), g, e);
        crate::measure::lemma_tiny_against(e * g);
    }
    lemma_factor(t, g, r, crate::measure::value(dist), s, e);
    // the coordinates brought in
    assert(x1 * x1 + y1 * y1 == t * t * s) by (nonlinear_arith)
        requires
            x1 == t * u,
            y1 == t * v,
            s == u * u + v * v,
    ;
    crate::algebra::lemma_nonnegative_product(t, u);
    crate::algebra::lemma_nonnegative_product(t, v);
    crate::algebra::lemma_square(x1);
    crate::algebra::lemma_square(y1);
    assert(x1 <= 4 as real && y1 <= 4 as real) by (nonlinear_arith)
        requires
            x1 * x1 <= 10 as real,
            y1 * y1 <= 10 as real,
    ;
    crate::algebra::lemma_scaled_up(g, 3 as real, e);
    assert(t <= 4 as real);
    lemma_brought_in(tau, alpha, d);
    lemma_brought_in(tau, beta, d);
    let p = tau.times(alpha).times(d);
    let q = tau.times(beta).times(d);
    let x = crate::measure::value(p);
    let y = crate::measure::value(q);
    lemma_square_sum(x, y, x1, y1, z, e);
    let fa = crate::measure::value(a);
    let fb = crate::measure::value(b);
    lemma_proportion(x, y, x1, y1, t, u, v, fa, fb, z, e);
}

proof fn lemma_factor_is_not_small(u: real, v: real, r: real, dist: real, g: real, e: real)
    requires
        (0 as real) < e,
        e == 1 as real / 0x10_0000_0000_0000 as real,
        0 as real <= u <= 0x20_0000 as real,
        0 as real <= v <= 0x20_0000 as real,
        crate::measure::abs(dist - (u * u + v * v)) <= 4 as real * (e * (u * u + v * v)),
        r >= 1 as real,
        r * r * (1 as real - e) <= dist,
        g * r == 3 as real,
        g >= 0 as real,
    ensures
        e * g >= 1 as real / 0x1_0000_0000_0000_0000_0000 as real,
{
    let s = u * u + v * v;
    crate::algebra::lemma_product_bound(u, u, 0x20_0000 as real, 0x20_0000 as real);
    crate::algebra::lemma_product_bound(v, v, 0x20_0000 as real, 0x20_0000 as real);
    let es = e * s;
    assert(es <= s / 1024 as real) by (nonlinear_arith)
        requires
            es == e * s,
            s >= 0 as real,
            e <= 1 as real / 1024 as real,
    ;
    assert(dist <= 0x1000_0000_0000 as real);
    let rr = r * r;
    crate::algebra::lemma_square(r);
    assert(rr <= 0x2000_0000_0000 as real) by (nonlinear_arith)
        requires
            rr * (1 as real - e) <= 0x1000_0000_0000 as real,
            e <= 1 as real / 1024 as real,
            rr >= 0 as real,
    ;
    assert(r <= 0x80_0000 as real) by (nonlinear_arith)
        requires
            rr == r * r,
            rr <= 0x2000_0000_0000 as real,
            r >= 1 as real,
    ;
    assert(g >= 1 as real / 0x80_0000 as real) by (nonlinear_arith)
        requires
            g * r == 3 as real,
            1 as real <= r <= 0x80_0000 as real,
    ;
    assert(e * g >= 1 as real / 0x1_0000_0000_0000_0000_0000 as real) by (nonlinear_arith)
        requires
            g >= 1 as real / 0x80_0000 as real,
            e == 1 as real / 0x10_0000_0000_0000 as real,
    ;
}

/// The sum of two squares, each of a number that is off.
proof fn lemma_square_sum(x: real, y: real, x1: real, y1: real, z: real, e: real)
    requires
        (0 as real) < e <= 1 as real / 0x10_0000_0000_0000 as real,
        z > 0 as real,
        0 as real <= x1 <= 4 as real,
        0 as real <= y1 <= 4 as real,
        crate::measure::abs(x - x1 * z) <= 16 as real * (e * z),
        crate::measure::abs(y - y1 * z) <= 16 as real * (e * z),
        crate::measure::abs(x1 * x1 + y1 * y1 - 9 as real) <= 200 as real * e,
    ensures
        crate::measure::abs(x * x + y * y - 9 as real * (z * z)) <= 1024 as real * (e * (z * z)),
{
    let zz = z * z;
    let ez = e * zz;
    assert(zz > 0 as real) by (nonlinear_arith)
        requires
            z > 0 as real,
            zz == z * z,
    ;
    crate::algebra::lemma_nonnegative_product(e, zz);
    lemma_scaled_square(x, x1, z, e);
    lemma_scaled_square(y, y1, z, e);
    let f = x1 * x1 + y1 * y1 - 9 as real;
    crate::algebra::lemma_scaled(f, zz, 200 as real * e);
    assert(f * zz == (x1 * x1) * zz + (y1 * y1) * zz - 9 as real * zz) by (nonlinear_arith)
        requires
            f == x1 * x1 + y1 * y1 - 9 as real,
    ;
    assert(200 as real * e * zz == 200 as real * ez) by (nonlinear_arith)
        requires
            ez == e * zz,
    ;
}

proof fn lemma_scaled_square(x: real, x1: real, z: real, e: real)
    requires
        (0 as real) < e <= 1 as real / 0x10_0000_0000_0000 as real,
        z > 0 as real,
        0 as real <= x1 <= 4 as real,
        crate::measure::abs(x - x1 * z) <= 16 as real * (e * z),
    ensures
        crate::measure::abs(x * x - (x1 * x1) * (z * z)) <= 130 as real * (e * (z * z)),
{
    let zz = z * z;
    crate::algebra::lemma_square(z);
    let ez = e * zz;
    let w = x1 * z;
    let f = x - w;
    let b = 16 as real * (e * z);
    assert(x * x - (x1 * x1) * zz == 2 as real * (f * w) + f * f) by (nonlinear_arith)
        requires
            f == x - w,
            w == x1 * z,
            zz == z * z,
    {
        assert((x1 * x1) * zz == w * w);
    }
    crate::algebra::lemma_product_bound(x1, z, 4 as real, z);
    crate::algebra::lemma_scaled(f, w, b);
    crate::algebra::lemma_nonnegative_product(e, z);
    crate::algebra::lemma_scaled_up(w, 4 as real * z, b);
    assert(b * (4 as real * z) == 64 as real * ez) by (nonlinear_arith)
        requires
            b == 16 as real * (e * z),
            ez == e * zz,
            zz == z * z,
    ;
    assert(f * f <= b * b && f * f >= 0 as real) by (nonlinear_arith)
        requires
            0 as real - b <= f <= b,
    ;
    assert(b * b <= ez) by (nonlinear_arith)
        requires
            b == 16 as real * (e * z),
            ez == e * zz,
            zz == z * z,
            zz >= 0 as real,
            (0 as real) < e <= 1 as real / 1024 as real,
    {
        assert(b * b == 256 as real * (e * ez));
        assert(ez >= 0 as real);
        assert(e * ez <= ez / 1024 as real);
    }
}

/// The proportion of two numbers that are both off.
proof fn lemma_proportion(
    x: real,
    y: real,
    x1: real,
    y1: real,
    t: real,
    u: real,
    v: real,
    a: real,
    b: real,
    z: real,
    e: real,
)
    requires
        (0 as real) < e <= 1 as real / 0x10_0000_0000_0000 as real,
        z > 0 as real,
        a >= 0 as real,
        b >= 0 as real,
        x1 == t * u,
        y1 == t * v,
        0 as real <= t <= 4 as real,
        0 as real <= x1 <= 4 as real,
        0 as real <= y1 <= 4 as real,
        crate::measure::abs(x - x1 * z) <= 16 as real * (e * z),
        crate::measure::abs(y - y1 * z) <= 16 as real * (e * z),
        crate::measure::abs(u - a / z) <= e * (a / z) + e / 1024 as real,
        crate::measure::abs(v - b / z) <= e * (b / z) + e / 1024 as real,
    ensures
        crate::measure::abs(x * b - y * a) <= 64 as real * (e * (z * (a + b))),
{
    let sum = a + b;
    let ezs = e * (z * sum);
    // from the last two roundings
    let f = x - x1 * z;
    let h = y - y1 * z;
    let k = 16 as real * (e * z);
    crate::algebra::lemma_scaled(f, b, k);
    crate::algebra::lemma_scaled(h, a, k);
    assert(k * a + k * b == 16 as real * ezs) by (nonlinear_arith)
        requires
            k == 16 as real * (e * z),
            ezs == e * (z * sum),
            sum == a + b,
    ;
    let m = (x1 * z) * b - (y1 * z) * a;
    assert(x * b - y * a == f * b - h * a + m) by (nonlinear_arith)
        requires
            f == x - x1 * z,
            h == y - y1 * z,
            m == (x1 * z) * b - (y1 * z) * a,
    ;
    // from the tangents in chords
    crate::limits::lemma_quotient(a, z);
    crate::limits::lemma_quotient(b, z);
    let al = a / z;
    let be = b / z;
    let du = u - al;
    let dv = v - be;
    let zt = z * t;
    let ub = u * b;
    let va = v * a;
    lemma_regrouped(t, u, z, b);
    lemma_regrouped(t, v, z, a);
    assert(al * b == be * a) by {
        crate::algebra::lemma_regroup(al, be, z);
        crate::algebra::lemma_regroup(be, al, z);
        crate::algebra::lemma_swap(al, be);
    }
    crate::algebra::lemma_distribute(u, al, b);
    crate::algebra::lemma_distribute(v, be, a);
    crate::algebra::lemma_distribute(ub, va, zt);
    crate::algebra::lemma_swap(zt, ub);
    crate::algebra::lemma_swap(zt, va);
    assert(m == (du * b - dv * a) * zt);
    let bu = e * al + e / 1024 as real;
    let bv = e * be + e / 1024 as real;
    crate::algebra::lemma_scaled(du, b, bu);
    crate::algebra::lemma_scaled(dv, a, bv);
    // t * al and t * be are small
    let ta = t * al;
    let tb = t * be;
    assert(ta <= 5 as real && 0 as real <= ta) by {
        lemma_scaled_coordinate(t, u, al, e);
    }
    assert(tb <= 5 as real && 0 as real <= tb) by {
        lemma_scaled_coordinate(t, v, be, e);
    }
    let n = du * b - dv * a;
    let bound = bu * b + bv * a;
    assert(0 as real - bound <= n <= bound);
    crate::algebra::lemma_nonnegative_product(z, t);
    crate::algebra::lemma_scaled(n, zt, bound);
    // what the bound comes to
    let c = e / 1024 as real;
    lemma_part(e, al, c, b, z, t);
    lemma_part(e, be, c, a, z, t);
    crate::algebra::lemma_sum(bu * b, bv * a, zt);
    crate::algebra::lemma_sum(a, b, z);
    crate::algebra::lemma_swap(sum, z);
    crate::algebra::lemma_swap(a, z);
    crate::algebra::lemma_swap(b, z);
    crate::algebra::lemma_sum(z * a, z * b, c * t);
    crate::algebra::lemma_swap(z * a, c * t);
    crate::algebra::lemma_swap(z * b, c * t);
    crate::algebra::lemma_swap(z * sum, c * t);
    assert(bound * zt == e * (z * (ta * b)) + e * (z * (tb * a)) + (c * t) * (z * sum));
    crate::algebra::lemma_nonnegative_product(z, b);
    crate::algebra::lemma_nonnegative_product(z, a);
    let zb = z * b;
    let za = z * a;
    assert(z * (ta * b) <= 5 as real * zb && z * (tb * a) <= 5 as real * za) by (nonlinear_arith)
        requires
            0 as real <= ta <= 5 as real,
            0 as real <= tb <= 5 as real,
            zb == z * b,
            za == z * a,
            zb >= 0 as real,
            za >= 0 as real,
    {
        assert(z * (ta * b) == ta * zb);
        assert(z * (tb * a) == tb * za);
    }
    crate::algebra::lemma_scaled_up(z * (ta * b), 5 as real * zb, e);
    crate::algebra::lemma_scaled_up(z * (tb * a), 5 as real * za, e);
    let zs = z * sum;
    assert(zs == zb + za) by (nonlinear_arith)
        requires
            zs == z * sum,
            sum == a + b,
            zb == z * b,
            za == z * a,
    ;
    assert(e * (5 as real * zb) + e * (5 as real * za) == 5 as real * ezs) by (nonlinear_arith)
        requires
            ezs == e * zs,
            zs == zb + za,
    ;
    assert((c * t) * zs <= ezs) by (nonlinear_arith)
        requires
            c == e / 1024 as real,
            0 as real <= t <= 4 as real,
            ezs == e * zs,
            zs >= 0 as real,
            e > 0 as real,
    {
        assert(c * t <= e);
    }
}

proof fn lemma_regrouped(t: real, u: real, z: real, b: real)
    ensures
        ((t * u) * z) * b == (z * t) * (u * b),
{
    crate::algebra::lemma_swap(t * u, z);
    crate::algebra::lemma_regroup(z, t, u);
    crate::algebra::lemma_regroup(z * t, u, b);
}

proof fn lemma_part(e: real, al: real, c: real, b: real, z: real, t: real)
    ensures
        ((e * al + c) * b) * (z * t) == e * (z * ((t * al) * b)) + (c * t) * (z * b),
{
    let zt = z * t;
    let k = al * b;
    crate::algebra::lemma_sum(e * al, c, b);
    crate::algebra::lemma_regroup(e, al, b);
    crate::algebra::lemma_sum(e * k, c * b, zt);
    crate::algebra::lemma_regroup(e, k, zt);
    assert(k * zt == z * ((t * al) * b)) by (nonlinear_arith)
        requires
            k == al * b,
            zt == z * t,
    ;
    assert((c * b) * zt == (c * t) * (z * b)) by (nonlinear_arith)
        requires
            zt == z * t,
    ;
}

proof fn lemma_scaled_coordinate(t: real, u: real, al: real, e: real)
    requires
        (0 as real) < e <= 1 as real / 0x10_0000_0000_0000 as real,
        0 as real <= t <= 4 as real,
        0 as real <= t * u <= 4 as real,
        al >= 0 as real,
        crate::measure::abs(u - al) <= e * al + e / 1024 as real,
    ensures
        0 as real <= t * al <= 5 as real,
{
    let ta = t * al;
    crate::algebra::lemma_nonnegative_product(t, al);
    let d = al - u;
    let b = e * al + e / 1024 as real;
    crate::algebra::lemma_scaled(d, t, b);
    assert(d * t == ta - t * u) by (nonlinear_arith)
        requires
            d == al - u,
            ta == t * al,
    ;
    assert(b * t <= ta / 1024 as real + 1 as real / 1024 as real) by (nonlinear_arith)
        requires
            b == e * al + e / 1024 as real,
            ta == t * al,
            ta >= 0 as real,
            0 as real <= t <= 4 as real,
            (0 as real) < e <= 1 as real / 0x10_0000_0000_0000 as real,
    {
        assert(b * t == e * ta + (e / 1024 as real) * t);
        assert(e * ta <= ta / 1024 as real);
        assert((e / 1024 as real) * t <= 1 as real / 1024 as real);
    }
}

} // verus!
