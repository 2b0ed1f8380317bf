//! The cubics between the points of a curve: how far the computed ones are from the exact ones.

use vstd::prelude::*;
use crate::curve::Point;
use crate::double::Double;
use crate::double::{ONE, THREE, TWO};

verus! {

// ---------------------------------------------------------------------------
// Errors
// ---------------------------------------------------------------------------

/// `d` is off from `x` by `k` times `2^-52` at most.
pub open spec fn near(d: Double, x: real, k: real) -> bool {
    d.finite() && crate::measure::abs(crate::measure::value(d) - x) <= k * crate::measure::epsilon()
}

/// A multiple of the error that is still small.
pub open spec fn few(k: real) -> bool {
    0 as real <= k <= 0x10_0000 as real
}

pub proof fn lemma_few(k: real)
    requires
        few(k),
    ensures
        0 as real <= k * crate::measure::epsilon() <= 1 as real / 0x1_0000_0000 as real,
{
    crate::measure::lemma_small();
    let e = crate::measure::epsilon();
    assert(0 as real <= k * e <= 1 as real / 0x1_0000_0000 as real) by (nonlinear_arith)
        requires
            0 as real <= k <= 0x10_0000 as real,
            e == 1 as real / 0x10_0000_0000_0000 as real,
    ;
}

/// The error of a sum.
pub proof fn lemma_near_plus(a: Double, x: real, j: real, b: Double, y: real, k: real, m: real)
    requires
        near(a, x, j),
        near(b, y, k),
        few(j),
        few(k),
        few(m),
        crate::measure::abs(x + y) <= m,
    ensures
        near(a.plus(b), x + y, j + k + m + 1 as real),
{
    crate::measure::lemma_small();
    lemma_few(j);
    lemma_few(k);
    let e = crate::measure::epsilon();
    let s = crate::measure::value(a) + crate::measure::value(b);
    assert(crate::measure::abs(s - (x + y)) <= j * e + k * e);
    assert(crate::measure::abs(s) <= m + 1 as real);
    crate::measure::lemma_plus(a, b);
    crate::measure::lemma_part_of_error(e, s, m + 1 as real);
    assert((j + k + m + 1 as real) * e == j * e + k * e + e * (m + 1 as real)) by (nonlinear_arith);
}

/// The error of a difference.
pub proof fn lemma_near_minus(a: Double, x: real, j: real, b: Double, y: real, k: real, m: real)
    requires
        near(a, x, j),
        near(b, y, k),
        few(j),
        few(k),
        few(m),
        crate::measure::abs(x - y) <= m,
    ensures
        near(a.minus(b), x - y, j + k + m + 1 as real),
{
    crate::measure::lemma_negated(b);
    lemma_near_plus(a, x, j, b.negated(), 0 as real - y, k, m);
}

/// The error of a product.
pub proof fn lemma_near_times(a: Double, x: real, j: real, b: Double, y: real, k: real, m: real, n: real)
    requires
        near(a, x, j),
        near(b, y, k),
        few(j),
        few(k),
        1 as real <= m <= 16 as real,
        1 as real <= n <= 16 as real,
        crate::measure::abs(x) <= m,
        crate::measure::abs(y) <= n,
    ensures
        near(a.times(b), x * y, j * n + k * m + m * n + 4 as real),
{
    crate::measure::lemma_small();
    lemma_few(j);
    lemma_few(k);
    let e = crate::measure::epsilon();
    let u = crate::measure::value(a);
    let v = crate::measure::value(b);
    let p = j * e;
    let q = k * e;
    assert(p * q <= e) by (nonlinear_arith)
        requires
            p == j * e,
            q == k * e,
            0 as real <= p,
            0 as real <= k <= 0x10_0000 as real,
            0 as real <= j <= 0x10_0000 as real,
            e == 1 as real / 0x10_0000_0000_0000 as real,
    {
        assert(p * q == (j * k) * (e * e));
        assert(j * k <= 0x100_0000_0000 as real);
        assert((j * k) * (e * e) <= 0x100_0000_0000 as real * (e * e));
    }
    let error = p * n + q * m + e;
    assert(0 as real - error <= u * v - x * y <= error) by (nonlinear_arith)
        requires
            0 as real - p <= u - x <= p,
            0 as real - q <= v - y <= q,
            0 as real - m <= x <= m,
            0 as real - n <= y <= n,
            p * q <= e,
            p >= 0 as real,
            q >= 0 as real,
            error == p * n + q * m + e,
    {
        let f = u - x;
        let g = v - y;
        assert(u * v - x * y == f * g + f * y + x * g);
        assert(f * g <= p * q && f * g >= 0 as real - p * q);
        assert(f * y <= p * n && f * y >= 0 as real - p * n);
        assert(x * g <= m * q && x * g >= 0 as real - m * q);
    }
    assert(error <= 1 as real) by (nonlinear_arith)
        requires
            error == p * n + q * m + e,
            0 as real <= p <= 1 as real / 0x1_0000_0000 as real,
            0 as real <= q <= 1 as real / 0x1_0000_0000 as real,
            n <= 16 as real,
            m <= 16 as real,
            e == 1 as real / 0x10_0000_0000_0000 as real,
    ;
    let xy = x * y;
    let uv = u * v;
    assert(0 as real - m * n <= xy <= m * n) by (nonlinear_arith)
        requires
            0 as real - m <= x <= m,
            0 as real - n <= y <= n,
            xy == x * y,
    ;
    assert(m * n <= 256 as real) by (nonlinear_arith)
        requires
            0 as real <= m <= 16 as real,
            0 as real <= n <= 16 as real,
    ;
    crate::measure::lemma_times(a, b);
    crate::measure::lemma_part_of_error(e, uv, m * n + 1 as real);
    assert((j * n + k * m + m * n + 4 as real) * e == p * n + q * m + e + e * (m * n + 1 as real) + e + e)
        by (nonlinear_arith)
        requires
            p == j * e,
            q == k * e,
    ;
}

// ---------------------------------------------------------------------------
// The basis
// ---------------------------------------------------------------------------

/// The computed basis polynomials.
pub open spec fn basis_h00(t: Double) -> Double {
    let t2 = t.times(t);
    let t3 = t2.times(t);
    Double::from_bits(TWO).times(t3).minus(Double::from_bits(THREE).times(t2)).plus(Double::from_bits(ONE))
}

pub open spec fn basis_h10(t: Double) -> Double {
    let t2 = t.times(t);
    let t3 = t2.times(t);
    t3.minus(Double::from_bits(TWO).times(t2)).plus(t)
}

pub open spec fn basis_h01(t: Double) -> Double {
    let t2 = t.times(t);
    let t3 = t2.times(t);
    Double::from_bits(TWO).negated().times(t3).plus(Double::from_bits(THREE).times(t2))
}

pub open spec fn basis_h11(t: Double) -> Double {
    let t2 = t.times(t);
    let t3 = t2.times(t);
    t3.minus(t2)
}

/// The error of a value that is exact.
pub proof fn lemma_near_itself(d: Double)
    requires
        d.finite(),
    ensures
        near(d, crate::measure::value(d), 0 as real),
{
    let e = crate::measure::epsilon();
    assert(0 as real * e == 0 as real) by (nonlinear_arith);
}

/// A bound on an error may be widened.
pub proof fn lemma_near_wider(d: Double, x: real, k: real, m: real)
    requires
        near(d, x, k),
        k <= m,
    ensures
        near(d, x, m),
{
    crate::measure::lemma_small();
    let e = crate::measure::epsilon();
    assert(k * e <= m * e) by (nonlinear_arith)
        requires
            k <= m,
            e > 0 as real,
    ;
}

/// The computed basis polynomials are near the exact ones.
proof fn lemma_basis(t: Double)
    requires
        t.finite(),
        0 as real <= crate::measure::value(t) <= 1 as real,
    ensures
        ({
            let x = crate::measure::value(t);
            &&& near(basis_h00(t), 1 as real - crate::cubic::exact_h01(x), 64 as real)
            &&& near(basis_h10(t), crate::cubic::exact_h10(x), 64 as real)
            &&& near(basis_h01(t), crate::cubic::exact_h01(x), 64 as real)
            &&& near(basis_h11(t), crate::cubic::exact_h11(x), 64 as real)
        }),
{
    let x = crate::measure::value(t);
    let one = Double::from_bits(ONE);
    let two = Double::from_bits(TWO);
    let three = Double::from_bits(THREE);
    let zero = 0 as real;
    crate::measure::lemma_constants();
    crate::cubic::lemma_basis_bounds(x);
    lemma_near_itself(t);
    lemma_near_itself(one);
    lemma_near_itself(two);
    lemma_near_itself(three);
    crate::measure::lemma_negated(two);
    lemma_near_itself(two.negated());
    let t2 = t.times(t);
    let t3 = t2.times(t);
    let s = x * x;
    let c = s * x;
    assert(zero * (1 as real) == zero && zero * (2 as real) == zero && zero * (3 as real) == zero);
    lemma_near_times(t, x, zero, t, x, zero, 1 as real, 1 as real);
    lemma_near_wider(t2, s, zero * (1 as real) + zero * (1 as real) + 1 as real * (1 as real) + 4 as real, 5 as real);
    lemma_near_times(t2, s, 5 as real, t, x, zero, 1 as real, 1 as real);
    lemma_near_wider(t3, c, 5 as real * (1 as real) + zero * (1 as real) + 1 as real * (1 as real) + 4 as real, 10 as real);
    let m1 = two.times(t3);
    lemma_near_times(two, 2 as real, zero, t3, c, 10 as real, 2 as real, 1 as real);
    lemma_near_wider(m1, 2 as real * c, zero * (1 as real) + 10 as real * (2 as real) + 2 as real * (1 as real) + 4 as real, 26 as real);
    let m2 = three.times(t2);
    lemma_near_times(three, 3 as real, zero, t2, s, 5 as real, 3 as real, 1 as real);
    lemma_near_wider(m2, 3 as real * s, zero * (1 as real) + 5 as real * (3 as real) + 3 as real * (1 as real) + 4 as real, 22 as real);
    lemma_near_minus(m1, 2 as real * c, 26 as real, m2, 3 as real * s, 22 as real, 3 as real);
    lemma_near_plus(m1.minus(m2), 2 as real * c - 3 as real * s, 52 as real, one, 1 as real, zero, 1 as real);
    lemma_near_wider(basis_h00(t), 1 as real - crate::cubic::exact_h01(x), 54 as real, 64 as real);
    let m3 = two.times(t2);
    lemma_near_times(two, 2 as real, zero, t2, s, 5 as real, 2 as real, 1 as real);
    lemma_near_wider(m3, 2 as real * s, zero * (1 as real) + 5 as real * (2 as real) + 2 as real * (1 as real) + 4 as real, 16 as real);
    lemma_near_minus(t3, c, 10 as real, m3, 2 as real * s, 16 as real, 2 as real);
    lemma_near_plus(t3.minus(m3), c - 2 as real * s, 29 as real, t, x, zero, 1 as real);
    lemma_near_wider(basis_h10(t), crate::cubic::exact_h10(x), 31 as real, 64 as real);
    let m4 = two.negated().times(t3);
    lemma_near_times(two.negated(), -2 as real, zero, t3, c, 10 as real, 2 as real, 1 as real);
    lemma_near_wider(m4, -2 as real * c, zero * (1 as real) + 10 as real * (2 as real) + 2 as real * (1 as real) + 4 as real, 26 as real);
    lemma_near_plus(m4, -2 as real * c, 26 as real, m2, 3 as real * s, 22 as real, 1 as real);
    lemma_near_wider(basis_h01(t), crate::cubic::exact_h01(x), 50 as real, 64 as real);
    lemma_near_minus(t3, c, 10 as real, t2, s, 5 as real, 1 as real);
    lemma_near_wider(basis_h11(t), crate::cubic::exact_h11(x), 17 as real, 64 as real);
}

// ---------------------------------------------------------------------------
// The computed cubic
// ---------------------------------------------------------------------------

/// The error of a product of three numbers, of which the last may be great.
proof fn lemma_tangent_error(u: real, x: real, w: real, v: real, g: real, e: real, small: real)
    requires
        e > 0 as real,
        0 as real - 64 as real * e <= u - x <= 64 as real * e,
        -2 as real <= u <= 2 as real,
        w > 0 as real,
        v >= 0 as real,
        0 as real <= w * v <= 4 as real,
        0 as real - (e * crate::measure::abs(u * w) + small) <= g - u * w <= e * crate::measure::abs(u * w) + small,
        small * v <= 4 as real * e,
    ensures
        0 as real - 268 as real * e <= g * v - x * (w * v) <= 268 as real * e,
{
    let k = w * v;
    let uw = u * w;
    let z = crate::measure::abs(uw);
    crate::algebra::lemma_regroup(u, w, v);
    crate::algebra::lemma_distribute(g, uw, v);
    crate::algebra::lemma_scaled(g - uw, v, e * z + small);
    crate::algebra::lemma_scaled(u, k, 2 as real);
    crate::algebra::lemma_distribute(0 as real, uw, v);
    assert(z * v <= 8 as real);
    crate::algebra::lemma_distribute(e * z, 0 as real - small, v);
    crate::algebra::lemma_distribute(0 as real, small, v);
    crate::algebra::lemma_regroup(e, z, v);
    crate::algebra::lemma_scaled_up(z * v, 8 as real, e);
    crate::algebra::lemma_scaled(u - x, k, 64 as real * e);
    crate::algebra::lemma_distribute(u, x, k);
    crate::algebra::lemma_scaled_up(k, 4 as real, 64 as real * e);
}

/// The error of the last product.
proof fn lemma_last_error(r: real, y: real, z: real, e: real, small: real)
    requires
        (0 as real) < e <= 1 as real / 1024 as real,
        small <= e,
        crate::measure::abs(r - y) <= e * crate::measure::abs(y) + small,
        0 as real - 268 as real * e <= y - z <= 268 as real * e,
        -4 as real <= z <= 4 as real,
    ensures
        crate::measure::abs(r - z) <= 300 as real * e,
{
    crate::algebra::lemma_scaled_up(crate::measure::abs(y), 5 as real, e);
}

/// A basis polynomial times the width of the interval times a tangent, which may be great where the
/// interval is narrow.
proof fn lemma_near_tangent(f: Double, x: real, h: Double, a: Double)
    requires
        near(f, x, 64 as real),
        -1 as real <= x <= 1 as real,
        h.finite(),
        (0 as real) < crate::measure::value(h) <= 1 as real,
        a.finite(),
        0 as real <= crate::measure::value(h) * crate::measure::value(a) <= 4 as real,
        0 as real <= crate::measure::value(a),
    ensures
        near(f.times(h).times(a), x * (crate::measure::value(h) * crate::measure::value(a)), 300 as real),
{
    let e = crate::measure::epsilon();
    let u = crate::measure::value(f);
    let w = crate::measure::value(h);
    let v = crate::measure::value(a);
    let small = crate::measure::smallest();
    assert((0 as real) < e <= 1 as real / 1024 as real && small <= e && crate::measure::huge() >= 16 as real) by {
        crate::measure::lemma_small();
    }
    assert(-2 as real <= u <= 2 as real) by {
        lemma_few(64 as real);
    }
    assert(-2 as real <= u * w <= 2 as real) by {
        crate::algebra::lemma_scaled(u, w, 2 as real);
    }
    crate::measure::lemma_times(f, h);
    let g = crate::measure::value(f.times(h));
    crate::measure::lemma_smallest(a);
    lemma_tangent_error(u, x, w, v, g, e, small);
    let k = w * v;
    assert(-4 as real <= x * k <= 4 as real) by {
        crate::algebra::lemma_scaled(x, k, 1 as real);
    }
    crate::measure::lemma_times(f.times(h), a);
    lemma_last_error(crate::measure::value(f.times(h).times(a)), g * v, x * k, e, small);
}

/// A cubic of a curve: its ends and their tangents are finite, and these are limited but for `k`.
pub open spec fn limited_cubic(p: Point, q: Point, a: Double, b: Double, k: real) -> bool {
    let h = q.x.minus(p.x);
    let w = crate::measure::value(h);
    let d = crate::measure::value(q.y) - crate::measure::value(p.y);
    &&& p.y.finite()
    &&& q.y.finite()
    &&& (0 as real) < crate::measure::value(p.y) <= 1 as real
    &&& (0 as real) < crate::measure::value(q.y) <= 1 as real
    &&& 0 as real <= d
    &&& h.finite()
    &&& (0 as real) < w <= 1 as real
    &&& a.finite()
    &&& b.finite()
    &&& 0 as real <= crate::measure::value(a)
    &&& 0 as real <= crate::measure::value(b)
    &&& 0 as real <= k <= 1 as real
    &&& w * crate::measure::value(a) <= 3 as real * d + k
    &&& w * crate::measure::value(b) <= 3 as real * d + k
}

/// The exact level at the part `t` of the way from `p` to `q`.
pub open spec fn exact_level(p: Point, q: Point, a: Double, b: Double, t: real) -> real {
    let w = crate::measure::value(q.x.minus(p.x));
    crate::measure::value(p.y) + crate::cubic::rise(
        t,
        crate::measure::value(q.y) - crate::measure::value(p.y),
        w * crate::measure::value(a),
        w * crate::measure::value(b),
    )
}

/// The computed cubic is near the exact one.
pub proof fn lemma_hermite(p: Point, q: Point, a: Double, b: Double, x: Double, k: real)
    requires
        limited_cubic(p, q, a, b, k),
        ({
            let t = x.minus(p.x).over(q.x.minus(p.x));
            t.finite() && 0 as real <= crate::measure::value(t) <= 1 as real
        }),
    ensures
        near(
            crate::curve::hermite(p, q, a, b, x),
            exact_level(p, q, a, b, crate::measure::value(x.minus(p.x).over(q.x.minus(p.x)))),
            1024 as real,
        ),
{
    let h = q.x.minus(p.x);
    let t = x.minus(p.x).over(h);
    let s = crate::measure::value(t);
    let w = crate::measure::value(h);
    let y0 = crate::measure::value(p.y);
    let y1 = crate::measure::value(q.y);
    let d = y1 - y0;
    let aw = w * crate::measure::value(a);
    let bw = w * crate::measure::value(b);
    crate::algebra::lemma_nonnegative_product(w, crate::measure::value(a));
    crate::algebra::lemma_nonnegative_product(w, crate::measure::value(b));
    lemma_basis(t);
    crate::cubic::lemma_basis_bounds(s);
    lemma_near_itself(p.y);
    lemma_near_itself(q.y);
    let c00 = 1 as real - crate::cubic::exact_h01(s);
    let c10 = crate::cubic::exact_h10(s);
    let c01 = crate::cubic::exact_h01(s);
    let c11 = crate::cubic::exact_h11(s);
    let zero = 0 as real;
    let one = 1 as real;
    let m1 = basis_h00(t).times(p.y);
    lemma_near_times(basis_h00(t), c00, 64 as real, p.y, y0, zero, one, one);
    lemma_near_wider(m1, c00 * y0, 64 as real * one + zero * one + one * one + 4 as real, 70 as real);
    let m3 = basis_h01(t).times(q.y);
    lemma_near_times(basis_h01(t), c01, 64 as real, q.y, y1, zero, one, one);
    lemma_near_wider(m3, c01 * y1, 64 as real * one + zero * one + one * one + 4 as real, 70 as real);
    let m2 = basis_h10(t).times(h).times(a);
    lemma_near_tangent(basis_h10(t), c10, h, a);
    let m4 = basis_h11(t).times(h).times(b);
    lemma_near_tangent(basis_h11(t), c11, h, b);
    let r1 = c00 * y0;
    let r2 = c10 * aw;
    let r3 = c01 * y1;
    let r4 = c11 * bw;
    crate::algebra::lemma_scaled(c00, y0, 1 as real);
    crate::algebra::lemma_scaled(c01, y1, 1 as real);
    crate::algebra::lemma_scaled(c10, aw, 1 as real);
    crate::algebra::lemma_scaled(c11, bw, 1 as real);
    lemma_near_plus(m1, r1, 70 as real, m2, r2, 300 as real, 5 as real);
    lemma_near_plus(m1.plus(m2), r1 + r2, 376 as real, m3, r3, 70 as real, 6 as real);
    lemma_near_plus(m1.plus(m2).plus(m3), r1 + r2 + r3, 453 as real, m4, r4, 300 as real, 10 as real);
    lemma_near_wider(m1.plus(m2).plus(m3).plus(m4), r1 + r2 + r3 + r4, 764 as real, 1024 as real);
    crate::algebra::lemma_distribute(1 as real, c01, y0);
    crate::algebra::lemma_distribute(y1, y0, c01);
    crate::algebra::lemma_swap(y1, c01);
    crate::algebra::lemma_swap(y0, c01);
    crate::algebra::lemma_swap(aw, c10);
    crate::algebra::lemma_swap(bw, c11);
}

} // verus!
