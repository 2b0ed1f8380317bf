//! The exact cubics between the points of a curve: they rise where their tangents are limited.

use vstd::prelude::*;

verus! {

/// The exact basis polynomials.
pub open spec fn exact_h01(t: real) -> real {
    3 as real * (t * t) - 2 as real * (t * t * t)
}

pub open spec fn exact_h10(t: real) -> real {
    t * t * t - 2 as real * (t * t) + t
}

pub open spec fn exact_h11(t: real) -> real {
    t * t * t - t * t
}

/// The powers of a number between zero and one lie there, and so do the basis polynomials up to sign.
pub proof fn lemma_basis_bounds(t: real)
    requires
        0 as real <= t <= 1 as real,
    ensures
        0 as real <= t * t <= 1 as real,
        0 as real <= t * t * t <= 1 as real,
        0 as real <= exact_h01(t) <= 1 as real,
        0 as real <= exact_h10(t) <= 1 as real,
        -1 as real <= exact_h11(t) <= 0 as real,
{
    let s = t * t;
    assert(0 as real <= s <= t) by (nonlinear_arith)
        requires
            0 as real <= t <= 1 as real,
            s == t * t,
    ;
    let c = s * t;
    assert(0 as real <= c <= s) by (nonlinear_arith)
        requires
            0 as real <= t <= 1 as real,
            0 as real <= s,
            c == s * t,
    ;
    assert(3 as real * s - 2 as real * c <= 1 as real) by (nonlinear_arith)
        requires
            0 as real <= t <= 1 as real,
            s == t * t,
            c == s * t,
    {
        let g = 1 as real - t;
        assert(1 as real - 3 as real * s + 2 as real * c == g * g * (1 as real + 2 as real * t));
        assert(g * g >= 0 as real);
        assert(g * g * (1 as real + 2 as real * t) >= 0 as real);
    }
    assert(c - 2 as real * s + t >= 0 as real) by (nonlinear_arith)
        requires
            0 as real <= t <= 1 as real,
            s == t * t,
            c == s * t,
    {
        let g = 1 as real - t;
        assert(c - 2 as real * s + t == t * (g * g));
        assert(g * g >= 0 as real);
    }
}

/// How far an exact cubic has risen at `t`: `d` is the whole rise, `a` and `b` are the tangents at its
/// ends over the width of the interval.
pub open spec fn rise(t: real, d: real, a: real, b: real) -> real {
    d * exact_h01(t) + a * exact_h10(t) + b * exact_h11(t)
}

/// The difference of the squares of two numbers between zero and one, and of their products.
proof fn lemma_squares(s: real, t: real)
    requires
        0 as real <= s <= t <= 1 as real,
    ensures
        t * t <= t,
        s * s <= s,
        2 as real * (t * s) <= t + s,
        2 as real * (t * s) <= t * t + s * s,
        t * t + 2 as real * (t * s) + s * s - 2 as real * (t + s) + 1 as real >= 0 as real,
        t * t + 2 as real * (t * s) + s * s - 4 as real * (t + s) + 4 as real >= 0 as real,
        0 as real <= t * s,
        0 as real <= t * t,
        0 as real <= s * s,
{
    assert(t * t <= t && 0 as real <= t * t) by (nonlinear_arith)
        requires
            0 as real <= t <= 1 as real,
    ;
    assert(s * s <= s && 0 as real <= s * s) by (nonlinear_arith)
        requires
            0 as real <= s <= 1 as real,
    ;
    assert(t * s <= t && t * s <= s && 0 as real <= t * s) by (nonlinear_arith)
        requires
            0 as real <= s <= 1 as real,
            0 as real <= t <= 1 as real,
    ;
    let m = t + s;
    crate::algebra::lemma_square(t - s);
    crate::algebra::lemma_square(m - 1 as real);
    crate::algebra::lemma_square(m - 2 as real);
    assert((t - s) * (t - s) == t * t - 2 as real * (t * s) + s * s) by (nonlinear_arith);
    assert((m - 1 as real) * (m - 1 as real) == t * t + 2 as real * (t * s) + s * s - 2 as real * (t + s) + 1 as real)
        by (nonlinear_arith)
        requires
            m == t + s,
    ;
    assert((m - 2 as real) * (m - 2 as real) == t * t + 2 as real * (t * s) + s * s - 4 as real * (t + s) + 4 as real)
        by (nonlinear_arith)
        requires
            m == t + s,
    ;
}

/// The differences of the basis polynomials have the factor `t - s`.
proof fn lemma_differences(s: real, t: real)
    ensures
        ({
            let k = t * t + t * s + s * s;
            let m = t + s;
            &&& exact_h01(t) - exact_h01(s) == (t - s) * (3 as real * m - 2 as real * k)
            &&& exact_h10(t) - exact_h10(s) == (t - s) * (k - 2 as real * m + 1 as real)
            &&& exact_h11(t) - exact_h11(s) == (t - s) * (k - m)
        }),
{
    let k = t * t + t * s + s * s;
    let m = t + s;
    let g = t - s;
    assert(g * k == t * t * t - s * s * s) by (nonlinear_arith)
        requires
            g == t - s,
            k == t * t + t * s + s * s,
    ;
    assert(g * m == t * t - s * s) by (nonlinear_arith)
        requires
            g == t - s,
            m == t + s,
    ;
    assert(g * (3 as real * m - 2 as real * k) == 3 as real * (g * m) - 2 as real * (g * k)) by (nonlinear_arith);
    assert(g * (k - 2 as real * m + 1 as real) == g * k - 2 as real * (g * m) + g) by (nonlinear_arith);
    assert(g * (k - m) == g * k - g * m) by (nonlinear_arith);
}

/// An exact cubic rises where its tangents are no more than three times the slope of its chord.
proof fn lemma_rise(s: real, t: real, d: real, a: real, b: real)
    requires
        0 as real <= s <= t <= 1 as real,
        0 as real <= d,
        0 as real <= a <= 3 as real * d,
        0 as real <= b <= 3 as real * d,
    ensures
        rise(s, d, a, b) <= rise(t, d, a, b),
{
    let w = exact_h01(t) - exact_h01(s);
    let u = exact_h10(t) - exact_h10(s);
    let v = exact_h11(t) - exact_h11(s);
    let k = t * t + t * s + s * s;
    let m = t + s;
    let g = t - s;
    lemma_squares(s, t);
    lemma_differences(s, t);
    let f1 = 3 as real * m - 2 as real * k;
    let f2 = k - 2 as real * m + 1 as real;
    let f3 = k - m;
    crate::algebra::lemma_nonnegative_product(g, f1);
    crate::algebra::lemma_nonnegative_product(g, f1 + 3 as real * f2);
    crate::algebra::lemma_nonnegative_product(g, f1 + 3 as real * f3);
    crate::algebra::lemma_nonnegative_product(g, f1 + 3 as real * f2 + 3 as real * f3);
    assert(g * (f1 + 3 as real * f2) == g * f1 + 3 as real * (g * f2)) by (nonlinear_arith);
    assert(g * (f1 + 3 as real * f3) == g * f1 + 3 as real * (g * f3)) by (nonlinear_arith);
    assert(g * (f1 + 3 as real * f2 + 3 as real * f3) == g * f1 + 3 as real * (g * f2) + 3 as real * (g * f3))
        by (nonlinear_arith);
    let f = if u >= 0 as real {
        0 as real
    } else {
        3 as real * d
    };
    let h = if v >= 0 as real {
        0 as real
    } else {
        3 as real * d
    };
    assert(a * u >= f * u) by {
        if u >= 0 as real {
            crate::algebra::lemma_nonnegative_product(a, u);
            assert(0 as real * u == 0 as real);
        } else {
            crate::algebra::lemma_nonnegative_product(f - a, 0 as real - u);
            assert((f - a) * (0 as real - u) == a * u - f * u) by (nonlinear_arith);
        }
    }
    assert(b * v >= h * v) by {
        if v >= 0 as real {
            crate::algebra::lemma_nonnegative_product(b, v);
            assert(0 as real * v == 0 as real);
        } else {
            crate::algebra::lemma_nonnegative_product(h - b, 0 as real - v);
            assert((h - b) * (0 as real - v) == b * v - h * v) by (nonlinear_arith);
        }
    }
    let x = if u >= 0 as real {
        0 as real
    } else {
        3 as real * u
    };
    let y = if v >= 0 as real {
        0 as real
    } else {
        3 as real * v
    };
    crate::algebra::lemma_nonnegative_product(d, w + x + y);
    assert(d * (w + x + y) == d * w + d * x + d * y) by (nonlinear_arith);
    assert(d * x == f * u) by {
        if u >= 0 as real {
            assert(d * (0 as real) == 0 as real);
        } else {
            assert(d * (3 as real * u) == (3 as real * d) * u) by (nonlinear_arith);
        }
    }
    assert(d * y == h * v) by {
        if v >= 0 as real {
            assert(d * (0 as real) == 0 as real);
        } else {
            assert(d * (3 as real * v) == (3 as real * d) * v) by (nonlinear_arith);
        }
    }
    lemma_rise_difference(s, t, d, a, b);
}

proof fn lemma_rise_difference(s: real, t: real, d: real, a: real, b: real)
    ensures
        rise(t, d, a, b) - rise(s, d, a, b) == d * (exact_h01(t) - exact_h01(s)) + a * (exact_h10(t) - exact_h10(s))
            + b * (exact_h11(t) - exact_h11(s)),
{
    let p = exact_h01(t);
    let q = exact_h01(s);
    assert(d * (p - q) == d * p - d * q) by (nonlinear_arith);
    let i = exact_h10(t);
    let j = exact_h10(s);
    assert(a * (i - j) == a * i - a * j) by (nonlinear_arith);
    let k = exact_h11(t);
    let l = exact_h11(s);
    assert(b * (k - l) == b * k - b * l) by (nonlinear_arith);
}

/// The same with tangents that are limited but for `k`.
pub proof fn lemma_rise_nearly(s: real, t: real, d: real, a: real, b: real, k: real)
    requires
        0 as real <= s <= t <= 1 as real,
        0 as real <= d,
        0 as real <= k,
        0 as real <= a <= 3 as real * d + k,
        0 as real <= b <= 3 as real * d + k,
    ensures
        rise(s, d, a, b) <= rise(t, d, a, b) + 2 as real * k,
        0 as real - 2 as real * k <= rise(t, d, a, b) <= d + 2 as real * k,
{
    lemma_rise_from(s, t, d, a, b, k);
    lemma_rise_from(0 as real, t, d, a, b, k);
    lemma_rise_from(t, 1 as real, d, a, b, k);
    assert(exact_h01(0 as real) == 0 as real && exact_h10(0 as real) == 0 as real && exact_h11(0 as real) == 0 as real);
    assert(exact_h01(1 as real) == 1 as real && exact_h10(1 as real) == 0 as real && exact_h11(1 as real) == 0 as real);
    assert(d * (0 as real) == 0 as real && a * (0 as real) == 0 as real && b * (0 as real) == 0 as real);
    assert(d * (1 as real) == d);
}

proof fn lemma_rise_from(s: real, t: real, d: real, a: real, b: real, k: real)
    requires
        0 as real <= s <= t <= 1 as real,
        0 as real <= d,
        0 as real <= k,
        0 as real <= a <= 3 as real * d + k,
        0 as real <= b <= 3 as real * d + k,
    ensures
        rise(s, d, a, b) <= rise(t, d, a, b) + 2 as real * k,
{
    let f = if a <= 3 as real * d {
        a
    } else {
        3 as real * d
    };
    let g = if b <= 3 as real * d {
        b
    } else {
        3 as real * d
    };
    lemma_rise(s, t, d, f, g);
    lemma_basis_bounds(s);
    lemma_basis_bounds(t);
    let u = exact_h10(t) - exact_h10(s);
    let v = exact_h11(t) - exact_h11(s);
    lemma_rise_difference(s, t, d, a, b);
    lemma_rise_difference(s, t, d, f, g);
    lemma_bounded_part(a - f, u, k);
    lemma_bounded_part(b - g, v, k);
    assert((a - f) * u == a * u - f * u) by (nonlinear_arith);
    assert((b - g) * v == b * v - g * v) by (nonlinear_arith);
}

proof fn lemma_bounded_part(x: real, u: real, k: real)
    requires
        0 as real <= x <= k,
        -1 as real <= u <= 1 as real,
    ensures
        0 as real - k <= x * u <= k,
{
    assert(0 as real - k <= x * u <= k) by (nonlinear_arith)
        requires
            0 as real <= x <= k,
            -1 as real <= u <= 1 as real,
    ;
}

} // verus!
