//! How far rounding moves the limits of tangents, in real numbers.

use vstd::prelude::*;

verus! {

/// A relative error that is small.
pub open spec fn tiny(e: real) -> bool {
    (0 as real) < e <= 1 as real / 0x100_0000_0000 as real
}

/// The square of a small error is negligible.
proof fn lemma_tiny_square(e: real)
    requires
        tiny(e),
    ensures
        0 as real <= e * e <= e / 1024 as real,
{
    crate::algebra::lemma_nonnegative_product(e, e);
    crate::algebra::lemma_scaled_up(e, 1 as real / 1024 as real, e);
}

/// `r` is off from `x` by the relative error `e` and the absolute one `s` at most.
pub open spec fn rounds(r: real, x: real, e: real, s: real) -> bool {
    crate::measure::abs(r - x) <= e * crate::measure::abs(x) + s
}

/// What a rounded number that is not negative says of the exact one, and the other way round.
proof fn lemma_rounds(r: real, x: real, e: real, s: real)
    requires
        rounds(r, x, e, s),
        x >= 0 as real,
        tiny(e),
    ensures
        x * (1 as real - e) <= r + s,
        r <= x * (1 as real + e) + s,
{
    crate::algebra::lemma_distribute(1 as real, e, x);
    crate::algebra::lemma_distribute(1 as real, 0 as real - e, x);
    crate::algebra::lemma_distribute(0 as real, e, x);
    crate::algebra::lemma_swap(x, 1 as real - e);
    crate::algebra::lemma_swap(x, 1 as real + e);
    assert(0 as real * x == 0 as real);
}

/// A number whose rounded square is nine at most is three at most, but for rounding.
pub proof fn lemma_alpha_limit(alpha: real, sq: real, e: real, s: real)
    requires
        tiny(e),
        alpha >= 0 as real,
        0 as real <= s <= e,
        sq <= 9 as real,
        rounds(sq, alpha * alpha, e, s),
    ensures
        alpha <= 3 as real + 4 as real * e,
{
    let q = alpha * alpha;
    let m = 3 as real + 4 as real * e;
    lemma_tiny_square(e);
    crate::algebra::lemma_square(alpha);
    lemma_rounds(sq, q, e, s);
    if alpha > m {
        crate::algebra::lemma_product_bound(m, m, alpha, alpha);
        assert((3 as real + 4 as real * e) * (3 as real + 4 as real * e) == 9 as real + 24 as real * e + 16 as real * (e * e)) by (nonlinear_arith);
        let n = 9 as real + 24 as real * e;
        crate::algebra::lemma_product_bound(n, 1 as real - e, q, 1 as real - e);
        assert((9 as real + 24 as real * e) * (1 as real - e) == 9 as real + 15 as real * e - 24 as real * (e * e)) by (nonlinear_arith);
    }
}

/// A number that rounds to three at most, but for rounding, is itself so.
pub proof fn lemma_ratio_limit(r: real, alpha: real, e: real, s: real)
    requires
        tiny(e),
        r >= 0 as real,
        0 as real <= s <= e,
        alpha <= 3 as real + 4 as real * e,
        rounds(alpha, r, e, s),
    ensures
        r <= 3 as real + 12 as real * e,
{
    lemma_tiny_square(e);
    lemma_rounds(alpha, r, e, s);
    let m = 3 as real + 12 as real * e;
    if r > m {
        crate::algebra::lemma_product_bound(m, 1 as real - e, r, 1 as real - e);
        assert((3 as real + 12 as real * e) * (1 as real - e) == 3 as real + 9 as real * e - 12 as real * (e * e)) by (nonlinear_arith);
    }
}

/// A tangent that is about three chords is limited.
pub proof fn lemma_slope_limit(r: real, d: real, h: real, rise: real, e: real)
    requires
        tiny(e),
        0 as real <= r <= 3 as real + 30 as real * e,
        0 as real <= d,
        0 as real <= h,
        d * h <= rise + 4 as real * e,
        0 as real <= rise <= 1 as real,
    ensures
        0 as real <= h * (r * d) <= 3 as real * rise + 50 as real * e,
{
    lemma_tiny_square(e);
    let c = d * h;
    crate::algebra::lemma_nonnegative_product(d, h);
    crate::algebra::lemma_swap(h, r * d);
    crate::algebra::lemma_regroup(r, d, h);
    let m = 3 as real + 30 as real * e;
    let n = rise + 4 as real * e;
    crate::algebra::lemma_product_bound(r, c, m, n);
    assert((3 as real + 30 as real * e) * (rise + 4 as real * e) == 3 as real * rise + 12 as real * e + 30 as real * (e
        * rise) + 120 as real * (e * e)) by (nonlinear_arith);
    crate::algebra::lemma_scaled_up(rise, 1 as real, e);
}

/// A number whose rounded square is no more than `delta` is no more than the rounded root of `delta`,
/// but for rounding.
pub proof fn lemma_alpha_root(alpha: real, sq: real, delta: real, r: real, e: real, s: real)
    requires
        tiny(e),
        alpha >= 0 as real,
        0 as real <= s <= e,
        sq <= delta,
        9 as real <= delta,
        r >= 1 as real,
        delta <= r * r * (1 as real + 2 as real * e),
        rounds(sq, alpha * alpha, e, s),
    ensures
        alpha <= r * (1 as real + 3 as real * e),
{
    let q = alpha * alpha;
    let f = 1 as real + 3 as real * e;
    let m = r * f;
    let rr = r * r;
    lemma_tiny_square(e);
    crate::algebra::lemma_square(alpha);
    lemma_rounds(sq, q, e, s);
    crate::algebra::lemma_product_bound(1 as real, 1 as real, r, r);
    if alpha > m {
        crate::algebra::lemma_nonnegative_product(r, f);
        crate::algebra::lemma_product_bound(m, m, alpha, alpha);
        crate::algebra::lemma_regroup(r, f, m);
        crate::algebra::lemma_swap(f, m);
        crate::algebra::lemma_regroup(r, f, f);
        crate::algebra::lemma_regroup(r, r, f * f);
        let ff = f * f;
        assert((1 as real + 3 as real * e) * (1 as real + 3 as real * e) == 1 as real + 6 as real * e + 9 as real * (e * e)) by (nonlinear_arith);
        assert(ff >= 1 as real + 6 as real * e);
        crate::algebra::lemma_scaled_up(1 as real + 6 as real * e, ff, rr);
        let low = rr * (1 as real + 6 as real * e);
        assert(low <= q);
        crate::algebra::lemma_nonnegative_product(rr, 1 as real + 6 as real * e);
        crate::algebra::lemma_product_bound(low, 1 as real - e, q, 1 as real - e);
        crate::algebra::lemma_regroup(rr, 1 as real + 6 as real * e, 1 as real - e);
        assert((1 as real + 6 as real * e) * (1 as real - e) == 1 as real + 5 as real * e - 6 as real * (e * e)) by (nonlinear_arith);
        let g = (1 as real + 6 as real * e) * (1 as real - e);
        assert(g >= 1 as real + 4 as real * e);
        crate::algebra::lemma_scaled_up(1 as real + 4 as real * e, g, rr);
        let k = 1 as real + 2 as real * e;
        crate::algebra::lemma_distribute(1 as real + 4 as real * e, k, rr);
        crate::algebra::lemma_swap(rr, 1 as real + 4 as real * e);
        crate::algebra::lemma_swap(rr, k);
        crate::algebra::lemma_scaled_up(1 as real, rr, 2 as real * e);
        crate::algebra::lemma_swap(2 as real * e, rr);
        assert((1 as real + 4 as real * e) - k == 2 as real * e);
        assert(rr * (1 as real + 4 as real * e) >= rr * k + 2 as real * e);
    }
}

/// The factor of a limited tangent in chords is about three at most.
pub proof fn lemma_tau_alpha(alpha: real, r: real, g: real, tau: real, e: real, s: real)
    requires
        tiny(e),
        0 as real <= s <= e,
        0 as real <= alpha <= r * (1 as real + 3 as real * e),
        r >= 1 as real,
        g * r == 3 as real,
        g >= 0 as real,
        tau >= 0 as real,
        rounds(tau, g, e, s),
        s * alpha <= 4 as real * e,
    ensures
        0 as real <= tau * alpha <= 3 as real + 17 as real * e,
{
    lemma_tiny_square(e);
    let f = 1 as real + 3 as real * e;
    lemma_rounds(tau, g, e, s);
    let ga = g * alpha;
    assert(0 as real <= ga <= 3 as real + 9 as real * e) by {
        crate::algebra::lemma_nonnegative_product(g, alpha);
        crate::algebra::lemma_scaled_up(alpha, r * f, g);
        crate::algebra::lemma_regroup(g, r, f);
    }
    let up = 1 as real + e;
    crate::algebra::lemma_nonnegative_product(tau, alpha);
    crate::algebra::lemma_scaled_up(tau, g * up + s, alpha);
    crate::algebra::lemma_swap(alpha, tau);
    crate::algebra::lemma_swap(alpha, g * up + s);
    crate::algebra::lemma_distribute(g * up, 0 as real - s, alpha);
    crate::algebra::lemma_distribute(0 as real, s, alpha);
    assert(0 as real * alpha == 0 as real);
    crate::algebra::lemma_regroup(g, up, alpha);
    crate::algebra::lemma_swap(up, alpha);
    crate::algebra::lemma_regroup(g, alpha, up);
    crate::algebra::lemma_product_bound(ga, up, 3 as real + 9 as real * e, up);
    assert((3 as real + 9 as real * e) * (1 as real + e) == 3 as real + 12 as real * e + 9 as real * (e * e))
        by (nonlinear_arith);
}

/// A limited tangent, step by step: `g` is the exact quotient of three by the root.
pub proof fn lemma_scaled_tangent(
    alpha: real,
    r: real,
    g: real,
    tau: real,
    p: real,
    a: real,
    d: real,
    h: real,
    rise: real,
    e: real,
    s: real,
)
    requires
        tiny(e),
        0 as real <= s <= e,
        0 as real <= alpha <= r * (1 as real + 3 as real * e),
        r >= 1 as real,
        g * r == 3 as real,
        g >= 0 as real,
        tau >= 0 as real,
        p >= 0 as real,
        rounds(tau, g, e, s),
        rounds(p, tau * alpha, e, s),
        rounds(a, p * d, e, s),
        s * alpha <= 4 as real * e,
        0 as real <= d,
        0 as real <= h <= 1 as real,
        d * h <= rise + 4 as real * e,
        0 as real <= rise <= 1 as real,
    ensures
        h * a <= 3 as real * rise + 60 as real * e,
{
    lemma_tiny_square(e);
    let ta = tau * alpha;
    let up = 1 as real + e;
    lemma_tau_alpha(alpha, r, g, tau, e, s);
    lemma_rounds(p, ta, e, s);
    assert(p <= 3 as real + 22 as real * e) by {
        crate::algebra::lemma_product_bound(ta, up, 3 as real + 17 as real * e, up);
        assert((3 as real + 17 as real * e) * (1 as real + e) == 3 as real + 20 as real * e + 17 as real * (e * e)) by (nonlinear_arith);
    }
    let pd = p * d;
    crate::algebra::lemma_nonnegative_product(p, d);
    lemma_rounds(a, pd, e, s);
    let c = p * up;
    assert(0 as real <= c <= 3 as real + 30 as real * e) by {
        crate::algebra::lemma_product_bound(p, up, 3 as real + 22 as real * e, up);
        assert((3 as real + 22 as real * e) * (1 as real + e) == 3 as real + 25 as real * e + 22 as real * (e * e)) by (nonlinear_arith);
    }
    assert(pd * up == c * d) by {
        crate::algebra::lemma_regroup(p, d, up);
        crate::algebra::lemma_swap(d, up);
        crate::algebra::lemma_regroup(p, up, d);
    }
    lemma_slope_limit(c, d, h, rise, e);
    assert(h * a <= h * (c * d) + s) by {
        crate::algebra::lemma_scaled_up(a, c * d + s, h);
        crate::algebra::lemma_swap(h, c * d + s);
        crate::algebra::lemma_distribute(c * d, 0 as real - s, h);
        crate::algebra::lemma_distribute(0 as real, s, h);
        assert(0 as real * h == 0 as real);
        crate::algebra::lemma_swap(h, c * d);
        crate::algebra::lemma_scaled_up(h, 1 as real, s);
        crate::algebra::lemma_swap(s, h);
    }
}

/// A tangent that is limited a second time grows by no more than rounding.
pub proof fn lemma_rescaled_tangent(
    b: real,
    beta: real,
    d: real,
    r: real,
    g: real,
    tau: real,
    p: real,
    c: real,
    h: real,
    delta: real,
    e: real,
    s: real,
)
    requires
        tiny(e),
        0 as real <= s <= e,
        0 as real <= b,
        0 as real <= beta,
        (0 as real) < d,
        rounds(beta, b / d, e, s),
        9 as real <= delta,
        r >= 1 as real,
        delta <= r * r * (1 as real + 2 as real * e),
        g * r == 3 as real,
        g >= 0 as real,
        tau >= 0 as real,
        p >= 0 as real,
        rounds(tau, g, e, s),
        rounds(p, tau * beta, e, s),
        rounds(c, p * d, e, s),
        s * d <= 4 as real * e,
        0 as real <= h <= 1 as real,
        h * b <= 4 as real,
    ensures
        h * c <= h * b + 100 as real * e,
{
    lemma_tiny_square(e);
    let up = 1 as real + e;
    assert(g <= 1 as real + 2 as real * e) by {
        let m = 1 as real + 2 as real * e;
        if g > m {
            let rr = r * r;
            crate::algebra::lemma_product_bound(1 as real, 1 as real, r, r);
            crate::algebra::lemma_product_bound(m, r, g, r);
            crate::algebra::lemma_nonnegative_product(m, r);
            crate::algebra::lemma_product_bound(m * r, m * r, 3 as real, 3 as real);
            crate::algebra::lemma_regroup(m, r, m * r);
            crate::algebra::lemma_swap(r, m * r);
            crate::algebra::lemma_regroup(m, r, r);
            crate::algebra::lemma_regroup(m, m, rr);
            let mm = m * m;
            assert((1 as real + 2 as real * e) * (1 as real + 2 as real * e) == 1 as real + 4 as real * e + 4 as real * (e * e)) by (nonlinear_arith);
            assert(mm >= m + 2 as real * e);
            crate::algebra::lemma_scaled_up(m + 2 as real * e, mm, rr);
            crate::algebra::lemma_swap(rr, mm);
            crate::algebra::lemma_swap(rr, m);
            crate::algebra::lemma_distribute(m, 0 as real - 2 as real * e, rr);
            crate::algebra::lemma_distribute(0 as real, 2 as real * e, rr);
            crate::algebra::lemma_swap(rr, m + 2 as real * e);
            assert(0 as real * rr == 0 as real);
            crate::algebra::lemma_scaled_up(1 as real, rr, 2 as real * e);
            assert(mm * rr <= 9 as real);
            assert(m * rr + 2 as real * e <= 9 as real);
        }
    }
    lemma_rounds(tau, g, e, s);
    assert(tau <= 1 as real + 5 as real * e) by {
        crate::algebra::lemma_product_bound(g, up, 1 as real + 2 as real * e, up);
        assert((1 as real + 2 as real * e) * (1 as real + e) == 1 as real + 3 as real * e + 2 as real * (e * e)) by (nonlinear_arith);
    }
    let q = b / d;
    assert(q * d == b && q >= 0 as real) by {
        lemma_quotient(b, d);
    }
    lemma_rounds(beta, q, e, s);
    let tb = tau * beta;
    crate::algebra::lemma_nonnegative_product(tau, beta);
    lemma_rounds(p, tb, e, s);
    let pd = p * d;
    crate::algebra::lemma_nonnegative_product(p, d);
    lemma_rounds(c, pd, e, s);
    // the factors of `beta` in `p`
    let w = 1 as real + 7 as real * e;
    assert(tb * up <= beta * w) by {
        let t = 1 as real + 5 as real * e;
        crate::algebra::lemma_scaled_up(tau, t, beta);
        crate::algebra::lemma_swap(tau, beta);
        crate::algebra::lemma_nonnegative_product(beta, t);
        crate::algebra::lemma_product_bound(tb, up, beta * t, up);
        crate::algebra::lemma_regroup(beta, t, up);
        assert((1 as real + 5 as real * e) * (1 as real + e) == 1 as real + 6 as real * e + 5 as real * (e * e)) by (nonlinear_arith);
        crate::algebra::lemma_scaled_up(t * up, w, beta);
    }
    assert(p <= beta * w + s);
    // `beta * d` against `b`
    let bd = beta * d;
    assert(bd <= b * up + 4 as real * e) by {
        crate::algebra::lemma_scaled_up(beta, q * up + s, d);
        crate::algebra::lemma_swap(d, beta);
        crate::algebra::lemma_swap(d, q * up + s);
        crate::algebra::lemma_distribute(q * up, 0 as real - s, d);
        crate::algebra::lemma_distribute(0 as real, s, d);
        assert(0 as real * d == 0 as real);
        crate::algebra::lemma_regroup(q, up, d);
        crate::algebra::lemma_swap(up, d);
        crate::algebra::lemma_regroup(q, d, up);
    }
    assert(pd <= bd * w + 4 as real * e) by {
        crate::algebra::lemma_scaled_up(p, beta * w + s, d);
        crate::algebra::lemma_swap(d, p);
        crate::algebra::lemma_swap(d, beta * w + s);
        crate::algebra::lemma_distribute(beta * w, 0 as real - s, d);
        crate::algebra::lemma_distribute(0 as real, s, d);
        assert(0 as real * d == 0 as real);
        crate::algebra::lemma_regroup(beta, w, d);
        crate::algebra::lemma_swap(w, d);
        crate::algebra::lemma_regroup(beta, d, w);
    }
    // all together over the width
    let hb = h * b;
    crate::algebra::lemma_nonnegative_product(h, b);
    let hbd = h * bd;
    crate::algebra::lemma_nonnegative_product(beta, d);
    assert(0 as real <= hbd <= hb + 9 as real * e) by {
        crate::algebra::lemma_nonnegative_product(h, bd);
        crate::algebra::lemma_scaled_up(bd, b * up + 4 as real * e, h);
        lemma_over_width(h, b, up, 4 as real * e);
        lemma_one_more(hb, 4 as real, 1 as real, e);
    }
    let hpd = h * pd;
    assert(0 as real <= hpd <= hbd + 40 as real * e) by {
        crate::algebra::lemma_nonnegative_product(h, pd);
        crate::algebra::lemma_scaled_up(pd, bd * w + 4 as real * e, h);
        lemma_over_width(h, bd, w, 4 as real * e);
        lemma_one_more(hbd, 5 as real, 7 as real, e);
    }
    assert(h * c <= hpd + 7 as real * e) by {
        crate::algebra::lemma_scaled_up(c, pd * up + s, h);
        lemma_over_width(h, pd, up, s);
        lemma_one_more(hpd, 6 as real, 1 as real, e);
    }
}

pub proof fn lemma_quotient(b: real, d: real)
    requires
        d > 0 as real,
        b >= 0 as real,
    ensures
        (b / d) * d == b,
        b / d >= 0 as real,
{
    assert((b / d) * d == b) by (nonlinear_arith)
        requires
            d > 0 as real,
    ;
    let q = b / d;
    if q < 0 as real {
        crate::algebra::lemma_scaled_up(q, 0 as real, d);
        crate::algebra::lemma_swap(d, q);
        assert(d * (0 as real) == 0 as real);
        assert(q * d <= 0 as real);
        assert(b == 0 as real);
        assert(0 as real / d == 0 as real) by (nonlinear_arith)
            requires
                d > 0 as real,
        ;
    }
}

/// A bound on a level is one over a width of one at most.
proof fn lemma_over_width(h: real, x: real, f: real, k: real)
    requires
        0 as real <= h <= 1 as real,
        k >= 0 as real,
    ensures
        h * (x * f + k) <= (h * x) * f + k,
{
    crate::algebra::lemma_swap(h, x * f + k);
    crate::algebra::lemma_distribute(x * f, 0 as real - k, h);
    crate::algebra::lemma_distribute(0 as real, k, h);
    assert(0 as real * h == 0 as real);
    crate::algebra::lemma_swap(h, x * f);
    crate::algebra::lemma_regroup(h, x, f);
    crate::algebra::lemma_scaled_up(h, 1 as real, k);
    crate::algebra::lemma_swap(k, h);
}

/// A factor near one.
proof fn lemma_one_more(x: real, m: real, k: real, e: real)
    requires
        0 as real <= x <= m,
        tiny(e),
        k >= 0 as real,
    ensures
        x * (1 as real + k * e) <= x + (m * k) * e,
        k == 1 as real ==> x * (1 as real + e) <= x + m * e,
{
    let f = k * e;
    crate::algebra::lemma_nonnegative_product(k, e);
    crate::algebra::lemma_scaled_up(x, m, f);
    crate::algebra::lemma_swap(x, 1 as real + f);
    crate::algebra::lemma_distribute(1 as real, 0 as real - f, x);
    crate::algebra::lemma_distribute(0 as real, f, x);
    assert(0 as real * x == 0 as real);
    crate::algebra::lemma_swap(f, m);
    crate::algebra::lemma_regroup(m, k, e);
}

} // verus!
