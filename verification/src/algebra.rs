//! Products of real numbers.

use vstd::prelude::*;

verus! {

pub proof fn lemma_square(x: real)
    ensures
        x * x >= 0 as real,
{
    assert(x * x >= 0 as real) by (nonlinear_arith);
}

/// A product of numbers that are not negative.
pub proof fn lemma_nonnegative_product(x: real, y: real)
    requires
        x >= 0 as real,
        y >= 0 as real,
    ensures
        x * y >= 0 as real,
{
    assert(x * y >= 0 as real) by (nonlinear_arith)
        requires
            x >= 0 as real,
            y >= 0 as real,
    ;
}

pub proof fn lemma_regroup(x: real, y: real, z: real)
    ensures
        (x * y) * z == x * (y * z),
{
    assert((x * y) * z == x * (y * z)) by (nonlinear_arith);
}

pub proof fn lemma_distribute(x: real, y: real, z: real)
    ensures
        (x - y) * z == x * z - y * z,
{
    assert((x - y) * z == x * z - y * z) by (nonlinear_arith);
}

pub proof fn lemma_sum(x: real, y: real, z: real)
    ensures
        (x + y) * z == x * z + y * z,
{
    assert((x + y) * z == x * z + y * z) by (nonlinear_arith);
}

pub proof fn lemma_swap(x: real, y: real)
    ensures
        x * y == y * x,
{
    assert(x * y == y * x) by (nonlinear_arith);
}

/// A product with a factor that is not negative.
pub proof fn lemma_scaled(r: real, v: real, c: real)
    requires
        0 as real - c <= r <= c,
        v >= 0 as real,
    ensures
        0 as real - c * v <= r * v <= c * v,
{
    lemma_nonnegative_product(c - r, v);
    lemma_nonnegative_product(c + r, v);
    assert((c - r) * v == c * v - r * v) by (nonlinear_arith);
    assert((c + r) * v == c * v + r * v) by (nonlinear_arith);
}

pub proof fn lemma_scaled_up(x: real, y: real, e: real)
    requires
        x <= y,
        e >= 0 as real,
    ensures
        e * x <= e * y,
{
    lemma_nonnegative_product(y - x, e);
    lemma_distribute(y, x, e);
    lemma_swap(e, x);
    lemma_swap(e, y);
}

/// A product is no more than that of greater factors.
pub proof fn lemma_product_bound(x: real, y: real, m: real, n: real)
    requires
        0 as real <= x <= m,
        0 as real <= y <= n,
    ensures
        0 as real <= x * y <= m * n,
{
    lemma_nonnegative_product(x, y);
    lemma_scaled_up(y, n, x);
    lemma_scaled_up(x, m, n);
    lemma_swap(x, n);
    lemma_swap(m, n);
}

} // verus!
