//! Finite values as real numbers, and how far an operation may be from the exact result.

use vstd::prelude::*;
use vstd::arithmetic::power2::*;
use crate::double::Double;
use crate::double::{HIDDEN, INFINITY};

verus! {

/// The real number that a finite value stands for.
pub closed spec fn value(d: Double) -> real {
    d.amount() as real / crate::double::one_in_units() as real
}

/// The absolute value of a real number.
pub open spec fn abs(x: real) -> real {
    if x < 0 as real {
        0 as real - x
    } else {
        x
    }
}

/// `2^-52`, the distance from one to the next value.
pub open spec fn epsilon() -> real {
    1 as real / HIDDEN as real
}

/// `2^-1074`, the smallest positive value.
pub closed spec fn smallest() -> real {
    1 as real / crate::double::one_in_units() as real
}

/// Finite values are ordered as the real numbers that they stand for.
pub proof fn lemma_value_order(a: Double, b: Double)
    requires
        a.finite(),
        b.finite(),
    ensures
        a.at_most(b) <==> value(a) <= value(b),
        a.less(b) <==> value(a) < value(b),
        a.same(b) <==> value(a) == value(b),
{
    let x = a.amount();
    let y = b.amount();
    let o = crate::double::one_in_units();
    crate::double::lemma_units_order(a.magnitude(), b.magnitude());
    crate::double::lemma_units_order(a.magnitude(), 0);
    crate::double::lemma_units_order(b.magnitude(), 0);
    lemma_pow2_pos(1074);
    assert(x <= y <==> a.rank() <= b.rank());
    assert(y <= x <==> b.rank() <= a.rank());
    lemma_scaled_order(x, y, o as int);
    lemma_scaled_order(y, x, o as int);
}

proof fn lemma_scaled_order(x: int, y: int, o: int)
    requires
        o > 0,
    ensures
        x <= y <==> x as real / o as real <= y as real / o as real,
{
    assert(x <= y <==> x as real / o as real <= y as real / o as real) by (nonlinear_arith)
        requires
            o > 0,
    ;
}

/// A ratio is rounded by half the distance of neighbours at most: by `2^-53` of the result, or by half
/// a unit.
proof fn lemma_rounding_error(n: nat, d: nat)
    requires
        d > 0,
        crate::double::round_ratio(n, d) < INFINITY,
    ensures
        ({
            let u = crate::double::units(crate::double::round_ratio(n, d));
            ||| -(u * d) <= 2 * HIDDEN * (u * d - n) <= u * d
            ||| -(d as int) <= 2 * (u * d - n) <= d
        }),
{
    let b = crate::double::round_ratio(n, d);
    let side = crate::double::ratio_side(n, d);
    let u = crate::double::units(b);
    let p = pow2(crate::double::exponent(b));
    let h = HIDDEN as nat;
    lemma2_to64();
    crate::double::lemma_round_ratio(n, d);
    crate::double::lemma_units_parts(b);
    assert(side(u + crate::double::units(b + 1)) <= 0);
    assert(2 * n <= d * (2 * u + p)) by (nonlinear_arith)
        requires
            2 * n - (u + (u + p)) * d <= 0,
    ;
    if b == 0 {
        assert(2 * n <= d) by (nonlinear_arith)
            requires
                2 * n <= d * (2 * u + p),
                u == 0,
                p == 1,
        {
        }
        assert(u * d == 0) by (nonlinear_arith)
            requires
                u == 0,
        ;
    } else {
        let a = (b - 1) as nat;
        let q = pow2(crate::double::exponent(a));
        crate::double::lemma_units_parts(a);
        assert(side((crate::double::units(a) + u) as nat) >= 0);
        assert(q <= p) by {
            if b >= h {
                vstd::arithmetic::div_mod::lemma_div_is_ordered(a as int, b as int, h as int);
                if crate::double::exponent(a) < crate::double::exponent(b) {
                    lemma_pow2_strictly_increases(crate::double::exponent(a), crate::double::exponent(b));
                }
            }
        }
        assert(2 * n >= d * (2 * u - p)) by (nonlinear_arith)
            requires
                2 * n - ((u - q) + u) * d >= 0,
                q <= p,
        ;
        if crate::double::exponent(b) == 0 {
            assert(-(d as int) <= 2 * (u * d - n) <= d) by (nonlinear_arith)
                requires
                    2 * n <= d * (2 * u + p),
                    2 * n >= d * (2 * u - p),
                    p == 1,
            ;
        } else {
            assert(u >= h * p) by (nonlinear_arith)
                requires
                    u == crate::double::significand(b) * p,
                    crate::double::significand(b) >= h,
            ;
            assert(-(u * d) <= 2 * h * (u * d - n) <= u * d) by (nonlinear_arith)
                requires
                    2 * n <= d * (2 * u + p),
                    2 * n >= d * (2 * u - p),
                    u >= h * p,
            ;
        }
    }
}

/// `2^1000`: no result up to this is infinite.
pub closed spec fn huge() -> real {
    pow2(1000) as real
}

/// The pattern of `2^1000`.
spec fn huge_pattern() -> nat {
    (2023 * HIDDEN) as nat
}

proof fn lemma_huge()
    ensures
        crate::double::units(huge_pattern()) == pow2(1000) * crate::double::one_in_units(),
        huge_pattern() < INFINITY,
{
    crate::double::lemma_units_layout(2022, HIDDEN as nat);
    lemma_pow2_adds(1000, 1074);
    lemma_pow2_adds(52, 2022);
    lemma2_to64();
    lemma2_to64_rest();
}

/// The real number that the sign and the pattern of a finite value stand for.
proof fn lemma_value_signed(negative: bool, b: nat)
    requires
        b <= INFINITY,
    ensures
        ({
            let d = crate::double::signed(negative, b);
            &&& d.magnitude() == b
            &&& d.negative() == negative
            &&& !d.is_nan()
            &&& d.finite() <==> b < INFINITY
            &&& d.amount() == if negative {
                -(crate::double::units(b) as int)
            } else {
                crate::double::units(b) as int
            }
        }),
{
}

/// The sum of finite values is off by `2^-52` of the exact sum at most.
pub proof fn lemma_plus(a: Double, b: Double)
    requires
        a.finite(),
        b.finite(),
        abs(value(a) + value(b)) <= huge(),
    ensures
        a.plus(b).finite(),
        abs(value(a.plus(b)) - (value(a) + value(b))) <= epsilon() * abs(value(a) + value(b)),
{
    reveal(Double::spec_plus);
    let n = a.amount() + b.amount();
    let m = crate::double::size_of(n);
    let o = crate::double::one_in_units();
    lemma_pow2_pos(1074);
    lemma_huge();
    let x = n as real / o as real;
    assert(value(a) + value(b) == x) by (nonlinear_arith)
        requires
            o > 0,
            n == a.amount() + b.amount(),
            x == n as real / o as real,
            value(a) == a.amount() as real / o as real,
            value(b) == b.amount() as real / o as real,
    ;
    lemma_scaled_bound(n, o as int, pow2(1000) as int);
    if n == 0 {
        lemma_value_signed(a.negative() && b.negative(), 0);
        lemma_zero_value(a.plus(b));
        assert(x == 0 as real) by (nonlinear_arith)
            requires
                o > 0,
                x == n as real / o as real,
                n == 0,
        ;
        assert(epsilon() * (0 as real) == 0 as real) by (nonlinear_arith);
    } else {
        let r = crate::double::round_ratio(m, 1);
        crate::double::lemma_round_ratio_at_most(m, 1, huge_pattern());
        lemma_value_signed(n < 0, r);
        lemma_rounding_error(m, 1);
        let u = crate::double::units(r);
        let e = a.plus(b).amount() - n;
        assert(2 * HIDDEN * (u - m) <= u && 2 * HIDDEN * (m - u) <= u);
        assert(HIDDEN * e <= m && HIDDEN * -e <= m);
        lemma_relative(e, n, o as int, 0);
        assert(0int as real / o as real == 0 as real) by (nonlinear_arith)
            requires
                o > 0,
        ;
        assert(value(a.plus(b)) - x == e as real / o as real) by (nonlinear_arith)
            requires
                o > 0,
                value(a.plus(b)) == a.plus(b).amount() as real / o as real,
                x == n as real / o as real,
                e == a.plus(b).amount() - n,
        ;
    }
}

proof fn lemma_zero_value(d: Double)
    requires
        d.magnitude() == 0,
    ensures
        value(d) == 0 as real,
{
    assert(d.amount() == 0);
    let o = crate::double::one_in_units();
    lemma_pow2_pos(1074);
    assert(0int as real / o as real == 0 as real) by (nonlinear_arith)
        requires
            o > 0,
    ;
}

/// A bound on a fraction is one on its numerator.
proof fn lemma_scaled_bound(n: int, o: int, limit: int)
    requires
        o > 0,
        abs(n as real / o as real) <= limit as real,
    ensures
        -(limit * o) <= n <= limit * o,
{
    assert(-(limit * o) <= n <= limit * o) by (nonlinear_arith)
        requires
            o > 0,
            n as real / o as real <= limit as real,
            0 as real - limit as real <= n as real / o as real,
    ;
}

/// An error of `2^-52` of `n` and of `k` units, as a real number.
proof fn lemma_relative(e: int, n: int, o: int, k: int)
    requires
        o > 0,
        k >= 0,
        HIDDEN * e <= crate::double::size_of(n) + HIDDEN * k,
        HIDDEN * -e <= crate::double::size_of(n) + HIDDEN * k,
    ensures
        abs(e as real / o as real) <= epsilon() * abs(n as real / o as real) + k as real / o as real,
{
    let h = HIDDEN as int;
    let m = crate::double::size_of(n) as int;
    assert(abs(n as real / o as real) == m as real / o as real) by (nonlinear_arith)
        requires
            o > 0,
            m == (if n < 0 { -n } else { n }),
    ;
    assert(e as real / o as real <= (1 as real / h as real) * (m as real / o as real) + k as real / o as real)
        by (nonlinear_arith)
        requires
            o > 0,
            h > 0,
            h * e <= m + h * k,
    ;
    assert(0 as real - e as real / o as real <= (1 as real / h as real) * (m as real / o as real) + k as real / o as real)
        by (nonlinear_arith)
        requires
            o > 0,
            h > 0,
            h * -e <= m + h * k,
    ;
}

/// A product of fractions.
proof fn lemma_fraction_product(x: int, y: int, o: int)
    requires
        o > 0,
    ensures
        (x as real / o as real) * (y as real / o as real) == (x * y) as real / (o * o) as real,
{
    assert((x as real / o as real) * (y as real / o as real) == (x * y) as real / (o * o) as real)
        by (nonlinear_arith)
        requires
            o > 0,
    ;
}

/// A quotient of fractions.
proof fn lemma_fraction_quotient(x: int, y: int, o: int)
    requires
        o > 0,
        y != 0,
    ensures
        (x as real / o as real) / (y as real / o as real) == (x * o) as real / (o * y) as real,
{
    let p = x as real / o as real;
    let q = y as real / o as real;
    assert(q != 0 as real) by (nonlinear_arith)
        requires
            o > 0,
            y != 0,
            q == y as real / o as real,
    ;
    let r = (x * o) as real / (o * y) as real;
    assert(r * q == p) by (nonlinear_arith)
        requires
            o > 0,
            y != 0,
            p == x as real / o as real,
            q == y as real / o as real,
            r == (x * o) as real / (o * y) as real,
    ;
    assert(p / q == r) by (nonlinear_arith)
        requires
            r * q == p,
            q != 0 as real,
    ;
}

/// A fraction brought to another denominator.
proof fn lemma_fraction_expand(x: int, o: int, y: int)
    requires
        o > 0,
        y != 0,
    ensures
        x as real / o as real == (x * y) as real / (o * y) as real,
{
    assert(x as real / o as real == (x * y) as real / (o * y) as real) by (nonlinear_arith)
        requires
            o > 0,
            y != 0,
    ;
}

/// The difference of fractions.
proof fn lemma_fraction_difference(x: int, y: int, o: int)
    requires
        o != 0,
    ensures
        x as real / o as real - y as real / o as real == (x - y) as real / o as real,
{
    assert(x as real / o as real - y as real / o as real == (x - y) as real / o as real) by (nonlinear_arith)
        requires
            o != 0,
    ;
}

/// The difference of two fractions over `o` and over its square.
proof fn lemma_scaled_difference(p: int, o: int, n: int, oo: int, v: real, w: real)
    requires
        o > 0,
        oo == o * o,
        v == p as real / o as real,
        w == n as real / oo as real,
    ensures
        v - w == (p * o - n) as real / oo as real,
{
    assert(v - w == (p * o - n) as real / oo as real) by (nonlinear_arith)
        requires
            o > 0,
            oo == o * o,
            v == p as real / o as real,
            w == n as real / oo as real,
    ;
}

/// The amount of a product or quotient with its sign.
spec fn with_sign(negative: bool, n: int) -> int {
    if negative {
        -n
    } else {
        n
    }
}

/// A finite product of finite values is off by `2^-52` of the exact product and `2^-1074` at most.
pub proof fn lemma_finite_product(a: Double, b: Double)
    requires
        a.finite(),
        b.finite(),
        a.times(b).finite(),
    ensures
        abs(value(a.times(b)) - value(a) * value(b)) <= epsilon() * abs(value(a) * value(b)) + smallest(),
{
    reveal(Double::spec_times);
    let o = crate::double::one_in_units() as int;
    let x = crate::double::units(a.magnitude());
    let y = crate::double::units(b.magnitude());
    let minus = a.negative() != b.negative();
    let n = a.amount() * b.amount();
    let r = a.times(b);
    let oo = o * o;
    lemma_product_amounts(a, b);
    assert(oo > 0) by (nonlinear_arith)
        requires
            o > 0,
            oo == o * o,
    ;
    let m = round_of(x * y, o as nat);
    crate::double::lemma_round_ratio(x * y, o as nat);
    lemma_value_signed(minus, m);
    lemma_rounding_error(x * y, o as nat);
    let u = crate::double::units(m);
    let e = r.amount() * o - n;
    assert(e == with_sign(minus, u * o - x * y)) by (nonlinear_arith)
        requires
            r.amount() == with_sign(minus, u as int),
            n == with_sign(minus, (x * y) as int),
            e == r.amount() * o - n,
    ;
    lemma_error_bound((u * o) as int, (x * y) as int, o);
    lemma_relative(e, n, oo, o);
    lemma_fraction_expand(1, o, o);
    lemma_scaled_difference(r.amount(), o, n, oo, value(r), value(a) * value(b));
    assert(smallest() == o as real / oo as real);
}

/// The product of finite values is off by `2^-52` of the exact product and `2^-1074` at most.
pub proof fn lemma_times(a: Double, b: Double)
    requires
        a.finite(),
        b.finite(),
        abs(value(a) * value(b)) <= huge(),
    ensures
        a.times(b).finite(),
        abs(value(a.times(b)) - value(a) * value(b)) <= epsilon() * abs(value(a) * value(b)) + smallest(),
        a.negative() == b.negative() ==> value(a.times(b)) >= 0 as real,
{
    reveal(Double::spec_times);
    let o = crate::double::one_in_units() as int;
    let x = crate::double::units(a.magnitude());
    let y = crate::double::units(b.magnitude());
    let n = a.amount() * b.amount();
    let oo = o * o;
    lemma_huge();
    lemma_product_amounts(a, b);
    assert(oo > 0) by (nonlinear_arith)
        requires
            o > 0,
            oo == o * o,
    ;
    lemma_scaled_bound(n, oo, pow2(1000) as int);
    let m = round_of(x * y, o as nat);
    let hu = crate::double::units(huge_pattern());
    assert(pow2(1000) * oo == hu * o) by (nonlinear_arith)
        requires
            hu == pow2(1000) * o,
            oo == o * o,
    ;
    crate::double::lemma_round_ratio_at_most(x * y, o as nat, huge_pattern());
    lemma_value_signed(a.negative() != b.negative(), m);
    lemma_finite_product(a, b);
    if a.negative() == b.negative() {
        lemma_not_below_zero(a.times(b));
    }
}

/// A value without a sign is not below zero.
pub proof fn lemma_not_below_zero(d: Double)
    requires
        !d.negative(),
    ensures
        value(d) >= 0 as real,
{
    let o = crate::double::one_in_units() as int;
    let u = crate::double::units(d.magnitude()) as int;
    lemma_pow2_pos(1074);
    assert(u as real / o as real >= 0 as real) by (nonlinear_arith)
        requires
            o > 0,
            u >= 0,
    ;
}

/// `round_ratio`, for short.
spec fn round_of(n: nat, d: nat) -> nat {
    crate::double::round_ratio(n, d)
}

/// The bound of `lemma_rounding_error` in terms of the exact numerator.
proof fn lemma_error_bound(w: int, n: int, d: int)
    requires
        d >= 0,
        n >= 0,
        (-w <= 2 * HIDDEN * (w - n) <= w) || (-d <= 2 * (w - n) <= d),
    ensures
        HIDDEN * (w - n) <= n + HIDDEN * d,
        HIDDEN * -(w - n) <= n + HIDDEN * d,
{
    let h = HIDDEN as int;
    let e = w - n;
    assert(2 * HIDDEN * (w - n) == 2 * (h * e)) by (nonlinear_arith)
        requires
            h == HIDDEN,
            e == w - n,
    ;
    assert(h * e >= e || e <= 0) by (nonlinear_arith)
        requires
            h > 0,
    ;
    assert(h * e <= e || e >= 0) by (nonlinear_arith)
        requires
            h > 0,
    ;
    assert(h * -e == -(h * e)) by (nonlinear_arith);
    assert(h * d >= 0) by (nonlinear_arith)
        requires
            h > 0,
            d >= 0,
    ;
    assert(2 * e <= d ==> 2 * (h * e) <= h * d) by (nonlinear_arith)
        requires
            h > 0,
    ;
    assert(2 * e >= -d ==> 2 * (h * e) >= -(h * d)) by (nonlinear_arith)
        requires
            h > 0,
    ;
}

/// The exact quotient of finite values as a fraction.
proof fn lemma_quotient_fraction(a: Double, b: Double)
    requires
        a.finite(),
        b.finite(),
        !b.zero(),
    ensures
        ({
            let o = crate::double::one_in_units() as int;
            let x = crate::double::units(a.magnitude());
            let y = crate::double::units(b.magnitude());
            let n = with_sign(a.negative() != b.negative(), x * o);
            &&& o > 0
            &&& y > 0
            &&& o * y > 0
            &&& x * o >= 0
            &&& value(a) / value(b) == n as real / (o * y) as real
        }),
{
    let o = crate::double::one_in_units() as int;
    let x = crate::double::units(a.magnitude());
    let y = crate::double::units(b.magnitude());
    let minus = a.negative() != b.negative();
    lemma_pow2_pos(1074);
    crate::double::lemma_units_order(b.magnitude(), 0);
    let n = with_sign(minus, x * o);
    let q = o * y;
    lemma_fraction_quotient(a.amount(), b.amount(), o);
    assert(q > 0) by (nonlinear_arith)
        requires
            o > 0,
            y > 0,
            q == o * y,
    ;
    assert(x * o >= 0) by (nonlinear_arith)
        requires
            o > 0,
            x >= 0,
    ;
    let s = a.amount() * o;
    let t = o * b.amount();
    if b.negative() {
        assert(s == -n && t == -q) by (nonlinear_arith)
            requires
                b.negative(),
                a.amount() == with_sign(a.negative(), x as int),
                b.amount() == with_sign(b.negative(), y as int),
                minus == (a.negative() != b.negative()),
                n == with_sign(minus, x * o),
                q == o * y,
                s == a.amount() * o,
                t == o * b.amount(),
        ;
        assert((-n) as real / (-q) as real == n as real / q as real) by (nonlinear_arith)
            requires
                q > 0,
        ;
    } else {
        assert(s == n && t == q) by (nonlinear_arith)
            requires
                !b.negative(),
                a.amount() == with_sign(a.negative(), x as int),
                b.amount() == with_sign(b.negative(), y as int),
                minus == (a.negative() != b.negative()),
                n == with_sign(minus, x * o),
                q == o * y,
                s == a.amount() * o,
                t == o * b.amount(),
        ;
    }
}

/// A finite quotient of finite values is off by `2^-52` of the exact quotient and `2^-1074` at most.
pub proof fn lemma_finite_quotient(a: Double, b: Double)
    requires
        a.finite(),
        b.finite(),
        !b.zero(),
        a.over(b).finite(),
    ensures
        abs(value(a.over(b)) - value(a) / value(b)) <= epsilon() * abs(value(a) / value(b)) + smallest(),
{
    reveal(Double::spec_over);
    let o = crate::double::one_in_units() as int;
    let x = crate::double::units(a.magnitude());
    let y = crate::double::units(b.magnitude());
    let minus = a.negative() != b.negative();
    let r = a.over(b);
    lemma_quotient_fraction(a, b);
    let n = with_sign(minus, x * o);
    let q = o * y;
    let m = round_of((x * o) as nat, y);
    crate::double::lemma_round_ratio((x * o) as nat, y);
    lemma_value_signed(minus, m);
    lemma_rounding_error((x * o) as nat, y);
    let u = crate::double::units(m);
    let e = r.amount() * y - n;
    assert(e == with_sign(minus, u * y - x * o)) by (nonlinear_arith)
        requires
            r.amount() == with_sign(minus, u as int),
            n == with_sign(minus, x * o),
            e == r.amount() * y - n,
    ;
    lemma_error_bound((u * y) as int, x * o, y as int);
    lemma_relative(e, n, q, y as int);
    lemma_fraction_expand(r.amount(), o, y as int);
    lemma_fraction_difference(r.amount() * y, n, q);
    lemma_fraction_expand(1, o, y as int);
    assert(value(r) == (r.amount() * y) as real / q as real);
    assert(smallest() == (y as int) as real / q as real);
}

/// The quotient of finite values is off by `2^-52` of the exact quotient and `2^-1074` at most.
pub proof fn lemma_over(a: Double, b: Double)
    requires
        a.finite(),
        b.finite(),
        !b.zero(),
        abs(value(a) / value(b)) <= huge(),
    ensures
        a.over(b).finite(),
        abs(value(a.over(b)) - value(a) / value(b)) <= epsilon() * abs(value(a) / value(b)) + smallest(),
        a.negative() == b.negative() ==> value(a.over(b)) >= 0 as real,
{
    reveal(Double::spec_over);
    let o = crate::double::one_in_units() as int;
    let x = crate::double::units(a.magnitude());
    let y = crate::double::units(b.magnitude());
    let minus = a.negative() != b.negative();
    lemma_huge();
    lemma_quotient_fraction(a, b);
    let n = with_sign(minus, x * o);
    let q = o * y;
    lemma_scaled_bound(n, q, pow2(1000) as int);
    let m = round_of((x * o) as nat, y);
    let hu = crate::double::units(huge_pattern());
    assert(pow2(1000) * q == hu * y) by (nonlinear_arith)
        requires
            hu == pow2(1000) * o,
            q == o * y,
    ;
    crate::double::lemma_round_ratio_at_most((x * o) as nat, y, huge_pattern());
    lemma_value_signed(minus, m);
    lemma_finite_quotient(a, b);
    if !minus {
        lemma_not_below_zero(a.over(b));
    }
}

/// What is no more than a finite value is not rounded above it.
proof fn lemma_signed_at_most(negative: bool, n: nat, d: nat, c: Double)
    requires
        d > 0,
        c.finite(),
        with_sign(negative, n as int) <= c.amount() * d,
    ensures
        crate::double::signed(negative, round_of(n, d)).at_most(c),
{
    let z = crate::double::units(c.magnitude());
    crate::double::lemma_round_ratio(n, d);
    lemma_value_signed(negative, round_of(n, d));
    crate::double::lemma_units_order(c.magnitude(), 0);
    if negative {
        if c.negative() {
            assert(n >= z * d) by (nonlinear_arith)
                requires
                    -(n as int) <= -(z as int) * d,
            ;
            crate::double::lemma_round_ratio_at_least(n, d, c.magnitude());
        }
    } else {
        if c.negative() {
            assert(n <= 0 && z == 0) by (nonlinear_arith)
                requires
                    n <= -(z as int) * d,
                    n >= 0,
                    d > 0,
            ;
        }
        crate::double::lemma_round_ratio_at_most(n, d, c.magnitude());
    }
}

/// What is no less than a finite value is not rounded below it.
proof fn lemma_signed_at_least(negative: bool, n: nat, d: nat, c: Double)
    requires
        d > 0,
        c.finite(),
        with_sign(negative, n as int) >= c.amount() * d,
    ensures
        c.at_most(crate::double::signed(negative, round_of(n, d))),
{
    let z = crate::double::units(c.magnitude());
    crate::double::lemma_round_ratio(n, d);
    lemma_value_signed(negative, round_of(n, d));
    crate::double::lemma_units_order(c.magnitude(), 0);
    if negative {
        if !c.negative() {
            assert(n <= 0 && z == 0) by (nonlinear_arith)
                requires
                    -(n as int) >= z * d,
                    n >= 0,
                    d > 0,
                    z >= 0,
            ;
            crate::double::lemma_round_ratio_at_most(n, d, 0);
        } else {
            assert(n <= z * d) by (nonlinear_arith)
                requires
                    -(n as int) >= -(z as int) * d,
            ;
            crate::double::lemma_round_ratio_at_most(n, d, c.magnitude());
        }
    } else if !c.negative() {
        crate::double::lemma_round_ratio_at_least(n, d, c.magnitude());
    }
}

/// A sum that is no more than a finite value is not rounded above it.
pub proof fn lemma_plus_at_most(a: Double, b: Double, c: Double)
    requires
        a.finite(),
        b.finite(),
        c.finite(),
        value(a) + value(b) <= value(c),
    ensures
        a.plus(b).at_most(c),
{
    reveal(Double::spec_plus);
    let o = crate::double::one_in_units() as int;
    lemma_pow2_pos(1074);
    let n = a.amount() + b.amount();
    assert(n <= c.amount()) by (nonlinear_arith)
        requires
            o > 0,
            a.amount() as real / o as real + b.amount() as real / o as real <= c.amount() as real / o as real,
            n == a.amount() + b.amount(),
    ;
    lemma_sum_signed(a, b);
    lemma_signed_at_most(n < 0, crate::double::size_of(n), 1, c);
}

/// A sum that is no less than a finite value is not rounded below it.
pub proof fn lemma_plus_at_least(a: Double, b: Double, c: Double)
    requires
        a.finite(),
        b.finite(),
        c.finite(),
        value(a) + value(b) >= value(c),
    ensures
        c.at_most(a.plus(b)),
{
    reveal(Double::spec_plus);
    let o = crate::double::one_in_units() as int;
    lemma_pow2_pos(1074);
    let n = a.amount() + b.amount();
    assert(n >= c.amount()) by (nonlinear_arith)
        requires
            o > 0,
            a.amount() as real / o as real + b.amount() as real / o as real >= c.amount() as real / o as real,
            n == a.amount() + b.amount(),
    ;
    lemma_sum_signed(a, b);
    lemma_signed_at_least(n < 0, crate::double::size_of(n), 1, c);
}

/// A finite sum has the rank of its rounded amount.
proof fn lemma_sum_signed(a: Double, b: Double)
    requires
        a.finite(),
        b.finite(),
    ensures
        ({
            let n = a.amount() + b.amount();
            let r = crate::double::signed(n < 0, round_of(crate::double::size_of(n), 1));
            &&& crate::double::finite_sum(a, b).rank() == r.rank()
            &&& !crate::double::finite_sum(a, b).is_nan()
            &&& !r.is_nan()
        }),
{
    let n = a.amount() + b.amount();
    let m = round_of(crate::double::size_of(n), 1);
    crate::double::lemma_round_ratio(crate::double::size_of(n), 1);
    lemma_value_signed(n < 0, m);
    lemma_value_signed(a.negative() && b.negative(), 0);
    if n == 0 {
        crate::double::lemma_round_ratio_at_most(0, 1, 0);
    }
}

/// A product that is no more than a finite value is not rounded above it.
pub proof fn lemma_times_at_most(a: Double, b: Double, c: Double)
    requires
        a.finite(),
        b.finite(),
        c.finite(),
        value(a) * value(b) <= value(c),
    ensures
        a.times(b).at_most(c),
{
    reveal(Double::spec_times);
    lemma_product_amounts(a, b);
    let o = crate::double::one_in_units() as int;
    let n = a.amount() * b.amount();
    assert(n <= c.amount() * o) by (nonlinear_arith)
        requires
            o > 0,
            n as real / (o * o) as real <= c.amount() as real / o as real,
    ;
    lemma_signed_at_most(
        a.negative() != b.negative(),
        crate::double::units(a.magnitude()) * crate::double::units(b.magnitude()),
        o as nat,
        c,
    );
}

/// A product that is no less than a finite value is not rounded below it.
pub proof fn lemma_times_at_least(a: Double, b: Double, c: Double)
    requires
        a.finite(),
        b.finite(),
        c.finite(),
        value(a) * value(b) >= value(c),
    ensures
        c.at_most(a.times(b)),
{
    reveal(Double::spec_times);
    lemma_product_amounts(a, b);
    let o = crate::double::one_in_units() as int;
    let n = a.amount() * b.amount();
    assert(n >= c.amount() * o) by (nonlinear_arith)
        requires
            o > 0,
            n as real / (o * o) as real >= c.amount() as real / o as real,
    ;
    lemma_signed_at_least(
        a.negative() != b.negative(),
        crate::double::units(a.magnitude()) * crate::double::units(b.magnitude()),
        o as nat,
        c,
    );
}

proof fn lemma_product_amounts(a: Double, b: Double)
    requires
        a.finite(),
        b.finite(),
    ensures
        ({
            let o = crate::double::one_in_units() as int;
            let n = a.amount() * b.amount();
            let m = crate::double::units(a.magnitude()) * crate::double::units(b.magnitude());
            &&& o > 0
            &&& m >= 0
            &&& n == with_sign(a.negative() != b.negative(), m as int)
            &&& value(a) * value(b) == n as real / (o * o) as real
        }),
{
    let o = crate::double::one_in_units() as int;
    let n = a.amount() * b.amount();
    let x = crate::double::units(a.magnitude());
    let y = crate::double::units(b.magnitude());
    lemma_pow2_pos(1074);
    lemma_fraction_product(a.amount(), b.amount(), o);
    assert(n == with_sign(a.negative() != b.negative(), (x * y) as int)) by (nonlinear_arith)
        requires
            a.amount() == with_sign(a.negative(), x as int),
            b.amount() == with_sign(b.negative(), y as int),
            n == a.amount() * b.amount(),
    ;
}

/// A quotient by a positive value that is no more than a finite value is not rounded above it.
pub proof fn lemma_over_at_most(a: Double, b: Double, c: Double)
    requires
        a.finite(),
        b.finite(),
        c.finite(),
        value(b) > 0 as real,
        value(a) <= value(c) * value(b),
    ensures
        a.over(b).at_most(c),
{
    reveal(Double::spec_over);
    let o = crate::double::one_in_units() as int;
    lemma_positive(b);
    lemma_product_amounts(c, b);
    let n = a.amount() * o;
    let k = c.amount() * b.amount();
    assert(n <= k) by (nonlinear_arith)
        requires
            o > 0,
            a.amount() as real / o as real <= k as real / (o * o) as real,
            n == a.amount() * o,
    ;
    let x = crate::double::units(a.magnitude());
    assert(with_sign(a.negative(), (x * o) as int) == n) by (nonlinear_arith)
        requires
            a.amount() == with_sign(a.negative(), x as int),
            n == a.amount() * o,
    ;
    assert(x * o >= 0) by (nonlinear_arith)
        requires
            o > 0,
    ;
    lemma_signed_at_most(a.negative(), (x * o) as nat, crate::double::units(b.magnitude()), c);
}

/// A quotient by a positive value that is no less than a finite value is not rounded below it.
pub proof fn lemma_over_at_least(a: Double, b: Double, c: Double)
    requires
        a.finite(),
        b.finite(),
        c.finite(),
        value(b) > 0 as real,
        value(a) >= value(c) * value(b),
    ensures
        c.at_most(a.over(b)),
{
    reveal(Double::spec_over);
    let o = crate::double::one_in_units() as int;
    lemma_positive(b);
    lemma_product_amounts(c, b);
    let n = a.amount() * o;
    let k = c.amount() * b.amount();
    assert(n >= k) by (nonlinear_arith)
        requires
            o > 0,
            a.amount() as real / o as real >= k as real / (o * o) as real,
            n == a.amount() * o,
    ;
    let x = crate::double::units(a.magnitude());
    assert(with_sign(a.negative(), (x * o) as int) == n) by (nonlinear_arith)
        requires
            a.amount() == with_sign(a.negative(), x as int),
            n == a.amount() * o,
    ;
    assert(x * o >= 0) by (nonlinear_arith)
        requires
            o > 0,
    ;
    lemma_signed_at_least(a.negative(), (x * o) as nat, crate::double::units(b.magnitude()), c);
}

/// A value above zero has a positive sign and amount.
pub proof fn lemma_positive(d: Double)
    requires
        d.finite(),
        value(d) > 0 as real,
    ensures
        !d.negative(),
        !d.zero(),
        d.amount() > 0,
{
    let o = crate::double::one_in_units() as int;
    lemma_pow2_pos(1074);
    assert(d.amount() > 0) by (nonlinear_arith)
        requires
            o > 0,
            d.amount() as real / o as real > 0 as real,
    ;
}

/// Turning the sign turns the real number.
pub proof fn lemma_negated(d: Double)
    requires
        d.finite(),
    ensures
        d.negated().finite(),
        value(d.negated()) == 0 as real - value(d),
{
    let o = crate::double::one_in_units() as int;
    lemma_pow2_pos(1074);
    assert(d.negated().amount() == -d.amount());
    assert((-d.amount()) as real / o as real == 0 as real - d.amount() as real / o as real) by (nonlinear_arith)
        requires
            o > 0,
    ;
}

/// The absolute value is that of the real number.
pub proof fn lemma_absolute(d: Double)
    requires
        d.finite(),
    ensures
        d.absolute().finite(),
        !d.absolute().negative(),
        value(d.absolute()) == abs(value(d)),
{
    let o = crate::double::one_in_units() as int;
    let u = crate::double::units(d.magnitude()) as int;
    lemma_pow2_pos(1074);
    assert(d.absolute().amount() == u);
    assert(u as real / o as real >= 0 as real) by (nonlinear_arith)
        requires
            o > 0,
            u >= 0,
    ;
    assert((-u) as real / o as real == 0 as real - u as real / o as real) by (nonlinear_arith)
        requires
            o > 0,
    ;
}

/// The difference of finite values is off by `2^-52` of the exact difference at most.
pub proof fn lemma_minus(a: Double, b: Double)
    requires
        a.finite(),
        b.finite(),
        abs(value(a) - value(b)) <= huge(),
    ensures
        a.minus(b).finite(),
        abs(value(a.minus(b)) - (value(a) - value(b))) <= epsilon() * abs(value(a) - value(b)),
{
    lemma_negated(b);
    lemma_plus(a, b.negated());
}

/// A difference that is no more than a finite value is not rounded above it.
pub proof fn lemma_minus_at_most(a: Double, b: Double, c: Double)
    requires
        a.finite(),
        b.finite(),
        c.finite(),
        value(a) - value(b) <= value(c),
    ensures
        a.minus(b).at_most(c),
{
    lemma_negated(b);
    lemma_plus_at_most(a, b.negated(), c);
}

/// A difference that is no less than a finite value is not rounded below it.
pub proof fn lemma_minus_at_least(a: Double, b: Double, c: Double)
    requires
        a.finite(),
        b.finite(),
        c.finite(),
        value(a) - value(b) >= value(c),
    ensures
        c.at_most(a.minus(b)),
{
    lemma_negated(b);
    lemma_plus_at_least(a, b.negated(), c);
}

// ---------------------------------------------------------------------------
// Whole numbers
// ---------------------------------------------------------------------------

/// The number of places by which `n` is shifted to fill a significand.
proof fn lemma_fill(n: nat) -> (k: nat)
    requires
        0 < n <= 2 * HIDDEN,
    ensures
        k <= 52,
        HIDDEN <= n * pow2(k) <= 2 * HIDDEN,
    decreases 2 * HIDDEN - n,
{
    lemma2_to64();
    if n >= HIDDEN {
        assert(n * pow2(0) == n);
        0
    } else {
        let k = lemma_fill(2 * n);
        lemma_pow2_unfold(k + 1);
        assert((2 * n) * pow2(k) == n * pow2(k + 1)) by (nonlinear_arith)
            requires
                pow2(k + 1) == 2 * pow2(k),
        ;
        if k == 52 {
            lemma2_to64_rest();
            assert(pow2(53) == 2 * HIDDEN) by {
                lemma2_to64();
            }
            assert(n * pow2(53) >= 2 * HIDDEN) by (nonlinear_arith)
                requires
                    n >= 1,
                    pow2(53) == 2 * HIDDEN,
            ;
            assert(n * pow2(53) == 2 * HIDDEN);
            assert(n * pow2(52) == HIDDEN) by {
                assert(2 * (n * pow2(52)) == n * pow2(53)) by (nonlinear_arith)
                    requires
                        pow2(53) == 2 * pow2(52),
                ;
            }
            52
        } else {
            k + 1
        }
    }
}

/// A whole number up to `2^53` is a value.
pub proof fn lemma_whole_pattern(n: nat) -> (b: nat)
    requires
        n <= 2 * HIDDEN,
    ensures
        b < INFINITY,
        crate::double::units(b) == n * crate::double::one_in_units(),
{
    if n == 0 {
        assert(0 * crate::double::one_in_units() == 0) by (nonlinear_arith);
        0
    } else {
        let k = lemma_fill(n);
        let t = (1074 - k) as nat;
        let q = n * pow2(k);
        crate::double::lemma_units_layout(t, q);
        lemma_pow2_adds(k, t);
        assert((n * pow2(k)) * pow2(t) == n * pow2(1074)) by (nonlinear_arith)
            requires
                pow2(1074) == pow2(k) * pow2(t),
        ;
        assert(t * HIDDEN as nat <= 1074 * HIDDEN as nat) by (nonlinear_arith)
            requires
                t <= 1074,
        ;
        t * HIDDEN as nat + q
    }
}

/// A whole number up to `2^53` is represented exactly.
pub proof fn lemma_of_int(n: int)
    requires
        -(2 * HIDDEN) <= n <= 2 * HIDDEN,
    ensures
        Double::of_int(n).finite(),
        Double::of_int(n).amount() == n * crate::double::one_in_units(),
        value(Double::of_int(n)) == n as real,
        Double::of_int(n).negative() == (n < 0),
{
    reveal(Double::of_int);
    let o = crate::double::one_in_units() as int;
    let m = crate::double::size_of(n);
    let b = lemma_whole_pattern(m);
    lemma_pow2_pos(1074);
    assert(crate::double::units(b) * 1 == crate::double::units(b));
    crate::double::lemma_round_ratio_exact(b, 1);
    lemma_value_signed(n < 0, b);
    let r = Double::of_int(n);
    assert(-(m * o) == (-m) * o) by (nonlinear_arith);
    lemma_whole_value(n, o);
}

proof fn lemma_whole_value(n: int, o: int)
    requires
        o > 0,
    ensures
        (n * o) as real / o as real == n as real,
{
    assert((n * o) as real / o as real == n as real) by (nonlinear_arith)
        requires
            o > 0,
    ;
}

/// A whole number as a real one.
pub open spec fn whole(k: int) -> real {
    k as real
}

/// The whole number that a value is rounded to: no more than half away, and on the same side of every
/// whole number.
pub proof fn lemma_rounded(d: Double) -> (w: int)
    requires
        d.finite(),
        abs(value(d)) <= HIDDEN as real,
    ensures
        d.rounded().finite(),
        value(d.rounded()) == w as real,
        d.rounded().to_i64() == w,
        -HIDDEN <= w <= HIDDEN,
        abs(w as real - value(d)) <= 1 as real / 2 as real,
        forall|k: int| value(d) <= #[trigger] whole(k) ==> w <= k,
        forall|k: int| value(d) >= #[trigger] whole(k) ==> w >= k,
{
    reveal(Double::spec_rounded);
    let o = crate::double::one_in_units() as int;
    lemma_pow2_pos(1074);
    let u = crate::double::units(d.magnitude()) as int;
    let m = crate::double::nearest_whole(d.magnitude());
    vstd::arithmetic::div_mod::lemma_fundamental_div_mod(2 * u + o, 2 * o);
    let rem = (2 * u + o) % (2 * o);
    assert(0 <= rem < 2 * o) by (nonlinear_arith)
        requires
            o > 0,
            rem == (2 * u + o) % (2 * o),
    ;
    assert(2 * (m * o) + rem == 2 * u + o) by (nonlinear_arith)
        requires
            2 * u + o == (2 * o) * m + rem,
    ;
    let h = HIDDEN as int;
    let sized = u as real / o as real;
    assert(abs(value(d)) == sized) by {
        lemma_absolute(d);
        assert(d.absolute().amount() == u);
    }
    assert(u <= h * o) by (nonlinear_arith)
        requires
            o > 0,
            u as real / o as real <= h as real,
    ;
    assert(m <= h) by (nonlinear_arith)
        requires
            2 * (m * o) + rem == 2 * u + o,
            rem >= 0,
            u <= h * o,
            o > 0,
    ;
    let w = with_sign(d.negative(), m as int);
    let b = lemma_whole_pattern(m);
    assert(crate::double::units(b) * 1 == crate::double::units(b));
    crate::double::lemma_round_ratio_exact(b, 1);
    lemma_value_signed(d.negative(), b);
    let r = d.rounded();
    assert(r.amount() == w * o) by (nonlinear_arith)
        requires
            r.amount() == with_sign(d.negative(), m * o),
            w == with_sign(d.negative(), m as int),
    ;
    lemma_whole_value(w, o);
    assert(r.truncated() == w) by {
        vstd::arithmetic::div_mod::lemma_div_by_multiple(m as int, o);
    }
    let a = d.amount();
    assert(2 * (w * o) - 2 * a <= o && 2 * a - 2 * (w * o) <= o) by (nonlinear_arith)
        requires
            a == with_sign(d.negative(), u),
            w == with_sign(d.negative(), m as int),
            2 * (m * o) + rem == 2 * u + o,
            0 <= rem < 2 * o,
    ;
    let x = a as real / o as real;
    assert(w as real - x <= 1 as real / 2 as real && x - w as real <= 1 as real / 2 as real) by (nonlinear_arith)
        requires
            o > 0,
            2 * (w * o) - 2 * a <= o,
            2 * a - 2 * (w * o) <= o,
            x == a as real / o as real,
    ;
    assert forall|k: int| value(d) <= #[trigger] whole(k) implies w <= k by {
        assert(a <= k * o) by (nonlinear_arith)
            requires
                o > 0,
                a as real / o as real <= k as real,
        ;
        assert(w <= k) by (nonlinear_arith)
            requires
                a <= k * o,
                o > 0,
                a == with_sign(d.negative(), u),
                w == with_sign(d.negative(), m as int),
                2 * (m * o) + rem == 2 * u + o,
                0 <= rem < 2 * o,
        ;
    }
    assert forall|k: int| value(d) >= #[trigger] whole(k) implies w >= k by {
        assert(a >= k * o) by (nonlinear_arith)
            requires
                o > 0,
                a as real / o as real >= k as real,
        ;
        assert(w >= k) by (nonlinear_arith)
            requires
                a >= k * o,
                o > 0,
                a == with_sign(d.negative(), u),
                w == with_sign(d.negative(), m as int),
                2 * (m * o) + rem == 2 * u + o,
                0 <= rem < 2 * o,
        ;
    }
    w
}

// ---------------------------------------------------------------------------
// Constants
// ---------------------------------------------------------------------------

/// The pattern with exponent `t` and significand `m * 2^s` is the magnitude `m * 2^(s + t)`.
proof fn lemma_pattern(b: nat, t: nat, m: nat, s: nat)
    requires
        b == t * HIDDEN + m * pow2(s),
        HIDDEN <= m * pow2(s) < 2 * HIDDEN,
    ensures
        crate::double::units(b) == m * pow2(s + t),
{
    crate::double::lemma_units_layout(t, m * pow2(s));
    lemma_pow2_adds(s, t);
    assert((m * pow2(s)) * pow2(t) == m * (pow2(s) * pow2(t))) by (nonlinear_arith);
}

/// A magnitude that is `n` times one.
proof fn lemma_constant_whole(bits: u64, n: int)
    requires
        bits < INFINITY,
        crate::double::units(bits as nat) == n * crate::double::one_in_units(),
    ensures
        Double::from_bits(bits).finite(),
        value(Double::from_bits(bits)) == n as real,
{
    lemma_pow2_pos(1074);
    lemma_whole_value(n, crate::double::one_in_units() as int);
}

/// What the constants stand for.
pub proof fn lemma_constants()
    ensures
        value(Double::from_bits(crate::double::ZERO)) == 0 as real,
        value(Double::from_bits(crate::double::HALF)) == 1 as real / 2 as real,
        value(Double::from_bits(crate::double::ONE)) == 1 as real,
        value(Double::from_bits(crate::curve::REACH)) == 3 as real / 2 as real,
        value(Double::from_bits(crate::double::TWO)) == 2 as real,
        value(Double::from_bits(crate::double::THREE)) == 3 as real,
        value(Double::from_bits(crate::curve::NINE)) == 9 as real,
        value(Double::from_bits(crate::double::HUNDRED)) == 100 as real,
        value(Double::from_bits(crate::double::THOUSAND)) == 1000 as real,
{
    let o = crate::double::one_in_units();
    lemma2_to64();
    lemma2_to64_rest();
    lemma_pow2_pos(1074);
    lemma_zero_value(Double::from_bits(crate::double::ZERO));
    lemma_pattern(crate::double::HALF as nat, 1021, 1, 52);
    lemma_pattern(crate::double::ONE as nat, 1022, 1, 52);
    lemma_pattern(crate::double::TWO as nat, 1023, 1, 52);
    lemma_pattern(crate::double::THREE as nat, 1023, 3, 51);
    lemma_pattern(crate::curve::REACH as nat, 1022, 3, 51);
    lemma_pattern(crate::curve::NINE as nat, 1025, 9, 49);
    lemma_pattern(crate::double::HUNDRED as nat, 1028, 25, 48);
    lemma_pattern(crate::double::THOUSAND as nat, 1031, 125, 46);
    lemma_pow2_unfold(1074);
    lemma_pow2_unfold(1075);
    lemma_pow2_unfold(1076);
    lemma_pow2_unfold(1077);
    assert(1 * pow2(1073) == pow2(1073));
    assert(1 * pow2(1074) == o);
    assert(1 * pow2(1075) == 2 * o);
    assert(25 * pow2(1076) == 100 * o);
    assert(125 * pow2(1077) == 1000 * o);
    lemma_constant_whole(crate::double::ONE, 1);
    lemma_constant_whole(crate::double::TWO, 2);
    lemma_constant_whole(crate::double::THREE, 3);
    lemma_constant_whole(crate::curve::NINE, 9);
    lemma_constant_whole(crate::double::HUNDRED, 100);
    lemma_constant_whole(crate::double::THOUSAND, 1000);
    let p = pow2(1073) as int;
    assert(p as real / (2 * p) as real == 1 as real / 2 as real) by (nonlinear_arith)
        requires
            p > 0,
    ;
    assert((3 * p) as real / (2 * p) as real == 3 as real / 2 as real) by (nonlinear_arith)
        requires
            p > 0,
    ;
}

/// `bits` is the value nearest to `n / d`.
pub open spec fn is_decimal(bits: u64, n: nat, d: nat) -> bool {
    crate::double::round_ratio(n * crate::double::one_in_units(), d) == bits
}

/// A pattern with exponent `1074 - k` and significand `q` is nearest to `n / d` where `q` is to
/// `n * 2^k / d`.
proof fn lemma_decimal(bits: u64, n: nat, d: nat, k: nat, q: nat)
    requires
        k <= 1074,
        d > 0,
        bits == (1074 - k) * HIDDEN + q,
        bits < INFINITY,
        HIDDEN < q < 2 * HIDDEN,
        2 * (n * pow2(k)) < d * (2 * q + 1),
        2 * (n * pow2(k)) > d * (2 * q - 1),
    ensures
        is_decimal(bits, n, d),
{
    let t = (1074 - k) as nat;
    let o = crate::double::one_in_units();
    let p = pow2(t);
    let b = bits as nat;
    lemma_pow2_pos(t);
    lemma_pow2_adds(k, t);
    crate::double::lemma_units_layout(t, q);
    crate::double::lemma_units_layout(t, q + 1);
    crate::double::lemma_units_layout(t, (q - 1) as nat);
    let side = crate::double::ratio_side(n * o, d);
    assert(crate::double::units(b) == q * p);
    assert(crate::double::units(b + 1) == (q + 1) * p);
    assert(crate::double::units((b - 1) as nat) == (q - 1) * p);
    assert(2 * (n * o) - ((q * p) + (q + 1) * p) * d < 0) by (nonlinear_arith)
        requires
            2 * (n * pow2(k)) < d * (2 * q + 1),
            o == pow2(k) * p,
            p > 0,
    ;
    assert(2 * (n * o) - (((q - 1) * p) + q * p) * d > 0) by (nonlinear_arith)
        requires
            2 * (n * pow2(k)) > d * (2 * q - 1),
            o == pow2(k) * p,
            p > 0,
    ;
    crate::double::lemma_round_ratio_is(n * o, d, b);
}

/// The constants that stand for decimals are the values nearest to them: 0.01, 0.05, 1e-9, 1e-6, 0.15,
/// 0.001 and 0.02.
pub proof fn law_decimals_are_nearest()
    ensures
        is_decimal(crate::curve::LOWEST_LEVEL, 1, 100),
        is_decimal(crate::curve::BARE_LEVEL, 1, 20),
        is_decimal(crate::curve::FLAT, 1, 1_000_000_000),
        is_decimal(crate::curve::TINY, 1, 1_000_000),
        is_decimal(crate::config::DEFAULT_HYSTERESIS_RATIO, 3, 20),
        is_decimal(crate::config::DEFAULT_SHUTTER, 1, 20),
        is_decimal(crate::config::LEAST_RATIO, 1, 100),
        is_decimal(crate::config::LEAST_SHUTTER, 1, 1000),
        is_decimal(crate::engine::MANUAL_DELTA_THRESHOLD_RATIO, 1, 50),
{
    lemma2_to64();
    lemma2_to64_rest();
    lemma_pow2_adds(59, 5);
    lemma_pow2_adds(64, 8);
    lemma_pow2_adds(64, 18);
    assert(pow2(72) == 0x100_0000_0000_0000_0000);
    assert(pow2(82) == 0x4_0000_0000_0000_0000_0000);
    lemma_decimal(crate::curve::LOWEST_LEVEL, 1, 100, 59, 0x14_7ae1_47ae_147b);
    lemma_decimal(crate::curve::BARE_LEVEL, 1, 20, 57, 0x19_9999_9999_999a);
    lemma_decimal(crate::curve::FLAT, 1, 1_000_000_000, 82, 0x11_2e0b_e826_d695);
    lemma_decimal(crate::curve::TINY, 1, 1_000_000, 72, 0x10_c6f7_a0b5_ed8d);
    lemma_decimal(crate::config::DEFAULT_HYSTERESIS_RATIO, 3, 20, 55, 0x13_3333_3333_3333);
    lemma_decimal(crate::config::LEAST_SHUTTER, 1, 1000, 62, 0x10_624d_d2f1_a9fc);
    lemma_decimal(crate::engine::MANUAL_DELTA_THRESHOLD_RATIO, 1, 50, 58, 0x14_7ae1_47ae_147b);
}

// ---------------------------------------------------------------------------
// Order
// ---------------------------------------------------------------------------

/// Rounding keeps the order of fractions with signs.
proof fn lemma_signed_order(minus: bool, n: nat, d: nat, other_minus: bool, m: nat, e: nat)
    requires
        d > 0,
        e > 0,
        with_sign(minus, n as int) * e <= with_sign(other_minus, m as int) * d,
    ensures
        crate::double::signed(minus, round_of(n, d)).at_most(
            crate::double::signed(other_minus, round_of(m, e)),
        ),
{
    crate::double::lemma_round_ratio(n, d);
    crate::double::lemma_round_ratio(m, e);
    lemma_value_signed(minus, round_of(n, d));
    lemma_value_signed(other_minus, round_of(m, e));
    if !minus && !other_minus {
        crate::double::lemma_round_ratio_order(n, d, m, e);
    } else if minus && other_minus {
        assert(m * d <= n * e) by (nonlinear_arith)
            requires
                -(n as int) * e <= -(m as int) * d,
        ;
        crate::double::lemma_round_ratio_order(m, e, n, d);
    } else if !minus {
        assert(n == 0 && m == 0) by (nonlinear_arith)
            requires
                n * e <= -(m as int) * d,
                d > 0,
                e > 0,
                n >= 0,
                m >= 0,
        ;
        crate::double::lemma_round_ratio_at_most(n, d, 0);
        crate::double::lemma_round_ratio_at_most(m, e, 0);
    }
}

/// A greater summand gives no lesser sum.
pub proof fn lemma_plus_order(a: Double, b: Double, c: Double)
    requires
        a.finite(),
        b.finite(),
        c.finite(),
        a.at_most(b),
    ensures
        a.plus(c).at_most(b.plus(c)),
        c.plus(a).at_most(c.plus(b)),
{
    reveal(Double::spec_plus);
    crate::double::lemma_units_order(a.magnitude(), b.magnitude());
    crate::double::lemma_units_order(a.magnitude(), 0);
    crate::double::lemma_units_order(b.magnitude(), 0);
    let n = a.amount() + c.amount();
    let m = b.amount() + c.amount();
    assert(n <= m);
    lemma_sum_signed(a, c);
    lemma_sum_signed(b, c);
    lemma_sum_signed(c, a);
    lemma_sum_signed(c, b);
    lemma_signed_order(n < 0, crate::double::size_of(n), 1, m < 0, crate::double::size_of(m), 1);
}

/// A greater minuend gives no lesser difference.
pub proof fn lemma_minus_order(a: Double, b: Double, c: Double)
    requires
        a.finite(),
        b.finite(),
        c.finite(),
        a.at_most(b),
    ensures
        a.minus(c).at_most(b.minus(c)),
        c.minus(b).at_most(c.minus(a)),
{
    lemma_negated(c);
    lemma_negated(a);
    lemma_negated(b);
    lemma_plus_order(a, b, c.negated());
    lemma_plus_order(b.negated(), a.negated(), c);
}

/// A greater factor gives no lesser product with a factor that is not negative.
pub proof fn lemma_times_order(a: Double, b: Double, c: Double)
    requires
        a.finite(),
        b.finite(),
        c.finite(),
        a.at_most(b),
        !c.negative(),
    ensures
        a.times(c).at_most(b.times(c)),
        c.times(a).at_most(c.times(b)),
{
    reveal(Double::spec_times);
    let o = crate::double::one_in_units();
    lemma_pow2_pos(1074);
    crate::double::lemma_units_order(a.magnitude(), b.magnitude());
    crate::double::lemma_units_order(a.magnitude(), 0);
    crate::double::lemma_units_order(b.magnitude(), 0);
    lemma_product_amounts(a, c);
    lemma_product_amounts(b, c);
    lemma_product_amounts(c, a);
    lemma_product_amounts(c, b);
    let x = crate::double::units(a.magnitude());
    let y = crate::double::units(b.magnitude());
    let z = crate::double::units(c.magnitude());
    let i = a.amount() * c.amount();
    let j = b.amount() * c.amount();
    assert(i <= j) by (nonlinear_arith)
        requires
            i == a.amount() * c.amount(),
            j == b.amount() * c.amount(),
            a.amount() <= b.amount(),
            c.amount() >= 0,
    ;
    assert(i * o <= j * o) by (nonlinear_arith)
        requires
            i <= j,
            o > 0,
    ;
    lemma_signed_order(a.negative(), x * z, o, b.negative(), y * z, o);
    assert(x * z == z * x && y * z == z * y) by (nonlinear_arith);
}

/// A greater dividend gives no lesser quotient by a positive divisor.
pub proof fn lemma_over_order(a: Double, b: Double, c: Double)
    requires
        a.finite(),
        b.finite(),
        c.finite(),
        a.at_most(b),
        !c.negative(),
        !c.zero(),
    ensures
        a.over(c).at_most(b.over(c)),
{
    reveal(Double::spec_over);
    let o = crate::double::one_in_units();
    lemma_pow2_pos(1074);
    crate::double::lemma_units_order(a.magnitude(), b.magnitude());
    crate::double::lemma_units_order(a.magnitude(), 0);
    crate::double::lemma_units_order(b.magnitude(), 0);
    crate::double::lemma_units_order(c.magnitude(), 0);
    let x = crate::double::units(a.magnitude());
    let y = crate::double::units(b.magnitude());
    let z = crate::double::units(c.magnitude());
    assert(with_sign(a.negative(), (x * o) as int) * z <= with_sign(b.negative(), (y * o) as int) * z)
        by (nonlinear_arith)
        requires
            with_sign(a.negative(), x as int) <= with_sign(b.negative(), y as int),
            o > 0,
            z > 0,
    ;
    assert(x * o >= 0 && y * o >= 0) by (nonlinear_arith);
    lemma_signed_order(a.negative(), x * o, z, b.negative(), y * o, z);
}

/// A greater value has no lesser square root; that of a value up to one is one at most.
pub proof fn lemma_root_order(a: Double, b: Double)
    requires
        a.finite(),
        b.finite(),
        !a.negative(),
        !b.negative(),
        a.at_most(b),
    ensures
        a.square_root().at_most(b.square_root()),
        !a.square_root().negative(),
        b.at_most(Double::from_bits(crate::double::ONE)) ==> b.square_root().at_most(
            Double::from_bits(crate::double::ONE),
        ),
        Double::from_bits(crate::double::ONE).at_most(b) ==> Double::from_bits(crate::double::ONE).at_most(
            b.square_root(),
        ),
{
    reveal(Double::spec_square_root);
    let o = crate::double::one_in_units();
    lemma_pow2_pos(1074);
    let x = crate::double::units(a.magnitude());
    let y = crate::double::units(b.magnitude());
    let one = crate::double::ONE as nat;
    lemma_constants();
    crate::double::lemma_units_order(a.magnitude(), b.magnitude());
    crate::double::lemma_units_order(one, b.magnitude());
    lemma2_to64();
    lemma2_to64_rest();
    lemma_pattern(one, 1022, 1, 52);
    assert(crate::double::units(one) == o);
    assert(x * o <= y * o) by (nonlinear_arith)
        requires
            x <= y,
    ;
    lemma_root_pattern_order(x * o, y * o);
    crate::double::lemma_round_root(x * o);
    crate::double::lemma_round_root(y * o);
    lemma_value_signed(false, crate::double::round_root(x * o));
    lemma_value_signed(false, crate::double::round_root(y * o));
    lemma_root_of_one();
    if y <= o {
        assert(y * o <= o * o) by (nonlinear_arith)
            requires
                y <= o,
        ;
        lemma_root_pattern_order(y * o, o * o);
    }
    if y >= o {
        assert(o * o <= y * o) by (nonlinear_arith)
            requires
                y >= o,
        ;
        lemma_root_pattern_order(o * o, y * o);
    }
}

proof fn lemma_root_pattern_order(n: nat, m: nat)
    requires
        n <= m,
    ensures
        crate::double::round_root(n) <= crate::double::round_root(m),
{
    crate::double::lemma_round_root(n);
    crate::double::lemma_round_root(m);
    crate::double::lemma_root_side_falling(n);
    crate::double::lemma_root_side_falling(m);
    crate::double::lemma_nearest_order(
        crate::double::root_side(n),
        crate::double::root_side(m),
        crate::double::round_root(m),
        crate::double::round_root(n),
    );
}

/// The square root of one is one.
proof fn lemma_root_of_one()
    ensures
        ({
            let o = crate::double::one_in_units();
            crate::double::round_root(o * o) == crate::double::ONE
        }),
{
    let o = crate::double::one_in_units();
    let one = crate::double::ONE as nat;
    let side = crate::double::root_side(o * o);
    lemma2_to64();
    lemma2_to64_rest();
    lemma_pattern(one, 1022, 1, 52);
    assert(crate::double::units(one) == o);
    crate::double::lemma_root_side_falling(o * o);
    assert(side((2 * o) as nat) == 0) by {
        assert(4 * (o * o) - (2 * o) * (2 * o) == 0) by (nonlinear_arith);
    }
    crate::double::lemma_units_order((one - 1) as nat, one);
    crate::double::lemma_units_order(one, one + 1);
    assert(side((crate::double::units((one - 1) as nat) + o) as nat) > side((2 * o) as nat));
    assert(side((2 * o) as nat) > side(o + crate::double::units(one + 1)));
    crate::double::lemma_round_root_is(o * o, one);
}

/// A greater value is not rounded to a lesser whole number.
pub proof fn lemma_rounded_order(a: Double, b: Double)
    requires
        a.finite(),
        b.finite(),
        a.at_most(b),
    ensures
        a.rounded().at_most(b.rounded()),
{
    reveal(Double::spec_rounded);
    let o = crate::double::one_in_units();
    lemma_pow2_pos(1074);
    lemma_nearest_whole_order(a.magnitude(), b.magnitude());
    lemma_nearest_whole_order(b.magnitude(), a.magnitude());
    let n = crate::double::nearest_whole(a.magnitude()) * o;
    let m = crate::double::nearest_whole(b.magnitude()) * o;
    assert(with_sign(a.negative(), n as int) * 1 <= with_sign(b.negative(), m as int) * 1) by {
        if a.negative() && b.negative() {
            assert(m <= n) by (nonlinear_arith)
                requires
                    crate::double::nearest_whole(b.magnitude()) <= crate::double::nearest_whole(a.magnitude()),
                    n == crate::double::nearest_whole(a.magnitude()) * o,
                    m == crate::double::nearest_whole(b.magnitude()) * o,
            ;
        } else if !a.negative() {
            if b.negative() {
                assert(a.magnitude() == 0 && b.magnitude() == 0);
                assert(crate::double::nearest_whole(0) == 0) by {
                    assert(o as int / (2 * o) as int == 0) by (nonlinear_arith)
                        requires
                            o > 0,
                    ;
                }
                assert(0 * o == 0) by (nonlinear_arith);
            } else {
                assert(n <= m) by (nonlinear_arith)
                    requires
                        crate::double::nearest_whole(a.magnitude()) <= crate::double::nearest_whole(b.magnitude()),
                        n == crate::double::nearest_whole(a.magnitude()) * o,
                        m == crate::double::nearest_whole(b.magnitude()) * o,
                ;
            }
        } else {
            assert(n >= 0 && m >= 0);
        }
    }
    lemma_signed_order(a.negative(), n, 1, b.negative(), m, 1);
}

proof fn lemma_nearest_whole_order(x: nat, y: nat)
    ensures
        x <= y ==> crate::double::nearest_whole(x) <= crate::double::nearest_whole(y),
{
    let o = crate::double::one_in_units() as int;
    lemma_pow2_pos(1074);
    crate::double::lemma_units_order(x, y);
    if x <= y {
        vstd::arithmetic::div_mod::lemma_div_is_ordered(
            2 * crate::double::units(x) + o,
            2 * crate::double::units(y) + o,
            2 * o,
        );
    }
}

/// The value nearest to a machine integer is finite and has its sign.
pub proof fn lemma_of_int_finite(n: int)
    requires
        -0x1_0000_0000_0000_0000_0000 <= n <= 0x1_0000_0000_0000_0000_0000,
    ensures
        Double::of_int(n).finite(),
        Double::of_int(n).negative() == (n < 0),
        n == 0 <==> Double::of_int(n).zero(),
{
    reveal(Double::of_int);
    let o = crate::double::one_in_units();
    let m = crate::double::size_of(n);
    lemma_pow2_pos(1074);
    lemma_huge();
    lemma2_to64();
    lemma2_to64_rest();
    lemma_pow2_adds(64, 64);
    lemma_pow2_strictly_increases(128, 1000);
    assert(pow2(128) > 0x1_0000_0000_0000_0000_0000) by (nonlinear_arith)
        requires
            pow2(128) == pow2(64) * pow2(64),
            pow2(64) == 0x1_0000_0000_0000_0000,
    ;
    assert(m * o <= (pow2(1000) * o) * 1) by (nonlinear_arith)
        requires
            m <= pow2(1000),
    ;
    crate::double::lemma_round_ratio_at_most(m * o, 1, huge_pattern());
    lemma_value_signed(n < 0, round_of(m * o, 1));
    if n == 0 {
        assert(0 * o == 0) by (nonlinear_arith);
        crate::double::lemma_round_ratio_at_most(0, 1, 0);
    } else {
        assert(m * o >= crate::double::units(1) * 1) by (nonlinear_arith)
            requires
                m >= 1,
                o >= 1,
                crate::double::units(1) == 1,
        ;
        crate::double::lemma_round_ratio_at_least(m * o, 1, 1);
    }
}

/// A greater whole number is no lesser value.
pub proof fn lemma_of_int_order(n: int, m: int)
    requires
        n <= m,
    ensures
        Double::of_int(n).at_most(Double::of_int(m)),
{
    reveal(Double::of_int);
    let o = crate::double::one_in_units();
    lemma_pow2_pos(1074);
    let i = crate::double::size_of(n) * o;
    let j = crate::double::size_of(m) * o;
    assert(with_sign(n < 0, i as int) * 1 <= with_sign(m < 0, j as int) * 1) by (nonlinear_arith)
        requires
            n <= m,
            o > 0,
            i == (if n < 0 { -n } else { n }) * o,
            j == (if m < 0 { -m } else { m }) * o,
    ;
    lemma_signed_order(n < 0, i, 1, m < 0, j, 1);
}

// ---------------------------------------------------------------------------
// Exact results and moderate errors
// ---------------------------------------------------------------------------

/// The errors of single operations on numbers of moderate size.
pub proof fn lemma_small()
    ensures
        epsilon() == 1 as real / 0x10_0000_0000_0000 as real,
        (0 as real) < smallest() <= epsilon(),
        huge() >= 0x1_0000_0000_0000_0000 as real,
{
    lemma2_to64();
    lemma_pow2_strictly_increases(52, 1074);
    lemma_pow2_strictly_increases(64, 1000);
    lemma2_to64_rest();
    let o = crate::double::one_in_units() as int;
    let h = HIDDEN as int;
    assert((0 as real) < 1 as real / o as real <= 1 as real / h as real) by (nonlinear_arith)
        requires
            o >= h,
            h > 0,
    ;
}

/// A product that is a value is computed exactly.
pub proof fn lemma_exact_product(a: Double, b: Double, c: Double)
    requires
        a.finite(),
        b.finite(),
        c.finite(),
        value(a) * value(b) == value(c),
    ensures
        a.times(b).finite(),
        a.times(b).same(c),
        value(a.times(b)) == value(c),
{
    lemma_times_at_most(a, b, c);
    lemma_times_at_least(a, b, c);
    lemma_value_order(a.times(b), c);
}

/// A difference that is a value is computed exactly.
pub proof fn lemma_exact_difference(a: Double, b: Double, c: Double)
    requires
        a.finite(),
        b.finite(),
        c.finite(),
        value(a) - value(b) == value(c),
    ensures
        a.minus(b).finite(),
        a.minus(b).same(c),
        value(a.minus(b)) == value(c),
{
    lemma_minus_at_most(a, b, c);
    lemma_minus_at_least(a, b, c);
    lemma_value_order(a.minus(b), c);
}

/// A sum that is a value is computed exactly.
pub proof fn lemma_exact_sum(a: Double, b: Double, c: Double)
    requires
        a.finite(),
        b.finite(),
        c.finite(),
        value(a) + value(b) == value(c),
    ensures
        a.plus(b).finite(),
        a.plus(b).same(c),
        value(a.plus(b)) == value(c),
{
    lemma_plus_at_most(a, b, c);
    lemma_plus_at_least(a, b, c);
    lemma_value_order(a.plus(b), c);
}

/// The rounding error of a number up to `bound`.
pub proof fn lemma_part_of_error(e: real, x: real, bound: real)
    requires
        e > 0 as real,
        abs(x) <= bound,
    ensures
        e * abs(x) <= e * bound,
{
    let a = abs(x);
    assert(e * a <= e * bound) by (nonlinear_arith)
        requires
            e > 0 as real,
            a <= bound,
    ;
}

/// A greater value has no lesser whole part.
pub proof fn lemma_to_i64_order(a: Double, b: Double)
    requires
        a.at_most(b),
    ensures
        a.to_i64() <= b.to_i64(),
{
    let o = crate::double::one_in_units() as int;
    lemma_pow2_pos(1074);
    let x = crate::double::units(a.magnitude()) as int;
    let y = crate::double::units(b.magnitude()) as int;
    crate::double::lemma_units_order(a.magnitude(), b.magnitude());
    crate::double::lemma_units_order(b.magnitude(), a.magnitude());
    if x <= y {
        vstd::arithmetic::div_mod::lemma_div_is_ordered(x, y, o);
    }
    if y <= x {
        vstd::arithmetic::div_mod::lemma_div_is_ordered(y, x, o);
    }
    vstd::arithmetic::div_mod::lemma_div_pos_is_pos(x, o);
    vstd::arithmetic::div_mod::lemma_div_pos_is_pos(y, o);
}

/// The whole part of a whole number is that number.
pub proof fn lemma_whole_part(d: Double, n: int)
    requires
        d.finite(),
        value(d) == n as real,
    ensures
        d.truncated() == n,
        i64::MIN <= n <= i64::MAX ==> d.to_i64() == n,
        0 <= n <= u32::MAX ==> d.to_u32() == n,
        0 <= n <= u64::MAX ==> d.to_u64() == n,
{
    let o = crate::double::one_in_units() as int;
    lemma_pow2_pos(1074);
    let a = d.amount();
    let u = crate::double::units(d.magnitude()) as int;
    assert(a == n * o) by (nonlinear_arith)
        requires
            o > 0,
            a as real / o as real == n as real,
    ;
    let m = if d.negative() {
        -n
    } else {
        n
    };
    assert(u == m * o) by (nonlinear_arith)
        requires
            a == n * o,
            a == (if d.negative() { -u } else { u }),
            m == (if d.negative() { -n } else { n }),
    ;
    assert(m >= 0) by (nonlinear_arith)
        requires
            u == m * o,
            u >= 0,
            o > 0,
    ;
    vstd::arithmetic::div_mod::lemma_div_by_multiple(m, o);
}

/// No finite value is above the greatest one, and each is small against `2^1074`.
pub proof fn lemma_greatest(d: Double)
    requires
        d.finite(),
    ensures
        value(d) <= value(Double::from_bits(crate::curve::GREATEST)),
        Double::from_bits(crate::curve::GREATEST).finite(),
        smallest() * abs(value(d)) <= 4 as real * epsilon(),
{
    let g = Double::from_bits(crate::curve::GREATEST);
    let o = crate::double::one_in_units() as int;
    lemma_pow2_pos(1074);
    lemma_value_order(d, g);
    crate::double::lemma_units_order(d.magnitude(), INFINITY as nat);
    crate::double::lemma_units_layout(2046, HIDDEN as nat);
    let u = crate::double::units(d.magnitude()) as int;
    lemma2_to64();
    lemma2_to64_rest();
    lemma_pow2_adds(52, 2046);
    lemma_pow2_adds(1074, 1024);
    lemma_pow2_adds(50, 1024);
    let p = pow2(1024) as int;
    let h = HIDDEN as int;
    assert(u <= p * o) by (nonlinear_arith)
        requires
            u <= pow2(2098),
            pow2(2098) == pow2(1074) * pow2(1024),
            o == pow2(1074),
            p == pow2(1024),
    ;
    assert(o == pow2(50) * p);
    assert(4 * pow2(50) == h);
    lemma_absolute(d);
    assert(d.absolute().amount() == u);
    let v = u as real / o as real;
    assert((1 as real / o as real) * v <= 4 as real * (1 as real / h as real)) by (nonlinear_arith)
        requires
            v == u as real / o as real,
            u <= p * o,
            o == pow2(50) * p,
            4 * pow2(50) == h,
            p > 0,
            o > 0,
            u >= 0,
    {
        let k = pow2(50) as int;
        assert(v <= p as real);
        assert((1 as real / o as real) * v <= (1 as real / o as real) * p as real);
        assert((1 as real / o as real) * p as real == 1 as real / k as real);
        assert(4 as real * (1 as real / h as real) == 1 as real / k as real);
    }
}

/// The square root of a finite value from one up is finite, no greater than the value, and its square
/// is off by `2^-51` of the value at most from below.
pub proof fn lemma_root(d: Double)
    requires
        d.finite(),
        value(d) >= 1 as real,
    ensures
        d.square_root().finite(),
        !d.square_root().negative(),
        value(d.square_root()) >= 1 as real,
        value(d) <= value(d.square_root()) * value(d.square_root()) * (1 as real + 2 as real * epsilon()),
{
    reveal(Double::spec_square_root);
    let o = crate::double::one_in_units() as int;
    lemma_pow2_pos(1074);
    lemma_positive(d);
    lemma_constants();
    let one = Double::from_bits(crate::double::ONE);
    lemma_value_order(one, d);
    lemma_root_order(d, d);
    let x = crate::double::units(d.magnitude()) as int;
    let n = (x * o) as nat;
    assert(x * o >= 0) by (nonlinear_arith)
        requires
            x >= 0,
            o > 0,
    ;
    let b = crate::double::round_root(n);
    let side = crate::double::root_side(n);
    crate::double::lemma_round_root(n);
    crate::double::lemma_root_side_falling(n);
    lemma_value_signed(false, b);
    lemma2_to64();
    lemma2_to64_rest();
    lemma_pattern(crate::double::ONE as nat, 1022, 1, 52);
    crate::double::lemma_units_order(crate::double::ONE as nat, d.magnitude());
    assert(x >= o);
    assert(b <= d.magnitude()) by {
        if b > d.magnitude() {
            let w = (crate::double::units((b - 1) as nat) + crate::double::units(b)) as nat;
            crate::double::lemma_units_order((b - 1) as nat, d.magnitude());
            crate::double::lemma_units_order(b, d.magnitude());
            assert(side((2 * x) as nat) <= 0) by {
                assert(4 * (x * o) - (2 * x) * (2 * x) <= 0) by (nonlinear_arith)
                    requires
                        x >= o,
                        o > 0,
                ;
            }
            assert(w > 2 * x);
            assert(side(w) < side((2 * x) as nat));
        }
    }
    let u = crate::double::units(b) as int;
    crate::double::lemma_units_parts(b);
    let p = pow2(crate::double::exponent(b)) as int;
    let h = HIDDEN as int;
    assert(b >= crate::double::ONE);
    assert(crate::double::exponent(b) > 0) by {
        vstd::arithmetic::div_mod::lemma_div_is_ordered(crate::double::ONE as int, b as int, h);
    }
    assert(side((u + crate::double::units(b + 1)) as nat) <= 0);
    assert(4 * (x * o) <= (2 * u + p) * (2 * u + p));
    lemma_pow2_pos(crate::double::exponent(b));
    assert(u >= h * p) by (nonlinear_arith)
        requires
            u == crate::double::significand(b) * p,
            crate::double::significand(b) >= h,
            p > 0,
    ;
    let r = d.square_root();
    lemma_value_order(one, r);
    lemma_root_bound(x, o, u, p, h);
    assert(value(r) == u as real / o as real);
    assert(value(d) == x as real / o as real);
}

proof fn lemma_root_bound(x: int, o: int, u: int, p: int, h: int)
    requires
        o > 0,
        x > 0,
        p > 0,
        h == HIDDEN,
        u >= h * p,
        4 * (x * o) <= (2 * u + p) * (2 * u + p),
    ensures
        x as real / o as real <= (u as real / o as real) * (u as real / o as real) * (1 as real + 2 as real * epsilon()),
{
    assert(h * ((2 * u + p) * (2 * u + p)) <= 4 * (u * u) * (h + 2)) by (nonlinear_arith)
        requires
            u >= h * p,
            p > 0,
            h == 0x10_0000_0000_0000,
    {
        assert((2 * u + p) * (2 * u + p) == 4 * (u * u) + 4 * (u * p) + p * p);
        assert(h * (u * p) <= u * u);
        assert(p * p <= u * p);
        assert(h * (p * p) <= u * u);
    }
    assert(h * (x * o) <= (u * u) * (h + 2)) by (nonlinear_arith)
        requires
            4 * (x * o) <= (2 * u + p) * (2 * u + p),
            h * ((2 * u + p) * (2 * u + p)) <= 4 * (u * u) * (h + 2),
            h > 0,
    ;
    let e = 1 as real / h as real;
    let y = x * o;
    let z = u * u;
    assert(y as real <= z as real * (1 as real + 2 as real * e)) by (nonlinear_arith)
        requires
            h * y <= z * (h + 2),
            h > 0,
            e == 1 as real / h as real,
    ;
    let a = x as real / o as real;
    let b = u as real / o as real;
    let oo = o as real * o as real;
    assert(oo > 0 as real) by (nonlinear_arith)
        requires
            o > 0,
            oo == o as real * o as real,
    ;
    assert(a * oo == y as real) by (nonlinear_arith)
        requires
            o > 0,
            a == x as real / o as real,
            oo == o as real * o as real,
            y == x * o,
    ;
    assert((b * b) * oo == z as real) by (nonlinear_arith)
        requires
            o > 0,
            b == u as real / o as real,
            oo == o as real * o as real,
            z == u * u,
    ;
    let k = 1 as real + 2 as real * e;
    let bb = b * b;
    assert(a <= bb * k) by (nonlinear_arith)
        requires
            a * oo == y as real,
            bb * oo == z as real,
            y as real <= z as real * k,
            oo > 0 as real,
    {
        assert(a * oo <= (bb * k) * oo);
    }
}

/// A finite value that is not negative is small against `2^1074`.
pub proof fn lemma_smallest(d: Double)
    requires
        d.finite(),
        value(d) >= 0 as real,
    ensures
        smallest() * value(d) <= 4 as real * epsilon(),
{
    lemma_greatest(d);
}

// ---------------------------------------------------------------------------
// Scales
// ---------------------------------------------------------------------------

/// `2^k`.
pub closed spec fn scale(k: nat) -> real {
    pow2(k) as real
}

/// Scales multiply by adding their exponents, are ordered as these, and reach up to the bound under
/// which results are finite.
pub proof fn lemma_scale(m: nat, n: nat)
    ensures
        scale(m) * scale(n) == scale(m + n),
        scale(m) >= 1 as real,
        m <= n ==> scale(m) <= scale(n),
        n <= 1000 ==> scale(n) <= huge(),
        scale(n + 1) == 2 as real * scale(n),
{
    let a = pow2(m) as int;
    let b = pow2(n) as int;
    lemma_pow2_adds(m, n);
    lemma_pow2_adds(1, n);
    lemma2_to64();
    lemma_pow2_pos(m);
    assert(a as real * b as real == (a * b) as real) by (nonlinear_arith);
    if m < n {
        lemma_pow2_strictly_increases(m, n);
    }
    if n < 1000 {
        lemma_pow2_strictly_increases(n, 1000);
    }
}

/// `2^61` in digits.
pub proof fn lemma_scale_digits()
    ensures
        scale(61) == 0x2000_0000_0000_0000 as real,
{
    lemma2_to64_rest();
}

/// What a number up to `2^62` makes of the smallest value is still tiny.
pub proof fn lemma_smallest_scaled(x: real)
    requires
        0 as real <= x <= scale(62),
    ensures
        0 as real <= smallest() * x <= 1 as real / 0x2000_0000_0000_0000 as real,
        0 as real <= smallest() <= 1 as real / 0x2000_0000_0000_0000 as real,
{
    let o = crate::double::one_in_units() as int;
    let s = smallest();
    let m = scale(62);
    let n = scale(1012);
    lemma_scale(62, 1012);
    lemma_scale(61, 1012);
    lemma_scale(62, 62);
    lemma_scale_digits();
    lemma_pow2_pos(1074);
    assert(s * (o as real) == 1 as real && s > 0 as real) by (nonlinear_arith)
        requires
            o > 0,
            s == 1 as real / o as real,
    ;
    let sm = s * m;
    assert(sm * n == 1 as real) by {
        crate::algebra::lemma_regroup(s, m, n);
    }
    let big = 0x2000_0000_0000_0000 as real;
    crate::algebra::lemma_nonnegative_product(s, m);
    assert(sm * big <= 1 as real) by (nonlinear_arith)
        requires
            sm * n == 1 as real,
            n >= big,
            sm >= 0 as real,
            big > 0 as real,
    ;
    crate::algebra::lemma_scaled_up(x, m, s);
    crate::algebra::lemma_nonnegative_product(s, x);
    crate::algebra::lemma_scaled_up(1 as real, m, s);
}

/// The bound under which a chord counts as flat is `2^-30` at least.
pub proof fn lemma_flat()
    ensures
        Double::from_bits(crate::curve::FLAT).finite(),
        1 as real <= scale(30) * value(Double::from_bits(crate::curve::FLAT)),
{
    let o = crate::double::one_in_units() as int;
    let p = pow2(992) as int;
    let u = Double::from_bits(crate::curve::FLAT).amount();
    let q = 0x11_2e0b_e826_d695int;
    lemma_pow2_adds(82, 992);
    lemma_pow2_adds(64, 18);
    lemma_pow2_pos(992);
    lemma2_to64();
    lemma2_to64_rest();
    crate::double::lemma_units_layout(992, q as nat);
    assert(u == q * p);
    assert(pow2(82) == 0x4_0000_0000_0000_0000_0000);
    assert(1 as real <= 0x4000_0000 as real * (u as real / o as real)) by (nonlinear_arith)
        requires
            u == q * p,
            o == 0x4_0000_0000_0000_0000_0000 * p,
            p > 0,
            q == 0x11_2e0b_e826_d695,
    ;
}

/// The lowest level is a hundredth at least, and ten thousandths are computed as it.
pub proof fn lemma_hundredth()
    ensures
        Double::from_bits(crate::curve::LOWEST_LEVEL).finite(),
        value(Double::from_bits(crate::curve::LOWEST_LEVEL)) >= 1 as real / 100 as real,
        Double::of_int(10).over(Double::from_bits(crate::double::THOUSAND)) == Double::from_bits(
            crate::curve::LOWEST_LEVEL,
        ),
{
    let low = Double::from_bits(crate::curve::LOWEST_LEVEL);
    let o = crate::double::one_in_units() as int;
    lemma_pow2_pos(1074);
    assert(value(low) >= 1 as real / 100 as real) by {
        let p = pow2(1015) as int;
        let q = 0x14_7ae1_47ae_147bint;
        let u = low.amount();
        lemma_pow2_adds(59, 1015);
        lemma_pow2_pos(1015);
        lemma2_to64_rest();
        crate::double::lemma_units_layout(1015, q as nat);
        assert(u == q * p);
        assert(u as real / o as real >= 1 as real / 100 as real) by (nonlinear_arith)
            requires
                u == q * p,
                o == 0x800_0000_0000_0000 * p,
                p > 0,
                q == 0x14_7ae1_47ae_147b,
        ;
    }
    let ten = Double::of_int(10);
    let thousand = Double::from_bits(crate::double::THOUSAND);
    lemma_of_int(10);
    lemma2_to64();
    lemma2_to64_rest();
    lemma_pattern(crate::double::THOUSAND as nat, 1031, 125, 46);
    lemma_pow2_unfold(1077);
    lemma_pow2_unfold(1076);
    lemma_pow2_unfold(1075);
    assert(crate::double::units(thousand.magnitude()) == 1000 * o);
    assert(crate::double::units(ten.magnitude()) == 10 * o);
    assert(((10 * o) * o) * 100 == (1 * o) * (1000 * o)) by (nonlinear_arith);
    assert((10 * o) * o >= 0) by (nonlinear_arith)
        requires
            o > 0,
    ;
    let n = ((10 * o) * o) as nat;
    let d = (1000 * o) as nat;
    crate::double::lemma_round_ratio_order(n, d, (1 * o) as nat, 100);
    crate::double::lemma_round_ratio_order((1 * o) as nat, 100, n, d);
    law_decimals_are_nearest();
    reveal(Double::spec_over);
}

/// The part of the raw range that makes a change a manual one is a fiftieth.
pub proof fn lemma_fiftieth()
    ensures
        Double::from_bits(crate::engine::MANUAL_DELTA_THRESHOLD_RATIO).finite(),
        abs(value(Double::from_bits(crate::engine::MANUAL_DELTA_THRESHOLD_RATIO)) - 1 as real / 50 as real) <= 1 as real
            / 0x40_0000_0000_0000 as real,
{
    let d = Double::from_bits(crate::engine::MANUAL_DELTA_THRESHOLD_RATIO);
    let o = crate::double::one_in_units() as int;
    let p = pow2(1016) as int;
    let q = 0x14_7ae1_47ae_147bint;
    let u = d.amount();
    lemma_pow2_adds(58, 1016);
    lemma_pow2_pos(1016);
    lemma2_to64_rest();
    crate::double::lemma_units_layout(1016, q as nat);
    assert(u == q * p);
    let v = u as real / o as real;
    assert(v * (0x400_0000_0000_0000 as real) == q as real) by (nonlinear_arith)
        requires
            v == u as real / o as real,
            u == q * p,
            o == 0x400_0000_0000_0000 * p,
            p > 0,
    ;
}

/// Up to one, neighbouring values are `2^-52` apart at most.
proof fn lemma_step_below_one(b: nat)
    requires
        b <= crate::double::ONE,
    ensures
        crate::double::units(b + 1) <= crate::double::units(b) + pow2(1022),
        crate::double::one_in_units() == HIDDEN * pow2(1022),
{
    let t = crate::double::exponent(b);
    let h = HIDDEN as int;
    lemma2_to64_rest();
    lemma_pow2_adds(52, 1022);
    crate::double::lemma_units_parts(b);
    assert(t <= 1022) by {
        vstd::arithmetic::div_mod::lemma_div_is_ordered(b as int, crate::double::ONE as int, h);
    }
    if t < 1022 {
        lemma_pow2_strictly_increases(t, 1022);
    }
}

/// The square root of a value between zero and one lies there, and its square is off by `2^-51` at most.
pub proof fn lemma_root_below_one(d: Double)
    requires
        d.finite(),
        !d.negative(),
        value(d) <= 1 as real,
    ensures
        d.square_root().finite(),
        !d.square_root().negative(),
        0 as real <= value(d.square_root()) <= 1 as real,
        abs(value(d.square_root()) * value(d.square_root()) - value(d)) <= 2 as real * epsilon(),
{
    reveal(Double::spec_square_root);
    let one = Double::from_bits(crate::double::ONE);
    let o = crate::double::one_in_units() as int;
    lemma_constants();
    lemma_small();
    lemma_not_below_zero(d);
    lemma_value_order(d, one);
    lemma_root_order(d, d);
    let r = d.square_root();
    lemma_value_order(r, one);
    lemma_not_below_zero(r);
    if d.zero() {
        lemma_zero_value(d);
        assert(0 as real * (0 as real) == 0 as real);
    } else {
        let x = crate::double::units(d.magnitude()) as int;
        lemma_pow2_pos(1074);
        crate::double::lemma_units_order(d.magnitude(), 0);
        assert(x * o >= 0) by (nonlinear_arith)
            requires
                x >= 0,
                o > 0,
        ;
        let n = (x * o) as nat;
        let b = crate::double::round_root(n);
        let side = crate::double::root_side(n);
        crate::double::lemma_round_root(n);
        crate::double::lemma_root_side_falling(n);
        lemma_value_signed(false, b);
        assert(b <= crate::double::ONE);
        let u = crate::double::units(b) as int;
        let g = pow2(1022) as int;
        lemma_step_below_one(b);
        let high = (u + crate::double::units(b + 1)) as nat;
        assert(side(high) <= 0);
        assert(4 * (x * o) <= (2 * u + g) * (2 * u + g)) by (nonlinear_arith)
            requires
                4 * (x * o) - high * high <= 0,
                0 <= high <= 2 * u + g,
        ;
        if b > 0 {
            lemma_step_below_one((b - 1) as nat);
            let low = (crate::double::units((b - 1) as nat) + u) as nat;
            assert(side(low) >= 0);
            assert(low >= 2 * u - g);
            assert(2 * u >= g ==> 4 * (x * o) >= (2 * u - g) * (2 * u - g)) by (nonlinear_arith)
                requires
                    4 * (x * o) - low * low >= 0,
                    low >= 2 * u - g,
            ;
        } else {
            crate::double::lemma_units_order(0, 0);
        }
        crate::double::lemma_units_order(b, crate::double::ONE as nat);
        lemma2_to64();
        lemma2_to64_rest();
        lemma_pattern(crate::double::ONE as nat, 1022, 1, 52);
        assert(u <= o);
        assert(value(r) == u as real / o as real);
        assert(value(d) == x as real / o as real);
        lemma_pow2_pos(1022);
        lemma_root_gap(x, o, u, g);
    }
}

proof fn lemma_root_gap(x: int, o: int, u: int, g: int)
    requires
        o == HIDDEN * g,
        g > 0,
        x > 0,
        0 <= u <= o,
        4 * (x * o) <= (2 * u + g) * (2 * u + g),
        2 * u >= g ==> 4 * (x * o) >= (2 * u - g) * (2 * u - g),
    ensures
        ({
            let r = u as real / o as real;
            abs(r * r - x as real / o as real) <= 2 as real * epsilon()
        }),
{
    let h = HIDDEN as int;
    let y = x * o;
    let z = u * u;
    let k = o * g;
    assert(y >= 0 && z >= 0 && k > 0) by (nonlinear_arith)
        requires
            x > 0,
            o > 0,
            g > 0,
            y == x * o,
            z == u * u,
            k == o * g,
    ;
    assert(y - z <= 2 * k) by (nonlinear_arith)
        requires
            4 * y <= (2 * u + g) * (2 * u + g),
            0 <= u <= o,
            0 < g <= o,
            z == u * u,
            k == o * g,
    {
        assert((2 * u + g) * (2 * u + g) == 4 * (u * u) + 4 * (u * g) + g * g);
        assert(u * g <= o * g);
        assert(g * g <= o * g);
    }
    assert(z - y <= 2 * k) by (nonlinear_arith)
        requires
            2 * u >= g ==> 4 * y >= (2 * u - g) * (2 * u - g),
            y >= 0,
            0 <= u <= o,
            0 < g <= o,
            z == u * u,
            k == o * g,
    {
        assert((2 * u - g) * (2 * u - g) == 4 * (u * u) - 4 * (u * g) + g * g);
        assert(u * g <= o * g);
        assert(g * g >= 0);
        if 2 * u < g {
            assert(u * u <= u * g);
        }
    }
    let r = u as real / o as real;
    let v = x as real / o as real;
    let oo = o as real * o as real;
    let e = 1 as real / h as real;
    assert(oo > 0 as real) by (nonlinear_arith)
        requires
            o > 0,
            oo == o as real * o as real,
    ;
    assert(v * oo == y as real) by (nonlinear_arith)
        requires
            o > 0,
            v == x as real / o as real,
            oo == o as real * o as real,
            y == x * o,
    ;
    assert((r * r) * oo == z as real) by (nonlinear_arith)
        requires
            o > 0,
            r == u as real / o as real,
            oo == o as real * o as real,
            z == u * u,
    ;
    assert(e * oo == k as real) by (nonlinear_arith)
        requires
            o == h * g,
            h > 0,
            e == 1 as real / h as real,
            oo == o as real * o as real,
            k == o * g,
    ;
    let rr = r * r;
    let f = rr - v;
    let bound = 2 as real * e;
    assert(f * oo <= bound * oo) by {
        crate::algebra::lemma_distribute(rr, v, oo);
        crate::algebra::lemma_regroup(2 as real, e, oo);
    }
    assert((0 as real - f) * oo <= bound * oo) by {
        crate::algebra::lemma_distribute(v, rr, oo);
        crate::algebra::lemma_regroup(2 as real, e, oo);
        assert(0 as real - f == v - rr);
    }
    assert(f <= bound && 0 as real - f <= bound) by (nonlinear_arith)
        requires
            f * oo <= bound * oo,
            (0 as real - f) * oo <= bound * oo,
            oo > 0 as real,
    ;
}

/// The smallest value is nothing against a number from `2^-80` up.
pub proof fn lemma_tiny_against(x: real)
    requires
        x >= 1 as real / 0x1_0000_0000_0000_0000_0000 as real,
    ensures
        4 as real * smallest() <= x,
{
    let o = crate::double::one_in_units() as int;
    lemma2_to64();
    lemma2_to64_rest();
    lemma_pow2_adds(64, 22);
    lemma_pow2_strictly_increases(86, 1074);
    assert(pow2(86) == 0x40_0000_0000_0000_0000_0000);
    assert(4 as real * (1 as real / o as real) <= 1 as real / 0x1_0000_0000_0000_0000_0000 as real) by (nonlinear_arith)
        requires
            o >= 0x40_0000_0000_0000_0000_0000,
    ;
}

/// The bound under which a chord counts as flat is `2^-29` at most.
pub proof fn lemma_flat_bound()
    ensures
        Double::from_bits(crate::curve::FLAT).finite(),
        value(Double::from_bits(crate::curve::FLAT)) <= 1 as real / 0x2000_0000 as real,
{
    let o = crate::double::one_in_units() as int;
    let p = pow2(992) as int;
    let u = Double::from_bits(crate::curve::FLAT).amount();
    let q = 0x11_2e0b_e826_d695int;
    lemma_pow2_adds(82, 992);
    lemma_pow2_adds(64, 18);
    lemma_pow2_pos(992);
    lemma2_to64();
    lemma2_to64_rest();
    crate::double::lemma_units_layout(992, q as nat);
    assert(u == q * p);
    assert(pow2(82) == 0x4_0000_0000_0000_0000_0000);
    assert(u as real / o as real <= 1 as real / 0x2000_0000 as real) by (nonlinear_arith)
        requires
            u == q * p,
            o == 0x4_0000_0000_0000_0000_0000 * p,
            p > 0,
            q == 0x11_2e0b_e826_d695,
    ;
}

/// The divisor from which on headrooms are compared is a millionth, or about that.
pub proof fn lemma_millionth()
    ensures
        Double::from_bits(crate::curve::TINY).finite(),
        value(Double::from_bits(crate::curve::TINY)) <= 1 as real / 500_000 as real,
{
    let o = crate::double::one_in_units() as int;
    let p = pow2(1002) as int;
    let u = Double::from_bits(crate::curve::TINY).amount();
    let q = 0x10_c6f7_a0b5_ed8dint;
    lemma_pow2_adds(72, 1002);
    lemma_pow2_adds(64, 8);
    lemma_pow2_pos(1002);
    lemma2_to64();
    lemma2_to64_rest();
    crate::double::lemma_units_layout(1002, q as nat);
    assert(u == q * p);
    assert(pow2(72) == 0x100_0000_0000_0000_0000);
    assert(u as real / o as real <= 1 as real / 500_000 as real) by (nonlinear_arith)
        requires
            u == q * p,
            o == 0x100_0000_0000_0000_0000 * p,
            p > 0,
            q == 0x10_c6f7_a0b5_ed8d,
    ;
}

/// The level of a curve without points is a twentieth, but for rounding.
pub proof fn lemma_twentieth()
    ensures
        Double::from_bits(crate::curve::BARE_LEVEL).finite(),
        abs(value(Double::from_bits(crate::curve::BARE_LEVEL)) - 1 as real / 20 as real) <= 1 as real
            / 0x40_0000_0000_0000 as real,
{
    let d = Double::from_bits(crate::curve::BARE_LEVEL);
    let o = crate::double::one_in_units() as int;
    let p = pow2(1017) as int;
    let q = 0x19_9999_9999_999aint;
    let u = d.amount();
    lemma_pow2_adds(57, 1017);
    lemma_pow2_pos(1017);
    lemma2_to64_rest();
    crate::double::lemma_units_layout(1017, q as nat);
    assert(u == q * p);
    let v = u as real / o as real;
    assert(v * (0x200_0000_0000_0000 as real) == q as real) by (nonlinear_arith)
        requires
            v == u as real / o as real,
            u == q * p,
            o == 0x200_0000_0000_0000 * p,
            p > 0,
    ;
}

/// The lowest level is a hundredth, but for rounding.
pub proof fn lemma_lowest_level()
    ensures
        Double::from_bits(crate::curve::LOWEST_LEVEL).finite(),
        abs(value(Double::from_bits(crate::curve::LOWEST_LEVEL)) - 1 as real / 100 as real) <= 1 as real
            / 0x40_0000_0000_0000 as real,
{
    let d = Double::from_bits(crate::curve::LOWEST_LEVEL);
    let o = crate::double::one_in_units() as int;
    let p = pow2(1015) as int;
    let q = 0x14_7ae1_47ae_147bint;
    let u = d.amount();
    lemma_pow2_adds(59, 1015);
    lemma_pow2_pos(1015);
    lemma2_to64_rest();
    crate::double::lemma_units_layout(1015, q as nat);
    assert(u == q * p);
    let v = u as real / o as real;
    assert(v * (0x800_0000_0000_0000 as real) == q as real) by (nonlinear_arith)
        requires
            v == u as real / o as real,
            u == q * p,
            o == 0x800_0000_0000_0000 * p,
            p > 0,
    ;
}

/// The square of the root of a finite value from one up is no more than the value and `2^-52` of it.
pub proof fn lemma_root_above(d: Double)
    requires
        d.finite(),
        value(d) >= 1 as real,
    ensures
        value(d.square_root()) * value(d.square_root()) * (1 as real - epsilon()) <= value(d),
{
    reveal(Double::spec_square_root);
    let o = crate::double::one_in_units() as int;
    lemma_pow2_pos(1074);
    lemma_positive(d);
    lemma_root(d);
    lemma_constants();
    let one = Double::from_bits(crate::double::ONE);
    lemma_value_order(one, d);
    lemma_root_order(d, d);
    let x = crate::double::units(d.magnitude()) as int;
    assert(x * o >= 0) by (nonlinear_arith)
        requires
            x >= 0,
            o > 0,
    ;
    let n = (x * o) as nat;
    let b = crate::double::round_root(n);
    let side = crate::double::root_side(n);
    crate::double::lemma_round_root(n);
    crate::double::lemma_root_side_falling(n);
    lemma_value_signed(false, b);
    let r = d.square_root();
    lemma_value_order(one, r);
    assert(b >= crate::double::ONE);
    let h = HIDDEN as int;
    let c = (b - 1) as nat;
    let u = crate::double::units(b) as int;
    crate::double::lemma_units_parts(b);
    crate::double::lemma_units_parts(c);
    let p = pow2(crate::double::exponent(b)) as int;
    lemma_pow2_pos(crate::double::exponent(b));
    assert(crate::double::exponent(b) > 0) by {
        vstd::arithmetic::div_mod::lemma_div_is_ordered(crate::double::ONE as int, b as int, h);
    }
    assert(crate::double::exponent(c) <= crate::double::exponent(b)) by {
        vstd::arithmetic::div_mod::lemma_div_is_ordered(c as int, b as int, h);
    }
    if crate::double::exponent(c) < crate::double::exponent(b) {
        lemma_pow2_strictly_increases(crate::double::exponent(c), crate::double::exponent(b));
    }
    let low = (crate::double::units(c) + u) as nat;
    assert(side(low) >= 0);
    assert(low >= 2 * u - p);
    assert(u >= h * p) by (nonlinear_arith)
        requires
            u == crate::double::significand(b) * p,
            crate::double::significand(b) >= h,
            p > 0,
    ;
    assert(4 * (x * o) >= (2 * u - p) * (2 * u - p)) by (nonlinear_arith)
        requires
            4 * (x * o) - low * low >= 0,
            low >= 2 * u - p,
            2 * u - p >= 0,
    ;
    lemma_root_bound_above(x, o, u, p, h);
    assert(value(r) == u as real / o as real);
    assert(value(d) == x as real / o as real);
}

proof fn lemma_root_bound_above(x: int, o: int, u: int, p: int, h: int)
    requires
        o > 0,
        x > 0,
        p > 0,
        h == HIDDEN,
        u >= h * p,
        4 * (x * o) >= (2 * u - p) * (2 * u - p),
    ensures
        (u as real / o as real) * (u as real / o as real) * (1 as real - epsilon()) <= x as real / o as real,
{
    let y = x * o;
    let z = u * u;
    assert(h * y >= z * (h - 1)) by (nonlinear_arith)
        requires
            4 * y >= (2 * u - p) * (2 * u - p),
            u >= h * p,
            p > 0,
            h == 0x10_0000_0000_0000,
            z == u * u,
    {
        assert((2 * u - p) * (2 * u - p) == 4 * (u * u) - 4 * (u * p) + p * p);
        assert(h * (u * p) <= u * u);
        assert(p * p >= 0);
    }
    let e = 1 as real / h as real;
    assert(y as real >= z as real * (1 as real - e)) by (nonlinear_arith)
        requires
            h * y >= z * (h - 1),
            h > 0,
            e == 1 as real / h as real,
    ;
    let a = x as real / o as real;
    let b = u as real / o as real;
    let oo = o as real * o as real;
    assert(oo > 0 as real) by (nonlinear_arith)
        requires
            o > 0,
            oo == o as real * o as real,
    ;
    assert(a * oo == y as real) by (nonlinear_arith)
        requires
            o > 0,
            a == x as real / o as real,
            oo == o as real * o as real,
            y == x * o,
    ;
    assert((b * b) * oo == z as real) by (nonlinear_arith)
        requires
            o > 0,
            b == u as real / o as real,
            oo == o as real * o as real,
            z == u * u,
    ;
    let k = 1 as real - e;
    let bb = b * b;
    assert(bb * k <= a) by (nonlinear_arith)
        requires
            a * oo == y as real,
            bb * oo == z as real,
            y as real >= z as real * k,
            oo > 0 as real,
    {
        assert((bb * k) * oo <= a * oo);
    }
}

} // verus!
