//! IEEE 754 binary64 arithmetic on bit patterns.
//!
//! Every finite value is a whole multiple of `2^-1074`, the smallest positive value. The model of
//! a finite value is that multiple, a mathematical integer; an operation is specified as the exact
//! result rounded once, to the nearest representable magnitude, ties going to the even one.

use vstd::prelude::*;
use vstd::arithmetic::power2::*;
use vstd::arithmetic::mul::*;
use vstd::arithmetic::div_mod::*;

verus! {

/// The sign bit.
pub const SIGN: u64 = 0x8000_0000_0000_0000;

/// The bit pattern of positive infinity, above every finite magnitude.
pub const INFINITY: u64 = 0x7ff0_0000_0000_0000;

/// The bit pattern that every operation returns where the result is not a number.
pub const NOT_A_NUMBER: u64 = 0x7ff8_0000_0000_0000;

/// The weight of the lowest exponent bit in a bit pattern.
pub const HIDDEN: u64 = 0x0010_0000_0000_0000;

/// 0.0
pub const ZERO: u64 = 0x0000_0000_0000_0000;

/// 0.5
pub const HALF: u64 = 0x3fe0_0000_0000_0000;

/// 1.0
pub const ONE: u64 = 0x3ff0_0000_0000_0000;

/// 2.0
pub const TWO: u64 = 0x4000_0000_0000_0000;

/// 3.0
pub const THREE: u64 = 0x4008_0000_0000_0000;

/// 100.0
pub const HUNDRED: u64 = 0x4059_0000_0000_0000;

/// 1000.0
pub const THOUSAND: u64 = 0x408f_4000_0000_0000;

/// A binary64 value, held as its bit pattern. `==` compares the patterns; the order of the numbers
/// themselves is given by `less`, `at_most` and `same`.
#[derive(Clone, Copy, Debug, PartialEq, Eq, Structural)]
pub struct Double {
    pub bits: u64,
}

/// The magnitude with bit pattern `b` (sign bit clear), in units of `2^-1074`. The pattern of
/// infinity stands for `2^1024`, the first magnitude that no finite value has.
pub open spec fn units(b: nat) -> nat {
    if b < HIDDEN {
        b
    } else {
        (HIDDEN as nat + b % HIDDEN as nat) * pow2((b / HIDDEN as nat - 1) as nat)
    }
}

/// One, in units of `2^-1074`.
pub open spec fn one_in_units() -> nat {
    pow2(1074)
}

/// `b` is the pattern nearest to a magnitude `v`, ties going to the even pattern. The magnitude is
/// given by `side`: `side(s)` has the sign of `2 * v - s`.
pub open spec fn nearest(side: spec_fn(nat) -> int, b: nat) -> bool {
    &&& b <= INFINITY
    &&& b > 0 ==> {
        let low = side((units((b - 1) as nat) + units(b)) as nat);
        low > 0 || (low == 0 && b % 2 == 0)
    }
    &&& b < INFINITY ==> {
        let high = side(units(b) + units(b + 1));
        high < 0 || (high == 0 && b % 2 == 0)
    }
}

/// The side of `n / d` units.
pub open spec fn ratio_side(n: nat, d: nat) -> spec_fn(nat) -> int {
    |s: nat| 2 * n - s * d
}

/// The side of the square root of `n` units.
pub open spec fn root_side(n: nat) -> spec_fn(nat) -> int {
    |s: nat| 4 * n - s * s
}

/// The pattern nearest to `n / d` units.
#[verifier::opaque]
pub open spec fn round_ratio(n: nat, d: nat) -> nat {
    choose|b: nat| nearest(ratio_side(n, d), b)
}

/// The pattern nearest to the square root of `n` units.
#[verifier::opaque]
pub open spec fn round_root(n: nat) -> nat {
    choose|b: nat| nearest(root_side(n), b)
}

// ---------------------------------------------------------------------------
// Magnitudes
// ---------------------------------------------------------------------------

/// Patterns are laid out so that `t * 2^52 + q` is the magnitude `q * 2^t`.
pub proof fn lemma_units_layout(t: nat, q: nat)
    requires
        q <= 2 * HIDDEN,
        t == 0 || q >= HIDDEN,
    ensures
        units(t * HIDDEN as nat + q) == q * pow2(t),
{
    let h = HIDDEN as nat;
    let b = t * h + q;
    lemma_pow2_pos(t);
    if q < h {
        lemma2_to64();
        assert(t * h == 0) by (nonlinear_arith)
            requires
                t == 0,
        ;
        assert(q * 1 == q);
    } else if q < 2 * h {
        assert(b == (t + 1) * h + (q - h)) by (nonlinear_arith)
            requires
                b == t * h + q,
        ;
        lemma_fundamental_div_mod_converse(b as int, h as int, (t + 1) as int, q - h);
        assert(b >= h) by (nonlinear_arith)
            requires
                b == t * h + q,
                q >= h,
        ;
    } else {
        assert(b == (t + 2) * h + 0) by (nonlinear_arith)
            requires
                b == t * h + q,
                q == 2 * h,
        ;
        lemma_fundamental_div_mod_converse(b as int, h as int, (t + 2) as int, 0);
        assert(b >= h) by (nonlinear_arith)
            requires
                b == t * h + q,
                q >= h,
        ;
        lemma_pow2_unfold(t + 1);
        assert((h + 0) * (2 * pow2(t)) == q * pow2(t)) by (nonlinear_arith)
            requires
                q == 2 * h,
        ;
    }
}

/// The exponent of a pattern in the layout of `lemma_units_layout`.
pub open spec fn exponent(b: nat) -> nat {
    if b < HIDDEN {
        0
    } else {
        (b / HIDDEN as nat - 1) as nat
    }
}

/// The significand of a pattern in the layout of `lemma_units_layout`.
pub open spec fn significand(b: nat) -> nat {
    if b < HIDDEN {
        b
    } else {
        HIDDEN as nat + b % HIDDEN as nat
    }
}

/// A pattern taken apart: the exponent, the significand and the distance to the next magnitude.
pub proof fn lemma_units_parts(b: nat)
    ensures
        b == exponent(b) * HIDDEN + significand(b),
        significand(b) < 2 * HIDDEN,
        exponent(b) == 0 || significand(b) >= HIDDEN,
        units(b) == significand(b) * pow2(exponent(b)),
        units(b + 1) == units(b) + pow2(exponent(b)),
{
    let h = HIDDEN as nat;
    let t = exponent(b);
    let q = significand(b);
    lemma_fundamental_div_mod(b as int, h as int);
    if b >= h {
        lemma_div_is_ordered(h as int, b as int, h as int);
        lemma_div_by_self(h as int);
        assert(b == t * h + q) by (nonlinear_arith)
            requires
                b == h * (b / h) + b % h,
                t == b / h - 1,
                q == h + b % h,
        ;
    }
    lemma_units_layout(t, q);
    lemma_units_layout(t, q + 1);
    assert((q + 1) * pow2(t) == q * pow2(t) + pow2(t)) by (nonlinear_arith);
    assert(t * h + (q + 1) == b + 1);
}

/// A greater pattern is a greater magnitude.
pub proof fn lemma_units_increase(a: nat, b: nat)
    requires
        a < b,
    ensures
        units(a) < units(b),
    decreases b - a,
{
    lemma_units_parts((b - 1) as nat);
    lemma_pow2_pos(exponent((b - 1) as nat));
    if a < b - 1 {
        lemma_units_increase(a, (b - 1) as nat);
    }
}

/// Patterns are ordered as their magnitudes are.
pub proof fn lemma_units_order(a: nat, b: nat)
    ensures
        a < b <==> units(a) < units(b),
        a <= b <==> units(a) <= units(b),
        a == b <==> units(a) == units(b),
{
    if a < b {
        lemma_units_increase(a, b);
    } else if b < a {
        lemma_units_increase(b, a);
    }
}

// ---------------------------------------------------------------------------
// Rounding
// ---------------------------------------------------------------------------

/// A side function falls as its argument grows, as that of a magnitude does.
pub open spec fn falling(side: spec_fn(nat) -> int) -> bool {
    forall|s: nat, u: nat| #![trigger side(s), side(u)] s < u ==> side(u) < side(s)
}

/// There is at most one nearest pattern.
pub proof fn lemma_nearest_unique(side: spec_fn(nat) -> int, a: nat, b: nat)
    requires
        nearest(side, a),
        nearest(side, b),
        falling(side),
    ensures
        a == b,
{
    if b < a {
        lemma_nearest_order(side, side, b, a);
    } else if a < b {
        lemma_nearest_order(side, side, a, b);
    }
}

/// A magnitude that is nowhere below another one does not round to a lesser pattern.
pub proof fn lemma_nearest_order(low: spec_fn(nat) -> int, high: spec_fn(nat) -> int, b: nat, a: nat)
    requires
        nearest(low, a),
        nearest(high, b),
        falling(low),
        falling(high),
        forall|s: nat| #![trigger low(s)] #![trigger high(s)] (low(s) > 0 ==> high(s) > 0) && (low(s) == 0 ==> high(s) >= 0),
    ensures
        a <= b,
{
    if b < a {
        let s = units(b) + units(b + 1);
        let u = (units((a - 1) as nat) + units(a)) as nat;
        lemma_units_order(b, (a - 1) as nat);
        lemma_units_order(b + 1, a);
        assert(s <= u);
        assert(high(s) <= 0);
        assert(low(u) >= 0);
        assert(high(u) >= 0);
        if s == u {
            assert(a == b + 1);
        }
    }
}

/// Between two neighbours the nearer one is the nearest pattern.
pub proof fn lemma_nearest_between(side: spec_fn(nat) -> int, b: nat)
    requires
        falling(side),
        b < INFINITY,
        side((2 * units(b)) as nat) >= 0,
        side((2 * units(b + 1)) as nat) < 0,
    ensures
        ({
            let k = side(units(b) + units(b + 1));
            nearest(side, if k > 0 || (k == 0 && b % 2 == 1) { b + 1 } else { b })
        }),
{
    lemma_units_order(b, b + 1);
    lemma_units_order(b + 1, b + 2);
    assert(side((2 * units(b + 1)) as nat) > side(units(b + 1) + units(b + 2)));
    if b > 0 {
        lemma_units_order((b - 1) as nat, b);
        assert(side((units((b - 1) as nat) + units(b)) as nat) > side((2 * units(b)) as nat));
    }
}

/// A magnitude of at least `2^1024` rounds to infinity.
pub proof fn lemma_nearest_overflow(side: spec_fn(nat) -> int)
    requires
        falling(side),
        side((2 * units(INFINITY as nat)) as nat) >= 0,
    ensures
        nearest(side, INFINITY as nat),
{
    let b = INFINITY as nat;
    lemma_units_order((b - 1) as nat, b);
    assert(side((units((b - 1) as nat) + units(b)) as nat) > side((2 * units(b)) as nat));
}

/// Every magnitude has a nearest pattern.
pub proof fn lemma_nearest_exists(side: spec_fn(nat) -> int) -> (r: nat)
    requires
        falling(side),
        side(0) >= 0,
    ensures
        nearest(side, r),
{
    if side((2 * units(INFINITY as nat)) as nat) >= 0 {
        lemma_nearest_overflow(side);
        INFINITY as nat
    } else {
        lemma_nearest_exists_below(side, INFINITY as nat)
    }
}

proof fn lemma_nearest_exists_below(side: spec_fn(nat) -> int, b: nat) -> (r: nat)
    requires
        falling(side),
        side(0) >= 0,
        0 < b <= INFINITY,
        side((2 * units(b)) as nat) < 0,
    ensures
        nearest(side, r),
    decreases b,
{
    let a = (b - 1) as nat;
    if side((2 * units(a)) as nat) >= 0 {
        lemma_nearest_between(side, a);
        let k = side(units(a) + units(b));
        if k > 0 || (k == 0 && a % 2 == 1) {
            b
        } else {
            a
        }
    } else {
        lemma_nearest_exists_below(side, a)
    }
}

/// The side of a ratio falls.
pub proof fn lemma_ratio_side_falling(n: nat, d: nat)
    requires
        d > 0,
    ensures
        falling(ratio_side(n, d)),
        ratio_side(n, d)(0) >= 0,
{
    let side = ratio_side(n, d);
    assert forall|s: nat, u: nat| #![trigger side(s), side(u)] s < u implies side(u) < side(s) by {
        assert(s * d < u * d) by (nonlinear_arith)
            requires
                s < u,
                d > 0,
        ;
    }
}

/// The side of a square root falls.
pub proof fn lemma_root_side_falling(n: nat)
    ensures
        falling(root_side(n)),
        root_side(n)(0) >= 0,
{
    let side = root_side(n);
    assert forall|s: nat, u: nat| #![trigger side(s), side(u)] s < u implies side(u) < side(s) by {
        assert(s * s < u * u) by (nonlinear_arith)
            requires
                s < u,
        ;
    }
}

/// `round_ratio` is the nearest pattern.
pub proof fn lemma_round_ratio(n: nat, d: nat)
    requires
        d > 0,
    ensures
        nearest(ratio_side(n, d), round_ratio(n, d)),
        round_ratio(n, d) <= INFINITY,
{
    reveal(round_ratio);
    lemma_ratio_side_falling(n, d);
    let r = lemma_nearest_exists(ratio_side(n, d));
}

/// `round_root` is the nearest pattern.
pub proof fn lemma_round_root(n: nat)
    ensures
        nearest(root_side(n), round_root(n)),
        round_root(n) <= INFINITY,
{
    reveal(round_root);
    lemma_root_side_falling(n);
    let r = lemma_nearest_exists(root_side(n));
}

/// A pattern that is nearest to a ratio is the one that the ratio rounds to.
pub proof fn lemma_round_ratio_is(n: nat, d: nat, b: nat)
    requires
        d > 0,
        nearest(ratio_side(n, d), b),
    ensures
        round_ratio(n, d) == b,
{
    lemma_round_ratio(n, d);
    lemma_ratio_side_falling(n, d);
    lemma_nearest_unique(ratio_side(n, d), b, round_ratio(n, d));
}

/// A pattern that is nearest to a square root is the one that the root rounds to.
pub proof fn lemma_round_root_is(n: nat, b: nat)
    requires
        nearest(root_side(n), b),
    ensures
        round_root(n) == b,
{
    lemma_round_root(n);
    lemma_root_side_falling(n);
    lemma_nearest_unique(root_side(n), b, round_root(n));
}

/// Rounding keeps the order of ratios.
pub proof fn lemma_round_ratio_order(n: nat, d: nat, m: nat, e: nat)
    requires
        d > 0,
        e > 0,
        n * e <= m * d,
    ensures
        round_ratio(n, d) <= round_ratio(m, e),
{
    let low = ratio_side(n, d);
    let high = ratio_side(m, e);
    lemma_round_ratio(n, d);
    lemma_round_ratio(m, e);
    lemma_ratio_side_falling(n, d);
    lemma_ratio_side_falling(m, e);
    assert forall|s: nat| #![trigger low(s)] #![trigger high(s)] (low(s) > 0 ==> high(s) > 0) && (low(s) == 0 ==> high(s) >= 0) by {
        assert(2 * n > s * d ==> 2 * m > s * e) by (nonlinear_arith)
            requires
                d > 0,
                e > 0,
                n * e <= m * d,
        ;
        assert(2 * n == s * d ==> 2 * m >= s * e) by (nonlinear_arith)
            requires
                d > 0,
                e > 0,
                n * e <= m * d,
        ;
    }
    lemma_nearest_order(low, high, round_ratio(m, e), round_ratio(n, d));
}

/// A representable magnitude rounds to itself.
pub proof fn lemma_round_ratio_exact(b: nat, d: nat)
    requires
        b <= INFINITY,
        d > 0,
    ensures
        round_ratio((units(b) * d) as nat, d) == b,
{
    let side = ratio_side((units(b) * d) as nat, d);
    lemma_ratio_side_falling((units(b) * d) as nat, d);
    assert(side((2 * units(b)) as nat) == 0) by {
        assert(2 * (units(b) * d) - (2 * units(b)) * d == 0) by (nonlinear_arith);
    }
    lemma_units_order(b, b + 1);
    if b < INFINITY {
        assert(side((2 * units(b)) as nat) > side(units(b) + units(b + 1)));
    }
    if b > 0 {
        lemma_units_order((b - 1) as nat, b);
        assert(side((units((b - 1) as nat) + units(b)) as nat) > side((2 * units(b)) as nat));
    }
    lemma_round_ratio_is((units(b) * d) as nat, d, b);
}

/// A ratio that is no more than a representable magnitude does not round above it.
pub proof fn lemma_round_ratio_at_most(n: nat, d: nat, b: nat)
    requires
        d > 0,
        b <= INFINITY,
        n <= units(b) * d,
    ensures
        round_ratio(n, d) <= b,
{
    lemma_round_ratio_exact(b, d);
    assert(n * d <= (units(b) * d) * d) by (nonlinear_arith)
        requires
            n <= units(b) * d,
    ;
    lemma_round_ratio_order(n, d, (units(b) * d) as nat, d);
}

/// A ratio that is no less than a representable magnitude does not round below it.
pub proof fn lemma_round_ratio_at_least(n: nat, d: nat, b: nat)
    requires
        d > 0,
        b <= INFINITY,
        n >= units(b) * d,
    ensures
        round_ratio(n, d) >= b,
{
    lemma_round_ratio_exact(b, d);
    assert(n * d >= (units(b) * d) * d) by (nonlinear_arith)
        requires
            n >= units(b) * d,
    ;
    lemma_round_ratio_order((units(b) * d) as nat, d, n, d);
}

/// The factor `2^t` of a scale, where `t` is positive.
pub open spec fn scale_up(t: int) -> nat {
    pow2(if t > 0 { t as nat } else { 0 })
}

/// The divisor `2^-t` of a scale, where `t` is negative.
pub open spec fn scale_down(t: int) -> nat {
    pow2(if t < 0 { (-t) as nat } else { 0 })
}

/// `side` is that of the magnitude `m * 2^t`, or, where `more` holds, of one strictly between
/// `m * 2^t` and `(m + 1) * 2^t`.
pub open spec fn brackets(side: spec_fn(nat) -> int, m: nat, t: int, more: bool) -> bool {
    &&& falling(side)
    &&& forall|s: nat| #[trigger] bracketed(side(s), s, m, t, more)
}

/// What the sign of `side(s)` is, by the place of `s` against `m * 2^t` and `(m + 1) * 2^t`.
pub open spec fn bracketed(k: int, s: nat, m: nat, t: int, more: bool) -> bool {
    let a = s * scale_down(t);
    let low = 2 * m * scale_up(t);
    let high = 2 * (m + 1) * scale_up(t);
    &&& a < low ==> k > 0
    &&& a == low ==> (if more { k > 0 } else { k == 0 })
    &&& a > low && !more ==> k < 0
    &&& a >= high ==> k < 0
}

/// Two to the power `k`.
fn power(k: u32) -> (r: u128)
    requires
        k < 128,
    ensures
        r == pow2(k as nat),
{
    let mut r: u128 = 1;
    let mut i: u32 = 0;
    proof {
        lemma2_to64();
    }
    while i < k
        invariant
            i <= k < 128,
            r == pow2(i as nat),
        decreases k - i,
    {
        proof {
            lemma_pow2_unfold((i + 1) as nat);
            lemma_pow2_127(i as nat);
        }
        r = r * 2;
        i = i + 1;
    }
    r
}

proof fn lemma_pow2_127(i: nat)
    requires
        i <= 127,
    ensures
        pow2(i) <= 0x8000_0000_0000_0000_0000_0000_0000_0000,
        i < 127 ==> pow2(i) <= 0x4000_0000_0000_0000_0000_0000_0000_0000,
{
    lemma2_to64_rest();
    lemma_pow2_adds(63, 63);
    lemma_pow2_adds(63, 64);
    assert(0x8000_0000_0000_0000int * 0x8000_0000_0000_0000 == 0x4000_0000_0000_0000_0000_0000_0000_0000);
    assert(0x8000_0000_0000_0000int * 0x1_0000_0000_0000_0000 == 0x8000_0000_0000_0000_0000_0000_0000_0000);
    if i < 126 {
        lemma_pow2_strictly_increases(i, 126);
    }
    if i < 127 {
        lemma_pow2_strictly_increases(i, 127);
    }
}

/// The number of bits of `m`.
fn bit_length(m: u128) -> (l: u32)
    requires
        0 < m < 0x4000_0000_0000_0000_0000_0000_0000_0000,
    ensures
        1 <= l <= 126,
        pow2((l - 1) as nat) <= m < pow2(l as nat),
{
    let mut p: u128 = 1;
    let mut l: u32 = 0;
    proof {
        lemma2_to64();
    }
    while p <= m
        invariant
            m < 0x4000_0000_0000_0000_0000_0000_0000_0000,
            p == pow2(l as nat),
            l > 0 ==> pow2((l - 1) as nat) <= m,
            l <= 126,
        decreases 126 - l,
    {
        proof {
            lemma_pow2_unfold((l + 1) as nat);
            if l == 126 {
                lemma2_to64_rest();
                lemma_pow2_adds(63, 63);
                assert(0x8000_0000_0000_0000int * 0x8000_0000_0000_0000 == 0x4000_0000_0000_0000_0000_0000_0000_0000);
            }
        }
        p = p * 2;
        l = l + 1;
    }
    l
}

/// Where the scale of a magnitude is moved from `t` to `t + shift`, with `t + shift >= 0`.
proof fn lemma_rescale(t: int, shift: int)
    requires
        t + shift >= 0,
    ensures
        shift >= 0 ==> pow2((t + shift) as nat) * scale_down(t) == pow2(shift as nat) * scale_up(t),
        shift <= 0 ==> pow2((t + shift) as nat) * scale_down(t) * pow2((-shift) as nat)
            == scale_up(t),
{
    lemma2_to64();
    let top = pow2((t + shift) as nat) as int;
    if t >= 0 {
        assert(top * 1 == top);
        if shift >= 0 {
            lemma_pow2_adds(t as nat, shift as nat);
            lemma_mul_is_commutative(pow2(t as nat) as int, pow2(shift as nat) as int);
        }
        if shift <= 0 {
            lemma_pow2_adds((t + shift) as nat, (-shift) as nat);
        }
    } else {
        lemma_pow2_adds((t + shift) as nat, (-t) as nat);
        assert(pow2(shift as nat) * 1 == pow2(shift as nat));
    }
}

proof fn lemma_overflow_scaled(side: spec_fn(nat) -> int, m: nat, t: int, more: bool, length: nat)
    requires
        brackets(side, m, t, more),
        1 <= length <= 126,
        pow2((length - 1) as nat) <= m,
        length + t - 53 > 2045,
    ensures
        nearest(side, INFINITY as nat),
{
    lemma2_to64();
    lemma_units_layout(2046, HIDDEN as nat);
    let s = (2 * units(INFINITY as nat)) as nat;
    lemma2_to64_rest();
    lemma_pow2_adds(52, 2046);
    let top = (length - 1 + t) as nat;
    lemma_pow2_adds((length - 1) as nat, t as nat);
    if top > 2098 {
        lemma_pow2_strictly_increases(2098, top);
    }
    assert(pow2((length - 1) as nat) * pow2(t as nat) <= m * pow2(t as nat)) by (nonlinear_arith)
        requires
            pow2((length - 1) as nat) <= m,
    ;
    assert(s * scale_down(t) <= 2 * m * scale_up(t)) by {
        assert(s * 1 == s);
        assert(2 * m * pow2(t as nat) == 2 * (m * pow2(t as nat))) by (nonlinear_arith);
    }
    assert(bracketed(side(s), s, m, t, more));
    lemma_nearest_overflow(side);
}

proof fn lemma_underflow_scaled(side: spec_fn(nat) -> int, m: nat, t: int, more: bool)
    requires
        brackets(side, m, t, more),
        m < 0x4000_0000_0000_0000_0000_0000_0000_0000,
        t <= -127,
    ensures
        nearest(side, 0),
{
    lemma2_to64();
    lemma2_to64_rest();
    lemma_pow2_adds(63, 64);
    assert(0x8000_0000_0000_0000int * 0x1_0000_0000_0000_0000 == 0x8000_0000_0000_0000_0000_0000_0000_0000);
    let d = (-t) as nat;
    if d > 127 {
        lemma_pow2_strictly_increases(127, d);
    }
    assert(bracketed(side(1), 1, m, t, more));
    assert(1 * pow2(d) == pow2(d));
    assert(2 * (m + 1) * 1 == 2 * (m + 1));
    assert(units(0) + units(1) == 1);
}

proof fn lemma_quotient_bound(m: nat, length: nat, shift: nat, q: nat)
    requires
        length >= 1,
        pow2((length - 1) as nat) <= m < pow2(length),
        shift + 53 >= length,
        q == m / pow2(shift),
    ensures
        q < 2 * HIDDEN,
        shift + 53 == length ==> q >= HIDDEN,
{
    lemma2_to64_rest();
    let w = pow2(shift);
    lemma_pow2_pos(shift);
    lemma_fundamental_div_mod(m as int, w as int);
    lemma_mod_bound(m as int, w as int);
    lemma_pow2_adds(shift, 53);
    lemma_pow2_adds(shift, 52);
    if length < shift + 53 {
        lemma_pow2_strictly_increases(length, shift + 53);
    }
    assert(q < 2 * HIDDEN) by (nonlinear_arith)
        requires
            w * q <= m,
            m < w * (2 * HIDDEN),
            w > 0,
    ;
    if shift + 53 == length {
        assert(w * (q + 1) == w * q + w) by (nonlinear_arith);
        assert(q >= HIDDEN) by (nonlinear_arith)
            requires
                w * (q + 1) > m,
                m >= w * HIDDEN,
                w > 0,
        ;
    }
}

/// What `m = q * 2^shift + rem` says of the magnitude against the patterns round it.
proof fn lemma_round_down_scaled(
    side: spec_fn(nat) -> int,
    m: nat,
    t: int,
    more: bool,
    shift: nat,
    q: nat,
    rem: nat,
)
    requires
        brackets(side, m, t, more),
        shift > 0,
        t + shift >= 0,
        m == q * pow2(shift) + rem,
        rem < pow2(shift),
        q < 2 * HIDDEN,
        t + shift == 0 || q >= HIDDEN,
    ensures
        ({
            let b = ((t + shift) * HIDDEN + q) as nat;
            let k = side(units(b) + units(b + 1));
            &&& side((2 * units(b)) as nat) >= 0
            &&& side((2 * units(b + 1)) as nat) < 0
            &&& 2 * rem > pow2(shift) ==> k > 0
            &&& 2 * rem == pow2(shift) ==> (if more { k > 0 } else { k == 0 })
            &&& 2 * rem < pow2(shift) ==> k < 0
        }),
{
    let top = (t + shift) as nat;
    let b = top * HIDDEN as nat + q;
    let w = pow2(shift);
    let up = scale_up(t);
    let down = scale_down(t);
    lemma_rescale(t, shift as int);
    lemma_units_layout(top, q);
    lemma_units_layout(top, q + 1);
    lemma_pow2_unfold(shift);
    lemma_pow2_pos(shift);
    lemma_pow2_pos(top);
    assert(up > 0) by {
        lemma_pow2_pos(if t > 0 { t as nat } else { 0 });
    }
    let p = pow2(top);
    assert(p * down == w * up);
    let s0 = (2 * units(b)) as nat;
    let s1 = units(b) + units(b + 1);
    let s2 = (2 * units(b + 1)) as nat;
    assert(s0 * down == 2 * (q * w) * up) by (nonlinear_arith)
        requires
            s0 == 2 * (q * p),
            p * down == w * up,
    ;
    assert(s1 * down == (2 * (q * w) + w) * up) by (nonlinear_arith)
        requires
            s1 == q * p + (q + 1) * p,
            p * down == w * up,
    ;
    assert(s2 * down == (2 * (q * w) + 2 * w) * up) by (nonlinear_arith)
        requires
            s2 == 2 * ((q + 1) * p),
            p * down == w * up,
    ;
    assert(2 * m * up == (2 * (q * w) + 2 * rem) * up);
    assert(2 * (m + 1) * up == (2 * (q * w) + 2 * rem + 2) * up);
    assert(bracketed(side(s0), s0, m, t, more));
    assert(bracketed(side(s1), s1, m, t, more));
    assert(bracketed(side(s2), s2, m, t, more));
    let c = 2 * (q * w);
    assert(c * up <= (c + 2 * rem) * up) by (nonlinear_arith);
    assert((c + 2 * w) * up >= (c + 2 * rem + 2) * up) by (nonlinear_arith)
        requires
            w >= rem + 1,
    ;
    if 2 * rem > w {
        assert((c + w) * up < (c + 2 * rem) * up) by (nonlinear_arith)
            requires
                2 * rem > w,
                up > 0,
        ;
    } else if 2 * rem < w {
        assert((c + w) * up >= (c + 2 * rem + 2) * up) by (nonlinear_arith)
            requires
                w >= 2 * rem + 2,
        ;
    }
}

/// What holds of a magnitude that is a pattern's own.
proof fn lemma_exact_scaled(side: spec_fn(nat) -> int, m: nat, t: int, shift: nat)
    requires
        brackets(side, m, t, false),
        t >= shift,
        m > 0,
        m * pow2(shift) <= 2 * HIDDEN,
        t == shift || m * pow2(shift) >= HIDDEN,
        ((t - shift) * HIDDEN + m * pow2(shift)) <= INFINITY,
    ensures
        nearest(side, ((t - shift) * HIDDEN + m * pow2(shift)) as nat),
{
    let top = (t - shift) as nat;
    let q = (m * pow2(shift)) as nat;
    let b = top * HIDDEN as nat + q;
    lemma_units_layout(top, q);
    lemma_rescale(t, -shift);
    lemma2_to64();
    let p = pow2(top);
    let v = pow2(shift);
    let s = (2 * units(b)) as nat;
    assert(s * scale_down(t) == 2 * m * scale_up(t)) by (nonlinear_arith)
        requires
            s == 2 * ((m * v) * p),
            p * scale_down(t) * v == scale_up(t),
    ;
    assert(bracketed(side(s), s, m, t, false));
    lemma_pow2_pos(shift);
    assert(q > 0) by (nonlinear_arith)
        requires
            q == m * v,
            m > 0,
            v > 0,
    ;
    lemma_units_order(b, b + 1);
    assert(side(units(b) + units(b + 1)) < side(s));
    lemma_units_order((b - 1) as nat, b);
    assert(side((units((b - 1) as nat) + units(b)) as nat) > side(s));
}

/// The pattern nearest to `m * 2^t` units, or, where `more` holds, to a magnitude strictly between
/// `m * 2^t` and `(m + 1) * 2^t` units.
fn round_scaled(m: u128, t: i32, more: bool, Ghost(side): Ghost<spec_fn(nat) -> int>) -> (r: u64)
    requires
        0 < m < 0x4000_0000_0000_0000_0000_0000_0000_0000,
        more ==> m >= 0x80_0000_0000_0000,
        -10000 <= t <= 10000,
        brackets(side, m as nat, t as int, more),
    ensures
        nearest(side, r as nat),
{
    let length: i32 = bit_length(m) as i32;
    let top: i32 = if length + t > 53 {
        length + t - 53
    } else {
        0
    };
    if top > 2045 {
        proof {
            lemma_overflow_scaled(side, m as nat, t as int, more, length as nat);
        }
        return INFINITY;
    }
    let shift: i32 = top - t;
    if shift >= 127 {
        proof {
            lemma_underflow_scaled(side, m as nat, t as int, more);
        }
        return 0;
    }
    if shift > 0 {
        let w: u128 = power(shift as u32);
        proof {
            lemma_pow2_pos(shift as nat);
        }
        let q: u128 = m / w;
        let rem: u128 = m % w;
        let low: u64 = (top as u64) * HIDDEN;
        proof {
            lemma_quotient_bound(m as nat, length as nat, shift as nat, q as nat);
            lemma_fundamental_div_mod(m as int, w as int);
            lemma_mul_is_commutative(q as int, w as int);
            lemma_round_down_scaled(
                side,
                m as nat,
                t as int,
                more,
                shift as nat,
                q as nat,
                rem as nat,
            );
            lemma_nearest_between(side, (low + q) as nat);
        }
        let b: u64 = low + q as u64;
        if rem > w - rem || (rem == w - rem && (more || b % 2 == 1)) {
            b + 1
        } else {
            b
        }
    } else {
        let k: u32 = (-shift) as u32;
        let w: u128 = power(k);
        proof {
            lemma_product_bound(m as nat, length as nat, k as nat, more);
            lemma_exact_scaled(side, m as nat, t as int, k as nat);
        }
        let q: u128 = m * w;
        (top as u64) * HIDDEN + q as u64
    }
}

proof fn lemma_product_bound(m: nat, length: nat, k: nat, more: bool)
    requires
        length >= 1,
        pow2((length - 1) as nat) <= m < pow2(length),
        more ==> m >= 0x80_0000_0000_0000,
        length + k <= 53,
    ensures
        !more,
        m * pow2(k) < 2 * HIDDEN,
        length + k == 53 ==> m * pow2(k) >= HIDDEN,
{
    lemma2_to64_rest();
    lemma_pow2_pos(k);
    lemma_pow2_adds(length, k);
    lemma_pow2_adds((length - 1) as nat, k);
    if length + k < 53 {
        lemma_pow2_strictly_increases(length + k, 53);
    }
    if length < 53 {
        lemma_pow2_strictly_increases(length, 53);
    }
    assert(m * pow2(k) < pow2(length) * pow2(k)) by (nonlinear_arith)
        requires
            m < pow2(length),
            pow2(k) > 0,
    ;
    assert(m * pow2(k) >= pow2((length - 1) as nat) * pow2(k)) by (nonlinear_arith)
        requires
            m >= pow2((length - 1) as nat),
    ;
}

// ---------------------------------------------------------------------------
// Values
// ---------------------------------------------------------------------------

/// The value with the given sign and magnitude pattern.
pub open spec fn signed(negative: bool, b: nat) -> Double {
    Double { bits: (if negative { b + SIGN } else { b as int }) as u64 }
}

fn make_signed(negative: bool, b: u64) -> (r: Double)
    requires
        b <= INFINITY,
    ensures
        r == signed(negative, b as nat),
{
    if negative {
        Double { bits: b + SIGN }
    } else {
        Double { bits: b }
    }
}

impl Double {
    /// The pattern without its sign bit.
    pub open spec fn magnitude(self) -> nat {
        if self.bits >= SIGN {
            (self.bits - SIGN) as nat
        } else {
            self.bits as nat
        }
    }

    /// Whether the sign bit is set.
    pub open spec fn negative(self) -> bool {
        self.bits >= SIGN
    }

    pub open spec fn spec_is_nan(self) -> bool {
        self.magnitude() > INFINITY
    }

    /// Neither infinite nor not a number.
    pub open spec fn finite(self) -> bool {
        self.magnitude() < INFINITY
    }

    /// The place of the value in the order of the numbers. The two zeros share one place.
    pub open spec fn rank(self) -> int {
        if self.negative() {
            -(self.magnitude() as int)
        } else {
            self.magnitude() as int
        }
    }

    /// The exact value of a finite number, in units of `2^-1074`.
    pub open spec fn amount(self) -> int {
        if self.negative() {
            -(units(self.magnitude()) as int)
        } else {
            units(self.magnitude()) as int
        }
    }

    pub open spec fn nan() -> Double {
        Double { bits: NOT_A_NUMBER }
    }

    pub open spec fn spec_from_bits(bits: u64) -> Double {
        Double { bits }
    }

    /// The value with the given bit pattern.
    #[verifier::when_used_as_spec(spec_from_bits)]
    pub fn from_bits(bits: u64) -> (r: Double)
        ensures
            r == Double::from_bits(bits),
            r.bits == bits,
    {
        Double { bits }
    }

    pub open spec fn spec_to_bits(self) -> u64 {
        self.bits
    }

    /// The bit pattern.
    #[verifier::when_used_as_spec(spec_to_bits)]
    pub fn to_bits(self) -> (r: u64)
        ensures
            r == self.to_bits(),
    {
        self.bits
    }

    fn magnitude_bits(self) -> (r: u64)
        ensures
            r == self.magnitude(),
            r < SIGN,
    {
        if self.bits >= SIGN {
            self.bits - SIGN
        } else {
            self.bits
        }
    }

    /// Whether the value is not a number.
    #[verifier::when_used_as_spec(spec_is_nan)]
    pub fn is_nan(self) -> (r: bool)
        ensures
            r == self.is_nan(),
    {
        self.magnitude_bits() > INFINITY
    }

    pub open spec fn spec_less(self, other: Double) -> bool {
        !self.is_nan() && !other.is_nan() && self.rank() < other.rank()
    }

    pub open spec fn spec_at_most(self, other: Double) -> bool {
        !self.is_nan() && !other.is_nan() && self.rank() <= other.rank()
    }

    pub open spec fn spec_same(self, other: Double) -> bool {
        !self.is_nan() && !other.is_nan() && self.rank() == other.rank()
    }

    fn rank_bits(self) -> (r: i64)
        ensures
            r == self.rank(),
    {
        let m: i64 = self.magnitude_bits() as i64;
        if self.bits >= SIGN {
            -m
        } else {
            m
        }
    }

    /// `self < other`, as numbers.
    #[verifier::when_used_as_spec(spec_less)]
    pub fn less(self, other: Double) -> (r: bool)
        ensures
            r == self.less(other),
    {
        !self.is_nan() && !other.is_nan() && self.rank_bits() < other.rank_bits()
    }

    /// `self <= other`, as numbers.
    #[verifier::when_used_as_spec(spec_at_most)]
    pub fn at_most(self, other: Double) -> (r: bool)
        ensures
            r == self.at_most(other),
    {
        !self.is_nan() && !other.is_nan() && self.rank_bits() <= other.rank_bits()
    }

    /// `self == other`, as numbers.
    #[verifier::when_used_as_spec(spec_same)]
    pub fn same(self, other: Double) -> (r: bool)
        ensures
            r == self.same(other),
    {
        !self.is_nan() && !other.is_nan() && self.rank_bits() == other.rank_bits()
    }

    pub open spec fn spec_clamp(self, low: Double, high: Double) -> Double {
        if self.less(low) {
            low
        } else if high.less(self) {
            high
        } else {
            self
        }
    }

    /// The value moved into `[low, high]`. What is not a number stays so.
    #[verifier::when_used_as_spec(spec_clamp)]
    pub fn clamp(self, low: Double, high: Double) -> (r: Double)
        requires
            low.at_most(high),
        ensures
            r == self.clamp(low, high),
    {
        if self.less(low) {
            low
        } else if high.less(self) {
            high
        } else {
            self
        }
    }

    pub open spec fn spec_greater_of(self, other: Double) -> Double {
        if self.is_nan() || self.less(other) {
            other
        } else {
            self
        }
    }

    /// The greater of the two, or the one that is a number.
    #[verifier::when_used_as_spec(spec_greater_of)]
    pub fn greater_of(self, other: Double) -> (r: Double)
        ensures
            r == self.greater_of(other),
    {
        if self.is_nan() || self.less(other) {
            other
        } else {
            self
        }
    }

    pub open spec fn spec_lesser_of(self, other: Double) -> Double {
        if self.is_nan() || other.less(self) {
            other
        } else {
            self
        }
    }

    /// The lesser of the two, or the one that is a number.
    #[verifier::when_used_as_spec(spec_lesser_of)]
    pub fn lesser_of(self, other: Double) -> (r: Double)
        ensures
            r == self.lesser_of(other),
    {
        if self.is_nan() || other.less(self) {
            other
        } else {
            self
        }
    }

    pub open spec fn spec_negated(self) -> Double {
        Double { bits: (if self.bits >= SIGN { self.bits - SIGN } else { self.bits + SIGN }) as u64 }
    }

    /// The value with its sign turned.
    #[verifier::when_used_as_spec(spec_negated)]
    pub fn negated(self) -> (r: Double)
        ensures
            r == self.negated(),
    {
        Double { bits: if self.bits >= SIGN { self.bits - SIGN } else { self.bits + SIGN } }
    }

    pub open spec fn spec_absolute(self) -> Double {
        Double { bits: self.magnitude() as u64 }
    }

    /// The value without its sign.
    #[verifier::when_used_as_spec(spec_absolute)]
    pub fn absolute(self) -> (r: Double)
        ensures
            r == self.absolute(),
    {
        Double { bits: self.magnitude_bits() }
    }
}

// ---------------------------------------------------------------------------
// Arithmetic
// ---------------------------------------------------------------------------

/// The significand and the exponent of a finite magnitude.
fn parts(b: u64) -> (r: (u64, i32))
    requires
        b < INFINITY,
    ensures
        r.0 == significand(b as nat),
        r.1 == exponent(b as nat),
        r.0 < 2 * HIDDEN,
        0 <= r.1 <= 2045,
        r.1 == 0 || r.0 >= HIDDEN,
        r.0 == 0 <==> b == 0,
        units(b as nat) == r.0 * pow2(r.1 as nat),
{
    proof {
        lemma_units_parts(b as nat);
    }
    if b < HIDDEN {
        (b, 0)
    } else {
        (HIDDEN + b % HIDDEN, (b / HIDDEN) as i32 - 1)
    }
}

/// `2^(e - f)` as a scale.
proof fn lemma_scale_ratio(e: nat, f: nat)
    ensures
        pow2(e) * scale_down(e - f) == pow2(f) * scale_up(e - f),
        scale_down(e - f) > 0,
        scale_up(e - f) > 0,
{
    lemma2_to64();
    assert(pow2(e) * 1 == pow2(e));
    assert(pow2(f) * 1 == pow2(f));
    if e >= f {
        lemma_pow2_adds(f, (e - f) as nat);
        lemma_pow2_pos((e - f) as nat);
    } else {
        lemma_pow2_adds(e, (f - e) as nat);
        lemma_pow2_pos((f - e) as nat);
    }
}

/// When a ratio lies at or above `m * 2^t` and below `(m + 1) * 2^t`.
proof fn lemma_brackets_ratio(n: nat, d: nat, m: nat, t: int, more: bool)
    requires
        d > 0,
        !more ==> n * scale_down(t) == m * scale_up(t) * d,
        more ==> m * scale_up(t) * d < n * scale_down(t) < (m + 1) * scale_up(t) * d,
    ensures
        brackets(ratio_side(n, d), m, t, more),
{
    let side = ratio_side(n, d);
    let up = scale_up(t);
    let down = scale_down(t);
    lemma_ratio_side_falling(n, d);
    lemma_pow2_pos(if t < 0 { (-t) as nat } else { 0 });
    lemma_pow2_pos(if t > 0 { t as nat } else { 0 });
    assert(m * up * d < (m + 1) * up * d) by (nonlinear_arith)
        requires
            up > 0,
            d > 0,
    ;
    assert forall|s: nat| #[trigger] bracketed(side(s), s, m, t, more) by {
        let a = s * down;
        let low = 2 * m * up;
        let high = 2 * (m + 1) * up;
        let k = 2 * n - s * d;
        assert(a < low ==> k > 0) by (nonlinear_arith)
            requires
                m * up * d <= n * down,
                a == s * down,
                low == 2 * m * up,
                k == 2 * n - s * d,
                d > 0,
                down > 0,
        ;
        assert(a == low ==> k * down == 2 * (n * down - m * up * d)) by (nonlinear_arith)
            requires
                a == s * down,
                low == 2 * m * up,
                k == 2 * n - s * d,
        ;
        assert(a == low ==> (if more { k > 0 } else { k == 0 })) by (nonlinear_arith)
            requires
                a == low ==> k * down == 2 * (n * down - m * up * d),
                !more ==> n * down == m * up * d,
                more ==> m * up * d < n * down,
                down > 0,
        ;
        assert(a > low && !more ==> k < 0) by (nonlinear_arith)
            requires
                !more ==> n * down == m * up * d,
                a == s * down,
                low == 2 * m * up,
                k == 2 * n - s * d,
                d > 0,
                down > 0,
        ;
        assert(a >= high ==> k < 0) by (nonlinear_arith)
            requires
                n * down < (m + 1) * up * d,
                a == s * down,
                high == 2 * (m + 1) * up,
                k == 2 * n - s * d,
                d > 0,
                down > 0,
        ;
    }
}

/// The pattern nearest to the product of two finite magnitudes.
fn round_product(a: u64, b: u64) -> (r: u64)
    requires
        a < INFINITY,
        b < INFINITY,
    ensures
        r == round_ratio(units(a as nat) * units(b as nat), one_in_units()),
        r <= INFINITY,
{
    let (ma, ta) = parts(a);
    let (mb, tb) = parts(b);
    let ghost n = units(a as nat) * units(b as nat);
    let ghost d = one_in_units();
    proof {
        lemma_pow2_pos(1074);
        lemma_round_ratio(n, d);
    }
    if a == 0 || b == 0 {
        proof {
            assert(n == 0) by (nonlinear_arith)
                requires
                    n == units(a as nat) * units(b as nat),
                    units(a as nat) == 0 || units(b as nat) == 0,
            ;
            assert(units(0) * d == 0);
            lemma_round_ratio_exact(0, d);
        }
        return 0;
    }
    proof {
        assert(ma * mb <= (2 * HIDDEN - 1) * (2 * HIDDEN - 1)) by (nonlinear_arith)
            requires
                ma < 2 * HIDDEN,
                mb < 2 * HIDDEN,
        ;
        assert(ma * mb > 0) by (nonlinear_arith)
            requires
                ma > 0,
                mb > 0,
        ;
    }
    let m: u128 = (ma as u128) * (mb as u128);
    let t: i32 = ta + tb - 1074;
    let ghost side = ratio_side(n, d);
    proof {
        let e = (ta + tb) as nat;
        lemma_pow2_adds(ta as nat, tb as nat);
        lemma_scale_ratio(e, 1074);
        assert(n == m * pow2(e)) by (nonlinear_arith)
            requires
                n == (ma * pow2(ta as nat)) * (mb * pow2(tb as nat)),
                pow2(e) == pow2(ta as nat) * pow2(tb as nat),
                m == ma * mb,
        ;
        assert(n * scale_down(t as int) == m * scale_up(t as int) * d) by (nonlinear_arith)
            requires
                n == m * pow2(e),
                pow2(e) * scale_down(t as int) == d * scale_up(t as int),
        ;
        lemma_brackets_ratio(n, d, m as nat, t as int, false);
    }
    let r: u64 = round_scaled(m, t, false, Ghost(side));
    proof {
        lemma_round_ratio_is(n, d, r as nat);
    }
    r
}

/// The pattern nearest to the quotient of two finite magnitudes.
fn round_quotient(a: u64, b: u64) -> (r: u64)
    requires
        a < INFINITY,
        0 < b < INFINITY,
    ensures
        r == round_ratio(units(a as nat) * one_in_units(), units(b as nat)),
        r <= INFINITY,
{
    let (ma, ta) = parts(a);
    let (mb, tb) = parts(b);
    let ghost n = units(a as nat) * one_in_units();
    let ghost d = units(b as nat);
    proof {
        lemma_pow2_pos(1074);
        lemma_units_order(0, b as nat);
        lemma_round_ratio(n, d);
    }
    if a == 0 {
        proof {
            assert(n == 0) by (nonlinear_arith)
                requires
                    n == units(a as nat) * one_in_units(),
                    units(a as nat) == 0,
            ;
            assert(units(0) * d == 0);
            lemma_round_ratio_exact(0, d);
        }
        return 0;
    }
    let length: u32 = bit_length(ma as u128);
    proof {
        lemma_length_53(ma as nat, length as nat);
    }
    let k: u32 = 125 - length;
    let w: u128 = power(k);
    proof {
        lemma_pow2_pos(k as nat);
        lemma_pow2_adds(length as nat, k as nat);
        lemma_pow2_adds((length - 1) as nat, k as nat);
        lemma_pow2_125();
        assert(ma * w < pow2(125)) by (nonlinear_arith)
            requires
                ma < pow2(length as nat),
                pow2(length as nat) * w == pow2(125),
                w > 0,
        ;
        assert(ma * w >= pow2(124)) by (nonlinear_arith)
            requires
                ma >= pow2((length - 1) as nat),
                pow2((length - 1) as nat) * w == pow2(124),
                w > 0,
        ;
    }
    let top: u128 = (ma as u128) * w;
    let q: u128 = top / (mb as u128);
    let rem: u128 = top % (mb as u128);
    let more: bool = rem != 0;
    let t: i32 = ta - k as i32 + 1074 - tb;
    let ghost side = ratio_side(n, d);
    proof {
        lemma_fundamental_div_mod(top as int, mb as int);
        assert(q >= 0x80_0000_0000_0000) by (nonlinear_arith)
            requires
                top == mb * q + rem,
                rem < mb,
                mb < 2 * HIDDEN,
                top >= 0x1000_0000_0000_0000_0000_0000_0000_0000,
        ;
        assert(q <= top) by (nonlinear_arith)
            requires
                top == mb * q + rem,
                rem >= 0,
                mb >= 1,
        ;
        let e = (ta + 1074) as nat;
        let f = (tb + k) as nat;
        let up = scale_up(t as int);
        let down = scale_down(t as int);
        lemma_pow2_adds(ta as nat, 1074);
        lemma_pow2_adds(tb as nat, k as nat);
        lemma_scale_ratio(e, f);
        let pb = pow2(tb as nat);
        lemma_pow2_pos(tb as nat);
        assert(n * down == top * pb * up) by (nonlinear_arith)
            requires
                n == (ma * pow2(ta as nat)) * pow2(1074),
                pow2(e) == pow2(ta as nat) * pow2(1074),
                pow2(e) * down == pow2(f) * up,
                pow2(f) == pb * w,
                top == ma * w,
        ;
        assert(top * pb * up == q * up * d + rem * (pb * up)) by (nonlinear_arith)
            requires
                top == mb * q + rem,
                d == mb * pb,
        ;
        assert((q + 1) * up * d == q * up * d + mb * (pb * up)) by (nonlinear_arith)
            requires
                d == mb * pb,
        ;
        let pu = pb * up;
        assert(pu > 0) by (nonlinear_arith)
            requires
                pu == pb * up,
                pb > 0,
                up > 0,
        ;
        if more {
            assert(0 < rem * pu < mb * pu) by (nonlinear_arith)
                requires
                    0 < rem < mb,
                    pu > 0,
            ;
        }
        lemma_brackets_ratio(n, d, q as nat, t as int, more);
    }
    let r: u64 = round_scaled(q, t, more, Ghost(side));
    proof {
        lemma_round_ratio_is(n, d, r as nat);
    }
    r
}

proof fn lemma_length_53(m: nat, length: nat)
    requires
        length >= 1,
        pow2((length - 1) as nat) <= m < 2 * HIDDEN,
    ensures
        length <= 53,
{
    lemma2_to64_rest();
    if length > 54 {
        lemma_pow2_strictly_increases(53, (length - 1) as nat);
    }
}

proof fn lemma_pow2_125()
    ensures
        pow2(124) == 0x1000_0000_0000_0000_0000_0000_0000_0000,
        pow2(125) == 0x2000_0000_0000_0000_0000_0000_0000_0000,
{
    lemma2_to64_rest();
    lemma_pow2_adds(62, 62);
    lemma_pow2_adds(62, 63);
    assert(0x4000_0000_0000_0000int * 0x4000_0000_0000_0000 == 0x1000_0000_0000_0000_0000_0000_0000_0000);
    assert(0x4000_0000_0000_0000int * 0x8000_0000_0000_0000 == 0x2000_0000_0000_0000_0000_0000_0000_0000);
}

/// The pattern nearest to `m * 2^t` units.
fn round_whole(m: u128, t: i32) -> (r: u64)
    requires
        m < 0x4000_0000_0000_0000_0000_0000_0000_0000,
        0 <= t <= 10000,
    ensures
        r == round_ratio((m * pow2(t as nat)) as nat, 1),
        r <= INFINITY,
{
    let ghost n = (m * pow2(t as nat)) as nat;
    proof {
        lemma2_to64();
        lemma_round_ratio(n, 1);
    }
    if m == 0 {
        proof {
            assert(n == 0) by (nonlinear_arith)
                requires
                    n == m * pow2(t as nat),
                    m == 0,
            ;
            lemma_round_ratio_exact(0, 1);
        }
        return 0;
    }
    proof {
        assert(n * 1 == n);
        assert(m * pow2(t as nat) * 1 == n);
        assert(m * 1 * pow2(t as nat) == n);
        lemma_brackets_ratio(n, 1, m as nat, t as int, false);
    }
    let r: u64 = round_scaled(m, t, false, Ghost(ratio_side(n, 1)));
    proof {
        lemma_round_ratio_is(n, 1, r as nat);
    }
    r
}

/// A magnitude is not moved by another one whose exponent is far below its own.
proof fn lemma_far_sum(a: nat, b: nat)
    requires
        a < INFINITY,
        exponent(a) > exponent(b) + 64,
    ensures
        units(b) < units(a),
        round_ratio(units(a) + units(b), 1) == a,
        round_ratio((units(a) - units(b)) as nat, 1) == a,
{
    let t = exponent(a);
    let u = exponent(b);
    lemma_units_parts(a);
    lemma_units_parts(b);
    lemma_units_parts((a - 1) as nat);
    let p = pow2(u);
    lemma_pow2_pos(u);
    lemma2_to64();
    lemma_pow2_adds(u, 64);
    lemma_pow2_adds(u, 63);
    if t > u + 64 {
        lemma_pow2_strictly_increases(u + 64, t);
    }
    let v = exponent((a - 1) as nat);
    assert(v + 1 >= t) by {
        lemma_div_is_ordered(a - HIDDEN, a - 1, HIDDEN as int);
        lemma_div_minus_one(a as int, HIDDEN as int);
        assert(a >= 2 * HIDDEN) by {
            if a < 2 * HIDDEN {
                lemma_div_is_ordered(a as int, 2 * HIDDEN - 1, HIDDEN as int);
            }
        }
    }
    if v > u + 63 {
        lemma_pow2_strictly_increases(u + 63, v);
    }
    let x = units(b);
    assert(4 * x < 0x8000_0000_0000_0000 * p) by (nonlinear_arith)
        requires
            x == significand(b) * p,
            significand(b) < 2 * HIDDEN,
            p > 0,
    ;
    assert(p * 0x8000_0000_0000_0000 == pow2(u + 63)) by {
        lemma2_to64_rest();
    }
    assert(4 * x < pow2(v));
    assert(4 * x < pow2(t));
    assert(units(a) >= pow2(t)) by (nonlinear_arith)
        requires
            units(a) == significand(a) * pow2(t),
            significand(a) >= 1,
            pow2(t) >= 0,
    ;
    let s1 = units(a) + units(a + 1);
    let s0 = (units((a - 1) as nat) + units(a)) as nat;
    assert(s0 * 1 == s0 && s1 * 1 == s1);
    lemma_round_ratio_is(units(a) + x, 1, a);
    lemma_round_ratio_is((units(a) - x) as nat, 1, a);
}

/// The absolute value of an integer.
pub open spec fn size_of(n: int) -> nat {
    if n < 0 {
        (-n) as nat
    } else {
        n as nat
    }
}

/// The sum of two finite values: the nearest value to the exact sum. An exact zero is positive
/// unless both operands are negative.
pub open spec fn finite_sum(a: Double, b: Double) -> Double {
    let n = a.amount() + b.amount();
    if n == 0 {
        signed(a.negative() && b.negative(), 0)
    } else {
        signed(n < 0, round_ratio(size_of(n), 1))
    }
}

/// `m * 2^k` with a sign.
fn signed_shift(negative: bool, m: u64, k: u32) -> (r: i128)
    requires
        m < 2 * HIDDEN,
        k <= 64,
    ensures
        r == (if negative { -(m * pow2(k as nat)) } else { m * pow2(k as nat) }),
        -0x4000_0000_0000_0000_0000_0000_0000_0000 < 2 * r < 0x4000_0000_0000_0000_0000_0000_0000_0000,
{
    let w: u128 = power(k);
    proof {
        lemma2_to64();
        if k < 64 {
            lemma_pow2_strictly_increases(k as nat, 64);
        }
        lemma2_to64_rest();
        assert(0 <= m * w <= (2 * HIDDEN) * 0x1_0000_0000_0000_0000) by (nonlinear_arith)
            requires
                m < 2 * HIDDEN,
                0 <= w <= 0x1_0000_0000_0000_0000,
        ;
    }
    let p: i128 = (m as i128) * (w as i128);
    if negative {
        -p
    } else {
        p
    }
}

fn sum_finite(a: Double, b: Double) -> (r: Double)
    requires
        a.finite(),
        b.finite(),
    ensures
        r == finite_sum(a, b),
{
    let a_negative: bool = a.bits >= SIGN;
    let b_negative: bool = b.bits >= SIGN;
    let a_bits: u64 = a.magnitude_bits();
    let b_bits: u64 = b.magnitude_bits();
    let (ma, ta) = parts(a_bits);
    let (mb, tb) = parts(b_bits);
    if ta > tb + 64 {
        proof {
            lemma_far_sum(a_bits as nat, b_bits as nat);
        }
        return a;
    }
    if tb > ta + 64 {
        proof {
            lemma_far_sum(b_bits as nat, a_bits as nat);
        }
        return b;
    }
    let t: i32 = if ta < tb {
        ta
    } else {
        tb
    };
    let x: i128 = signed_shift(a_negative, ma, (ta - t) as u32);
    let y: i128 = signed_shift(b_negative, mb, (tb - t) as u32);
    let sum: i128 = x + y;
    let ghost p = pow2(t as nat);
    proof {
        lemma_pow2_pos(t as nat);
        lemma_pow2_adds((ta - t) as nat, t as nat);
        lemma_pow2_adds((tb - t) as nat, t as nat);
        assert(a.amount() == x * p) by (nonlinear_arith)
            requires
                a.amount() == (if a_negative { -(ma * pow2(ta as nat)) } else { ma * pow2(ta as nat) }),
                x == (if a_negative { -(ma * pow2((ta - t) as nat)) } else { ma * pow2((ta - t) as nat) }),
                pow2(ta as nat) == pow2((ta - t) as nat) * p,
        ;
        assert(b.amount() == y * p) by (nonlinear_arith)
            requires
                b.amount() == (if b_negative { -(mb * pow2(tb as nat)) } else { mb * pow2(tb as nat) }),
                y == (if b_negative { -(mb * pow2((tb - t) as nat)) } else { mb * pow2((tb - t) as nat) }),
                pow2(tb as nat) == pow2((tb - t) as nat) * p,
        ;
        assert(a.amount() + b.amount() == sum * p) by (nonlinear_arith)
            requires
                a.amount() == x * p,
                b.amount() == y * p,
                sum == x + y,
        ;
        assert((sum < 0 <==> sum * p < 0) && (sum == 0 <==> sum * p == 0)) by (nonlinear_arith)
            requires
                p > 0,
        ;
    }
    if sum == 0 {
        return make_signed(a_negative && b_negative, 0);
    }
    let m: u128 = if sum < 0 {
        (-sum) as u128
    } else {
        sum as u128
    };
    proof {
        assert(m * p == size_of(sum * p)) by (nonlinear_arith)
            requires
                m == (if sum < 0 { -sum } else { sum as int }),
                p > 0,
        ;
    }
    make_signed(sum < 0, round_whole(m, t))
}

/// The integer square root.
fn whole_root(m: u128) -> (r: u128)
    requires
        0x40_0000_0000_0000_0000_0000_0000_0000 <= m < 0x2000_0000_0000_0000_0000_0000_0000_0000,
    ensures
        r * r <= m < (r + 1) * (r + 1),
        0x80_0000_0000_0000 <= r < 0x8000_0000_0000_0000,
{
    let mut low: u128 = 0x80_0000_0000_0000;
    let mut high: u128 = 0x8000_0000_0000_0000;
    assert(0x80_0000_0000_0000int * 0x80_0000_0000_0000 <= m);
    assert(m < 0x8000_0000_0000_0000int * 0x8000_0000_0000_0000);
    while high - low > 1
        invariant
            0x80_0000_0000_0000 <= low < high <= 0x8000_0000_0000_0000,
            low * low <= m < high * high,
        decreases high - low,
    {
        let mid: u128 = (low + high) / 2;
        assert(mid * mid <= 0x8000_0000_0000_0000 * 0x8000_0000_0000_0000) by (nonlinear_arith)
            requires
                0 <= mid <= 0x8000_0000_0000_0000,
        ;
        if mid * mid <= m {
            low = mid;
        } else {
            high = mid;
        }
    }
    low
}

proof fn lemma_brackets_root(n: nat, r: nat, m: nat, t: nat, more: bool)
    requires
        n == m * pow2(2 * t),
        r * r <= m < (r + 1) * (r + 1),
        more <==> r * r != m,
    ensures
        brackets(root_side(n), r, t as int, more),
{
    let side = root_side(n);
    let p = pow2(t);
    lemma_root_side_falling(n);
    lemma_pow2_pos(t);
    lemma_pow2_adds(t, t);
    lemma2_to64();
    assert forall|s: nat| #[trigger] bracketed(side(s), s, r, t as int, more) by {
        let a = s * scale_down(t as int);
        assert(s * 1 == s);
        let low = 2 * r * p;
        let high = 2 * (r + 1) * p;
        assert(4 * n == (4 * m) * (p * p)) by (nonlinear_arith)
            requires
                n == m * (p * p),
        ;
        assert(low * low == (4 * (r * r)) * (p * p)) by (nonlinear_arith)
            requires
                low == 2 * r * p,
        ;
        assert(high * high == (4 * ((r + 1) * (r + 1))) * (p * p)) by (nonlinear_arith)
            requires
                high == 2 * (r + 1) * p,
        ;
        let pp = p * p;
        assert(pp > 0) by (nonlinear_arith)
            requires
                pp == p * p,
                p > 0,
        ;
        assert((4 * (r * r)) * pp <= (4 * m) * pp) by (nonlinear_arith)
            requires
                r * r <= m,
                pp > 0,
        ;
        assert(r * r < m ==> (4 * (r * r)) * pp < (4 * m) * pp) by (nonlinear_arith)
            requires
                pp > 0,
        ;
        assert((4 * m) * pp < (4 * ((r + 1) * (r + 1))) * pp) by (nonlinear_arith)
            requires
                m < (r + 1) * (r + 1),
                pp > 0,
        ;
        assert(s < low ==> s * s < low * low) by (nonlinear_arith)
            requires
                s >= 0,
        ;
        assert(s > low ==> s * s > low * low) by (nonlinear_arith)
            requires
                low >= 0,
        ;
        assert(s >= high ==> s * s >= high * high) by (nonlinear_arith)
            requires
                high >= 0,
        ;
    }
}

/// The pattern nearest to the square root of a finite magnitude.
fn round_square_root(b: u64) -> (r: u64)
    requires
        0 < b < INFINITY,
    ensures
        r == round_root(units(b as nat) * one_in_units()),
        r <= INFINITY,
{
    let (m, t) = parts(b);
    let length: u32 = bit_length(m as u128);
    proof {
        lemma_length_53(m as nat, length as nat);
    }
    let e: u32 = t as u32 + 1074;
    let k: u32 = if (e + length) % 2 == 0 {
        124 - length
    } else {
        125 - length
    };
    let w: u128 = power(k);
    let ghost n = units(b as nat) * one_in_units();
    proof {
        lemma_pow2_pos(k as nat);
        lemma_pow2_adds(length as nat, k as nat);
        lemma_pow2_adds((length - 1) as nat, k as nat);
        lemma_pow2_125();
        lemma_pow2_unfold(124);
        assert(m * w < 0x2000_0000_0000_0000_0000_0000_0000_0000) by (nonlinear_arith)
            requires
                m < pow2(length as nat),
                pow2(length as nat) * w <= 0x2000_0000_0000_0000_0000_0000_0000_0000,
                w > 0,
        ;
        assert(m * w >= 0x800_0000_0000_0000_0000_0000_0000_0000) by (nonlinear_arith)
            requires
                m >= pow2((length - 1) as nat),
                pow2((length - 1) as nat) * w >= 0x800_0000_0000_0000_0000_0000_0000_0000,
                w > 0,
        ;
    }
    let top: u128 = (m as u128) * w;
    let root: u128 = whole_root(top);
    proof {
        assert(root * root <= 0x8000_0000_0000_0000 * 0x8000_0000_0000_0000) by (nonlinear_arith)
            requires
                0 <= root <= 0x8000_0000_0000_0000,
        ;
    }
    let more: bool = root * root != top;
    let half: u32 = (e - k) / 2;
    proof {
        lemma_pow2_adds(t as nat, 1074);
        lemma_pow2_adds(k as nat, (e - k) as nat);
        assert(2 * half == e - k);
        assert(n == top * pow2((2 * half) as nat)) by (nonlinear_arith)
            requires
                n == (m * pow2(t as nat)) * pow2(1074),
                pow2(e as nat) == pow2(t as nat) * pow2(1074),
                pow2(e as nat) == w * pow2((2 * half) as nat),
                top == m * w,
        ;
        lemma_brackets_root(n, root as nat, top as nat, half as nat, more);
        lemma_round_root(n);
    }
    let r: u64 = round_scaled(root, half as i32, more, Ghost(root_side(n)));
    proof {
        lemma_round_root_is(n, r as nat);
    }
    r
}

/// The whole part of a finite magnitude, or `2^64` where it is greater than that.
fn whole_part(b: u64) -> (r: u128)
    requires
        b < INFINITY,
    ensures
        units(b as nat) / one_in_units() <= 0x1_0000_0000_0000_0000 ==> r == units(b as nat) / one_in_units(),
        units(b as nat) / one_in_units() > 0x1_0000_0000_0000_0000 ==> r == 0x1_0000_0000_0000_0000,
{
    let (m, t) = parts(b);
    let ghost n = units(b as nat) as int;
    let ghost one = one_in_units() as int;
    proof {
        lemma_pow2_pos(1074);
    }
    if t >= 1074 {
        let k: i32 = t - 1074;
        proof {
            lemma_pow2_adds(k as nat, 1074);
            assert(n == (m * pow2(k as nat)) * one) by (nonlinear_arith)
                requires
                    n == m * pow2(t as nat),
                    pow2(t as nat) == pow2(k as nat) * one,
            ;
            lemma_div_by_multiple(m * pow2(k as nat), one);
        }
        if k > 12 {
            proof {
                lemma2_to64();
                lemma_pow2_strictly_increases(12, k as nat);
                assert(m * pow2(k as nat) > 0x1_0000_0000_0000_0000) by (nonlinear_arith)
                    requires
                        m >= HIDDEN,
                        pow2(k as nat) > 4096,
                ;
            }
            return 0x1_0000_0000_0000_0000;
        }
        let w: u128 = power(k as u32);
        proof {
            lemma2_to64();
            if k < 12 {
                lemma_pow2_strictly_increases(k as nat, 12);
            }
            assert(0 <= m * w <= (2 * HIDDEN) * 4096) by (nonlinear_arith)
                requires
                    m < 2 * HIDDEN,
                    0 <= w <= 4096,
            ;
        }
        let r: u128 = (m as u128) * w;
        if r > 0x1_0000_0000_0000_0000 {
            0x1_0000_0000_0000_0000
        } else {
            r
        }
    } else {
        let k: i32 = 1074 - t;
        proof {
            lemma_pow2_adds(t as nat, k as nat);
            lemma_pow2_pos(t as nat);
            lemma_pow2_pos(k as nat);
            let p = pow2(t as nat) as int;
            assert(n == p * m) by (nonlinear_arith)
                requires
                    n == m * p,
            ;
            lemma_div_denominator(n, p, pow2(k as nat) as int);
            lemma_div_by_multiple(m as int, p);
            lemma_mul_is_commutative(m as int, p);
        }
        if k > 53 {
            proof {
                lemma2_to64_rest();
                lemma_pow2_strictly_increases(53, k as nat);
                lemma_basic_div(m as int, pow2(k as nat) as int);
            }
            return 0;
        }
        let w: u128 = power(k as u32);
        proof {
            assert(m as int / w as int <= m) by (nonlinear_arith)
                requires
                    w > 0,
                    m >= 0,
            ;
        }
        (m as u128) / w
    }
}

/// The pattern of the whole number nearest to a finite magnitude, halves going up.
fn round_half_up(b: u64) -> (r: u64)
    requires
        b < INFINITY,
    ensures
        r == round_ratio(nearest_whole(b as nat) * one_in_units(), 1),
        r <= INFINITY,
{
    let (m, t) = parts(b);
    let ghost n = units(b as nat) as int;
    let ghost one = one_in_units() as int;
    proof {
        lemma_pow2_pos(1074);
        lemma_round_ratio((nearest_whole(b as nat) * one) as nat, 1);
    }
    if t >= 1074 {
        proof {
            let k = (t - 1074) as nat;
            lemma_pow2_adds(k, 1074);
            let c = m * pow2(k);
            assert(n == c * one) by (nonlinear_arith)
                requires
                    n == m * pow2(t as nat),
                    c == m * pow2(k),
                    pow2(t as nat) == pow2(k) * one,
            ;
            assert(2 * n + one == c * (2 * one) + one) by (nonlinear_arith)
                requires
                    n == c * one,
            ;
            lemma_fundamental_div_mod_converse(2 * n + one, 2 * one, c, one);
            assert(n * 1 == n);
            lemma_round_ratio_exact(b as nat, 1);
        }
        return b;
    }
    let k: i32 = 1074 - t;
    proof {
        lemma_pow2_adds(t as nat, k as nat);
        lemma_pow2_pos(t as nat);
        lemma_pow2_pos(k as nat);
        let p = pow2(t as nat) as int;
        let w = pow2(k as nat) as int;
        assert(2 * n + one == p * (2 * m + w) && 2 * one == p * (2 * w)) by (nonlinear_arith)
            requires
                n == m * p,
                one == p * w,
        ;
        lemma_div_denominator(2 * n + one, p, 2 * w);
        lemma_div_by_multiple(2 * m + w, p);
        lemma_mul_is_commutative(2 * m + w, p);
        assert(nearest_whole(b as nat) == (2 * m + w) / (2 * w));
    }
    if k > 54 {
        proof {
            lemma2_to64_rest();
            lemma_pow2_strictly_increases(54, k as nat);
            let w = pow2(k as nat) as int;
            lemma_basic_div(2 * m + w, 2 * w);
            assert(0 * one == 0);
            assert(units(0) * 1 == 0);
            lemma_round_ratio_exact(0, 1);
        }
        return 0;
    }
    let w: u128 = power(k as u32);
    proof {
        lemma2_to64_rest();
        if k < 54 {
            lemma_pow2_strictly_increases(k as nat, 54);
        }
        assert(0 <= (2 * m + w) as int / (2 * w) as int <= 2 * m + w) by (nonlinear_arith)
            requires
                w > 0,
                m >= 0,
        ;
    }
    let c: u128 = (2 * (m as u128) + w) / (2 * w);
    round_whole(c, 1074)
}

/// The whole number nearest to a magnitude, halves going up.
pub open spec fn nearest_whole(b: nat) -> nat {
    (2 * units(b) + one_in_units()) / (2 * one_in_units())
}

impl Double {
    /// `self` is a zero.
    pub open spec fn zero(self) -> bool {
        self.magnitude() == 0
    }

    /// `self` is an infinity.
    pub open spec fn infinite(self) -> bool {
        self.magnitude() == INFINITY
    }

    #[verifier::opaque]
    pub open spec fn spec_plus(self, other: Double) -> Double {
        if self.is_nan() || other.is_nan() {
            Double::nan()
        } else if self.infinite() {
            if other.infinite() && self.negative() != other.negative() {
                Double::nan()
            } else {
                self
            }
        } else if other.infinite() {
            other
        } else {
            finite_sum(self, other)
        }
    }

    /// `self + other`.
    #[verifier::when_used_as_spec(spec_plus)]
    pub fn plus(self, other: Double) -> (r: Double)
        ensures
            r == self.plus(other),
    {
        proof {
            reveal(Double::spec_plus);
        }
        let a: u64 = self.magnitude_bits();
        let b: u64 = other.magnitude_bits();
        if a > INFINITY || b > INFINITY {
            Double { bits: NOT_A_NUMBER }
        } else if a == INFINITY {
            if b == INFINITY && (self.bits >= SIGN) != (other.bits >= SIGN) {
                Double { bits: NOT_A_NUMBER }
            } else {
                self
            }
        } else if b == INFINITY {
            other
        } else {
            sum_finite(self, other)
        }
    }

    pub open spec fn spec_minus(self, other: Double) -> Double {
        self.plus(other.negated())
    }

    /// `self - other`.
    #[verifier::when_used_as_spec(spec_minus)]
    pub fn minus(self, other: Double) -> (r: Double)
        ensures
            r == self.minus(other),
    {
        self.plus(other.negated())
    }

    #[verifier::opaque]
    pub open spec fn spec_times(self, other: Double) -> Double {
        let negative = self.negative() != other.negative();
        if self.is_nan() || other.is_nan() {
            Double::nan()
        } else if self.infinite() || other.infinite() {
            if self.zero() || other.zero() {
                Double::nan()
            } else {
                signed(negative, INFINITY as nat)
            }
        } else {
            signed(
                negative,
                round_ratio(units(self.magnitude()) * units(other.magnitude()), one_in_units()),
            )
        }
    }

    /// `self * other`.
    #[verifier::when_used_as_spec(spec_times)]
    pub fn times(self, other: Double) -> (r: Double)
        ensures
            r == self.times(other),
    {
        proof {
            reveal(Double::spec_times);
        }
        let negative: bool = (self.bits >= SIGN) != (other.bits >= SIGN);
        let a: u64 = self.magnitude_bits();
        let b: u64 = other.magnitude_bits();
        if a > INFINITY || b > INFINITY {
            Double { bits: NOT_A_NUMBER }
        } else if a == INFINITY || b == INFINITY {
            if a == 0 || b == 0 {
                Double { bits: NOT_A_NUMBER }
            } else {
                make_signed(negative, INFINITY)
            }
        } else {
            make_signed(negative, round_product(a, b))
        }
    }

    #[verifier::opaque]
    pub open spec fn spec_over(self, other: Double) -> Double {
        let negative = self.negative() != other.negative();
        if self.is_nan() || other.is_nan() {
            Double::nan()
        } else if self.infinite() {
            if other.infinite() {
                Double::nan()
            } else {
                signed(negative, INFINITY as nat)
            }
        } else if other.infinite() {
            signed(negative, 0)
        } else if other.zero() {
            if self.zero() {
                Double::nan()
            } else {
                signed(negative, INFINITY as nat)
            }
        } else {
            signed(
                negative,
                round_ratio(units(self.magnitude()) * one_in_units(), units(other.magnitude())),
            )
        }
    }

    /// `self / other`.
    #[verifier::when_used_as_spec(spec_over)]
    pub fn over(self, other: Double) -> (r: Double)
        ensures
            r == self.over(other),
    {
        proof {
            reveal(Double::spec_over);
        }
        let negative: bool = (self.bits >= SIGN) != (other.bits >= SIGN);
        let a: u64 = self.magnitude_bits();
        let b: u64 = other.magnitude_bits();
        if a > INFINITY || b > INFINITY {
            Double { bits: NOT_A_NUMBER }
        } else if a == INFINITY {
            if b == INFINITY {
                Double { bits: NOT_A_NUMBER }
            } else {
                make_signed(negative, INFINITY)
            }
        } else if b == INFINITY {
            make_signed(negative, 0)
        } else if b == 0 {
            if a == 0 {
                Double { bits: NOT_A_NUMBER }
            } else {
                make_signed(negative, INFINITY)
            }
        } else {
            make_signed(negative, round_quotient(a, b))
        }
    }

    #[verifier::opaque]
    pub open spec fn spec_square_root(self) -> Double {
        if self.is_nan() {
            Double::nan()
        } else if self.zero() {
            self
        } else if self.negative() {
            Double::nan()
        } else if self.infinite() {
            self
        } else {
            signed(false, round_root(units(self.magnitude()) * one_in_units()))
        }
    }

    /// The square root.
    #[verifier::when_used_as_spec(spec_square_root)]
    pub fn square_root(self) -> (r: Double)
        ensures
            r == self.square_root(),
    {
        proof {
            reveal(Double::spec_square_root);
        }
        let b: u64 = self.magnitude_bits();
        if b > INFINITY {
            Double { bits: NOT_A_NUMBER }
        } else if b == 0 {
            self
        } else if self.bits >= SIGN {
            Double { bits: NOT_A_NUMBER }
        } else if b == INFINITY {
            self
        } else {
            make_signed(false, round_square_root(b))
        }
    }

    #[verifier::opaque]
    pub open spec fn spec_rounded(self) -> Double {
        if self.finite() {
            signed(
                self.negative(),
                round_ratio(nearest_whole(self.magnitude()) * one_in_units(), 1),
            )
        } else {
            self
        }
    }

    /// The nearest whole number, halves going away from zero.
    #[verifier::when_used_as_spec(spec_rounded)]
    pub fn rounded(self) -> (r: Double)
        ensures
            r == self.rounded(),
    {
        proof {
            reveal(Double::spec_rounded);
        }
        let b: u64 = self.magnitude_bits();
        if b < INFINITY {
            make_signed(self.bits >= SIGN, round_half_up(b))
        } else {
            self
        }
    }

    /// The whole part, towards zero, of a value that is a number. That of an infinity is greater
    /// than every machine integer.
    pub open spec fn truncated(self) -> int {
        let n = (units(self.magnitude()) / one_in_units()) as int;
        if self.negative() {
            -n
        } else {
            n
        }
    }

    fn truncated_bits(self) -> (r: i128)
        requires
            !self.is_nan(),
        ensures
            -0x1_0000_0000_0000_0000 <= self.truncated() <= 0x1_0000_0000_0000_0000 ==> r == self.truncated(),
            self.truncated() > 0x1_0000_0000_0000_0000 ==> r == 0x1_0000_0000_0000_0000,
            self.truncated() < -0x1_0000_0000_0000_0000 ==> r == -0x1_0000_0000_0000_0000,
    {
        let b: u64 = self.magnitude_bits();
        let n: i128 = if b < INFINITY {
            whole_part(b) as i128
        } else {
            proof {
                lemma_infinity_whole();
            }
            0x1_0000_0000_0000_0000
        };
        if self.bits >= SIGN {
            -n
        } else {
            n
        }
    }

    pub open spec fn spec_to_i64(self) -> i64 {
        if self.is_nan() {
            0
        } else if self.truncated() < i64::MIN {
            i64::MIN
        } else if self.truncated() > i64::MAX {
            i64::MAX
        } else {
            self.truncated() as i64
        }
    }

    /// The whole part as an `i64`, held to the range of that type. What is not a number gives zero.
    #[verifier::when_used_as_spec(spec_to_i64)]
    pub fn to_i64(self) -> (r: i64)
        ensures
            r == self.to_i64(),
    {
        if self.is_nan() {
            return 0;
        }
        let n: i128 = self.truncated_bits();
        if n < i64::MIN as i128 {
            i64::MIN
        } else if n > i64::MAX as i128 {
            i64::MAX
        } else {
            n as i64
        }
    }

    pub open spec fn spec_to_u64(self) -> u64 {
        if self.is_nan() || self.truncated() < 0 {
            0
        } else if self.truncated() > u64::MAX {
            u64::MAX
        } else {
            self.truncated() as u64
        }
    }

    /// The whole part as a `u64`, held to the range of that type. What is not a number gives zero.
    #[verifier::when_used_as_spec(spec_to_u64)]
    pub fn to_u64(self) -> (r: u64)
        ensures
            r == self.to_u64(),
    {
        if self.is_nan() {
            return 0;
        }
        let n: i128 = self.truncated_bits();
        if n < 0 {
            0
        } else if n > u64::MAX as i128 {
            u64::MAX
        } else {
            n as u64
        }
    }

    pub open spec fn spec_to_u32(self) -> u32 {
        if self.is_nan() || self.truncated() < 0 {
            0
        } else if self.truncated() > u32::MAX {
            u32::MAX
        } else {
            self.truncated() as u32
        }
    }

    /// The whole part as a `u32`, held to the range of that type. What is not a number gives zero.
    #[verifier::when_used_as_spec(spec_to_u32)]
    pub fn to_u32(self) -> (r: u32)
        ensures
            r == self.to_u32(),
    {
        if self.is_nan() {
            return 0;
        }
        let n: i128 = self.truncated_bits();
        if n < 0 {
            0
        } else if n > u32::MAX as i128 {
            u32::MAX
        } else {
            n as u32
        }
    }

    /// The value nearest to the integer `n`.
    #[verifier::opaque]
    pub open spec fn of_int(n: int) -> Double {
        signed(n < 0, round_ratio(size_of(n) * one_in_units(), 1))
    }

    /// The value nearest to `n`.
    pub fn from_i128(n: i128) -> (r: Double)
        requires
            -0x4000_0000_0000_0000_0000_0000_0000_0000 < n < 0x4000_0000_0000_0000_0000_0000_0000_0000,
        ensures
            r == Double::of_int(n as int),
    {
        proof {
            reveal(Double::of_int);
        }
        let m: u128 = if n < 0 {
            (-n) as u128
        } else {
            n as u128
        };
        make_signed(n < 0, round_whole(m, 1074))
    }

    /// The value nearest to `n`.
    pub fn from_i64(n: i64) -> (r: Double)
        ensures
            r == Double::of_int(n as int),
    {
        Double::from_i128(n as i128)
    }

    /// The value nearest to `n`.
    pub fn from_u64(n: u64) -> (r: Double)
        ensures
            r == Double::of_int(n as int),
    {
        Double::from_i128(n as i128)
    }
}

/// The first magnitude that is not finite is above every machine integer.
proof fn lemma_infinity_whole()
    ensures
        units(INFINITY as nat) / one_in_units() > 0x1_0000_0000_0000_0000,
{
    lemma_units_layout(2046, HIDDEN as nat);
    lemma_pow2_adds(972, 1074);
    lemma_pow2_pos(1074);
    let one = one_in_units() as int;
    let c = HIDDEN * pow2(972);
    assert(units(INFINITY as nat) == c * one) by (nonlinear_arith)
        requires
            units(INFINITY as nat) == HIDDEN * pow2(2046),
            pow2(2046) == pow2(972) * one,
            c == HIDDEN * pow2(972),
    ;
    lemma_div_by_multiple(c, one);
    lemma2_to64();
    lemma_pow2_strictly_increases(16, 972);
    assert(c > 0x1_0000_0000_0000_0000) by (nonlinear_arith)
        requires
            c == HIDDEN * pow2(972),
            pow2(972) > 0x10000,
    ;
}

} // verus!
