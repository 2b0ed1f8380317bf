//! What holds of the daemon's decisions as a whole.

use vstd::prelude::*;
use crate::double::Double;
use crate::double::{ONE, THREE, TWO, ZERO};
use crate::engine::{Engine, HoldChange};

verus! {

// ---------------------------------------------------------------------------
// Transitions
// ---------------------------------------------------------------------------

/// A part of the way is eased to a part of the way, but for rounding.
proof fn lemma_smoothstep(t: Double)
    requires
        t.finite(),
        0 as real <= crate::measure::value(t) <= 1 as real,
    ensures
        crate::engine::smoothstep(t).finite(),
        0 as real <= crate::measure::value(crate::engine::smoothstep(t)) <= 1 as real + 20 as real
            * crate::measure::epsilon(),
{
    let e = crate::measure::epsilon();
    let x = crate::measure::value(t);
    let three = Double::from_bits(THREE);
    let two = Double::from_bits(TWO);
    let zero = Double::from_bits(ZERO);
    crate::measure::lemma_small();
    crate::measure::lemma_constants();
    assert(0 as real <= x * x <= 1 as real) by (nonlinear_arith)
        requires
            0 as real <= x <= 1 as real,
    ;
    crate::measure::lemma_times(t, t);
    let p = crate::measure::value(t.times(t));
    crate::measure::lemma_times(two, t);
    let r = crate::measure::value(two.times(t));
    crate::measure::lemma_minus(three, two.times(t));
    let q = crate::measure::value(three.minus(two.times(t)));
    assert(e * (x * x) <= e) by (nonlinear_arith)
        requires
            0 as real <= x * x <= 1 as real,
            e > 0 as real,
    ;
    assert(e * crate::measure::abs(2 as real * x) <= 2 as real * e) by (nonlinear_arith)
        requires
            0 as real <= x <= 1 as real,
            e > 0 as real,
            crate::measure::abs(2 as real * x) == 2 as real * x,
    ;
    assert(0 as real <= p <= x * x + 2 as real * e);
    assert(2 as real * x - 3 as real * e <= r <= 2 as real * x + 3 as real * e);
    let s = 3 as real - r;
    assert((0 as real) < s <= 4 as real);
    assert(e * crate::measure::abs(s) <= 4 as real * e) by (nonlinear_arith)
        requires
            (0 as real) < s <= 4 as real,
            e > 0 as real,
            crate::measure::abs(s) == s,
    ;
    assert((0 as real) < q <= 3 as real - 2 as real * x + 7 as real * e);
    let y = p * q;
    assert(0 as real <= y) by (nonlinear_arith)
        requires
            0 as real <= p,
            (0 as real) < q,
            y == p * q,
    ;
    assert(y <= 1 as real + 14 as real * e) by (nonlinear_arith)
        requires
            0 as real <= x <= 1 as real,
            0 as real <= p <= x * x + 2 as real * e,
            (0 as real) < q <= 3 as real - 2 as real * x + 7 as real * e,
            y == p * q,
            e == 1 as real / 0x10_0000_0000_0000 as real,
    {
        let a = x * x + 2 as real * e;
        let b = 3 as real - 2 as real * x + 7 as real * e;
        assert(p * q <= a * b);
        assert((1 as real - x) * (1 as real - x) * (1 as real + 2 as real * x) >= 0 as real);
        assert(x * x * (3 as real - 2 as real * x) <= 1 as real);
        assert(a * b == x * x * (3 as real - 2 as real * x) + 7 as real * e * (x * x) + 2 as real * e * (3 as real - 2
            as real * x) + 14 as real * (e * e));
        assert(x * x <= 1 as real);
        assert(7 as real * e * (x * x) <= 7 as real * e);
        assert(2 as real * e * (3 as real - 2 as real * x) <= 6 as real * e);
        assert(14 as real * (e * e) <= e);
    }
    crate::measure::lemma_times(t.times(t), three.minus(two.times(t)));
    crate::measure::lemma_times_at_least(t.times(t), three.minus(two.times(t)), zero);
    assert(e * y <= 2 as real * e) by (nonlinear_arith)
        requires
            0 as real <= y <= 2 as real,
            e > 0 as real,
    ;
    crate::measure::lemma_value_order(zero, crate::engine::smoothstep(t));
}

/// The smoothstep leads from zero to one.
pub proof fn law_smoothstep_ends()
    ensures
        crate::engine::smoothstep(Double::from_bits(ZERO)).same(Double::from_bits(ZERO)),
        crate::engine::smoothstep(Double::from_bits(ONE)).same(Double::from_bits(ONE)),
{
    let zero = Double::from_bits(ZERO);
    let one = Double::from_bits(ONE);
    let two = Double::from_bits(TWO);
    let three = Double::from_bits(THREE);
    crate::measure::lemma_constants();
    crate::measure::lemma_small();
    crate::measure::lemma_exact_product(zero, zero, zero);
    crate::measure::lemma_exact_product(two, zero, zero);
    crate::measure::lemma_exact_difference(three, two.times(zero), three);
    crate::measure::lemma_exact_product(zero.times(zero), three.minus(two.times(zero)), zero);
    crate::measure::lemma_exact_product(one, one, one);
    crate::measure::lemma_exact_product(two, one, two);
    crate::measure::lemma_exact_difference(three, two.times(one), one);
    crate::measure::lemma_exact_product(one.times(one), three.minus(two.times(one)), one);
}

/// The raw values for which frames are computed without a visible rounding error: `2^44` at most.
pub open spec fn moderate(raw: i64) -> bool {
    -0x1000_0000_0000 <= raw <= 0x1000_0000_0000
}

/// Every frame lies between the start and the target of its transition.
pub proof fn law_frames_stay_between(start: i64, target: i64, t: Double)
    requires
        moderate(start),
        moderate(target),
        Double::from_bits(ZERO).at_most(t),
        t.at_most(Double::from_bits(ONE)),
    ensures
        ({
            let next = crate::engine::on_the_way(start, target, crate::engine::smoothstep(t));
            (start <= next <= target) || (target <= next <= start)
        }),
{
    let e = crate::measure::epsilon();
    let zero = Double::from_bits(ZERO);
    crate::measure::lemma_small();
    crate::measure::lemma_constants();
    crate::measure::lemma_value_order(zero, t);
    crate::measure::lemma_value_order(t, Double::from_bits(ONE));
    lemma_smoothstep(t);
    let s = crate::engine::smoothstep(t);
    let y = crate::measure::value(s);
    let n = (target - start) as int;
    crate::measure::lemma_of_int(start as int);
    crate::measure::lemma_of_int(target as int);
    crate::measure::lemma_of_int(n);
    let from = Double::of_int(start as int);
    let step = Double::of_int(n);
    let d = n as real;
    let bound = 0x2000_0000_0000 as real;
    assert(0 as real - bound <= d <= bound);
    let dy = d * y;
    assert(dy <= (if d > 0 as real { d + 1 as real / 4 as real } else { 0 as real })) by (nonlinear_arith)
        requires
            0 as real - bound <= d <= bound,
            bound == 0x2000_0000_0000 as real,
            0 as real <= y <= 1 as real + 20 as real * e,
            e == 1 as real / 0x10_0000_0000_0000 as real,
            dy == d * y,
    {
        if d > 0 as real {
            assert(d * y <= d * (1 as real + 20 as real * e));
            assert(d * (20 as real * e) <= bound * (20 as real * e));
        }
    }
    assert(dy >= (if d < 0 as real { d - 1 as real / 4 as real } else { 0 as real })) by (nonlinear_arith)
        requires
            0 as real - bound <= d <= bound,
            bound == 0x2000_0000_0000 as real,
            0 as real <= y <= 1 as real + 20 as real * e,
            e == 1 as real / 0x10_0000_0000_0000 as real,
            dy == d * y,
    {
        if d < 0 as real {
            assert(d * y >= d * (1 as real + 20 as real * e));
            assert(d * (20 as real * e) >= (0 as real - bound) * (20 as real * e));
        }
    }
    crate::measure::lemma_times(step, s);
    let m = crate::measure::value(step.times(s));
    crate::measure::lemma_part_of_error(e, dy, bound + 1 as real);
    assert(crate::measure::abs(m - dy) <= 1 as real / 64 as real);
    if d >= 0 as real {
        crate::measure::lemma_times_at_least(step, s, zero);
        crate::measure::lemma_value_order(zero, step.times(s));
    }
    if d <= 0 as real {
        crate::measure::lemma_times_at_most(step, s, zero);
        crate::measure::lemma_value_order(step.times(s), zero);
    }
    let x = start as real + m;
    crate::measure::lemma_plus(from, step.times(s));
    crate::measure::lemma_part_of_error(e, x, bound + bound);
    if d >= 0 as real {
        crate::measure::lemma_plus_at_least(from, step.times(s), from);
        crate::measure::lemma_value_order(from, from.plus(step.times(s)));
    }
    if d <= 0 as real {
        crate::measure::lemma_plus_at_most(from, step.times(s), from);
        crate::measure::lemma_value_order(from.plus(step.times(s)), from);
    }
    let a = crate::measure::value(from.plus(step.times(s)));
    assert(crate::measure::abs(a - x) <= 1 as real / 16 as real);
    let w = crate::measure::lemma_rounded(from.plus(step.times(s)));
    assert(crate::measure::whole(start as int) == start as real);
    assert(d == target as real - start as real);
    if d >= 0 as real {
        assert(a <= target as real + 3 as real / 8 as real);
        assert((w as real) < (target + 1) as real);
    } else {
        assert(a >= target as real - 3 as real / 8 as real);
        assert(w as real > (target - 1) as real);
    }
}

/// The last frame of a transition is its target.
pub proof fn law_last_frame_is_the_target(start: i64, target: i64, t: Double)
    requires
        moderate(start),
        moderate(target),
        t.same(Double::from_bits(ONE)),
    ensures
        crate::engine::on_the_way(start, target, crate::engine::smoothstep(t)) == target,
{
    crate::measure::lemma_constants();
    assert(t == Double::from_bits(ONE));
    law_smoothstep_ends();
    let s = crate::engine::smoothstep(t);
    let one = Double::from_bits(ONE);
    lemma_smoothstep(t);
    crate::measure::lemma_value_order(s, one);
    let n = (target - start) as int;
    crate::measure::lemma_of_int(start as int);
    crate::measure::lemma_of_int(target as int);
    crate::measure::lemma_of_int(n);
    let step = Double::of_int(n);
    let from = Double::of_int(start as int);
    assert(n as real * (1 as real) == n as real) by (nonlinear_arith);
    crate::measure::lemma_exact_product(step, s, step);
    assert(start as real + n as real == target as real);
    crate::measure::lemma_exact_sum(from, step.times(s), Double::of_int(target as int));
    let w = crate::measure::lemma_rounded(from.plus(step.times(s)));
    assert(crate::measure::whole(target as int) == target as real);
}

/// A duration in milliseconds that is a value.
pub open spec fn exact_ms(ms: u64) -> bool {
    ms <= 0x10_0000_0000_0000
}

/// The durations of a configuration are values.
pub open spec fn exact_durations(config: &crate::config::DaemonConfig) -> bool {
    exact_ms(config.min_transition_duration_ms) && exact_ms(config.transition_duration_ms)
}

/// The shortest duration of a transition.
pub open spec fn shortest_ms(config: &crate::config::DaemonConfig) -> u64 {
    if config.adaptive_transition {
        crate::config::at_least(config.min_transition_duration_ms, 50)
    } else {
        crate::config::at_least(config.transition_duration_ms, 50)
    }
}

/// The longest duration of a transition.
pub open spec fn longest_ms(config: &crate::config::DaemonConfig) -> u64 {
    crate::config::at_least(config.transition_duration_ms, shortest_ms(config))
}

/// The part of the range that a step is.
spec fn part_of(step: int, span: Double) -> Double {
    Double::of_int(step).over(span).clamp(Double::from_bits(ZERO), Double::from_bits(ONE))
}

proof fn lemma_part(step: int, span: Double)
    requires
        0 <= step <= 0x1_0000_0000_0000_0000,
        span.finite(),
        Double::from_bits(ONE).at_most(span),
    ensures
        part_of(step, span).finite(),
        !part_of(step, span).negative(),
        part_of(step, span).at_most(Double::from_bits(ONE)),
        step == 0 ==> part_of(step, span).zero(),
        span.at_most(Double::of_int(step)) ==> part_of(step, span).same(Double::from_bits(ONE)),
{
    reveal(Double::spec_over);
    let n = Double::of_int(step);
    let one = Double::from_bits(ONE);
    crate::measure::lemma_constants();
    crate::measure::lemma_of_int_finite(step);
    crate::measure::lemma_value_order(one, span);
    crate::measure::lemma_positive(span);
    crate::double::lemma_units_order(span.magnitude(), 0);
    crate::double::lemma_units_order(n.magnitude(), 0);
    crate::double::lemma_round_ratio(
        crate::double::units(n.magnitude()) * crate::double::one_in_units(),
        crate::double::units(span.magnitude()),
    );
    if step == 0 {
        assert(0 * crate::double::one_in_units() == 0) by (nonlinear_arith);
        crate::double::lemma_round_ratio_at_most(0, crate::double::units(span.magnitude()), 0);
    }
    if span.at_most(n) {
        crate::measure::lemma_value_order(span, n);
        let v = crate::measure::value(span);
        assert(1 as real * v == v) by (nonlinear_arith);
        crate::measure::lemma_over_at_least(n, span, one);
    }
}

/// A transition takes a whole number of milliseconds between its shortest and its longest duration:
/// the shortest for no step, the longest for one of the whole range.
pub proof fn law_transition_duration(config: &crate::config::DaemonConfig, span: Double, step: int)
    requires
        exact_durations(config),
        0 <= step <= 0x1_0000_0000_0000_0000,
        span.finite(),
        Double::from_bits(ONE).at_most(span),
    ensures
        ({
            let total = crate::engine::transition_ms(config, span, step);
            &&& total.finite()
            &&& shortest_ms(config) as real <= crate::measure::value(total) <= longest_ms(config) as real
            &&& step == 0 ==> crate::measure::value(total) == shortest_ms(config) as real
            &&& span.at_most(Double::of_int(step)) ==> crate::measure::value(total) == longest_ms(config) as real
        }),
{
    let least = shortest_ms(config);
    let most = longest_ms(config);
    crate::measure::lemma_of_int(least as int);
    if config.adaptive_transition {
        let shortest = Double::of_int(least as int);
        assert(shortest.to_u64() == least) by {
            vstd::arithmetic::power2::lemma_pow2_pos(1074);
            vstd::arithmetic::div_mod::lemma_div_by_multiple(
                least as int,
                crate::double::one_in_units() as int,
            );
        }
        let longest = Double::of_int(most as int);
        crate::measure::lemma_of_int(most as int);
        crate::measure::lemma_of_int(most - least);
        crate::measure::lemma_exact_difference(longest, shortest, Double::of_int(most - least));
        let range = longest.minus(shortest);
        let one = Double::from_bits(ONE);
        let zero = Double::from_bits(ZERO);
        crate::measure::lemma_constants();
        lemma_part(step, span);
        let p = part_of(step, span);
        crate::measure::lemma_root_order(p, p);
        let root = p.square_root();
        assert(zero.at_most(root) && root.at_most(one));
        crate::measure::lemma_value_order(zero, root);
        crate::measure::lemma_value_order(root, one);
        let x = crate::measure::value(root);
        let r = crate::measure::value(range);
        assert(0 as real <= r * x <= r) by (nonlinear_arith)
            requires
                0 as real <= x <= 1 as real,
                r >= 0 as real,
        ;
        crate::measure::lemma_times_at_least(range, root, zero);
        crate::measure::lemma_times_at_most(range, root, range);
        let part = range.times(root);
        crate::measure::lemma_value_order(zero, part);
        crate::measure::lemma_value_order(part, range);
        crate::measure::lemma_plus_at_least(shortest, part, shortest);
        crate::measure::lemma_plus_at_most(shortest, part, longest);
        let sum = shortest.plus(part);
        crate::measure::lemma_value_order(shortest, sum);
        crate::measure::lemma_value_order(sum, longest);
        let w = crate::measure::lemma_rounded(sum);
        assert(crate::measure::whole(least as int) == least as real);
        assert(crate::measure::whole(most as int) == most as real);
        if step == 0 {
            reveal(Double::spec_square_root);
            crate::measure::lemma_value_order(root, zero);
            assert(r * (0 as real) == 0 as real) by (nonlinear_arith);
            crate::measure::lemma_exact_product(range, root, zero);
            crate::measure::lemma_exact_sum(shortest, part, shortest);
        }
        if span.at_most(Double::of_int(step)) {
            crate::measure::lemma_value_order(root, one);
            assert(r * (1 as real) == r) by (nonlinear_arith);
            crate::measure::lemma_exact_product(range, root, range);
            crate::measure::lemma_exact_sum(shortest, part, longest);
        }
    }
}

/// A greater step takes no less time.
pub proof fn law_greater_steps_take_longer(
    config: &crate::config::DaemonConfig,
    span: Double,
    step: int,
    greater: int,
)
    requires
        exact_durations(config),
        0 <= step <= greater <= 0x1_0000_0000_0000_0000,
        span.finite(),
        Double::from_bits(ONE).at_most(span),
    ensures
        crate::engine::transition_ms(config, span, step).at_most(
            crate::engine::transition_ms(config, span, greater),
        ),
{
    let least = shortest_ms(config);
    let most = longest_ms(config);
    crate::measure::lemma_of_int(least as int);
    if config.adaptive_transition {
        let shortest = Double::of_int(least as int);
        assert(shortest.to_u64() == least) by {
            vstd::arithmetic::power2::lemma_pow2_pos(1074);
            vstd::arithmetic::div_mod::lemma_div_by_multiple(
                least as int,
                crate::double::one_in_units() as int,
            );
        }
        let longest = Double::of_int(most as int);
        crate::measure::lemma_of_int(most as int);
        crate::measure::lemma_of_int(most - least);
        crate::measure::lemma_exact_difference(longest, shortest, Double::of_int(most - least));
        let range = longest.minus(shortest);
        let one = Double::from_bits(ONE);
        let zero = Double::from_bits(ZERO);
        crate::measure::lemma_constants();
        lemma_part(step, span);
        lemma_part(greater, span);
        let p = part_of(step, span);
        let q = part_of(greater, span);
        crate::measure::lemma_of_int_order(step, greater);
        crate::measure::lemma_of_int_finite(step);
        crate::measure::lemma_of_int_finite(greater);
        crate::measure::lemma_value_order(one, span);
        crate::measure::lemma_positive(span);
        crate::measure::lemma_over_order(Double::of_int(step), Double::of_int(greater), span);
        assert(p.at_most(q));
        crate::measure::lemma_root_order(p, q);
        crate::measure::lemma_root_order(p, p);
        let a = p.square_root();
        let b = q.square_root();
        crate::measure::lemma_value_order(zero, range);
        lemma_not_negative(longest, shortest);
        crate::measure::lemma_times_order(a, b, range);
        lemma_bounded_product(range, a);
        lemma_bounded_product(range, b);
        crate::measure::lemma_plus_order(range.times(a), range.times(b), shortest);
        lemma_bounded_sum(shortest, range.times(a), longest);
        lemma_bounded_sum(shortest, range.times(b), longest);
        crate::measure::lemma_rounded_order(shortest.plus(range.times(a)), shortest.plus(range.times(b)));
    }
}

/// A difference that is not below zero has no sign, where the minuend has none.
proof fn lemma_not_negative(a: Double, b: Double)
    requires
        a.finite(),
        b.finite(),
        !a.negative(),
        Double::from_bits(ZERO).at_most(a.minus(b)),
    ensures
        !a.minus(b).negative(),
{
    reveal(Double::spec_plus);
    crate::measure::lemma_negated(b);
    let n = a.amount() + b.negated().amount();
    if n != 0 {
        crate::double::lemma_round_ratio(crate::double::size_of(n), 1);
        if n < 0 {
            crate::double::lemma_round_ratio_at_least(crate::double::size_of(n), 1, 1);
        }
    }
}

/// A part of a range is no more than the range.
proof fn lemma_bounded_product(range: Double, part: Double)
    requires
        range.finite(),
        !range.negative(),
        Double::from_bits(ZERO).at_most(part),
        part.at_most(Double::from_bits(ONE)),
    ensures
        range.times(part).finite(),
        Double::from_bits(ZERO).at_most(range.times(part)),
        range.times(part).at_most(range),
{
    let zero = Double::from_bits(ZERO);
    crate::measure::lemma_constants();
    crate::measure::lemma_value_order(zero, range);
    crate::measure::lemma_value_order(zero, part);
    crate::measure::lemma_value_order(part, Double::from_bits(ONE));
    let x = crate::measure::value(part);
    let r = crate::measure::value(range);
    assert(0 as real <= r * x <= r) by (nonlinear_arith)
        requires
            0 as real <= x <= 1 as real,
            r >= 0 as real,
    ;
    crate::measure::lemma_times_at_least(range, part, zero);
    crate::measure::lemma_times_at_most(range, part, range);
}

proof fn lemma_bounded_sum(a: Double, b: Double, c: Double)
    requires
        a.finite(),
        b.finite(),
        c.finite(),
        Double::from_bits(ZERO).at_most(b),
        b.at_most(c.minus(a)),
        c.minus(a).finite(),
        crate::measure::value(c.minus(a)) == crate::measure::value(c) - crate::measure::value(a),
    ensures
        a.plus(b).finite(),
{
    crate::measure::lemma_constants();
    crate::measure::lemma_value_order(Double::from_bits(ZERO), b);
    crate::measure::lemma_value_order(b, c.minus(a));
    crate::measure::lemma_plus_at_least(a, b, a);
    crate::measure::lemma_plus_at_most(a, b, c);
}

/// The part of a transition that is over lies between zero and one, and is one as soon as the
/// duration has passed.
pub proof fn law_transition_ends(nanoseconds: u64, total: Double)
    requires
        total.finite(),
        crate::measure::value(total) > 0 as real,
    ensures
        ({
            let done = crate::engine::progress(nanoseconds, total);
            &&& Double::from_bits(ZERO).at_most(done)
            &&& done.at_most(Double::from_bits(ONE))
            &&& crate::measure::value(total) <= (nanoseconds as int / crate::engine::MILLISECOND as int) as real
                ==> done.same(Double::from_bits(ONE))
        }),
{
    reveal(Double::spec_over);
    let ms = nanoseconds as int / crate::engine::MILLISECOND as int;
    crate::measure::lemma_of_int(ms);
    crate::measure::lemma_constants();
    crate::measure::lemma_positive(total);
    let n = Double::of_int(ms);
    crate::double::lemma_round_ratio(
        crate::double::units(n.magnitude()) * crate::double::one_in_units(),
        crate::double::units(total.magnitude()),
    );
    crate::double::lemma_units_order(total.magnitude(), 0);
    let v = crate::measure::value(total);
    if v <= ms as real {
        assert(1 as real * v == v) by (nonlinear_arith);
        crate::measure::lemma_over_at_least(n, total, Double::from_bits(ONE));
    }
}

/// The state in which frames are exact: whole raw values of moderate size, and durations that are
/// values.
pub open spec fn exact_motion(e: &Engine) -> bool {
    &&& moderate(e.anim_start_br)
    &&& moderate(e.anim_target_br)
    &&& exact_durations(&e.config)
    &&& e.backlight.min_allowed_raw.finite()
    &&& e.backlight.max_allowed_raw.finite()
    &&& crate::backlight::span(e.backlight.min_allowed_raw, e.backlight.max_allowed_raw).finite()
}

proof fn lemma_motion(e: &Engine, now: u64)
    requires
        exact_motion(e),
    ensures
        Double::from_bits(ZERO).at_most(e.transition_progress(now)),
        e.transition_progress(now).at_most(Double::from_bits(ONE)),
        longest_ms(&e.config) * crate::engine::MILLISECOND <= crate::engine::elapsed(e.anim_start_time, now)
            ==> e.transition_progress(now).same(Double::from_bits(ONE)),
{
    let span = crate::backlight::span(e.backlight.min_allowed_raw, e.backlight.max_allowed_raw);
    let step = crate::engine::distance(e.anim_target_br as int, e.anim_start_br as int);
    law_transition_duration(&e.config, span, step);
    let total = crate::engine::transition_ms(&e.config, span, step);
    let passed = crate::engine::elapsed(e.anim_start_time, now);
    law_transition_ends(passed, total);
    let most = longest_ms(&e.config) as int;
    let ms = crate::engine::MILLISECOND as int;
    if most * ms <= passed {
        vstd::arithmetic::div_mod::lemma_div_is_ordered(most * ms, passed as int, ms);
        vstd::arithmetic::div_mod::lemma_div_by_multiple(most, ms);
    }
}

/// A due frame lies between the start and the target of the transition; the one that settles is the
/// target.
pub proof fn law_transition_leads_to_its_target(e: &Engine, now: u64)
    requires
        exact_motion(e),
        e.frame_is_due(now),
    ensures
        (e.anim_start_br <= e.next_value(now) <= e.anim_target_br) || (e.anim_target_br <= e.next_value(now)
            <= e.anim_start_br),
        Double::from_bits(ONE).at_most(e.transition_progress(now)) ==> e.next_value(now) == e.anim_target_br,
{
    lemma_motion(e, now);
    let t = e.transition_progress(now);
    law_frames_stay_between(e.anim_start_br, e.anim_target_br, t);
    if Double::from_bits(ONE).at_most(t) {
        law_last_frame_is_the_target(e.anim_start_br, e.anim_target_br, t);
    }
}

/// A transition settles as soon as its longest duration has passed.
pub proof fn law_transition_settles_in_time(e: &Engine, now: u64)
    requires
        exact_motion(e),
        !e.is_suspended,
        e.is_animating,
        longest_ms(&e.config) * crate::engine::MILLISECOND <= crate::engine::elapsed(e.anim_start_time, now),
    ensures
        e.frame_is_due(now),
        Double::from_bits(ONE).at_most(e.transition_progress(now)),
        e.next_value(now) == e.anim_target_br,
{
    lemma_motion(e, now);
    law_transition_leads_to_its_target(e, now);
}

// ---------------------------------------------------------------------------
// Sleep, pauses and deadlines
// ---------------------------------------------------------------------------

/// A suspended daemon rests: no light starts or ends a hold, no hold comes to its end, and nothing
/// moves.
pub proof fn law_suspended_daemon_rests(e: &Engine, lux: Double, now: u64)
    requires
        e.is_suspended,
    ensures
        e.hold_change(lux, now) == HoldChange::Kept,
        !e.hold_is_over(now),
        e.headed(now) == *e,
        !e.frame_is_due(now),
{
}

/// Going to sleep stops a transition and a hold, and leaves the curve as it is.
pub proof fn law_sleep_stops_everything(e: &Engine, now: u64)
    ensures
        e.suspended().is_suspended,
        !e.suspended().pending_save,
        !e.suspended().is_animating,
        e.suspended().hold_timer is None,
        e.suspended().curve == e.curve,
        e.suspended().patience(now) == crate::engine::IDLE,
{
}

/// Right after a wake the light is the fresh one, the backlight is on its way to the level for it,
/// and further readings start no hold for the time of the cooldown.
pub proof fn law_wake_recalibrates(
    before: &Engine,
    after: &Engine,
    lux: Double,
    hw: Option<i64>,
    now: u64,
    later: u64,
    reading: Double,
)
    requires
        after.resumed_from(before, Some(lux), hw, now),
        later - now < crate::engine::USER_ADJUST_COOLDOWN,
    ensures
        !after.is_suspended,
        after.current_lux == lux,
        after.active_target_lux == lux,
        after.current_target_br == before.level_at(lux),
        after.anim_target_br == after.backlight.raw_for(after.current_target_br),
        after.hold_change(reading, later) == HoldChange::Kept,
{
}

/// For the time of the cooldown after a manual change no light starts or ends a hold.
pub proof fn law_manual_change_is_respected(e: &Engine, lux: Double, now: u64)
    requires
        crate::engine::elapsed(e.last_user_action, now) < crate::engine::USER_ADJUST_COOLDOWN,
    ensures
        e.hold_change(lux, now) == HoldChange::Kept,
{
}

/// The raw value that the user chose stays, where it is in the allowed range: its level is its own, so
/// that no transition starts.
pub proof fn law_manual_choice_stays(e: &Engine, low: int, high: int, now: u64)
    requires
        crate::backlight_laws::ranges(&e.backlight, low, high),
        low <= e.anim_target_br <= high,
        e.current_target_br == e.backlight.fraction_of(e.anim_target_br),
        !e.is_animating,
    ensures
        e.headed(now) == *e,
        !e.frame_is_due(now),
{
    crate::backlight_laws::law_scales_are_inverse(&e.backlight, low, high, e.anim_target_br);
}

/// With automatic adjustment off no light starts or ends a hold.
pub proof fn law_adjustment_can_be_paused(e: &Engine, lux: Double, now: u64)
    requires
        !e.adjust_enabled,
    ensures
        e.hold_change(lux, now) == HoldChange::Kept,
{
}

/// A light that differs from the target's by no more than the absolute threshold, or by less than the
/// relative one, starts no hold.
pub proof fn law_light_in_the_band_is_ignored(e: &Engine, lux: Double, now: u64)
    requires
        ({
            let delta = lux.minus(e.active_target_lux).absolute();
            ||| !e.config.lux_hysteresis_abs.less(delta)
            ||| !e.config.lux_hysteresis_ratio.at_most(
                delta.over(e.active_target_lux.greater_of(Double::from_bits(ONE))),
            )
        }),
    ensures
        e.hold_change(lux, now) != HoldChange::Started,
{
}

/// The daemon never waits beyond what is due: a tenth of a second at most, no longer than until the
/// next frame of a transition, the end of a hold or the time to save.
pub proof fn law_wait_meets_deadlines(e: &Engine, now: u64)
    ensures
        0 <= e.patience(now) <= crate::engine::IDLE,
        e.is_animating ==> e.patience(now) <= crate::engine::remaining(
            crate::engine::FRAME as int,
            e.last_anim_frame,
            now,
        ),
        e.hold_timer matches Some(start) ==> e.patience(now) <= crate::engine::remaining(
            e.config.auto_adjust_delay_ms * crate::engine::MILLISECOND,
            start,
            now,
        ),
        e.pending_save ==> e.patience(now) <= crate::engine::remaining(
            crate::engine::STATE_SAVE_DELAY as int,
            e.last_user_action,
            now,
        ),
        !e.is_suspended && e.hold_is_over(now) ==> e.patience(now) == 0,
        e.save_is_due(now) ==> e.patience(now) == 0,
{
    assert(e.config.auto_adjust_delay_ms * crate::engine::MILLISECOND >= 0) by (nonlinear_arith);
}

// ---------------------------------------------------------------------------
// The hold
// ---------------------------------------------------------------------------

/// `states` are what the daemon goes through on the readings `events` of the sensor, each with its
/// time; it watches the light all along.
pub open spec fn watched(states: Seq<Engine>, events: Seq<(Double, u64)>) -> bool {
    &&& states.len() == events.len() + 1
    &&& forall|i: int|
        #![trigger events[i]]
        0 <= i < events.len() ==> {
            &&& states[i + 1].lit_from(&states[i], events[i].0, events[i].1)
            &&& states[i].watches(events[i].1)
        }
}

/// The hold that runs after `events` began with the reading `k`, and the light has been beyond the
/// band round the active target ever since, without a drift from where it was then.
pub open spec fn held_since(states: Seq<Engine>, events: Seq<(Double, u64)>, k: int) -> bool {
    let first = states[0];
    &&& 0 <= k < events.len()
    &&& states.last().hold_timer == Some(events[k].1)
    &&& states.last().hold_lux == states[k + 1].current_lux
    &&& forall|j: int|
        #![trigger states[j]]
        k < j < states.len() ==> {
            &&& first.leaves_band(states[j].current_lux)
            &&& j > k + 1 ==> !crate::engine::beyond(
                states[j].current_lux,
                states[k + 1].current_lux,
                first.config.lux_hysteresis_abs,
                first.config.lux_hysteresis_ratio,
            )
        }
}

/// A hold that runs has been kept up by every reading since it began: one reading within the band
/// ends it, one that drifts starts it anew.
pub proof fn law_hold_is_continuous(states: Seq<Engine>, events: Seq<(Double, u64)>)
    requires
        watched(states, events),
        states[0].hold_timer is None,
        states.last().hold_timer is Some,
    ensures
        exists|k: int| held_since(states, events, k),
        states.last().active_target_lux == states[0].active_target_lux,
        states.last().config == states[0].config,
    decreases events.len(),
{
    if events.len() == 0 {
        assert(states.last() == states[0]);
    } else {
        let n = events.len() - 1;
        let shorter = states.drop_last();
        let fewer = events.drop_last();
        assert(watched(shorter, fewer)) by {
            assert forall|i: int| #![trigger fewer[i]] 0 <= i < fewer.len() implies {
                &&& shorter[i + 1].lit_from(&shorter[i], fewer[i].0, fewer[i].1)
                &&& shorter[i].watches(fewer[i].1)
            } by {
                assert(fewer[i] == events[i]);
            }
        }
        let before = shorter.last();
        let after = states.last();
        assert(events[n] == events.last());
        assert(after.lit_from(&before, events[n].0, events[n].1));
        lemma_band_is_fixed(shorter, fewer);
        let change = before.hold_change(after.current_lux, events[n].1);
        if change == HoldChange::Started {
            assert(held_since(states, events, n));
        } else {
            assert(before.hold_timer is Some);
            law_hold_is_continuous(shorter, fewer);
            let k = choose|k: int| held_since(shorter, fewer, k);
            assert forall|j: int| #![trigger states[j]] k < j < states.len() implies {
                &&& states[0].leaves_band(states[j].current_lux)
                &&& j > k + 1 ==> !crate::engine::beyond(
                    states[j].current_lux,
                    states[k + 1].current_lux,
                    states[0].config.lux_hysteresis_abs,
                    states[0].config.lux_hysteresis_ratio,
                )
            } by {
                if j < shorter.len() {
                    assert(shorter[j] == states[j]);
                }
            }
            assert(held_since(states, events, k));
        }
    }
}

/// Readings of the sensor move neither the target nor the thresholds.
proof fn lemma_band_is_fixed(states: Seq<Engine>, events: Seq<(Double, u64)>)
    requires
        watched(states, events),
    ensures
        states.last().active_target_lux == states[0].active_target_lux,
        states.last().config == states[0].config,
    decreases events.len(),
{
    if events.len() > 0 {
        let n = events.len() - 1;
        let shorter = states.drop_last();
        let fewer = events.drop_last();
        assert(watched(shorter, fewer)) by {
            assert forall|i: int| #![trigger fewer[i]] 0 <= i < fewer.len() implies {
                &&& shorter[i + 1].lit_from(&shorter[i], fewer[i].0, fewer[i].1)
                &&& shorter[i].watches(fewer[i].1)
            } by {
                assert(fewer[i] == events[i]);
            }
        }
        lemma_band_is_fixed(shorter, fewer);
        assert(events[n] == events.last());
        assert(states.last().lit_from(&shorter.last(), events[n].0, events[n].1));
    } else {
        assert(states.last() == states[0]);
    }
}

} // verus!
