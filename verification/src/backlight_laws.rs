//! What holds of the scales of a backlight controller.

use vstd::prelude::*;
use crate::backlight::{BacklightDevice, Sending};
use crate::double::Double;
use crate::double::{HUNDRED, ONE, ZERO};

verus! {

/// The greatest raw value for which the scales are computed without a visible rounding error, `2^44`.
pub open spec fn greatest_raw() -> int {
    0x1000_0000_0000
}

/// The allowed range goes from the whole number `low` to the whole number `high`.
pub open spec fn ranges(dev: &BacklightDevice, low: int, high: int) -> bool {
    &&& 0 <= low <= high <= greatest_raw()
    &&& dev.min_allowed_raw.finite()
    &&& dev.max_allowed_raw.finite()
    &&& crate::measure::value(dev.min_allowed_raw) == low as real
    &&& crate::measure::value(dev.max_allowed_raw) == high as real
}

/// The lowest raw value is one at least, so that the backlight never goes out.
pub proof fn law_backlight_never_goes_out(hw_max: Double, percent: Double)
    ensures
        Double::from_bits(ONE).at_most(crate::backlight::lowest_raw(hw_max, percent)),
{
}

/// The highest raw value is that of the controller at most.
pub proof fn law_highest_raw_is_the_controllers(hw_max: Double, percent: Double)
    requires
        !hw_max.is_nan(),
    ensures
        crate::backlight::highest_raw(hw_max, percent).at_most(hw_max),
{
}

/// The raw value of a level lies in the allowed range.
pub proof fn law_raw_value_is_allowed(dev: &BacklightDevice, level: Double)
    requires
        dev.min_allowed_raw.to_i64() <= dev.max_allowed_raw.to_i64(),
    ensures
        dev.min_allowed_raw.to_i64() <= dev.raw_for(level) <= dev.max_allowed_raw.to_i64(),
{
}

pub proof fn lemma_span(dev: &BacklightDevice, low: int, high: int)
    requires
        ranges(dev, low, high),
    ensures
        ({
            let span = crate::backlight::span(dev.min_allowed_raw, dev.max_allowed_raw);
            &&& span.finite()
            &&& !span.negative()
            &&& !span.zero()
            &&& crate::measure::value(span) == (if high > low { high - low } else { 1 }) as real
        }),
        dev.min_allowed_raw.to_i64() == low,
        dev.max_allowed_raw.to_i64() == high,
{
    let one = Double::from_bits(ONE);
    let n = high - low;
    crate::measure::lemma_constants();
    crate::measure::lemma_of_int(n);
    crate::measure::lemma_exact_difference(dev.max_allowed_raw, dev.min_allowed_raw, Double::of_int(n));
    crate::measure::lemma_value_order(dev.max_allowed_raw.minus(dev.min_allowed_raw), one);
    let span = crate::backlight::span(dev.min_allowed_raw, dev.max_allowed_raw);
    crate::measure::lemma_positive(span);
    crate::measure::lemma_whole_part(dev.min_allowed_raw, low);
    crate::measure::lemma_whole_part(dev.max_allowed_raw, high);
}

/// The raw value before it is held to the range.
pub open spec fn unheld(dev: &BacklightDevice, level: Double) -> Double {
    dev.min_allowed_raw.plus(
        level.clamp(Double::from_bits(ZERO), Double::from_bits(ONE)).times(
            crate::backlight::span(dev.min_allowed_raw, dev.max_allowed_raw),
        ),
    )
}

pub proof fn lemma_unheld(dev: &BacklightDevice, low: int, high: int, level: Double)
    requires
        ranges(dev, low, high),
        !level.is_nan(),
    ensures
        ({
            let c = level.clamp(Double::from_bits(ZERO), Double::from_bits(ONE));
            let span = crate::backlight::span(dev.min_allowed_raw, dev.max_allowed_raw);
            let part = c.times(span);
            &&& c.finite()
            &&& 0 as real <= crate::measure::value(c) <= 1 as real
            &&& part.finite()
            &&& 0 as real <= crate::measure::value(part) <= crate::measure::value(span)
            &&& unheld(dev, level).finite()
            &&& crate::measure::abs(crate::measure::value(unheld(dev, level))) <= 0x10_0000_0000_0000 as real
            &&& low as real <= crate::measure::value(unheld(dev, level))
        }),
{
    let zero = Double::from_bits(ZERO);
    let one = Double::from_bits(ONE);
    let span = crate::backlight::span(dev.min_allowed_raw, dev.max_allowed_raw);
    let c = level.clamp(zero, one);
    crate::measure::lemma_constants();
    crate::measure::lemma_small();
    lemma_span(dev, low, high);
    crate::measure::lemma_value_order(zero, c);
    crate::measure::lemma_value_order(c, one);
    let x = crate::measure::value(c);
    let s = crate::measure::value(span);
    assert(0 as real <= x * s <= s) by (nonlinear_arith)
        requires
            0 as real <= x <= 1 as real,
            s >= 0 as real,
    ;
    crate::measure::lemma_times_at_least(c, span, zero);
    crate::measure::lemma_times_at_most(c, span, span);
    let part = c.times(span);
    crate::measure::lemma_value_order(zero, part);
    crate::measure::lemma_value_order(part, span);
    let top = Double::of_int(2 * greatest_raw() + 1);
    crate::measure::lemma_of_int(2 * greatest_raw() + 1);
    crate::measure::lemma_plus_at_least(dev.min_allowed_raw, part, dev.min_allowed_raw);
    crate::measure::lemma_plus_at_most(dev.min_allowed_raw, part, top);
    let sum = dev.min_allowed_raw.plus(part);
    crate::measure::lemma_value_order(dev.min_allowed_raw, sum);
    crate::measure::lemma_value_order(sum, top);
}

/// A higher level has no lower raw value.
pub proof fn law_raw_value_follows_the_level(dev: &BacklightDevice, low: int, high: int, a: Double, b: Double)
    requires
        ranges(dev, low, high),
        a.at_most(b),
    ensures
        dev.raw_for(a) <= dev.raw_for(b),
{
    let zero = Double::from_bits(ZERO);
    let one = Double::from_bits(ONE);
    let span = crate::backlight::span(dev.min_allowed_raw, dev.max_allowed_raw);
    lemma_span(dev, low, high);
    lemma_unheld(dev, low, high, a);
    lemma_unheld(dev, low, high, b);
    let c = a.clamp(zero, one);
    let d = b.clamp(zero, one);
    assert(c.at_most(d));
    crate::measure::lemma_times_order(c, d, span);
    crate::measure::lemma_plus_order(c.times(span), d.times(span), dev.min_allowed_raw);
    crate::measure::lemma_rounded_order(unheld(dev, a), unheld(dev, b));
    crate::measure::lemma_to_i64_order(unheld(dev, a).rounded(), unheld(dev, b).rounded());
}

/// The level zero is the lowest raw value, the level one the highest.
pub proof fn law_scale_ends(dev: &BacklightDevice, low: int, high: int)
    requires
        ranges(dev, low, high),
    ensures
        dev.raw_for(Double::from_bits(ZERO)) == low,
        dev.raw_for(Double::from_bits(ONE)) == high,
{
    let zero = Double::from_bits(ZERO);
    let one = Double::from_bits(ONE);
    let span = crate::backlight::span(dev.min_allowed_raw, dev.max_allowed_raw);
    crate::measure::lemma_constants();
    lemma_span(dev, low, high);
    lemma_unheld(dev, low, high, zero);
    lemma_unheld(dev, low, high, one);
    let s = crate::measure::value(span);
    assert(0 as real * s == 0 as real) by (nonlinear_arith);
    assert(1 as real * s == s) by (nonlinear_arith);
    crate::measure::lemma_exact_product(zero, span, zero);
    crate::measure::lemma_exact_sum(dev.min_allowed_raw, zero.times(span), dev.min_allowed_raw);
    let w = crate::measure::lemma_rounded(unheld(dev, zero));
    assert(crate::measure::whole(low) == low as real);
    crate::measure::lemma_exact_product(one, span, span);
    let n = if high > low {
        high
    } else {
        low + 1
    };
    crate::measure::lemma_of_int(n);
    crate::measure::lemma_exact_sum(dev.min_allowed_raw, one.times(span), Double::of_int(n));
    let v = crate::measure::lemma_rounded(unheld(dev, one));
    assert(crate::measure::whole(n) == n as real);
}

/// A raw value in the allowed range is that of its own level.
pub proof fn law_scales_are_inverse(dev: &BacklightDevice, low: int, high: int, hw: i64)
    requires
        ranges(dev, low, high),
        low <= hw <= high,
    ensures
        dev.raw_for(dev.fraction_of(hw)) == hw,
{
    let zero = Double::from_bits(ZERO);
    let one = Double::from_bits(ONE);
    let e = crate::measure::epsilon();
    let span = crate::backlight::span(dev.min_allowed_raw, dev.max_allowed_raw);
    crate::measure::lemma_constants();
    crate::measure::lemma_small();
    lemma_span(dev, low, high);
    let n = hw - low;
    crate::measure::lemma_of_int(hw as int);
    crate::measure::lemma_of_int(n);
    crate::measure::lemma_exact_difference(Double::of_int(hw as int), dev.min_allowed_raw, Double::of_int(n));
    let above = Double::of_int(hw as int).minus(dev.min_allowed_raw);
    let s = crate::measure::value(span);
    let x = n as real;
    let q = x / s;
    assert(0 as real <= q <= 1 as real && q * s == x) by (nonlinear_arith)
        requires
            0 as real <= x <= s,
            s >= 1 as real,
            q == x / s,
    ;
    crate::measure::lemma_over(above, span);
    assert(0 as real * s == 0 as real) by (nonlinear_arith);
    assert(1 as real * s == s) by (nonlinear_arith);
    crate::measure::lemma_over_at_least(above, span, zero);
    crate::measure::lemma_over_at_most(above, span, one);
    let f = above.over(span);
    crate::measure::lemma_value_order(zero, f);
    crate::measure::lemma_value_order(f, one);
    assert(dev.fraction_of(hw) == f);
    lemma_unheld(dev, low, high, f);
    let y = crate::measure::value(f);
    crate::measure::lemma_part_of_error(e, q, 1 as real);
    assert(crate::measure::abs(y - q) <= 2 as real * e);
    let ys = y * s;
    assert(crate::measure::abs(ys - x) <= 1 as real / 32 as real) by (nonlinear_arith)
        requires
            0 as real - 2 as real * e <= y - q <= 2 as real * e,
            q * s == x,
            1 as real <= s <= 0x1000_0000_0000 as real,
            ys == y * s,
            e == 1 as real / 0x10_0000_0000_0000 as real,
            crate::measure::abs(ys - x) == (if ys - x < 0 as real { 0 as real - (ys - x) } else { ys - x }),
    {
        assert(ys - x == (y - q) * s);
        assert((y - q) * s <= (2 as real * e) * s);
        assert((y - q) * s >= (0 as real - 2 as real * e) * s);
        assert((2 as real * e) * s <= (2 as real * e) * 0x1000_0000_0000 as real);
    }
    crate::measure::lemma_times(f, span);
    crate::measure::lemma_part_of_error(e, ys, 0x2000_0000_0000 as real);
    let part = crate::measure::value(f.times(span));
    assert(crate::measure::abs(part - ys) <= 1 as real / 32 as real);
    crate::measure::lemma_plus(dev.min_allowed_raw, f.times(span));
    crate::measure::lemma_part_of_error(e, low as real + part, 0x4000_0000_0000 as real);
    let v = crate::measure::value(unheld(dev, f));
    assert(crate::measure::abs(v - (low as real + part)) <= 1 as real / 32 as real);
    assert(hw as real == low as real + x);
    let w = crate::measure::lemma_rounded(unheld(dev, f));
    assert((w as real) < (hw + 1) as real);
    assert(w as real > (hw - 1) as real);
}

/// A raw value in percent lies between 0 and 100.
pub proof fn law_percent_is_one(dev: &BacklightDevice, hw: i64)
    requires
        !dev.hw_max_brightness.is_nan(),
    ensures
        Double::from_bits(ZERO).at_most(dev.percent_of(hw)),
        dev.percent_of(hw).at_most(Double::from_bits(HUNDRED)),
{
    let hundred = Double::from_bits(HUNDRED);
    if Double::from_bits(ZERO).less(dev.hw_max_brightness) {
        let n: int = if hw < 0 {
            0
        } else {
            hw as int
        };
        crate::measure::lemma_of_int_finite(n);
        let a = Double::of_int(n);
        let m = dev.hw_max_brightness;
        reveal(Double::spec_over);
        reveal(Double::spec_times);
        reveal(Double::spec_rounded);
        crate::double::lemma_units_order(m.magnitude(), 0);
        crate::double::lemma_round_ratio(
            crate::double::units(a.magnitude()) * crate::double::one_in_units(),
            crate::double::units(m.magnitude()),
        );
        let q = a.over(m);
        vstd::arithmetic::power2::lemma_pow2_pos(1074);
        crate::double::lemma_round_ratio(
            crate::double::units(q.magnitude()) * crate::double::units(hundred.magnitude()),
            crate::double::one_in_units(),
        );
        let p = q.times(hundred);
        crate::double::lemma_round_ratio(
            crate::double::nearest_whole(p.magnitude()) * crate::double::one_in_units(),
            1,
        );
    }
}

/// What is written for a raw value in the allowed range is that value.
pub proof fn law_allowed_value_is_written(dev: &BacklightDevice, low: int, high: int, val: u32)
    requires
        ranges(dev, low, high),
    ensures
        ({
            let out = dev.written_for(val);
            &&& low <= val <= high ==> out == val
            &&& val < low && low <= u32::MAX ==> out == low
            &&& val > high ==> out == high
        }),
{
    crate::measure::lemma_of_int(val as int);
    let d = Double::of_int(val as int);
    crate::measure::lemma_value_order(d, dev.min_allowed_raw);
    crate::measure::lemma_value_order(dev.max_allowed_raw, d);
    let c = d.clamp(dev.min_allowed_raw, dev.max_allowed_raw);
    let n: int = if val < low {
        low
    } else if val > high {
        high
    } else {
        val as int
    };
    assert(crate::measure::value(c) == n as real);
    let w = crate::measure::lemma_rounded(c);
    assert(crate::measure::whole(n) == n as real);
    crate::measure::lemma_whole_part(c.rounded(), n);
}

/// The range that percentages of a controller's raw range allow is one of whole numbers, from one on,
/// and not empty where the upper percentage is one raw value at least.
pub proof fn law_percentages_give_a_range(dev: &BacklightDevice, hw_max: int, min_percent: Double, max_percent: Double)
    requires
        1 <= hw_max <= greatest_raw(),
        dev.hw_max_brightness == Double::of_int(hw_max),
        dev.min_allowed_raw == crate::backlight::lowest_raw(dev.hw_max_brightness, min_percent),
        dev.max_allowed_raw == crate::backlight::highest_raw(dev.hw_max_brightness, max_percent),
        Double::from_bits(ZERO).at_most(min_percent),
        min_percent.at_most(max_percent),
        max_percent.at_most(Double::from_bits(HUNDRED)),
        Double::from_bits(ONE).at_most(dev.max_allowed_raw),
    ensures
        exists|low: int, high: int| 1 <= low && high <= hw_max && #[trigger] ranges(dev, low, high),
{
    let m = dev.hw_max_brightness;
    let hundred = Double::from_bits(HUNDRED);
    let zero = Double::from_bits(ZERO);
    let one = Double::from_bits(ONE);
    crate::measure::lemma_constants();
    crate::measure::lemma_of_int(hw_max);
    let a = lemma_percentage(m, hw_max, min_percent);
    let b = lemma_percentage(m, hw_max, max_percent);
    crate::measure::lemma_over_order(min_percent, max_percent, hundred);
    let p = min_percent.over(hundred);
    let q = max_percent.over(hundred);
    crate::measure::lemma_times_order(p, q, m);
    crate::measure::lemma_rounded_order(m.times(p), m.times(q));
    crate::measure::lemma_value_order(m.times(p).rounded(), m.times(q).rounded());
    crate::measure::lemma_value_order(m.times(p).rounded(), one);
    crate::measure::lemma_value_order(m, m.times(q).rounded());
    crate::measure::lemma_value_order(one, dev.max_allowed_raw);
    let low: int = if a < 1 {
        1
    } else {
        a
    };
    let high: int = b;
    assert(ranges(dev, low, high));
}

/// A percentage of a raw range, rounded, is a whole number in that range.
pub proof fn lemma_percentage(m: Double, hw_max: int, percent: Double) -> (w: int)
    requires
        1 <= hw_max <= greatest_raw(),
        m == Double::of_int(hw_max),
        Double::from_bits(ZERO).at_most(percent),
        percent.at_most(Double::from_bits(HUNDRED)),
    ensures
        0 <= w <= hw_max,
        percent.finite(),
        percent.over(Double::from_bits(HUNDRED)).finite(),
        m.times(percent.over(Double::from_bits(HUNDRED))).finite(),
        m.times(percent.over(Double::from_bits(HUNDRED))).rounded().finite(),
        crate::measure::value(m.times(percent.over(Double::from_bits(HUNDRED))).rounded()) == w as real,
{
    let hundred = Double::from_bits(HUNDRED);
    let zero = Double::from_bits(ZERO);
    let one = Double::from_bits(ONE);
    crate::measure::lemma_constants();
    crate::measure::lemma_of_int(hw_max);
    crate::measure::lemma_value_order(zero, percent);
    crate::measure::lemma_value_order(percent, hundred);
    crate::measure::lemma_over_at_least(percent, hundred, zero);
    crate::measure::lemma_over_at_most(percent, hundred, one);
    let p = percent.over(hundred);
    crate::measure::lemma_value_order(zero, p);
    crate::measure::lemma_value_order(p, one);
    let x = crate::measure::value(p);
    let v = hw_max as real;
    assert(0 as real <= v * x <= v) by (nonlinear_arith)
        requires
            0 as real <= x <= 1 as real,
            v >= 0 as real,
    ;
    crate::measure::lemma_times_at_least(m, p, zero);
    crate::measure::lemma_times_at_most(m, p, m);
    crate::measure::lemma_value_order(zero, m.times(p));
    crate::measure::lemma_value_order(m.times(p), m);
    let w = crate::measure::lemma_rounded(m.times(p));
    assert(crate::measure::whole(0) == 0 as real);
    assert(crate::measure::whole(hw_max) == hw_max as real);
    w
}

/// A raw value is sent where logind takes it or the file does, and fails where neither does; the file is
/// written only where logind did not take it.
pub proof fn law_sending_falls_back(has_bus: bool, by_logind: bool, by_file: bool)
    ensures
        ({
            let first = crate::backlight::first_sending(has_bus);
            let then = if has_bus {
                crate::backlight::next_sending(first, by_logind)
            } else {
                first
            };
            &&& has_bus && by_logind ==> then == Sending::Sent
            &&& !(has_bus && by_logind) ==> then == Sending::File
            &&& then == Sending::File ==> crate::backlight::next_sending(then, by_file) == (if by_file {
                Sending::Sent
            } else {
                Sending::Failed
            })
        }),
{
}

} // verus!
