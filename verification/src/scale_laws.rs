//! The scales of the backlight in real numbers: raw values, levels and percentages are proportional.

use vstd::prelude::*;
use crate::backlight::{BacklightDevice, Candidate};
use crate::double::Double;
use crate::double::{HUNDRED, ONE, ZERO};

verus! {

// ---------------------------------------------------------------------------
// Raw values and levels
// ---------------------------------------------------------------------------

/// The raw value of a level is the one as far into the allowed range as the level is between zero and one,
/// to the nearest. Levels beyond these have the ends of the range.
pub proof fn law_raw_value_is_proportional(dev: &BacklightDevice, low: int, high: int, level: Double)
    requires
        crate::backlight_laws::ranges(dev, low, high),
        low < high,
        level.finite(),
    ensures
        ({
            let v = crate::measure::value(level);
            let raw = dev.raw_for(level);
            &&& v <= 0 as real ==> raw == low
            &&& v >= 1 as real ==> raw == high
            &&& 0 as real <= v <= 1 as real ==> crate::measure::abs(
                raw as real - (low as real + v * ((high - low) as real)),
            ) <= 17 as real / 32 as real
        }),
{
    let zero = Double::from_bits(ZERO);
    let one = Double::from_bits(ONE);
    let e = crate::measure::epsilon();
    let span = crate::backlight::span(dev.min_allowed_raw, dev.max_allowed_raw);
    crate::measure::lemma_constants();
    crate::measure::lemma_small();
    crate::backlight_laws::lemma_span(dev, low, high);
    crate::backlight_laws::lemma_unheld(dev, low, high, level);
    crate::measure::lemma_value_order(level, zero);
    crate::measure::lemma_value_order(level, one);
    crate::measure::lemma_value_order(one, level);
    let v = crate::measure::value(level);
    let c = level.clamp(zero, one);
    let x = crate::measure::value(c);
    assert(v <= 0 as real ==> x == 0 as real);
    assert(v >= 1 as real ==> x == 1 as real);
    assert(0 as real <= v <= 1 as real ==> x == v);
    let s = (high - low) as real;
    let xs = x * s;
    assert(0 as real <= xs <= s) by {
        crate::algebra::lemma_nonnegative_product(x, s);
        crate::algebra::lemma_scaled_up(x, 1 as real, s);
        crate::algebra::lemma_swap(x, s);
    }
    crate::measure::lemma_times(c, span);
    crate::measure::lemma_part_of_error(e, xs, 0x1000_0000_0000 as real);
    let part = crate::measure::value(c.times(span));
    crate::measure::lemma_plus(dev.min_allowed_raw, c.times(span));
    crate::measure::lemma_part_of_error(e, low as real + part, 0x4000_0000_0000 as real);
    let sum = crate::backlight_laws::unheld(dev, level);
    let w = crate::measure::lemma_rounded(sum);
    assert(crate::measure::abs(crate::measure::value(sum) - (low as real + xs)) <= 1 as real / 32 as real);
    let raw = dev.raw_for(level);
    assert(raw == (if w < low {
        low
    } else if w > high {
        high
    } else {
        w
    }));
    assert(low as real <= low as real + xs <= high as real);
    assert(crate::measure::abs(raw as real - (low as real + xs)) <= 17 as real / 32 as real);
    if v <= 0 as real {
        assert(xs == 0 as real) by {
            assert(0 as real * s == 0 as real);
        }
        assert((raw - low) as real <= 17 as real / 32 as real);
    }
    if v >= 1 as real {
        assert(xs == s) by {
            assert(1 as real * s == s);
        }
        assert((high - raw) as real <= 17 as real / 32 as real);
    }
}

/// The level of a raw value is the part of the allowed range that lies below it. Raw values beyond the range
/// have the levels of its ends.
pub proof fn law_level_is_proportional(dev: &BacklightDevice, low: int, high: int, hw: i64)
    requires
        crate::backlight_laws::ranges(dev, low, high),
        low < high,
        -0x1000_0000_0000 <= hw <= 0x1000_0000_0000,
    ensures
        ({
            let v = crate::measure::value(dev.fraction_of(hw));
            &&& dev.fraction_of(hw).finite()
            &&& 0 as real <= v <= 1 as real
            &&& hw <= low ==> v == 0 as real
            &&& hw >= high ==> v == 1 as real
            &&& low <= hw <= high ==> crate::measure::abs(v * ((high - low) as real) - (hw - low) as real) <= 2 as real
                * crate::measure::epsilon() * ((high - low) as real)
        }),
{
    let zero = Double::from_bits(ZERO);
    let one = Double::from_bits(ONE);
    let e = crate::measure::epsilon();
    let span = crate::backlight::span(dev.min_allowed_raw, dev.max_allowed_raw);
    crate::measure::lemma_constants();
    crate::measure::lemma_small();
    crate::backlight_laws::lemma_span(dev, low, high);
    let n = hw - low;
    crate::measure::lemma_of_int(hw as int);
    crate::measure::lemma_of_int(n);
    crate::measure::lemma_exact_difference(Double::of_int(hw as int), dev.min_allowed_raw, Double::of_int(n));
    let above = Double::of_int(hw as int).minus(dev.min_allowed_raw);
    let s = crate::measure::value(span);
    let x = n as real;
    assert(0 as real * s == 0 as real && 1 as real * s == s);
    let f = above.over(span);
    let q = x / s;
    assert(q * s == x && crate::measure::abs(q) <= 0x4000_0000_0000 as real) by (nonlinear_arith)
        requires
            0 as real - 0x4000_0000_0000 as real <= x <= 0x4000_0000_0000 as real,
            s >= 1 as real,
            q == x / s,
            crate::measure::abs(q) == (if q < 0 as real { 0 as real - q } else { q }),
    ;
    crate::measure::lemma_over(above, span);
    if n <= 0 {
        crate::measure::lemma_over_at_most(above, span, zero);
    }
    if n >= 0 {
        crate::measure::lemma_over_at_least(above, span, zero);
    }
    if hw >= high {
        crate::measure::lemma_over_at_least(above, span, one);
    }
    if hw <= high {
        crate::measure::lemma_over_at_most(above, span, one);
    }
    crate::measure::lemma_value_order(f, zero);
    crate::measure::lemma_value_order(zero, f);
    crate::measure::lemma_value_order(f, one);
    crate::measure::lemma_value_order(one, f);
    let v = crate::measure::value(dev.fraction_of(hw));
    if low <= hw <= high {
        assert(0 as real <= q <= 1 as real) by (nonlinear_arith)
            requires
                0 as real <= q * s <= s,
                s >= 1 as real,
        ;
        crate::measure::lemma_part_of_error(e, q, 1 as real);
        assert(v == crate::measure::value(f));
        let d = v - q;
        crate::algebra::lemma_scaled(d, s, 2 as real * e);
        crate::algebra::lemma_distribute(v, q, s);
    }
}

// ---------------------------------------------------------------------------
// Percentages
// ---------------------------------------------------------------------------

/// A part of a whole in percent, computed and rounded.
proof fn lemma_percent(n: int, m: int)
    requires
        0 <= n <= m <= 0x1000_0000_0000,
        1 <= m,
    ensures
        ({
            let p = Double::of_int(n).over(Double::of_int(m)).times(Double::from_bits(HUNDRED));
            &&& p.finite()
            &&& p.rounded().finite()
            &&& 0 as real <= crate::measure::value(p.rounded()) <= 100 as real
            &&& crate::measure::abs(crate::measure::value(p.rounded()) - 100 as real * (n as real) / (m as real))
                <= 1 as real / 2 as real + 1 as real / 1024 as real
        }),
{
    let hundred = Double::from_bits(HUNDRED);
    let zero = Double::from_bits(ZERO);
    let one = Double::from_bits(ONE);
    let e = crate::measure::epsilon();
    crate::measure::lemma_constants();
    crate::measure::lemma_small();
    crate::measure::lemma_of_int(n);
    crate::measure::lemma_of_int(m);
    let a = Double::of_int(n);
    let b = Double::of_int(m);
    crate::measure::lemma_positive(b);
    let x = n as real;
    let y = m as real;
    let q = x / y;
    assert(0 as real <= q <= 1 as real && q * y == x) by (nonlinear_arith)
        requires
            0 as real <= x <= y,
            y >= 1 as real,
            q == x / y,
    ;
    assert(100 as real * q == 100 as real * x / y) by (nonlinear_arith)
        requires
            q == x / y,
            y >= 1 as real,
    ;
    assert(0 as real * y == 0 as real && 1 as real * y == y);
    crate::measure::lemma_over(a, b);
    crate::measure::lemma_part_of_error(e, q, 1 as real);
    crate::measure::lemma_over_at_least(a, b, zero);
    crate::measure::lemma_over_at_most(a, b, one);
    let f = a.over(b);
    crate::measure::lemma_value_order(zero, f);
    crate::measure::lemma_value_order(f, one);
    let v = crate::measure::value(f);
    crate::algebra::lemma_swap(v, 100 as real);
    crate::measure::lemma_times(f, hundred);
    crate::measure::lemma_part_of_error(e, v * 100 as real, 100 as real);
    crate::measure::lemma_times_at_least(f, hundred, zero);
    crate::measure::lemma_times_at_most(f, hundred, hundred);
    let p = f.times(hundred);
    crate::measure::lemma_value_order(zero, p);
    crate::measure::lemma_value_order(p, hundred);
    let w = crate::measure::lemma_rounded(p);
    assert(crate::measure::whole(0) == 0 as real);
    assert(crate::measure::whole(100) == 100 as real);
}

/// A raw value in percent is the nearest whole percentage of the controller's range.
pub proof fn law_percent_is_proportional(dev: &BacklightDevice, hw: i64, m: int)
    requires
        1 <= m <= 0x1000_0000_0000,
        dev.hw_max_brightness == Double::of_int(m),
        hw <= m,
    ensures
        ({
            let n = if hw < 0 {
                0int
            } else {
                hw as int
            };
            crate::measure::abs(
                crate::measure::value(dev.percent_of(hw)) - 100 as real * (n as real) / (m as real),
            ) <= 1 as real / 2 as real + 1 as real / 1024 as real
        }),
{
    let n: int = if hw < 0 {
        0
    } else {
        hw as int
    };
    let zero = Double::from_bits(ZERO);
    let hundred = Double::from_bits(HUNDRED);
    crate::measure::lemma_constants();
    crate::measure::lemma_of_int(m);
    crate::measure::lemma_value_order(zero, dev.hw_max_brightness);
    lemma_percent(n, m);
    let p = Double::of_int(n).over(Double::of_int(m)).times(hundred).rounded();
    crate::measure::lemma_value_order(p, zero);
    crate::measure::lemma_value_order(p, hundred);
    crate::measure::lemma_value_order(hundred, p);
}

/// The brightness in the status is the nearest whole percentage of the controller's range.
pub proof fn law_status_percent_is_proportional(hw: i64, m: int)
    requires
        0 <= hw <= m <= 0x1000_0000_0000,
        1 <= m,
    ensures
        crate::measure::abs(
            crate::measure::value(crate::engine::current_percent(hw, Double::of_int(m))) - 100 as real * (hw as real) / (
            m as real),
        ) <= 1 as real / 2 as real + 1 as real / 1024 as real,
{
    crate::measure::lemma_constants();
    crate::measure::lemma_of_int(m);
    crate::measure::lemma_value_order(Double::from_bits(ZERO), Double::of_int(m));
    lemma_percent(hw as int, m);
}

/// A percentage of a raw range, computed and rounded.
proof fn lemma_share_of_range(m: int, percent: Double)
    requires
        1 <= m <= 0x1000_0000_0000,
        Double::from_bits(ZERO).at_most(percent),
        percent.at_most(Double::from_bits(HUNDRED)),
    ensures
        ({
            let r = Double::of_int(m).times(percent.over(Double::from_bits(HUNDRED))).rounded();
            let exact = (m as real) * crate::measure::value(percent) / 100 as real;
            &&& r.finite()
            &&& 0 as real <= exact <= m as real
            &&& crate::measure::abs(crate::measure::value(r) - exact) <= 17 as real / 32 as real
            &&& exists|w: int| #[trigger] crate::measure::whole(w) == crate::measure::value(r) && 0 <= w <= m
        }),
{
    let hundred = Double::from_bits(HUNDRED);
    let zero = Double::from_bits(ZERO);
    let one = Double::from_bits(ONE);
    let e = crate::measure::epsilon();
    crate::measure::lemma_constants();
    crate::measure::lemma_small();
    crate::measure::lemma_of_int(m);
    let b = Double::of_int(m);
    let w = crate::backlight_laws::lemma_percentage(b, m, percent);
    crate::measure::lemma_value_order(zero, percent);
    crate::measure::lemma_value_order(percent, hundred);
    crate::measure::lemma_value_order(zero, percent.over(hundred));
    let x = crate::measure::value(percent);
    let y = m as real;
    let q = x / 100 as real;
    crate::measure::lemma_over(percent, hundred);
    crate::measure::lemma_part_of_error(e, q, 1 as real);
    let f = percent.over(hundred);
    let v = crate::measure::value(f);
    let exact = y * x / 100 as real;
    assert(exact == y * q) by (nonlinear_arith)
        requires
            exact == y * x / 100 as real,
            q == x / 100 as real,
    ;
    crate::algebra::lemma_nonnegative_product(y, q);
    crate::algebra::lemma_scaled_up(q, 1 as real, y);
    let d = v - q;
    crate::algebra::lemma_scaled(d, y, 2 as real * e);
    crate::algebra::lemma_distribute(v, q, y);
    crate::algebra::lemma_swap(v, y);
    crate::algebra::lemma_swap(q, y);
    let p = y * v;
    assert(crate::measure::abs(p - exact) <= 1 as real / 64 as real);
    crate::measure::lemma_times(b, f);
    crate::measure::lemma_part_of_error(e, p, 0x2000_0000_0000 as real);
    let t = b.times(f);
    assert(crate::measure::abs(crate::measure::value(t) - exact) <= 1 as real / 32 as real);
    let k = crate::measure::lemma_rounded(t);
    assert(crate::measure::whole(w) == w as real);
    assert(crate::measure::abs(crate::measure::value(t.rounded()) - exact) <= 17 as real / 32 as real);
}

/// The lowest raw value is the percentage of the range that is asked for, to the nearest, but one where that is
/// less.
pub proof fn law_lowest_raw_is_the_percentage(m: int, percent: Double)
    requires
        1 <= m <= 0x1000_0000_0000,
        Double::from_bits(ZERO).at_most(percent),
        percent.at_most(Double::from_bits(HUNDRED)),
    ensures
        ({
            let v = crate::measure::value(crate::backlight::lowest_raw(Double::of_int(m), percent));
            let exact = (m as real) * crate::measure::value(percent) / 100 as real;
            &&& exact < 1 as real ==> v == 1 as real
            &&& exact >= 1 as real ==> crate::measure::abs(v - exact) <= 17 as real / 32 as real
        }),
{
    lemma_share_of_range(m, percent);
    let one = Double::from_bits(ONE);
    let r = Double::of_int(m).times(percent.over(Double::from_bits(HUNDRED))).rounded();
    crate::measure::lemma_constants();
    let w = choose|w: int| #[trigger] crate::measure::whole(w) == crate::measure::value(r) && 0 <= w <= m;
    assert(w as real == crate::measure::value(r));
    crate::measure::lemma_value_order(r, one);
    crate::measure::lemma_value_order(one, r);
}

/// The highest raw value is the percentage of the range that is asked for, to the nearest.
pub proof fn law_highest_raw_is_the_percentage(m: int, percent: Double)
    requires
        1 <= m <= 0x1000_0000_0000,
        Double::from_bits(ZERO).at_most(percent),
        percent.at_most(Double::from_bits(HUNDRED)),
    ensures
        crate::measure::abs(
            crate::measure::value(crate::backlight::highest_raw(Double::of_int(m), percent)) - (m as real)
                * crate::measure::value(percent) / 100 as real,
        ) <= 17 as real / 32 as real,
{
    lemma_share_of_range(m, percent);
    let r = Double::of_int(m).times(percent.over(Double::from_bits(HUNDRED))).rounded();
    crate::measure::lemma_of_int(m);
    crate::measure::lemma_value_order(Double::of_int(m), r);
    crate::measure::lemma_value_order(r, Double::of_int(m));
}

// ---------------------------------------------------------------------------
// The choice of a controller
// ---------------------------------------------------------------------------

/// The controller that is asked for by name is taken, where it is usable; nothing else about it counts.
pub proof fn law_preferred_controller_is_taken(candidates: Seq<Candidate>, wanted: Seq<char>, i: int, j: int)
    requires
        crate::backlight::chosen(candidates, Some(wanted), i),
        0 <= j < candidates.len(),
        candidates[j].max_brightness matches Some(n) && n > 0,
        candidates[j].name@ == wanted,
    ensures
        candidates[i].name@ == wanted,
        candidates[i].max_brightness matches Some(n) && n > 0,
        i <= j,
{
    assert(candidates[j].usable());
    assert(candidates[j].rating(Some(wanted)) <= candidates[i].rating(Some(wanted)));
}

/// The controller belongs to a graphics processor.
pub open spec fn is_native(c: Candidate) -> bool {
    ||| crate::text::trimmed(c.kind@) == "raw"@
    ||| crate::text::holds(c.name@, "intel"@)
    ||| crate::text::holds(c.name@, "amdgpu"@)
    ||| crate::text::holds(c.name@, "nvidia"@)
}

/// Without a name, a controller of a graphics processor is taken where there is a usable one, else one of the
/// platform; of several the first.
pub proof fn law_native_controllers_come_first(candidates: Seq<Candidate>, i: int, j: int)
    requires
        crate::backlight::chosen(candidates, None, i),
        0 <= j < candidates.len(),
        candidates[j].max_brightness matches Some(n) && n > 0,
    ensures
        candidates[i].max_brightness matches Some(n) && n > 0,
        is_native(candidates[j]) ==> is_native(candidates[i]),
        crate::text::trimmed(candidates[j].kind@) == "platform"@ ==> is_native(candidates[i]) || crate::text::trimmed(
            candidates[i].kind@,
        ) == "platform"@,
        is_native(candidates[j]) == is_native(candidates[i]) && (crate::text::trimmed(candidates[j].kind@)
            == "platform"@) == (crate::text::trimmed(candidates[i].kind@) == "platform"@) ==> i <= j,
{
    assert(candidates[j].usable());
    assert(candidates[j].rating(None) <= candidates[i].rating(None));
}

} // verus!
