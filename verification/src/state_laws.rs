//! What a load gives back of a save.

use vstd::prelude::*;
use crate::curve::Point;
use crate::double::Double;
use crate::state::{LoadPlan, Reading};

verus! {

/// A text without white space that is not empty.
pub open spec fn is_word(s: Seq<char>) -> bool {
    &&& s.len() > 0
    &&& forall|i: int| 0 <= i < s.len() ==> !crate::text::white(#[trigger] s[i])
}

/// Texts that can be told apart in the file: words, of which the first does not start a comment.
pub open spec fn writable(lux: Seq<Seq<char>>, y: Seq<Seq<char>>) -> bool {
    &&& lux.len() == y.len()
    &&& forall|i: int| 0 <= i < lux.len() ==> is_word(#[trigger] lux[i]) && lux[i][0] != '#'
    &&& forall|i: int| 0 <= i < y.len() ==> is_word(#[trigger] y[i])
}

/// The records of the pairs of two sequences of texts.
pub open spec fn paired(lux: Seq<Seq<char>>, y: Seq<Seq<char>>) -> Seq<crate::state::Record> {
    Seq::new(lux.len(), |i: int| crate::state::Record::Pair(lux[i], y[i]))
}

pub proof fn lemma_length_to(a: Seq<char>, stop: char, rest: Seq<char>)
    requires
        forall|i: int| 0 <= i < a.len() ==> #[trigger] a[i] != stop,
    ensures
        crate::text::length_to(a + seq![stop] + rest, stop) == a.len(),
    decreases a.len(),
{
    let s = a + seq![stop] + rest;
    if a.len() > 0 {
        assert(s[0] == a[0]);
        let b = a.drop_first();
        assert(s.drop_first() =~= b + seq![stop] + rest);
        assert forall|i: int| 0 <= i < b.len() implies #[trigger] b[i] != stop by {
            assert(b[i] == a[i + 1]);
        }
        lemma_length_to(b, stop, rest);
    } else {
        assert(s[0] == stop);
    }
}

/// A line and what follows it.
pub proof fn lemma_line(a: Seq<char>, rest: Seq<char>)
    requires
        forall|i: int| 0 <= i < a.len() ==> #[trigger] a[i] != '\n',
    ensures
        crate::text::lines(a + seq!['\n'] + rest) == seq![a] + crate::text::lines(rest),
{
    let s = a + seq!['\n'] + rest;
    lemma_length_to(a, '\n', rest);
    assert(s.take(a.len() as int) =~= a);
    assert(s.skip(a.len() as int + 1) =~= rest);
}

pub proof fn lemma_word_length(a: Seq<char>, rest: Seq<char>)
    requires
        forall|i: int| 0 <= i < a.len() ==> !crate::text::white(#[trigger] a[i]),
        rest.len() == 0 || crate::text::white(rest[0]),
    ensures
        crate::text::word_length(a + rest) == a.len(),
    decreases a.len(),
{
    let s = a + rest;
    if a.len() > 0 {
        assert(s[0] == a[0]);
        let b = a.drop_first();
        assert(s.drop_first() =~= b + rest);
        assert forall|i: int| 0 <= i < b.len() implies !crate::text::white(#[trigger] b[i]) by {
            assert(b[i] == a[i + 1]);
        }
        lemma_word_length(b, rest);
    } else {
        assert(s =~= rest);
    }
}

/// Two words with a space between them.
proof fn lemma_two_words(p: Seq<char>, q: Seq<char>)
    requires
        is_word(p),
        is_word(q),
    ensures
        crate::text::words(p + seq![' '] + q) == seq![p, q],
{
    reveal_with_fuel(crate::text::words, 2);
    let s = p + seq![' '] + q;
    let tail = seq![' '] + q;
    assert(s =~= p + tail);
    assert(s[0] == p[0]);
    lemma_word_length(p, tail);
    assert(s.take(p.len() as int) =~= p);
    assert(s.skip(p.len() as int) =~= tail);
    assert(tail.drop_first() =~= q);
    assert(tail[0] == ' ');
    assert(q + Seq::<char>::empty() =~= q);
    lemma_word_length(q, Seq::empty());
    assert(q.take(q.len() as int) =~= q);
    assert(q.skip(q.len() as int) =~= Seq::<char>::empty());
    assert(crate::text::words(q) =~= seq![q]);
    assert(crate::text::words(tail) == crate::text::words(q));
    assert(crate::text::words(s) =~= seq![p] + crate::text::words(tail));
    assert(seq![p] + seq![q] =~= seq![p, q]);
}

/// The lines for pairs of texts are read as those pairs.
proof fn lemma_lines_read_back(lux: Seq<Seq<char>>, y: Seq<Seq<char>>)
    requires
        writable(lux, y),
    ensures
        crate::state::records_of(crate::text::lines(crate::state::state_lines(lux, y))) == paired(lux, y),
    decreases lux.len(),
{
    let text = crate::state::state_lines(lux, y);
    if lux.len() == 0 {
        let all = crate::text::lines(text);
        assert(all =~= seq![Seq::<char>::empty()]);
        assert(all.drop_first() =~= Seq::<Seq<char>>::empty());
        assert(crate::state::record_of(all[0]) is None);
        assert(crate::state::records_of(all.drop_first()) =~= Seq::<crate::state::Record>::empty());
        assert(paired(lux, y) =~= Seq::<crate::state::Record>::empty());
    } else {
        let more_lux = lux.drop_first();
        let more_y = y.drop_first();
        assert(writable(more_lux, more_y)) by {
            assert forall|i: int| 0 <= i < more_lux.len() implies is_word(#[trigger] more_lux[i]) && more_lux[i][0] != '#' by {
                assert(more_lux[i] == lux[i + 1]);
            }
            assert forall|i: int| 0 <= i < more_y.len() implies is_word(#[trigger] more_y[i]) by {
                assert(more_y[i] == y[i + 1]);
            }
        }
        lemma_lines_read_back(more_lux, more_y);
        let rest = crate::state::state_lines(more_lux, more_y);
        let line = lux[0] + seq![' '] + y[0];
        assert(text =~= line + seq!['\n'] + rest);
        assert forall|i: int| 0 <= i < line.len() implies #[trigger] line[i] != '\n' by {
            if i < lux[0].len() {
                assert(line[i] == lux[0][i]);
            } else if i > lux[0].len() {
                assert(line[i] == y[0][i - lux[0].len() - 1]);
            }
        }
        lemma_line(line, rest);
        lemma_two_words(lux[0], y[0]);
        let all = crate::text::lines(text);
        assert(all[0] == line);
        assert(all.drop_first() =~= crate::text::lines(rest));
        assert(crate::state::record_of(line) == Some(crate::state::Record::Pair(lux[0], y[0])));
        assert(paired(lux, y) =~= seq![crate::state::Record::Pair(lux[0], y[0])] + paired(more_lux, more_y));
    }
}

/// The first line of the file is a comment.
proof fn lemma_header()
    ensures
        ({
            let h = crate::state::header();
            let a = h.drop_last();
            &&& h.len() > 1
            &&& h == a + seq!['\n']
            &&& a[0] == '#'
            &&& forall|i: int| 0 <= i < a.len() ==> #[trigger] a[i] != '\n'
        }),
{
    reveal_strlit("# kirialsd calibrated curve: <lux> <brightness_fraction (0.01-1.00)>\n");
    let h = crate::state::header();
    assert(h =~= h.drop_last() + seq!['\n']);
}

/// A saved file is read as the pairs that were saved.
pub proof fn law_saved_file_reads_back(lux: Seq<Seq<char>>, y: Seq<Seq<char>>)
    requires
        writable(lux, y),
    ensures
        crate::state::records_of(
            crate::text::lines(crate::state::header() + crate::state::state_lines(lux, y)),
        ) == paired(lux, y),
{
    lemma_header();
    lemma_lines_read_back(lux, y);
    let h = crate::state::header();
    let a = h.drop_last();
    let rest = crate::state::state_lines(lux, y);
    lemma_line(a, rest);
    assert(h + rest =~= a + seq!['\n'] + rest);
    let all = crate::text::lines(h + rest);
    assert(all[0] == a);
    assert(all.drop_first() =~= crate::text::lines(rest));
    assert(crate::state::record_of(a) is None) by {
        lemma_first_word(a);
    }
}

/// The first word of a text that does not start with white space starts as the text does.
pub proof fn lemma_first_word(s: Seq<char>)
    requires
        s.len() > 0,
        !crate::text::white(s[0]),
    ensures
        crate::text::words(s).len() > 0,
        crate::text::words(s)[0].len() > 0,
        crate::text::words(s)[0][0] == s[0],
{
    lemma_word_length_positive(s);
    let n = crate::text::word_length(s) as int;
    assert(crate::text::words(s)[0] =~= s.take(n));
}

proof fn lemma_word_length_positive(s: Seq<char>)
    ensures
        crate::text::word_length(s) <= s.len(),
        s.len() > 0 && !crate::text::white(s[0]) ==> crate::text::word_length(s) > 0,
    decreases s.len(),
{
    if s.len() > 0 {
        lemma_word_length_positive(s.drop_first());
    }
}

/// The readings of pairs of numbers.
pub open spec fn readings_of(lux: Seq<Double>, y: Seq<Double>) -> Seq<Reading> {
    Seq::new(lux.len(), |i: int| Reading::Pair(Some(lux[i]), Some(y[i])))
}

proof fn lemma_pairs(lux: Seq<Double>, y: Seq<Double>)
    requires
        lux.len() == y.len(),
        forall|i: int| 0 <= i < lux.len() ==> !(#[trigger] lux[i]).is_nan(),
        forall|i: int| 0 <= i < y.len() ==> !(#[trigger] y[i]).is_nan(),
    ensures
        ({
            let pairs = crate::state::pairs_of(readings_of(lux, y));
            &&& pairs.len() == lux.len()
            &&& forall|i: int|
                0 <= i < lux.len() ==> #[trigger] pairs[i] == (
                    lux[i].greater_of(Double::from_bits(crate::double::ZERO)),
                    crate::curve::held(y[i]),
                )
        }),
    decreases lux.len(),
{
    let all = readings_of(lux, y);
    if lux.len() > 0 {
        let n = lux.len() - 1;
        assert(all.drop_last() =~= readings_of(lux.drop_last(), y.drop_last()));
        assert forall|i: int| 0 <= i < n implies !(#[trigger] lux.drop_last()[i]).is_nan() by {
            assert(lux.drop_last()[i] == lux[i]);
        }
        assert forall|i: int| 0 <= i < n implies !(#[trigger] y.drop_last()[i]).is_nan() by {
            assert(y.drop_last()[i] == y[i]);
        }
        lemma_pairs(lux.drop_last(), y.drop_last());
        assert(all.last() == Reading::Pair(Some(lux[n]), Some(y[n])));
        let pairs = crate::state::pairs_of(all);
        let before = crate::state::pairs_of(all.drop_last());
        assert forall|i: int| 0 <= i < lux.len() implies #[trigger] pairs[i] == (
            lux[i].greater_of(Double::from_bits(crate::double::ZERO)),
            crate::curve::held(y[i]),
        ) by {
            if i < n {
                assert(pairs[i] == before[i]);
            }
        }
    }
}

/// Levels that were saved at the reference points are kept by a load: as many as there are points,
/// at least one, each light level within 0.01 lux of its point and each level in the range of the
/// curve.
pub proof fn law_calibration_is_kept(lux: Seq<Double>, y: Seq<Double>, lux_points: Seq<Double>, plan: LoadPlan)
    requires
        lux.len() == y.len() == lux_points.len(),
        lux.len() > 0,
        forall|i: int|
            0 <= i < lux.len() ==> !(#[trigger] lux[i]).is_nan() && lux[i].greater_of(
                Double::from_bits(crate::double::ZERO),
            ).minus(lux_points[i]).absolute().less(Double::from_bits(crate::curve::LOWEST_LEVEL)),
        forall|i: int|
            0 <= i < y.len() ==> !(#[trigger] y[i]).is_nan() && crate::lesson::in_range(y[i]),
        plan.is_for(
            crate::state::pairs_of(readings_of(lux, y)),
            crate::state::singles_of(readings_of(lux, y)),
            lux_points,
        ),
    ensures
        plan matches LoadPlan::Keep(levels) && levels@ == y,
{
    lemma_pairs(lux, y);
    let pairs = crate::state::pairs_of(readings_of(lux, y));
    assert(crate::state::same_lux(pairs, lux_points)) by {
        assert forall|i: int| 0 <= i < pairs.len() implies (#[trigger] pairs[i]).0.minus(
            lux_points[i],
        ).absolute().less(Double::from_bits(crate::curve::LOWEST_LEVEL)) by {
            assert(!lux[i].is_nan());
        }
    }
    assert(crate::state::y_of(pairs) =~= y) by {
        assert forall|i: int| 0 <= i < y.len() implies #[trigger] crate::state::y_of(pairs)[i] == y[i] by {
            assert(pairs[i].1 == crate::curve::held(y[i]));
        }
    }
}

/// What a record reads as, `number` being what a text reads as.
pub open spec fn reading_of(r: crate::state::Record, number: spec_fn(Seq<char>) -> Option<Double>) -> Reading {
    match r {
        crate::state::Record::Pair(lux, y) => Reading::Pair(number(lux), number(y)),
        crate::state::Record::Single(y) => Reading::Single(number(y)),
    }
}

/// What the text of a file reads as, `number` being what a text reads as.
pub open spec fn file_readings(text: Seq<char>, number: spec_fn(Seq<char>) -> Option<Double>) -> Seq<Reading> {
    let records = crate::state::records_of(crate::text::lines(text));
    Seq::new(records.len(), |i: int| reading_of(records[i], number))
}

/// What is saved at the reference points is loaded again, whatever a text reads as: where the texts of the
/// light levels read as numbers within 0.01 lux of the points, and those of the levels as numbers in the
/// range of the curve, a load of the saved text keeps these numbers, and leaves the file as it is.
pub proof fn law_saved_calibration_is_kept(
    lux_texts: Seq<Seq<char>>,
    y_texts: Seq<Seq<char>>,
    number: spec_fn(Seq<char>) -> Option<Double>,
    lux: Seq<Double>,
    y: Seq<Double>,
    lux_points: Seq<Double>,
    plan: LoadPlan,
)
    requires
        writable(lux_texts, y_texts),
        lux_texts.len() == lux.len() == y.len() == lux_points.len(),
        lux.len() > 0,
        forall|i: int| 0 <= i < lux.len() ==> number(#[trigger] lux_texts[i]) == Some(lux[i]),
        forall|i: int| 0 <= i < y.len() ==> number(#[trigger] y_texts[i]) == Some(y[i]),
        forall|i: int|
            0 <= i < lux.len() ==> !(#[trigger] lux[i]).is_nan() && lux[i].greater_of(
                Double::from_bits(crate::double::ZERO),
            ).minus(lux_points[i]).absolute().less(Double::from_bits(crate::curve::LOWEST_LEVEL)),
        forall|i: int|
            0 <= i < y.len() ==> !(#[trigger] y[i]).is_nan() && crate::lesson::in_range(y[i]),
        ({
            let text = crate::state::header() + crate::state::state_lines(lux_texts, y_texts);
            let readings = file_readings(text, number);
            plan.is_for(crate::state::pairs_of(readings), crate::state::singles_of(readings), lux_points)
        }),
    ensures
        plan matches LoadPlan::Keep(levels) && levels@ == y,
{
    let text = crate::state::header() + crate::state::state_lines(lux_texts, y_texts);
    law_saved_file_reads_back(lux_texts, y_texts);
    let readings = file_readings(text, number);
    assert forall|i: int| 0 <= i < lux.len() implies #[trigger] readings[i] == readings_of(lux, y)[i] by {
        assert(paired(lux_texts, y_texts)[i] == crate::state::Record::Pair(lux_texts[i], y_texts[i]));
        assert(number(lux_texts[i]) == Some(lux[i]));
        assert(number(y_texts[i]) == Some(y[i]));
    }
    assert(readings =~= readings_of(lux, y));
    law_calibration_is_kept(lux, y, lux_points, plan);
}

/// A load of what was saved at the reference points gives each level back as nearly as its text writes
/// it.
pub proof fn law_saved_levels_come_back(
    lux_texts: Seq<Seq<char>>,
    y_texts: Seq<Seq<char>>,
    number: spec_fn(Seq<char>) -> Option<Double>,
    lux: Seq<Double>,
    y: Seq<Double>,
    saved: Seq<Double>,
    tolerance: real,
    lux_points: Seq<Double>,
    plan: LoadPlan,
)
    requires
        writable(lux_texts, y_texts),
        lux_texts.len() == lux.len() == y.len() == saved.len() == lux_points.len(),
        lux.len() > 0,
        forall|i: int| 0 <= i < lux.len() ==> number(#[trigger] lux_texts[i]) == Some(lux[i]),
        forall|i: int| 0 <= i < y.len() ==> number(#[trigger] y_texts[i]) == Some(y[i]),
        forall|i: int|
            0 <= i < lux.len() ==> !(#[trigger] lux[i]).is_nan() && lux[i].greater_of(
                Double::from_bits(crate::double::ZERO),
            ).minus(lux_points[i]).absolute().less(Double::from_bits(crate::curve::LOWEST_LEVEL)),
        forall|i: int|
            0 <= i < y.len() ==> !(#[trigger] y[i]).is_nan() && crate::lesson::in_range(y[i]),
        forall|i: int|
            0 <= i < y.len() ==> crate::measure::abs(
                crate::measure::value(#[trigger] y[i]) - crate::measure::value(saved[i]),
            ) <= tolerance,
        ({
            let text = crate::state::header() + crate::state::state_lines(lux_texts, y_texts);
            let readings = file_readings(text, number);
            plan.is_for(crate::state::pairs_of(readings), crate::state::singles_of(readings), lux_points)
        }),
    ensures
        plan is Keep,
        plan->Keep_0@.len() == saved.len(),
        forall|i: int|
            0 <= i < saved.len() ==> crate::measure::abs(
                crate::measure::value(#[trigger] plan->Keep_0@[i]) - crate::measure::value(saved[i]),
            ) <= tolerance,
{
    law_saved_calibration_is_kept(lux_texts, y_texts, number, lux, y, lux_points, plan);
}

// ---------------------------------------------------------------------------
// Resampling
// ---------------------------------------------------------------------------

/// A light level of the file that is finite is within the range, and so is the last reference point.
pub proof fn lemma_furthest(lux: Seq<Double>, least: Double, i: int)
    requires
        !least.is_nan(),
        0 <= i < lux.len(),
        lux[i].finite(),
    ensures
        lux[i].at_most(crate::state::furthest(lux, least)),
        !crate::state::furthest(lux, least).is_nan(),
        least.at_most(crate::state::furthest(lux, least)),
    decreases lux.len(),
{
    let shorter = lux.drop_last();
    lemma_furthest_least(shorter, least);
    lemma_furthest_least(lux, least);
    if i < lux.len() - 1 {
        assert(shorter[i] == lux[i]);
        lemma_furthest(shorter, least, i);
    }
}

pub proof fn lemma_furthest_least(lux: Seq<Double>, least: Double)
    requires
        !least.is_nan(),
    ensures
        !crate::state::furthest(lux, least).is_nan(),
        least.at_most(crate::state::furthest(lux, least)),
        least.finite() ==> crate::state::furthest(lux, least).finite(),
    decreases lux.len(),
{
    if lux.len() > 0 {
        lemma_furthest_least(lux.drop_last(), least);
    }
}

/// Where no light level lies beyond the last reference point, the range is that of the reference points.
pub proof fn law_range_is_that_of_the_points(lux: Seq<Double>, lux_points: Seq<Double>)
    requires
        forall|i: int| 0 <= i < lux.len() ==> (#[trigger] lux[i]).at_most(crate::state::range_of(lux_points)),
    ensures
        crate::state::stored_range(lux, lux_points) == crate::state::range_of(lux_points),
    decreases lux.len(),
{
    if lux.len() > 0 {
        let shorter = lux.drop_last();
        assert forall|i: int| 0 <= i < shorter.len() implies (#[trigger] shorter[i]).at_most(
            crate::state::range_of(lux_points),
        ) by {
            assert(shorter[i] == lux[i]);
        }
        law_range_is_that_of_the_points(shorter, lux_points);
        assert(lux[lux.len() - 1].at_most(crate::state::range_of(lux_points)));
    }
}

/// The light levels are finite and none is below zero, the last reference point is a finite number above
/// zero, and the light level `j` is `2^-49` of the range away from every other.
pub open spec fn apart(lux: Seq<Double>, lux_points: Seq<Double>, j: int) -> bool {
    let zero = Double::from_bits(crate::double::ZERO);
    &&& 0 <= j < lux.len()
    &&& forall|i: int| 0 <= i < lux.len() ==> (#[trigger] lux[i]).finite() && zero.at_most(lux[i])
    &&& crate::state::range_of(lux_points).finite()
    &&& zero.less(crate::state::range_of(lux_points))
    &&& forall|i: int|
        0 <= i < lux.len() && i != j ==> crate::measure::value(crate::state::stored_range(lux, lux_points))
            <= 0x2_0000_0000_0000 as real * crate::measure::abs(
            crate::measure::value(#[trigger] lux[i]) - crate::measure::value(lux[j]),
        )
}

/// Where a light level within the range is placed, but for rounding.
proof fn lemma_placed(x: Double, range: Double)
    requires
        x.finite(),
        range.finite(),
        Double::from_bits(crate::double::ZERO).at_most(x),
        Double::from_bits(crate::double::ZERO).less(range),
        x.at_most(range),
    ensures
        ({
            let p = x.over(range).clamp(
                Double::from_bits(crate::double::ZERO),
                Double::from_bits(crate::double::ONE),
            );
            let q = crate::measure::value(x) / crate::measure::value(range);
            &&& p.finite()
            &&& q * crate::measure::value(range) == crate::measure::value(x)
            &&& crate::measure::abs(crate::measure::value(p) - q) <= 2 as real * crate::measure::epsilon()
        }),
{
    let zero = Double::from_bits(crate::double::ZERO);
    let one = Double::from_bits(crate::double::ONE);
    let e = crate::measure::epsilon();
    let v = crate::measure::value(x);
    let r = crate::measure::value(range);
    crate::measure::lemma_constants();
    crate::measure::lemma_small();
    crate::measure::lemma_value_order(zero, x);
    crate::measure::lemma_value_order(zero, range);
    crate::measure::lemma_value_order(x, range);
    crate::measure::lemma_positive(range);
    crate::limits::lemma_quotient(v, r);
    let q = v / r;
    assert(0 as real * r == 0 as real && 1 as real * r == r) by (nonlinear_arith);
    if q > 1 as real {
        assert(q * r > r) by (nonlinear_arith)
            requires
                q > 1 as real,
                r > 0 as real,
        ;
    }
    crate::measure::lemma_over_at_least(x, range, zero);
    crate::measure::lemma_over_at_most(x, range, one);
    let p = x.over(range);
    crate::measure::lemma_value_order(zero, p);
    crate::measure::lemma_value_order(p, one);
    crate::measure::lemma_finite_quotient(x, range);
    crate::measure::lemma_part_of_error(e, q, 1 as real);
}

/// Light levels that are apart have places of their own, however far beyond the reference points they
/// lie.
pub proof fn law_lights_apart_stand_alone(lux: Seq<Double>, y: Seq<Double>, lux_points: Seq<Double>, j: int)
    requires
        apart(lux, lux_points, j),
    ensures
        ({
            let range = crate::curve::safe_range(crate::state::stored_range(lux, lux_points));
            let all = crate::curve::all_placed(lux, y, range);
            &&& crate::curve::all_on_axis(all)
            &&& crate::curve_laws::stands_alone(all, j)
        }),
{
    let zero = Double::from_bits(crate::double::ZERO);
    let least = crate::state::range_of(lux_points);
    let far = crate::state::stored_range(lux, lux_points);
    let all = crate::curve::all_placed(lux, y, far);
    let r = crate::measure::value(far);
    let e = crate::measure::epsilon();
    crate::measure::lemma_constants();
    crate::measure::lemma_small();
    lemma_furthest_least(lux, least);
    crate::curve_laws::law_finite_points_are_on_the_axis(lux, y, far);
    crate::measure::lemma_value_order(zero, far);
    assert(lux[j].finite() && zero.at_most(lux[j]));
    lemma_furthest(lux, least, j);
    lemma_placed(lux[j], far);
    let b = crate::measure::value(lux[j]) / r;
    assert forall|i: int| 0 <= i < all.len() && i != j implies !(#[trigger] all[i]).x.same(all[j].x) by {
        assert(lux[i].finite() && zero.at_most(lux[i]));
        lemma_furthest(lux, least, i);
        lemma_placed(lux[i], far);
        crate::measure::lemma_value_order(all[i].x, all[j].x);
        let a = crate::measure::value(lux[i]) / r;
        if all[i].x.same(all[j].x) {
            let gap = crate::measure::abs(a - b);
            assert(gap <= 4 as real * e);
            crate::algebra::lemma_distribute(a, b, r);
            crate::algebra::lemma_scaled(a - b, r, gap);
            crate::algebra::lemma_scaled_up(gap, 4 as real * e, r);
            crate::algebra::lemma_swap(gap, r);
            crate::algebra::lemma_swap(4 as real * e, r);
            assert((4 as real * e) * r <= r / 0x4_0000_0000_0000 as real);
        }
    }
}

/// How many of the points are at the light `x`.
spec fn count_at(points: Seq<Point>, x: Double) -> nat
    decreases points.len(),
{
    if points.len() == 0 {
        0
    } else {
        count_at(points.drop_last(), x) + if points.last().x.same(x) {
            1nat
        } else {
            0
        }
    }
}

proof fn lemma_count_inserted(points: Seq<Point>, p: Point, x: Double)
    ensures
        count_at(crate::curve::inserted(points, p), x) == count_at(points.push(p), x),
    decreases points.len(),
{
    assert(points.push(p).drop_last() =~= points);
    if points.len() > 0 && p.x.less(points.last().x) {
        let shorter = points.drop_last();
        lemma_count_inserted(shorter, p, x);
        assert(shorter.push(p).drop_last() =~= shorter);
        let r = crate::curve::inserted(points, p);
        assert(r.drop_last() =~= crate::curve::inserted(shorter, p));
        assert(r.last() == points.last());
        assert(points.push(p).last() == p && shorter.push(p).last() == p);
        assert(count_at(points.push(p), x) == count_at(points, x) + if p.x.same(x) {
            1nat
        } else {
            0
        });
    }
}

proof fn lemma_count_sorted(points: Seq<Point>, x: Double)
    ensures
        count_at(crate::curve::sorted(points), x) == count_at(points, x),
    decreases points.len(),
{
    if points.len() > 0 {
        let shorter = points.drop_last();
        let s = crate::curve::sorted(shorter);
        lemma_count_sorted(shorter, x);
        lemma_count_inserted(s, points.last(), x);
        assert(s.push(points.last()).drop_last() =~= s);
    }
}

/// As many points are counted as there are: none, or the only one.
proof fn lemma_count(points: Seq<Point>, i: int, x: Double)
    requires
        forall|j: int| 0 <= j < points.len() && j != i ==> !(#[trigger] points[j]).x.same(x),
    ensures
        count_at(points, x) <= 1,
        !(0 <= i < points.len()) ==> count_at(points, x) == 0,
    decreases points.len(),
{
    if points.len() > 0 {
        let shorter = points.drop_last();
        assert forall|j: int| 0 <= j < shorter.len() && j != i implies !(#[trigger] shorter[j]).x.same(x) by {
            assert(shorter[j] == points[j]);
        }
        lemma_count(shorter, i, x);
        if i != points.len() - 1 {
            assert(!points[points.len() - 1].x.same(x));
        }
    }
}

/// Two points at the same light are counted twice.
proof fn lemma_counted(points: Seq<Point>, i: int, j: int, x: Double)
    requires
        0 <= i < j < points.len(),
        points[j].x.same(x),
    ensures
        count_at(points, x) >= 1,
        points[i].x.same(x) ==> count_at(points, x) >= 2,
    decreases points.len(),
{
    let n = points.len() - 1;
    let shorter = points.drop_last();
    assert(shorter =~= points.take(n as int));
    if j < n {
        lemma_counted(shorter, i, j, x);
    } else if points[i].x.same(x) {
        if i > 0 {
            lemma_counted(shorter, 0, i, x);
        } else {
            lemma_first_counted(shorter, x);
        }
    }
}

proof fn lemma_first_counted(points: Seq<Point>, x: Double)
    requires
        points.len() > 0,
        points[0].x.same(x),
    ensures
        count_at(points, x) >= 1,
    decreases points.len(),
{
    if points.len() > 1 {
        assert(points.drop_last()[0] == points[0]);
        lemma_first_counted(points.drop_last(), x);
    }
}

/// A point that stands alone does so after sorting.
proof fn lemma_sorted_alone(points: Seq<Point>, i: int) -> (j: int)
    requires
        crate::curve::all_on_axis(points),
        crate::curve_laws::stands_alone(points, i),
    ensures
        crate::curve_laws::stands_alone(crate::curve::sorted(points), j),
        crate::curve::sorted(points)[j] == points[i],
{
    broadcast use vstd::seq_lib::group_to_multiset_ensures;

    let s = crate::curve::sorted(points);
    let x = points[i].x;
    crate::curve_laws::law_sorting_keeps_the_points(points);
    assert(points.to_multiset().count(points[i]) > 0);
    assert(s.to_multiset().count(points[i]) > 0);
    assert(s.contains(points[i]));
    let j = choose|j: int| 0 <= j < s.len() && s[j] == points[i];
    lemma_count(points, i, x);
    lemma_count_sorted(points, x);
    assert(x.same(x)) by {
        assert(!points[i].x.is_nan());
    }
    assert forall|k: int| 0 <= k < s.len() && k != j implies !(#[trigger] s[k]).x.same(s[j].x) by {
        if s[k].x.same(x) {
            if k < j {
                lemma_counted(s, k, j, x);
            } else {
                lemma_counted(s, j, k, x);
            }
        }
    }
    j
}

/// Resampling keeps the calibration: where the levels of the file are in the order of their light, a
/// reference point at the light of one of them, and of no other, gets its level, in thousandths. The
/// others may lie anywhere, beyond the last reference point too.
pub proof fn law_resampling_keeps_calibration(lux: Seq<Double>, y: Seq<Double>, lux_points: Seq<Double>, j: int, k: int)
    requires
        lux.len() == y.len(),
        0 <= j < lux.len(),
        0 <= k < lux_points.len(),
        lux_points[k] == lux[j],
        ({
            let range = crate::curve::safe_range(crate::state::stored_range(lux, lux_points));
            let all = crate::curve::all_placed(lux, y, range);
            &&& crate::curve::all_on_axis(all)
            &&& crate::lesson_laws::rising(crate::curve::levels(crate::curve::sorted(all)))
            &&& crate::curve_laws::stands_alone(all, j)
        }),
    ensures
        ({
            let range = crate::curve::safe_range(crate::state::stored_range(lux, lux_points));
            let points = crate::curve::levelled(crate::curve::sorted(crate::curve::all_placed(lux, y, range)));
            crate::state::to_thousandths(
                crate::curve::level(
                    points,
                    crate::curve::tangents(points),
                    crate::curve::normalized(lux_points[k], range),
                ),
            ) == crate::state::to_thousandths(crate::curve::held(y[j]))
        }),
{
    let range = crate::curve::safe_range(crate::state::stored_range(lux, lux_points));
    let all = crate::curve::all_placed(lux, y, range);
    let s = crate::curve::sorted(all);
    crate::curve::lemma_sorted_ascending(all);
    crate::curve_laws::law_levelling_is_idempotent(s);
    let i = lemma_sorted_alone(all, j);
    assert(!all[j].x.is_nan());
    assert(!lux[j].is_nan()) by {
        reveal(Double::spec_over);
    }
    crate::curve_laws::law_curve_runs_through_its_points(
        s,
        crate::curve::tangents(s),
        i,
        crate::curve::normalized(lux_points[k], range),
    );
}

/// A level in thousandths is less than a thousandth away from the level.
pub proof fn law_thousandths_are_near(y: Double)
    requires
        crate::lesson_laws::proper_level(y),
    ensures
        crate::state::to_thousandths(y).finite(),
        crate::measure::abs(
            crate::measure::value(crate::state::to_thousandths(y)) - crate::measure::value(y),
        ) < 1 as real / 1000 as real,
{
    let thousand = Double::from_bits(crate::double::THOUSAND);
    let e = crate::measure::epsilon();
    let v = crate::measure::value(y);
    crate::measure::lemma_constants();
    crate::measure::lemma_small();
    crate::lesson_laws::lemma_proper(y);
    let m = y.times(thousand);
    assert(v * (1000 as real) == 1000 as real * v);
    crate::measure::lemma_times(y, thousand);
    crate::measure::lemma_part_of_error(e, v * (1000 as real), 1000 as real);
    let w = crate::measure::lemma_rounded(m);
    let n = m.rounded();
    let q = crate::measure::value(n) / 1000 as real;
    crate::measure::lemma_over(n, thousand);
    crate::measure::lemma_part_of_error(e, q, 2 as real);
}

} // verus!
