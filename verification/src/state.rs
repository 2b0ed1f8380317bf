//! The calibrated levels on disk: the format of the file and what a start makes of its content.

use vstd::prelude::*;
use crate::curve::ClightCurve;
use crate::curve::{BARE_LEVEL, GREATEST, LOWEST_LEVEL};
use crate::double::Double;
use crate::double::{HALF, ONE, THOUSAND, ZERO};
use crate::text::{characters, join, line_end, next_word, text_of};

verus! {

/// The place of the file with the calibrated levels.
#[derive(Debug)]
pub struct StateManager {
    pub state_path: String,
}

/// A line of the file that is neither blank nor a comment: a light level and a brightness, or, in
/// older files, a brightness alone.
#[derive(Debug)]
pub enum StateRecord {
    Pair(String, String),
    Single(String),
}

/// The content of a `StateRecord`.
pub ghost enum Record {
    Pair(Seq<char>, Seq<char>),
    Single(Seq<char>),
}

impl View for StateRecord {
    type V = Record;

    open spec fn view(&self) -> Record {
        match self {
            StateRecord::Pair(lux, y) => Record::Pair(lux@, y@),
            StateRecord::Single(y) => Record::Single(y@),
        }
    }
}

/// What a line of the file says. A line without words, or whose first word starts with `#`, says
/// nothing; words behind the second one are ignored.
pub open spec fn record_of(line: Seq<char>) -> Option<Record> {
    let words = crate::text::words(line);
    if words.len() == 0 || words[0][0] == '#' {
        None
    } else if words.len() == 1 {
        Some(Record::Single(words[0]))
    } else {
        Some(Record::Pair(words[0], words[1]))
    }
}

/// What the lines of the file say.
pub open spec fn records_of(lines: Seq<Seq<char>>) -> Seq<Record>
    decreases lines.len(),
{
    if lines.len() == 0 {
        seq![]
    } else {
        let rest = records_of(lines.drop_first());
        match record_of(lines[0]) {
            Some(r) => seq![r] + rest,
            None => rest,
        }
    }
}

/// The contents of records.
pub open spec fn contents(records: Seq<StateRecord>) -> Seq<Record> {
    Seq::new(records.len(), |i: int| records[i]@)
}

/// What the line between `from` and `to` says.
fn read_line(chars: &Vec<char>, from: usize, to: usize) -> (r: Option<StateRecord>)
    requires
        from <= to <= chars@.len(),
    ensures
        match record_of(chars@.subrange(from as int, to as int)) {
            None => r is None,
            Some(record) => r matches Some(found) && found@ == record,
        },
{
    let (a, b) = next_word(chars, from, to);
    if a == b {
        return None;
    }
    assert(chars@.subrange(a as int, b as int)[0] == chars@[a as int]);
    if chars[a] == '#' {
        return None;
    }
    let (c, d) = next_word(chars, b, to);
    if c == d {
        Some(StateRecord::Single(text_of(chars, a, b)))
    } else {
        Some(StateRecord::Pair(text_of(chars, a, b), text_of(chars, c, d)))
    }
}

/// What the text of the file says, line by line.
pub fn parse_state(content: &str) -> (r: Vec<StateRecord>)
    ensures
        contents(r@) == records_of(crate::text::lines(content@)),
{
    let chars: Vec<char> = characters(content);
    let n: usize = chars.len();
    let ghost goal = records_of(crate::text::lines(content@));
    let mut r: Vec<StateRecord> = Vec::new();
    let mut start: usize = 0;
    proof {
        assert(chars@.skip(0) =~= chars@);
        assert(contents(r@) + goal =~= goal);
    }
    loop
        invariant
            start <= n == chars@.len(),
            goal == records_of(crate::text::lines(content@)),
            goal == contents(r@) + records_of(crate::text::lines(chars@.skip(start as int))),
        decreases n - start,
    {
        let end: usize = line_end(&chars, start);
        let ghost s = chars@.skip(start as int);
        let ghost before = contents(r@);
        let ghost all = crate::text::lines(s);
        proof {
            assert(s.take(end - start) =~= chars@.subrange(start as int, end as int));
            if end == n {
                assert(s.take(end - start) =~= s);
                assert(all.drop_first() =~= Seq::<Seq<char>>::empty());
            } else {
                assert(s.skip(end - start + 1) =~= chars@.skip(end + 1));
                assert(all.drop_first() =~= crate::text::lines(chars@.skip(end + 1)));
            }
            assert(all[0] == chars@.subrange(start as int, end as int));
        }
        if let Some(record) = read_line(&chars, start, end) {
            let ghost content = record@;
            r.push(record);
            proof {
                assert(contents(r@) =~= before.push(content));
                let rest = records_of(all.drop_first());
                assert(before + (seq![content] + rest) =~= before.push(content) + rest);
            }
        }
        if end == n {
            proof {
                assert(records_of(all.drop_first()) =~= Seq::<Record>::empty());
                assert(goal =~= contents(r@));
            }
            return r;
        }
        start = end + 1;
    }
}

// ---------------------------------------------------------------------------
// Numbers
// ---------------------------------------------------------------------------

/// A record with its texts read as numbers, where they are numbers.
#[derive(Debug, Clone, Copy)]
pub enum Reading {
    Pair(Option<Double>, Option<Double>),
    Single(Option<Double>),
}

/// The calibrated point of a record with a light level and a brightness.
pub open spec fn pair_of(r: Reading) -> Option<(Double, Double)> {
    match r {
        Reading::Pair(Some(lux), Some(y)) => if lux.is_nan() || y.is_nan() {
            None
        } else {
            Some((lux.greater_of(Double::from_bits(ZERO)), crate::curve::held(y)))
        },
        _ => None,
    }
}

/// The calibrated level of a record with a brightness alone.
pub open spec fn single_of(r: Reading) -> Option<Double> {
    match r {
        Reading::Single(Some(y)) => if y.is_nan() {
            None
        } else {
            Some(crate::curve::held(y))
        },
        _ => None,
    }
}

/// The calibrated points of the records.
pub open spec fn pairs_of(readings: Seq<Reading>) -> Seq<(Double, Double)>
    decreases readings.len(),
{
    if readings.len() == 0 {
        seq![]
    } else {
        let before = pairs_of(readings.drop_last());
        match pair_of(readings.last()) {
            Some(p) => before.push(p),
            None => before,
        }
    }
}

/// The calibrated levels of the records with a brightness alone.
pub open spec fn singles_of(readings: Seq<Reading>) -> Seq<Double>
    decreases readings.len(),
{
    if readings.len() == 0 {
        seq![]
    } else {
        let before = singles_of(readings.drop_last());
        match single_of(readings.last()) {
            Some(y) => before.push(y),
            None => before,
        }
    }
}

/// The light levels of points.
pub open spec fn lux_of(pairs: Seq<(Double, Double)>) -> Seq<Double> {
    Seq::new(pairs.len(), |i: int| pairs[i].0)
}

/// The brightnesses of points.
pub open spec fn y_of(pairs: Seq<(Double, Double)>) -> Seq<Double> {
    Seq::new(pairs.len(), |i: int| pairs[i].1)
}

/// The points lie at the reference points: as many of them, each within 0.01 lux.
pub open spec fn same_lux(pairs: Seq<(Double, Double)>, lux_points: Seq<Double>) -> bool {
    &&& pairs.len() == lux_points.len()
    &&& forall|i: int|
        0 <= i < pairs.len() ==> (#[trigger] pairs[i]).0.minus(lux_points[i]).absolute().less(
            Double::from_bits(LOWEST_LEVEL),
        )
}

/// How many levels a curve with the given number of reference points has.
pub open spec fn safe_count(n: nat) -> nat {
    if n < 2 {
        2
    } else {
        n
    }
}

/// What a start makes of the file.
#[derive(Debug)]
pub enum LoadPlan {
    /// These levels, as they stand in the file.
    Keep(Vec<Double>),
    /// These levels, to be saved with the reference points.
    Adopt(Vec<Double>),
    /// The levels at the reference points of the curve through these points, to be saved.
    Resample { lux: Vec<Double>, y: Vec<Double> },
    /// The same, the points having these levels at light levels spread evenly in logarithmic light.
    ResampleLegacy { y: Vec<Double> },
    /// This many default levels, to be saved.
    Defaults { count: usize },
}

impl LoadPlan {
    /// The plan for the calibrated points and levels of the file.
    pub open spec fn is_for(
        &self,
        pairs: Seq<(Double, Double)>,
        singles: Seq<Double>,
        lux_points: Seq<Double>,
    ) -> bool {
        if pairs.len() > 0 {
            if same_lux(pairs, lux_points) {
                self matches LoadPlan::Keep(y) && y@ == y_of(pairs)
            } else {
                self matches LoadPlan::Resample { lux, y } && lux@ == lux_of(pairs) && y@ == y_of(pairs)
            }
        } else if singles.len() > 0 {
            if singles.len() == safe_count(lux_points.len()) {
                self matches LoadPlan::Adopt(y) && y@ == singles
            } else {
                self matches LoadPlan::ResampleLegacy { y } && y@ == singles
            }
        } else {
            self matches LoadPlan::Defaults { count } && count == safe_count(lux_points.len())
        }
    }
}

fn collect_pairs(readings: &Vec<Reading>) -> (r: (Vec<Double>, Vec<Double>))
    ensures
        r.0@ == lux_of(pairs_of(readings@)),
        r.1@ == y_of(pairs_of(readings@)),
{
    let mut lux: Vec<Double> = Vec::new();
    let mut y: Vec<Double> = Vec::new();
    let mut i: usize = 0;
    while i < readings.len()
        invariant
            i <= readings@.len(),
            lux@ =~= lux_of(pairs_of(readings@.take(i as int))),
            y@ =~= y_of(pairs_of(readings@.take(i as int))),
        decreases readings@.len() - i,
    {
        proof {
            assert(readings@.take(i + 1).drop_last() =~= readings@.take(i as int));
            assert(readings@.take(i + 1).last() == readings@[i as int]);
        }
        if let Reading::Pair(Some(l), Some(v)) = readings[i] {
            if !l.is_nan() && !v.is_nan() {
                lux.push(l.greater_of(Double::from_bits(ZERO)));
                y.push(v.clamp(Double::from_bits(LOWEST_LEVEL), Double::from_bits(ONE)));
            }
        }
        i = i + 1;
    }
    assert(readings@.take(i as int) =~= readings@);
    (lux, y)
}

fn collect_singles(readings: &Vec<Reading>) -> (r: Vec<Double>)
    ensures
        r@ == singles_of(readings@),
{
    let mut y: Vec<Double> = Vec::new();
    let mut i: usize = 0;
    while i < readings.len()
        invariant
            i <= readings@.len(),
            y@ =~= singles_of(readings@.take(i as int)),
        decreases readings@.len() - i,
    {
        proof {
            assert(readings@.take(i + 1).drop_last() =~= readings@.take(i as int));
            assert(readings@.take(i + 1).last() == readings@[i as int]);
        }
        if let Reading::Single(Some(v)) = readings[i] {
            if !v.is_nan() {
                y.push(v.clamp(Double::from_bits(LOWEST_LEVEL), Double::from_bits(ONE)));
            }
        }
        i = i + 1;
    }
    assert(readings@.take(i as int) =~= readings@);
    y
}

/// Whether calibrated light levels are the reference points.
fn lies_at(lux: &Vec<Double>, lux_points: &Vec<Double>) -> (r: bool)
    ensures
        r == (lux@.len() == lux_points@.len() && forall|i: int|
            0 <= i < lux@.len() ==> (#[trigger] lux@[i]).minus(lux_points@[i]).absolute().less(
                Double::from_bits(LOWEST_LEVEL),
            )),
{
    if lux.len() != lux_points.len() {
        return false;
    }
    let mut i: usize = 0;
    while i < lux.len()
        invariant
            i <= lux@.len() == lux_points@.len(),
            forall|k: int|
                0 <= k < i ==> (#[trigger] lux@[k]).minus(lux_points@[k]).absolute().less(
                    Double::from_bits(LOWEST_LEVEL),
                ),
        decreases lux@.len() - i,
    {
        if !lux[i].minus(lux_points[i]).absolute().less(Double::from_bits(LOWEST_LEVEL)) {
            return false;
        }
        i = i + 1;
    }
    true
}

/// The range of a curve over the reference points: the last one, or 1000 where there is none.
pub open spec fn range_of(lux_points: Seq<Double>) -> Double {
    if lux_points.len() > 0 {
        lux_points.last()
    } else {
        Double::from_bits(THOUSAND)
    }
}

fn find_range(lux_points: &Vec<Double>) -> (r: Double)
    ensures
        r == range_of(lux_points@),
{
    let n: usize = lux_points.len();
    if n > 0 {
        lux_points[n - 1]
    } else {
        Double::from_bits(THOUSAND)
    }
}

/// The greatest of `least` and the finite ones of the light levels.
pub open spec fn furthest(lux: Seq<Double>, least: Double) -> Double
    decreases lux.len(),
{
    if lux.len() == 0 {
        least
    } else {
        let before = furthest(lux.drop_last(), least);
        let x = lux.last();
        if x.at_most(Double::from_bits(GREATEST)) && !x.at_most(before) {
            x
        } else {
            before
        }
    }
}

/// The range of the curve through points at the given light levels that is resampled at the reference
/// points: it takes in both.
pub open spec fn stored_range(lux: Seq<Double>, lux_points: Seq<Double>) -> Double {
    furthest(lux, range_of(lux_points))
}

fn find_stored_range(lux: &Vec<Double>, lux_points: &Vec<Double>) -> (r: Double)
    ensures
        r == stored_range(lux@, lux_points@),
{
    let greatest: Double = Double::from_bits(GREATEST);
    let mut r: Double = find_range(lux_points);
    let mut i: usize = 0;
    while i < lux.len()
        invariant
            i <= lux@.len(),
            greatest == Double::from_bits(GREATEST),
            r == furthest(lux@.take(i as int), range_of(lux_points@)),
        decreases lux@.len() - i,
    {
        proof {
            assert(lux@.take(i + 1).drop_last() =~= lux@.take(i as int));
            assert(lux@.take(i + 1).last() == lux@[i as int]);
        }
        let x: Double = lux[i];
        if x.at_most(greatest) && !x.at_most(r) {
            r = x;
        }
        i = i + 1;
    }
    assert(lux@.take(lux@.len() as int) =~= lux@);
    r
}

/// The points of the curve through the given ones that is resampled at the reference points.
pub open spec fn stored_points(lux: Seq<Double>, y: Seq<Double>, lux_points: Seq<Double>) -> Seq<crate::curve::Point> {
    crate::curve::levelled(
        crate::curve::sorted(
            crate::curve::all_placed(lux, y, crate::curve::safe_range(stored_range(lux, lux_points))),
        ),
    )
}

/// The levels of that curve at the reference points, rounded to three decimals.
pub open spec fn resampled(lux: Seq<Double>, y: Seq<Double>, lux_points: Seq<Double>) -> Seq<Double> {
    let range = crate::curve::safe_range(stored_range(lux, lux_points));
    let points = stored_points(lux, y, lux_points);
    Seq::new(
        lux_points.len(),
        |i: int|
            to_thousandths(
                crate::curve::level(
                    points,
                    crate::curve::tangents(points),
                    crate::curve::normalized(lux_points[i], range),
                ),
            ),
    )
}

/// A light level that is no greater than `most`.
pub open spec fn capped(lux: Double, most: Double) -> Double {
    if most.less(lux) {
        most
    } else {
        lux
    }
}

/// The light levels of older levels, given the exponentials.
pub open spec fn legacy_lights(powers: Seq<Double>, lux_points: Seq<Double>) -> Seq<Double> {
    Seq::new(
        powers.len(),
        |i: int| capped(powers[i].minus(Double::from_bits(ONE)), range_of(lux_points)),
    )
}

/// A level rounded to three decimals.
pub open spec fn to_thousandths(y: Double) -> Double {
    y.times(Double::from_bits(THOUSAND)).rounded().over(Double::from_bits(THOUSAND))
}

/// The default level for the power `p` of a place between 0 and 1.
pub open spec fn default_level(p: Double) -> Double {
    let low = Double::from_bits(BARE_LEVEL);
    let one = Double::from_bits(ONE);
    to_thousandths(low.plus(one.minus(low).times(p)))
}

/// The place of the point `i` among `count` points, between 0 and 1.
pub open spec fn place(i: int, count: nat) -> Double {
    Double::of_int(i).over(Double::of_int(count - 1))
}

/// What the natural logarithm is to be computed of for older levels.
pub open spec fn log_argument(lux_points: Seq<Double>) -> Double {
    Double::from_bits(ONE).plus(range_of(lux_points))
}

/// What the exponential function is to be computed of for `count` older levels.
pub open spec fn exponents(count: nat, log_max: Double) -> Seq<Double> {
    Seq::new(count, |i: int| place(i, count).times(log_max))
}

/// The path of the file with the calibrated levels: below `xdg_state_home`, or below `.local/state`
/// in `home`.
pub open spec fn state_path(xdg_state_home: Option<Seq<char>>, home: Option<Seq<char>>) -> Seq<char> {
    let dir = match xdg_state_home {
        Some(dir) => dir,
        None => crate::text::joined(
            match home {
                Some(home) => home,
                None => "."@,
            },
            ".local/state"@,
        ),
    };
    crate::text::joined(dir, "kirialsd/curve_y.conf"@)
}

/// The first line of the file.
pub open spec fn header() -> Seq<char> {
    "# kirialsd calibrated curve: <lux> <brightness_fraction (0.01-1.00)>\n"@
}

/// The lines for light levels and brightnesses, as far as there are both.
pub open spec fn state_lines(lux: Seq<Seq<char>>, y: Seq<Seq<char>>) -> Seq<char>
    decreases lux.len(),
{
    if lux.len() == 0 || y.len() == 0 {
        seq![]
    } else {
        lux[0] + seq![' '] + y[0] + seq!['\n'] + state_lines(lux.drop_first(), y.drop_first())
    }
}

/// The texts of strings.
pub open spec fn texts(s: Seq<String>) -> Seq<Seq<char>> {
    Seq::new(s.len(), |i: int| s[i]@)
}

/// The default levels of `count` points, given the powers of their places.
pub open spec fn default_levels(count: nat, powers: Seq<Double>) -> Seq<Double> {
    if count == 0 {
        seq![Double::from_bits(BARE_LEVEL), Double::from_bits(ONE)]
    } else if count == 1 {
        seq![Double::from_bits(HALF)]
    } else {
        Seq::new(powers.len(), |i: int| default_level(powers[i]))
    }
}

impl LoadPlan {
    /// The levels that the plan gives: `powers` holds the exponentials for older levels, or the powers of
    /// the places for default ones.
    pub open spec fn levels(&self, powers: Seq<Double>, lux_points: Seq<Double>) -> Seq<Double> {
        match self {
            LoadPlan::Keep(y) => y@,
            LoadPlan::Adopt(y) => y@,
            LoadPlan::Resample { lux, y } => resampled(lux@, y@, lux_points),
            LoadPlan::ResampleLegacy { y } => resampled(legacy_lights(powers, lux_points), y@, lux_points),
            LoadPlan::Defaults { count } => default_levels(*count as nat, powers),
        }
    }
}

impl StateManager {
    /// The place of the file, given the variables `XDG_STATE_HOME` and `HOME`.
    pub fn new(xdg_state_home: Option<&str>, home: Option<&str>) -> (r: Self)
        ensures
            r.state_path@ == state_path(crate::config::content(xdg_state_home), crate::config::content(home)),
    {
        let dir: String = match xdg_state_home {
            Some(dir) => dir.to_owned(),
            None => match home {
                Some(home) => join(home, ".local/state"),
                None => join(".", ".local/state"),
            },
        };
        StateManager { state_path: join(dir.as_str(), "kirialsd/curve_y.conf") }
    }

    /// What a start makes of the records of the file, or of a file that cannot be read.
    pub fn load_or_init(readings: Option<&Vec<Reading>>, lux_points: &Vec<Double>) -> (r: LoadPlan)
        ensures
            match readings {
                Some(readings) => r.is_for(pairs_of(readings@), singles_of(readings@), lux_points@),
                None => r.is_for(seq![], seq![], lux_points@),
            },
    {
        let count: usize = if lux_points.len() < 2 {
            2
        } else {
            lux_points.len()
        };
        match readings {
            None => LoadPlan::Defaults { count },
            Some(readings) => {
                let (lux, y) = collect_pairs(readings);
                let ghost pairs = pairs_of(readings@);
                if lux.len() > 0 {
                    if lies_at(&lux, lux_points) {
                        proof {
                            assert forall|i: int| 0 <= i < pairs.len() implies (#[trigger] pairs[i]).0.minus(
                                lux_points@[i],
                            ).absolute().less(Double::from_bits(LOWEST_LEVEL)) by {
                                assert(lux@[i] == pairs[i].0);
                            }
                        }
                        return LoadPlan::Keep(y);
                    }
                    proof {
                        if same_lux(pairs, lux_points@) {
                            assert forall|i: int| 0 <= i < lux@.len() implies (#[trigger] lux@[i]).minus(
                                lux_points@[i],
                            ).absolute().less(Double::from_bits(LOWEST_LEVEL)) by {
                                assert(lux@[i] == pairs[i].0);
                            }
                        }
                    }
                    return LoadPlan::Resample { lux, y };
                }
                let singles: Vec<Double> = collect_singles(readings);
                if singles.len() == 0 {
                    LoadPlan::Defaults { count }
                } else if singles.len() == count {
                    LoadPlan::Adopt(singles)
                } else {
                    LoadPlan::ResampleLegacy { y: singles }
                }
            },
        }
    }

    /// Whether a curve through the given points can be resampled: there are two of them at least, and
    /// each has a place on the light axis of these and the reference points.
    pub fn can_resample(lux: &Vec<Double>, y: &Vec<Double>, lux_points: &Vec<Double>) -> (r: bool)
        ensures
            r == (lux@.len() == y@.len() && lux@.len() >= 2 && crate::curve::all_on_axis(
                crate::curve::all_placed(lux@, y@, crate::curve::safe_range(stored_range(lux@, lux_points@))),
            )),
    {
        ClightCurve::accepts(lux.as_slice(), y.as_slice(), find_stored_range(lux, lux_points))
    }

    /// The levels at the reference points of the curve through the given points, rounded to three
    /// decimals. The curve reaches as far as the points and the reference points do.
    pub fn resample(lux: &Vec<Double>, y: &Vec<Double>, lux_points: &Vec<Double>) -> (r: Vec<Double>)
        requires
            lux@.len() == y@.len(),
            lux@.len() >= 2,
            crate::curve::all_on_axis(
                crate::curve::all_placed(lux@, y@, crate::curve::safe_range(stored_range(lux@, lux_points@))),
            ),
        ensures
            r@ == resampled(lux@, y@, lux_points@),
    {
        let curve: ClightCurve = ClightCurve::new(
            lux.as_slice(),
            y.as_slice(),
            find_stored_range(lux, lux_points),
            Double::from_bits(BARE_LEVEL),
        );
        let thousand: Double = Double::from_bits(THOUSAND);
        let mut r: Vec<Double> = Vec::new();
        let mut i: usize = 0;
        while i < lux_points.len()
            invariant
                i <= lux_points@.len(),
                curve.well_formed(),
                thousand == Double::from_bits(THOUSAND),
                r@ =~= Seq::new(
                    i as nat,
                    |k: int|
                        to_thousandths(
                            crate::curve::level(
                                curve.points@,
                                curve.slopes@,
                                crate::curve::normalized(lux_points@[k], curve.max_lux),
                            ),
                        ),
                ),
            decreases lux_points@.len() - i,
        {
            r.push(curve.evaluate(lux_points[i]).times(thousand).rounded().over(thousand));
            i = i + 1;
        }
        r
    }

    /// What the natural logarithm is to be computed of before older levels are resampled.
    pub fn legacy_log_argument(lux_points: &Vec<Double>) -> (r: Double)
        ensures
            r == Double::from_bits(ONE).plus(range_of(lux_points@)),
            r == log_argument(lux_points@),
    {
        Double::from_bits(ONE).plus(find_range(lux_points))
    }

    /// What the exponential function is to be computed of before `count` older levels are resampled.
    /// `log_max` is the natural logarithm of what `legacy_log_argument` returns.
    pub fn legacy_exponents(count: usize, log_max: Double) -> (r: Vec<Double>)
        requires
            count >= 1,
        ensures
            r@ == Seq::new(count as nat, |i: int| place(i, count as nat).times(log_max)),
            r@ == exponents(count as nat, log_max),
    {
        let mut r: Vec<Double> = Vec::new();
        let mut i: usize = 0;
        while i < count
            invariant
                1 <= count,
                i <= count,
                r@ =~= Seq::new(i as nat, |k: int| place(k, count as nat).times(log_max)),
            decreases count - i,
        {
            r.push(Double::from_i128(i as i128).over(Double::from_i128((count - 1) as i128)).times(log_max));
            i = i + 1;
        }
        r
    }

    /// The light levels of older levels, none beyond the reference points. `powers` holds the
    /// exponentials of what `legacy_exponents` returns.
    pub fn legacy_lux(powers: &Vec<Double>, lux_points: &Vec<Double>) -> (r: Vec<Double>)
        ensures
            r@ == legacy_lights(powers@, lux_points@),
    {
        let most: Double = find_range(lux_points);
        let mut r: Vec<Double> = Vec::new();
        let mut i: usize = 0;
        while i < powers.len()
            invariant
                i <= powers@.len(),
                most == range_of(lux_points@),
                r@ =~= Seq::new(
                    i as nat,
                    |k: int| capped(powers@[k].minus(Double::from_bits(ONE)), range_of(lux_points@)),
                ),
            decreases powers@.len() - i,
        {
            let lux: Double = powers[i].minus(Double::from_bits(ONE));
            if most.less(lux) {
                r.push(most);
            } else {
                r.push(lux);
            }
            i = i + 1;
        }
        r
    }

    /// What is to be raised to the power 1.8 before `count` default levels are generated.
    pub fn default_places(count: usize) -> (r: Vec<Double>)
        ensures
            r@ == (if count < 2 {
                seq![]
            } else {
                Seq::new(count as nat, |i: int| place(i, count as nat))
            }),
    {
        let mut r: Vec<Double> = Vec::new();
        if count < 2 {
            return r;
        }
        let mut i: usize = 0;
        while i < count
            invariant
                2 <= count,
                i <= count,
                r@ =~= Seq::new(i as nat, |k: int| place(k, count as nat)),
            decreases count - i,
        {
            r.push(Double::from_i128(i as i128).over(Double::from_i128((count - 1) as i128)));
            i = i + 1;
        }
        r
    }

    /// The default levels of `count` points. `powers` holds the powers of what `default_places`
    /// returns.
    pub fn generate_default_y(count: usize, powers: &Vec<Double>) -> (r: Vec<Double>)
        ensures
            r@ == default_levels(count as nat, powers@),
    {
        if count == 0 {
            return vec![Double::from_bits(BARE_LEVEL), Double::from_bits(ONE)];
        }
        if count == 1 {
            return vec![Double::from_bits(HALF)];
        }
        let low: Double = Double::from_bits(BARE_LEVEL);
        let one: Double = Double::from_bits(ONE);
        let thousand: Double = Double::from_bits(THOUSAND);
        let mut r: Vec<Double> = Vec::new();
        let mut i: usize = 0;
        while i < powers.len()
            invariant
                i <= powers@.len(),
                low == Double::from_bits(BARE_LEVEL),
                one == Double::from_bits(ONE),
                thousand == Double::from_bits(THOUSAND),
                r@ =~= Seq::new(i as nat, |k: int| default_level(powers@[k])),
            decreases powers@.len() - i,
        {
            let y: Double = low.plus(one.minus(low).times(powers[i]));
            r.push(y.times(thousand).rounded().over(thousand));
            i = i + 1;
        }
        r
    }

    /// The text of the file for light levels and brightnesses that are written as texts.
    pub fn save(lux: &Vec<String>, y: &Vec<String>) -> (r: String)
        ensures
            r@ == header() + state_lines(texts(lux@), texts(y@)),
    {
        let mut r: String = "# kirialsd calibrated curve: <lux> <brightness_fraction (0.01-1.00)>\n".to_owned();
        let ghost goal = r@ + state_lines(texts(lux@), texts(y@));
        let mut i: usize = 0;
        proof {
            assert(texts(lux@).skip(0) =~= texts(lux@));
            assert(texts(y@).skip(0) =~= texts(y@));
        }
        while i < lux.len() && i < y.len()
            invariant
                i <= lux@.len(),
                i <= y@.len(),
                goal == r@ + state_lines(texts(lux@).skip(i as int), texts(y@).skip(i as int)),
            decreases lux@.len() - i,
        {
            let ghost before = r@;
            let ghost rest_lux = texts(lux@).skip(i as int);
            let ghost rest_y = texts(y@).skip(i as int);
            r.append(lux[i].as_str());
            r.push(' ');
            r.append(y[i].as_str());
            r.push('\n');
            proof {
                assert(rest_lux.drop_first() =~= texts(lux@).skip(i + 1));
                assert(rest_y.drop_first() =~= texts(y@).skip(i + 1));
                let rest = state_lines(rest_lux.drop_first(), rest_y.drop_first());
                assert(before + (rest_lux[0] + seq![' '] + rest_y[0] + seq!['\n'] + rest) =~= r@ + rest);
            }
            i = i + 1;
        }
        proof {
            assert(r@ + Seq::<char>::empty() =~= r@);
        }
        r
    }
}

} // verus!
