//! The curve from ambient light to brightness.
//!
//! The curve runs through control points with a monotone cubic between neighbours. A manual change
//! of the brightness teaches it: the points near the present light are moved and the others are
//! pulled along as far as the order of the levels demands.

use vstd::prelude::*;
use crate::lesson::{find_closest, teach};
use crate::double::Double;
use crate::double::{HALF, ONE, THOUSAND, THREE, TWO, ZERO};

verus! {

/// The lowest level of the curve, 0.01.
pub const LOWEST_LEVEL: u64 = 0x3f84_7ae1_47ae_147b;

/// The level of a curve without points, 0.05.
pub const BARE_LEVEL: u64 = 0x3fa9_9999_9999_999a;

/// A chord flatter than this, 1e-9, is taken to be level.
pub const FLAT: u64 = 0x3e11_2e0b_e826_d695;

/// A divisor at or below this, 1e-6, is not divided by.
pub const TINY: u64 = 0x3eb0_c6f7_a0b5_ed8d;

/// The square of the greatest tangent, in chords, that keeps a cubic monotone: 9.0.
pub const NINE: u64 = 0x4022_0000_0000_0000;

/// 1.5: how far beyond its last point the curve still learns, and the reach of a lesson in
/// logarithmic light.
pub const REACH: u64 = 0x3ff8_0000_0000_0000;

/// The greatest finite value.
pub const GREATEST: u64 = 0x7fef_ffff_ffff_ffff;

/// A control point: `x` is the light as a fraction of the curve's range, `y` the brightness.
#[derive(Debug, Clone, Copy, PartialEq, Eq, Structural)]
pub struct Point {
    pub x: Double,
    pub y: Double,
}

/// Light and brightness control points with the tangents of the cubics between them.
pub struct ClightCurve {
    pub points: Vec<Point>,
    pub max_lux: Double,
    pub shutter_threshold: Double,
    /// The tangents at the points, as `recompute` leaves them.
    pub slopes: Vec<Double>,
}

// ---------------------------------------------------------------------------
// The curve as a function
// ---------------------------------------------------------------------------

/// The light as a fraction of the range.
pub open spec fn normalized(lux: Double, max_lux: Double) -> Double {
    if lux.is_nan() || max_lux.at_most(Double::from_bits(ZERO)) {
        Double::from_bits(ZERO)
    } else {
        lux.over(max_lux).clamp(Double::from_bits(ZERO), Double::from_bits(ONE))
    }
}

/// A level held to the range of the curve.
pub open spec fn held(level: Double) -> Double {
    level.clamp(Double::from_bits(LOWEST_LEVEL), Double::from_bits(ONE))
}

/// The points stand in the order of the light.
pub open spec fn ascending(points: Seq<Point>) -> bool {
    forall|i: int, j: int|
        #![trigger points[i], points[j]]
        0 <= i <= j < points.len() ==> points[i].x.at_most(points[j].x)
}

/// The last point at or before `x`, or -1 where there is none.
pub open spec fn segment(points: Seq<Point>, x: Double) -> int
    decreases points.len(),
{
    if points.len() == 0 {
        -1
    } else if points.last().x.at_most(x) {
        points.len() - 1
    } else {
        segment(points.drop_last(), x)
    }
}

/// The cubic Hermite polynomial from `p` to `q` with the tangents `a` and `b`, at `x`.
pub open spec fn hermite(p: Point, q: Point, a: Double, b: Double, x: Double) -> Double {
    let one = Double::from_bits(ONE);
    let two = Double::from_bits(TWO);
    let three = Double::from_bits(THREE);
    let h = q.x.minus(p.x);
    let t = x.minus(p.x).over(h);
    let t2 = t.times(t);
    let t3 = t2.times(t);
    let h00 = two.times(t3).minus(three.times(t2)).plus(one);
    let h10 = t3.minus(two.times(t2)).plus(t);
    let h01 = two.negated().times(t3).plus(three.times(t2));
    let h11 = t3.minus(t2);
    h00.times(p.y).plus(h10.times(h).times(a)).plus(h01.times(q.y)).plus(h11.times(h).times(b))
}

/// The brightness at `x`.
pub open spec fn level(points: Seq<Point>, slopes: Seq<Double>, x: Double) -> Double {
    if points.len() == 0 {
        Double::from_bits(BARE_LEVEL)
    } else if x.at_most(points[0].x) {
        points[0].y
    } else if points.last().x.at_most(x) || x.is_nan() {
        points.last().y
    } else {
        let i = segment(points, x);
        let p = points[i];
        let q = points[i + 1];
        if p.x.same(x) || q.x.minus(p.x).at_most(Double::from_bits(ZERO)) {
            p.y
        } else {
            held(hermite(p, q, slopes[i], slopes[i + 1], x))
        }
    }
}

// ---------------------------------------------------------------------------
// Tangents
// ---------------------------------------------------------------------------

/// The slope of the chord between two points.
pub open spec fn chord(p: Point, q: Point) -> Double {
    let h = q.x.minus(p.x);
    if Double::from_bits(ZERO).less(h) {
        q.y.minus(p.y).over(h)
    } else {
        Double::from_bits(ZERO)
    }
}

/// The tangent at a point before it is limited: the mean of the two chords there, or the only one.
pub open spec fn mean_slope(points: Seq<Point>, i: int) -> Double {
    let n = points.len();
    if i == 0 {
        chord(points[0], points[1])
    } else if i == n - 1 {
        chord(points[n - 2], points[n - 1])
    } else {
        chord(points[i - 1], points[i]).plus(chord(points[i], points[i + 1])).times(
            Double::from_bits(HALF),
        )
    }
}

/// The two tangents of an interval with the chord `d`, brought into the circle in which the cubic
/// is monotone.
pub open spec fn limited_pair(a: Double, b: Double, d: Double) -> (Double, Double) {
    let alpha = a.over(d);
    let beta = b.over(d);
    let dist = alpha.times(alpha).plus(beta.times(beta));
    if d.absolute().less(Double::from_bits(FLAT)) {
        (Double::from_bits(ZERO), Double::from_bits(ZERO))
    } else if Double::from_bits(NINE).less(dist) {
        let tau = Double::from_bits(THREE).over(dist.square_root());
        (tau.times(alpha).times(d), tau.times(beta).times(d))
    } else {
        (a, b)
    }
}

/// The tangents after the first `k` intervals have been limited, from the left to the right.
pub open spec fn limited(points: Seq<Point>, k: nat) -> Seq<Double>
    decreases k,
{
    if k == 0 {
        Seq::new(points.len(), |i: int| mean_slope(points, i))
    } else {
        let before = limited(points, (k - 1) as nat);
        let (a, b) = limited_pair(before[k - 1], before[k as int], chord(points[k - 1], points[k as int]));
        before.update(k - 1, a).update(k as int, b)
    }
}

/// The tangents of the curve through `points`.
pub open spec fn tangents(points: Seq<Point>) -> Seq<Double> {
    if points.len() < 2 {
        Seq::new(points.len(), |i: int| Double::from_bits(ZERO))
    } else {
        limited(points, (points.len() - 1) as nat)
    }
}

/// The brightnesses of points.
pub open spec fn levels(points: Seq<Point>) -> Seq<Double> {
    Seq::new(points.len(), |i: int| points[i].y)
}

/// Each level raised to that of the point before it, from the left to the right.
pub open spec fn levelled(points: Seq<Point>) -> Seq<Point>
    decreases points.len(),
{
    if points.len() == 0 {
        points
    } else {
        let before = levelled(points.drop_last());
        let p = points.last();
        if before.len() > 0 && p.y.less(before.last().y) {
            before.push(Point { x: p.x, y: before.last().y })
        } else {
            before.push(p)
        }
    }
}

/// Points with other levels.
pub open spec fn with_levels(points: Seq<Point>, ys: Seq<Double>) -> Seq<Point> {
    Seq::new(points.len(), |i: int| Point { x: points[i].x, y: ys[i] })
}

/// The light as a fraction of the range, which may lie beyond it.
pub open spec fn position(lux: Double, max_lux: Double) -> Double {
    if Double::from_bits(ZERO).less(max_lux) {
        lux.over(max_lux)
    } else {
        Double::from_bits(ZERO)
    }
}

/// What `f(1 + lux)` is to be computed of before a lesson, `f` being the natural logarithm: first
/// for the present light, then for each point.
pub open spec fn log_inputs(points: Seq<Point>, max_lux: Double, lux: Double) -> Seq<Double> {
    let one = Double::from_bits(ONE);
    Seq::new(
        points.len() + 1,
        |i: int|
            if i == 0 {
                one.plus(lux.greater_of(Double::from_bits(ZERO)))
            } else {
                one.plus(points[i - 1].x.times(max_lux))
            },
    )
}

/// The light levels of points, rounded to whole lux.
pub open spec fn whole_lights(points: Seq<Point>, max_lux: Double) -> Seq<Double> {
    Seq::new(points.len(), |i: int| points[i].x.times(max_lux).rounded())
}

/// The range that a curve is given: `max_lux`, or 1000 where that is no range.
pub open spec fn safe_range(max_lux: Double) -> Double {
    if Double::from_bits(ZERO).less(max_lux) {
        max_lux
    } else {
        Double::from_bits(THOUSAND)
    }
}

/// The control point for a light level and a brightness.
pub open spec fn placed(lux: Double, y: Double, range: Double) -> Point {
    Point {
        x: lux.over(range).clamp(Double::from_bits(ZERO), Double::from_bits(ONE)),
        y: held(y),
    }
}

/// The control points for the light levels and brightnesses of a new curve.
pub open spec fn all_placed(lux: Seq<Double>, y: Seq<Double>, range: Double) -> Seq<Point> {
    Seq::new(lux.len(), |i: int| placed(lux[i], y[i], range))
}

/// `p` put into points in the order of the light, behind those at the same light.
pub open spec fn inserted(points: Seq<Point>, p: Point) -> Seq<Point>
    decreases points.len(),
{
    if points.len() == 0 || !p.x.less(points.last().x) {
        points.push(p)
    } else {
        inserted(points.drop_last(), p).push(points.last())
    }
}

/// The points in the order of the light, those at the same light in the order they came.
pub open spec fn sorted(points: Seq<Point>) -> Seq<Point>
    decreases points.len(),
{
    if points.len() == 0 {
        points
    } else {
        inserted(sorted(points.drop_last()), points.last())
    }
}

/// Each point has a place on the light axis.
pub open spec fn all_on_axis(points: Seq<Point>) -> bool {
    forall|i: int| 0 <= i < points.len() ==> !(#[trigger] points[i]).x.is_nan()
}

impl ClightCurve {
    /// There is a tangent for each point and the points stand in the order of the light.
    pub open spec fn well_formed(&self) -> bool {
        &&& ascending(self.points@)
        &&& self.slopes@.len() == self.points@.len()
    }

    /// Whether a curve can be made: there are two points at least, as many levels, and each point has a
    /// place on the light axis.
    pub fn accepts(x_lux: &[Double], y_coords: &[Double], max_lux: Double) -> (r: bool)
        ensures
            r == (x_lux@.len() == y_coords@.len() && x_lux@.len() >= 2 && all_on_axis(
                all_placed(x_lux@, y_coords@, safe_range(max_lux)),
            )),
    {
        if x_lux.len() != y_coords.len() || x_lux.len() < 2 {
            return false;
        }
        let zero: Double = Double::from_bits(ZERO);
        let one: Double = Double::from_bits(ONE);
        let range: Double = if zero.less(max_lux) {
            max_lux
        } else {
            Double::from_bits(THOUSAND)
        };
        let ghost all = all_placed(x_lux@, y_coords@, range);
        let mut i: usize = 0;
        while i < x_lux.len()
            invariant
                i <= x_lux@.len() == y_coords@.len(),
                zero == Double::from_bits(ZERO),
                one == Double::from_bits(ONE),
                range == safe_range(max_lux),
                all == all_placed(x_lux@, y_coords@, range),
                forall|k: int| 0 <= k < i ==> !(#[trigger] all[k]).x.is_nan(),
            decreases x_lux@.len() - i,
        {
            if x_lux[i].over(range).clamp(zero, one).is_nan() {
                assert(all[i as int].x.is_nan());
                return false;
            }
            i = i + 1;
        }
        true
    }

    /// A curve through the points with the given light levels and brightnesses.
    pub fn new(x_lux: &[Double], y_coords: &[Double], max_lux: Double, shutter_threshold: Double) -> (r: Self)
        requires
            x_lux@.len() == y_coords@.len(),
            x_lux@.len() >= 2,
            all_on_axis(all_placed(x_lux@, y_coords@, safe_range(max_lux))),
        ensures
            r.points@ == levelled(sorted(all_placed(x_lux@, y_coords@, safe_range(max_lux)))),
            r.max_lux == safe_range(max_lux),
            r.shutter_threshold == shutter_threshold,
            r.slopes@ == tangents(r.points@),
            r.points@.len() == x_lux@.len(),
            r.well_formed(),
            crate::lesson::all_in_range(levels(r.points@)),
    {
        let zero: Double = Double::from_bits(ZERO);
        let one: Double = Double::from_bits(ONE);
        let range: Double = if zero.less(max_lux) {
            max_lux
        } else {
            Double::from_bits(THOUSAND)
        };
        let ghost all = all_placed(x_lux@, y_coords@, range);
        let mut points: Vec<Point> = Vec::new();
        let mut i: usize = 0;
        while i < x_lux.len()
            invariant
                i <= x_lux@.len() == y_coords@.len(),
                zero == Double::from_bits(ZERO),
                one == Double::from_bits(ONE),
                all == all_placed(x_lux@, y_coords@, range),
                points@ == sorted(all.take(i as int)),
                points@.len() == i,
            decreases x_lux@.len() - i,
        {
            let p: Point = Point {
                x: x_lux[i].over(range).clamp(zero, one),
                y: y_coords[i].clamp(Double::from_bits(LOWEST_LEVEL), one),
            };
            let mut j: usize = i;
            while j > 0 && p.x.less(points[j - 1].x)
                invariant
                    j <= i == points@.len(),
                    forall|k: int| j <= k < i ==> p.x.less(#[trigger] points@[k].x),
                decreases j,
            {
                j = j - 1;
            }
            proof {
                lemma_inserted_is(points@, p, j as int);
                assert(all.take(i + 1).drop_last() =~= all.take(i as int));
                assert(all.take(i + 1).last() == p);
            }
            points.insert(j, p);
            i = i + 1;
        }
        assert(all.take(x_lux@.len() as int) =~= all);
        let mut curve: ClightCurve = ClightCurve {
            points,
            max_lux: range,
            shutter_threshold,
            slopes: Vec::new(),
        };
        proof {
            lemma_sorted_ascending(all);
            lemma_sorted_in_range(all);
            lemma_levelled(curve.points@);
            lemma_levelled_in_range(curve.points@);
        }
        curve.enforce_global_monotonicity();
        curve.recompute();
        proof {
            lemma_tangents_len(curve.points@);
        }
        curve
    }

    /// Raises each level that is below the one before it to that one.
    pub fn enforce_global_monotonicity(&mut self)
        ensures
            final(self).points@ == levelled(old(self).points@),
            final(self).max_lux == old(self).max_lux,
            final(self).shutter_threshold == old(self).shutter_threshold,
            final(self).slopes == old(self).slopes,
    {
        let n: usize = self.points.len();
        let ghost before = self.points@;
        let mut i: usize = 0;
        while i < n
            invariant
                i <= n == self.points@.len() == before.len(),
                self.points@.take(i as int) =~= levelled(before.take(i as int)),
                forall|k: int| i <= k < n ==> self.points@[k] == before[k],
                self.max_lux == old(self).max_lux,
                self.shutter_threshold == old(self).shutter_threshold,
                self.slopes == old(self).slopes,
            decreases n - i,
        {
            let ghost so_far = self.points@;
            if i > 0 && self.points[i].y.less(self.points[i - 1].y) {
                let p: Point = Point { x: self.points[i].x, y: self.points[i - 1].y };
                self.points.set(i, p);
            }
            proof {
                assert(before.take(i + 1).drop_last() =~= before.take(i as int));
                assert(so_far.take(i as int).len() == i);
                if i > 0 {
                    assert(so_far.take(i as int).last() == so_far[i - 1]);
                }
                assert(self.points@.take(i + 1) =~= so_far.take(i as int).push(self.points@[i as int]));
            }
            i = i + 1;
        }
        proof {
            assert(before.take(n as int) =~= before);
            assert(self.points@.take(n as int) =~= self.points@);
        }
    }

    /// Computes the tangents: the mean of the chords at each point, limited from the left to the
    /// right so that no cubic between two points leaves the range of their levels.
    pub fn recompute(&mut self)
        ensures
            final(self).slopes@ == tangents(old(self).points@),
            final(self).points == old(self).points,
            final(self).max_lux == old(self).max_lux,
            final(self).shutter_threshold == old(self).shutter_threshold,
    {
        let n: usize = self.points.len();
        let zero: Double = Double::from_bits(ZERO);
        let mut slopes: Vec<Double> = Vec::new();
        if n < 2 {
            let mut i: usize = 0;
            while i < n
                invariant
                    i <= n == self.points@.len(),
                    slopes@ =~= Seq::new(i as nat, |k: int| Double::from_bits(ZERO)),
                    zero == Double::from_bits(ZERO),
                decreases n - i,
            {
                slopes.push(zero);
                i = i + 1;
            }
            self.slopes = slopes;
            return;
        }
        let mut deltas: Vec<Double> = Vec::new();
        let mut i: usize = 0;
        while i < n - 1
            invariant
                2 <= n == self.points@.len(),
                i <= n - 1,
                zero == Double::from_bits(ZERO),
                deltas@.len() == i,
                forall|k: int| 0 <= k < i ==> #[trigger] deltas@[k] == chord(self.points@[k], self.points@[k + 1]),
            decreases n - i,
        {
            let h: Double = self.points[i + 1].x.minus(self.points[i].x);
            if zero.less(h) {
                deltas.push(self.points[i + 1].y.minus(self.points[i].y).over(h));
            } else {
                deltas.push(zero);
            }
            i = i + 1;
        }
        i = 0;
        while i < n
            invariant
                2 <= n == self.points@.len(),
                i <= n,
                deltas@.len() == n - 1,
                forall|k: int| 0 <= k < n - 1 ==> #[trigger] deltas@[k] == chord(self.points@[k], self.points@[k + 1]),
                slopes@.len() == i,
                forall|k: int| 0 <= k < i ==> #[trigger] slopes@[k] == mean_slope(self.points@, k),
            decreases n - i,
        {
            if i == 0 {
                slopes.push(deltas[0]);
            } else if i == n - 1 {
                slopes.push(deltas[n - 2]);
            } else {
                slopes.push(deltas[i - 1].plus(deltas[i]).times(Double::from_bits(HALF)));
            }
            i = i + 1;
        }
        proof {
            assert(slopes@ =~= limited(self.points@, 0));
        }
        i = 0;
        while i < n - 1
            invariant
                2 <= n == self.points@.len(),
                i <= n - 1,
                zero == Double::from_bits(ZERO),
                deltas@.len() == n - 1,
                forall|k: int| 0 <= k < n - 1 ==> #[trigger] deltas@[k] == chord(self.points@[k], self.points@[k + 1]),
                slopes@.len() == n,
                slopes@ == limited(self.points@, i as nat),
            decreases n - i,
        {
            let d: Double = deltas[i];
            if d.absolute().less(Double::from_bits(FLAT)) {
                slopes.set(i, zero);
                slopes.set(i + 1, zero);
            } else {
                let alpha: Double = slopes[i].over(d);
                let beta: Double = slopes[i + 1].over(d);
                let dist: Double = alpha.times(alpha).plus(beta.times(beta));
                if Double::from_bits(NINE).less(dist) {
                    let tau: Double = Double::from_bits(THREE).over(dist.square_root());
                    slopes.set(i, tau.times(alpha).times(d));
                    slopes.set(i + 1, tau.times(beta).times(d));
                }
            }
            proof {
                assert(slopes@ =~= limited(self.points@, (i + 1) as nat));
            }
            i = i + 1;
        }
        self.slopes = slopes;
    }

    /// How far a brightness that the user chose is from the curve.
    pub open spec fn deviation(&self, lux: Double, user_br: Double) -> Double {
        held(user_br).minus(level(self.points@, self.slopes@, normalized(lux, self.max_lux)))
    }

    /// When a brightness that the user chose is a lesson: it deviates from the curve by the shutter
    /// threshold at least, and the light is not far beyond the last point.
    pub open spec fn learns_from(&self, lux: Double, user_br: Double) -> bool {
        &&& self.points@.len() >= 2
        &&& !lux.is_nan()
        &&& !user_br.is_nan()
        &&& !self.deviation(lux, user_br).absolute().less(self.shutter_threshold)
        &&& !Double::from_bits(REACH).less(position(lux, self.max_lux))
    }

    /// The point that a lesson at `lux` is about.
    pub open spec fn pivot(&self, lux: Double) -> int {
        crate::lesson::closest(
            self.points@,
            position(lux, self.max_lux).clamp(Double::from_bits(ZERO), Double::from_bits(ONE)),
        ).0
    }

    /// The points after the lesson that `user_br` is right at `lux`. `logs` holds the natural
    /// logarithms of `log_inputs`.
    pub open spec fn lesson(&self, lux: Double, user_br: Double, logs: Seq<Double>) -> Seq<Point> {
        levelled(
            with_levels(
                self.points@,
                crate::lesson::taught(
                    levels(self.points@),
                    self.pivot(lux) as nat,
                    held(user_br),
                    self.deviation(lux, user_br),
                    logs,
                ),
            ),
        )
    }

    /// What the natural logarithm is to be computed of before a lesson at `lux`.
    pub fn log_arguments(&self, lux: Double) -> (r: Vec<Double>)
        requires
            self.points@.len() < usize::MAX,
        ensures
            r@ == log_inputs(self.points@, self.max_lux, lux),
    {
        let one: Double = Double::from_bits(ONE);
        let mut r: Vec<Double> = Vec::new();
        r.push(one.plus(lux.greater_of(Double::from_bits(ZERO))));
        let mut i: usize = 0;
        while i < self.points.len()
            invariant
                i <= self.points@.len(),
                one == Double::from_bits(ONE),
                r@ =~= log_inputs(self.points@, self.max_lux, lux).take(i + 1),
            decreases self.points@.len() - i,
        {
            r.push(one.plus(self.points[i].x.times(self.max_lux)));
            i = i + 1;
        }
        assert(log_inputs(self.points@, self.max_lux, lux).take(i + 1) =~= log_inputs(
            self.points@,
            self.max_lux,
            lux,
        ));
        r
    }

    /// Learns the brightness `user_br` that the user chose at `lux`, and says whether it did.
    /// `logs` holds the natural logarithms of what `log_arguments` returns for `lux`.
    pub fn on_user_brightness_change(&mut self, lux: Double, user_br: Double, logs: &Vec<Double>) -> (r: bool)
        requires
            old(self).well_formed(),
            crate::lesson::all_in_range(levels(old(self).points@)),
            logs@.len() == old(self).points@.len() + 1,
        ensures
            r == old(self).learns_from(lux, user_br),
            !r ==> *final(self) == *old(self),
            r ==> final(self).points@ == old(self).lesson(lux, user_br, logs@),
            r ==> final(self).slopes@ == tangents(final(self).points@),
            final(self).max_lux == old(self).max_lux,
            final(self).shutter_threshold == old(self).shutter_threshold,
            final(self).points@.len() == old(self).points@.len(),
            final(self).well_formed(),
            crate::lesson::all_in_range(levels(final(self).points@)),
    {
        let n: usize = self.points.len();
        if n < 2 || lux.is_nan() || user_br.is_nan() {
            return false;
        }
        let zero: Double = Double::from_bits(ZERO);
        let one: Double = Double::from_bits(ONE);
        let raw_x: Double = if zero.less(self.max_lux) {
            lux.over(self.max_lux)
        } else {
            zero
        };
        let current_y: Double = self.evaluate(lux);
        let target_y: Double = user_br.clamp(Double::from_bits(LOWEST_LEVEL), one);
        let delta: Double = target_y.minus(current_y);
        if delta.absolute().less(self.shutter_threshold) {
            return false;
        }
        if Double::from_bits(REACH).less(raw_x) {
            return false;
        }
        let pivot: usize = find_closest(&self.points, raw_x.clamp(zero, one));
        let ys: Vec<Double> = self.get_y_values();
        let new_ys: Vec<Double> = teach(&ys, pivot, target_y, delta, logs);
        let ghost goal = with_levels(self.points@, new_ys@);
        let mut i: usize = 0;
        while i < n
            invariant
                i <= n == self.points@.len() == old(self).points@.len(),
                n == new_ys@.len(),
                goal == with_levels(old(self).points@, new_ys@),
                forall|k: int| 0 <= k < i ==> #[trigger] self.points@[k] == goal[k],
                forall|k: int| i <= k < n ==> #[trigger] self.points@[k] == old(self).points@[k],
                self.max_lux == old(self).max_lux,
                self.shutter_threshold == old(self).shutter_threshold,
            decreases n - i,
        {
            let p: Point = Point { x: self.points[i].x, y: new_ys[i] };
            self.points.set(i, p);
            i = i + 1;
        }
        proof {
            assert(self.points@ =~= goal);
            assert(ascending(goal)) by {
                assert forall|a: int, b: int|
                    #![trigger goal[a], goal[b]]
                    0 <= a <= b < goal.len() implies goal[a].x.at_most(goal[b].x) by {
                    assert(old(self).points@[a].x.at_most(old(self).points@[b].x));
                }
            }
            lemma_levelled(goal);
            lemma_levelled_in_range(goal);
            lemma_tangents_len(levelled(goal));
        }
        self.enforce_global_monotonicity();
        self.recompute();
        true
    }

    /// The light levels of the points, rounded to whole lux.
    pub fn get_lux_points(&self) -> (r: Vec<Double>)
        ensures
            r@ == Seq::new(self.points@.len(), |i: int| self.points@[i].x.times(self.max_lux).rounded()),
            r@ == whole_lights(self.points@, self.max_lux),
    {
        let mut r: Vec<Double> = Vec::new();
        let mut i: usize = 0;
        while i < self.points.len()
            invariant
                i <= self.points@.len(),
                r@ =~= Seq::new(i as nat, |k: int| self.points@[k].x.times(self.max_lux).rounded()),
            decreases self.points@.len() - i,
        {
            r.push(self.points[i].x.times(self.max_lux).rounded());
            i = i + 1;
        }
        r
    }

    /// The brightnesses of the points.
    pub fn get_y_values(&self) -> (r: Vec<Double>)
        ensures
            r@ == levels(self.points@),
    {
        let mut r: Vec<Double> = Vec::new();
        let mut i: usize = 0;
        while i < self.points.len()
            invariant
                i <= self.points@.len(),
                r@ =~= levels(self.points@).take(i as int),
            decreases self.points@.len() - i,
        {
            r.push(self.points[i].y);
            i = i + 1;
        }
        assert(levels(self.points@).take(i as int) =~= levels(self.points@));
        r
    }

    /// The light as a fraction of the curve's range.
    pub fn normalize_lux(&self, lux: Double) -> (r: Double)
        ensures
            r == normalized(lux, self.max_lux),
    {
        if lux.is_nan() || self.max_lux.at_most(Double::from_bits(ZERO)) {
            return Double::from_bits(ZERO);
        }
        lux.over(self.max_lux).clamp(Double::from_bits(ZERO), Double::from_bits(ONE))
    }

    /// The last point at or before `x`, by bisection.
    fn find_segment(&self, x: Double) -> (r: usize)
        requires
            ascending(self.points@),
            self.points@.len() >= 2,
            self.points@[0].x.at_most(x),
            x.less(self.points@.last().x),
        ensures
            r == segment(self.points@, x),
            r + 1 < self.points@.len(),
    {
        let mut low: usize = 0;
        let mut high: usize = self.points.len() - 1;
        while high - low > 1
            invariant
                ascending(self.points@),
                low < high < self.points@.len(),
                self.points@[low as int].x.at_most(x),
                x.less(self.points@[high as int].x),
            decreases high - low,
        {
            let mid: usize = low + (high - low) / 2;
            if self.points[mid].x.at_most(x) {
                low = mid;
            } else {
                high = mid;
            }
        }
        proof {
            lemma_segment_is(self.points@, x, low as int);
        }
        low
    }

    /// The brightness for a light level, between 0.01 and 1.0.
    pub fn evaluate(&self, lux: Double) -> (r: Double)
        requires
            self.well_formed(),
        ensures
            r == level(self.points@, self.slopes@, normalized(lux, self.max_lux)),
    {
        let x: Double = self.normalize_lux(lux);
        let n: usize = self.points.len();
        if n == 0 {
            return Double::from_bits(BARE_LEVEL);
        }
        if x.at_most(self.points[0].x) {
            return self.points[0].y;
        }
        if self.points[n - 1].x.at_most(x) || x.is_nan() {
            return self.points[n - 1].y;
        }
        let i: usize = self.find_segment(x);
        let p: Point = self.points[i];
        let q: Point = self.points[i + 1];
        let h: Double = q.x.minus(p.x);
        if p.x.same(x) || h.at_most(Double::from_bits(ZERO)) {
            return p.y;
        }
        let t: Double = x.minus(p.x).over(h);
        let t2: Double = t.times(t);
        let t3: Double = t2.times(t);
        let one: Double = Double::from_bits(ONE);
        let two: Double = Double::from_bits(TWO);
        let three: Double = Double::from_bits(THREE);
        let h00: Double = two.times(t3).minus(three.times(t2)).plus(one);
        let h10: Double = t3.minus(two.times(t2)).plus(t);
        let h01: Double = two.negated().times(t3).plus(three.times(t2));
        let h11: Double = t3.minus(t2);
        let y: Double = h00.times(p.y).plus(h10.times(h).times(self.slopes[i])).plus(
            h01.times(q.y),
        ).plus(h11.times(h).times(self.slopes[i + 1]));
        y.clamp(Double::from_bits(LOWEST_LEVEL), one)
    }
}

/// A point at or before `x` that is followed by one after `x` is the last one at or before `x`.
pub proof fn lemma_segment_is(points: Seq<Point>, x: Double, i: int)
    requires
        ascending(points),
        0 <= i,
        i + 1 < points.len(),
        points[i].x.at_most(x),
        x.less(points[i + 1].x),
    ensures
        segment(points, x) == i,
    decreases points.len(),
{
    let n = points.len();
    assert(points[i + 1].x.at_most(points[n - 1].x));
    let shorter = points.drop_last();
    if i + 1 < n - 1 {
        assert(ascending(shorter)) by {
            assert forall|a: int, b: int|
                #![trigger shorter[a], shorter[b]]
                0 <= a <= b < shorter.len() implies shorter[a].x.at_most(shorter[b].x) by {
                assert(points[a].x.at_most(points[b].x));
            }
        }
        lemma_segment_is(shorter, x, i);
    } else {
        assert(shorter.last() == points[i]);
    }
}

/// Where `p` goes in.
proof fn lemma_inserted_is(points: Seq<Point>, p: Point, j: int)
    requires
        0 <= j <= points.len(),
        forall|k: int| j <= k < points.len() ==> p.x.less(#[trigger] points[k].x),
        j == 0 || !p.x.less(points[j - 1].x),
    ensures
        inserted(points, p) == points.insert(j, p),
    decreases points.len(),
{
    if j == points.len() {
        assert(points.insert(j, p) =~= points.push(p));
    } else {
        let shorter = points.drop_last();
        lemma_inserted_is(shorter, p, j);
        assert(points.insert(j, p) =~= shorter.insert(j, p).push(points.last()));
    }
}

/// Insertion keeps the order of the light.
proof fn lemma_inserted_ascending(points: Seq<Point>, p: Point)
    requires
        ascending(points),
        !p.x.is_nan(),
    ensures
        ascending(inserted(points, p)),
        inserted(points, p).len() == points.len() + 1,
        inserted(points, p).last() == p || (points.len() > 0 && inserted(points, p).last() == points.last()),
        points.len() > 0 ==> points.last().x.at_most(inserted(points, p).last().x),
        p.x.at_most(inserted(points, p).last().x),
    decreases points.len(),
{
    let r = inserted(points, p);
    if points.len() == 0 || !p.x.less(points.last().x) {
        if points.len() > 0 {
            let n = points.len();
            assert forall|i: int, j: int|
                #![trigger r[i], r[j]]
                0 <= i <= j < r.len() implies r[i].x.at_most(r[j].x) by {
                if j < n {
                    assert(points[i].x.at_most(points[j].x));
                } else if i < n {
                    assert(points[i].x.at_most(points[n - 1].x));
                }
            }
        }
    } else {
        let shorter = points.drop_last();
        assert(ascending(shorter)) by {
            assert forall|a: int, b: int|
                #![trigger shorter[a], shorter[b]]
                0 <= a <= b < shorter.len() implies shorter[a].x.at_most(shorter[b].x) by {
                assert(points[a].x.at_most(points[b].x));
            }
        }
        lemma_inserted_ascending(shorter, p);
        let before = inserted(shorter, p);
        let n = points.len();
        assert(before.last().x.at_most(points.last().x)) by {
            if shorter.len() > 0 {
                assert(points[n - 2].x.at_most(points[n - 1].x));
            }
        }
        assert forall|i: int, j: int|
            #![trigger r[i], r[j]]
            0 <= i <= j < r.len() implies r[i].x.at_most(r[j].x) by {
            if j < before.len() {
                assert(before[i].x.at_most(before[j].x));
            } else if i < before.len() {
                assert(before[i].x.at_most(before[before.len() - 1].x));
            } else {
                assert(points[n - 1].x.at_most(points[n - 1].x));
            }
        }
    }
}

/// Points on the axis are sorted into the order of the light.
pub proof fn lemma_sorted_ascending(points: Seq<Point>)
    requires
        all_on_axis(points),
    ensures
        ascending(sorted(points)),
        sorted(points).len() == points.len(),
    decreases points.len(),
{
    if points.len() > 0 {
        let shorter = points.drop_last();
        assert(all_on_axis(shorter)) by {
            assert forall|i: int| 0 <= i < shorter.len() implies !(#[trigger] shorter[i]).x.is_nan() by {
                assert(shorter[i] == points[i]);
            }
        }
        lemma_sorted_ascending(shorter);
        lemma_inserted_ascending(sorted(shorter), points.last());
    }
}

/// Levelling moves no point along the axis.
pub proof fn lemma_levelled(points: Seq<Point>)
    ensures
        levelled(points).len() == points.len(),
        forall|i: int| 0 <= i < points.len() ==> #[trigger] levelled(points)[i].x == points[i].x,
        ascending(points) ==> ascending(levelled(points)),
    decreases points.len(),
{
    if points.len() > 0 {
        lemma_levelled(points.drop_last());
    }
    let r = levelled(points);
    if ascending(points) {
        assert forall|i: int, j: int|
            #![trigger r[i], r[j]]
            0 <= i <= j < r.len() implies r[i].x.at_most(r[j].x) by {
            assert(points[i].x.at_most(points[j].x));
        }
    }
}

proof fn lemma_limited_len(points: Seq<Point>, k: nat)
    requires
        k < points.len(),
    ensures
        limited(points, k).len() == points.len(),
    decreases k,
{
    if k > 0 {
        lemma_limited_len(points, (k - 1) as nat);
    }
}

/// There is a tangent for each point.
pub proof fn lemma_tangents_len(points: Seq<Point>)
    ensures
        tangents(points).len() == points.len(),
{
    if points.len() >= 2 {
        lemma_limited_len(points, (points.len() - 1) as nat);
    }
}

/// Levelling keeps the levels in range.
proof fn lemma_levelled_in_range(points: Seq<Point>)
    requires
        forall|i: int| 0 <= i < points.len() ==> crate::lesson::in_range(#[trigger] points[i].y),
    ensures
        crate::lesson::all_in_range(levels(levelled(points))),
    decreases points.len(),
{
    lemma_levelled(points);
    if points.len() > 0 {
        let shorter = points.drop_last();
        assert forall|i: int| 0 <= i < shorter.len() implies crate::lesson::in_range(#[trigger] shorter[i].y) by {
            assert(shorter[i] == points[i]);
        }
        lemma_levelled(shorter);
        lemma_levelled_in_range(shorter);
        let before = levelled(shorter);
        let r = levelled(points);
        assert forall|i: int| 0 <= i < r.len() implies crate::lesson::in_range(#[trigger] levels(r)[i]) by {
            if i < before.len() {
                assert(levels(before)[i] == r[i].y);
            } else {
                assert(points[i] == points.last());
                if before.len() > 0 {
                    assert(levels(before)[before.len() - 1] == before.last().y);
                }
            }
        }
    }
}

/// Sorting keeps the levels in range.
proof fn lemma_sorted_in_range(points: Seq<Point>)
    requires
        forall|i: int| 0 <= i < points.len() ==> crate::lesson::in_range(#[trigger] points[i].y),
    ensures
        forall|i: int| 0 <= i < sorted(points).len() ==> crate::lesson::in_range(#[trigger] sorted(points)[i].y),
    decreases points.len(),
{
    if points.len() > 0 {
        let shorter = points.drop_last();
        assert forall|i: int| 0 <= i < shorter.len() implies crate::lesson::in_range(#[trigger] shorter[i].y) by {
            assert(shorter[i] == points[i]);
        }
        lemma_sorted_in_range(shorter);
        assert(points[points.len() - 1] == points.last());
        lemma_inserted_in_range(sorted(shorter), points.last());
    }
}

proof fn lemma_inserted_in_range(points: Seq<Point>, p: Point)
    requires
        forall|i: int| 0 <= i < points.len() ==> crate::lesson::in_range(#[trigger] points[i].y),
        crate::lesson::in_range(p.y),
    ensures
        forall|i: int| 0 <= i < inserted(points, p).len() ==> crate::lesson::in_range(#[trigger] inserted(points, p)[i].y),
    decreases points.len(),
{
    if points.len() > 0 && p.x.less(points.last().x) {
        let shorter = points.drop_last();
        assert forall|i: int| 0 <= i < shorter.len() implies crate::lesson::in_range(#[trigger] shorter[i].y) by {
            assert(shorter[i] == points[i]);
        }
        lemma_inserted_in_range(shorter, p);
        let before = inserted(shorter, p);
        let r = inserted(points, p);
        assert forall|i: int| 0 <= i < r.len() implies crate::lesson::in_range(#[trigger] r[i].y) by {
            if i < before.len() {
                assert(r[i] == before[i]);
            } else {
                assert(r[i] == points[points.len() - 1]);
            }
        }
    } else {
        let r = inserted(points, p);
        assert forall|i: int| 0 <= i < r.len() implies crate::lesson::in_range(#[trigger] r[i].y) by {
            if i < points.len() {
                assert(r[i] == points[i]);
            }
        }
    }
}

} // verus!
