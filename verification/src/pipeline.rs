//! The stroke-processing pipeline: point admission, straightening on
//! pause, resampling, corner-cutting and averaging smoothing, and point
//! interpolation.

use vstd::prelude::*;
use crate::geom::{
    Point, valid_point, dist_sq, dist_sq_i64, collinear_spec, is_collinear, lerp_point,
    lerp_point_exec, mul_div_floor, sqrt_floor, is_sqrt_floor, lemma_sqrt_floor_unique,
    lemma_sqrt_below, dist_i64, MAX_COORD, UNIT,
};
use crate::state::{copy_points, copy_widths, MAX_POINT_WIDTH, MAX_STROKE_POINTS};

verus! {

/// Minimum travel, in fixed-point steps, before a new input sample is
/// admitted into a stroke (one canvas unit).
pub const ADMIT_DIST: i64 = 1_000;

/// Target spacing of resampled stroke points (two canvas units).
pub const RESAMPLE_SPACING: i64 = 2_000;

/// How long the pointer must rest, in milliseconds, before an enabled
/// straightening check fires.
pub const STRAIGHTEN_PAUSE_MS: u64 = 500;

/// A new sample is admitted only if it has moved more than the admission
/// threshold away from the last admitted point.
pub open spec fn admits(last: Point, p: Point) -> bool {
    dist_sq(last, p) > ADMIT_DIST * ADMIT_DIST
}

/// Exact admission test.
pub fn should_admit(last: Point, p: Point) -> (r: bool)
    requires
        valid_point(last),
        valid_point(p),
    ensures
        r == admits(last, p),
{
    dist_sq_i64(last, p) > ADMIT_DIST * ADMIT_DIST
}

/// The admitted subsequence of a raw sample sequence: the first sample,
/// then every sample farther than the threshold from the last admitted
/// one.
pub open spec fn admitted_spec(s: Seq<Point>) -> Seq<Point>
    decreases s.len(),
{
    if s.len() == 0 {
        Seq::empty()
    } else if s.len() == 1 {
        s
    } else {
        let prev = admitted_spec(s.drop_last());
        if admits(prev.last(), s.last()) {
            prev.push(s.last())
        } else {
            prev
        }
    }
}

/// The admitted subsequence keeps the first sample and never becomes
/// empty.
pub proof fn lemma_admitted_head(s: Seq<Point>)
    requires
        s.len() >= 1,
    ensures
        admitted_spec(s).len() >= 1,
        admitted_spec(s)[0] == s[0],
    decreases s.len(),
{
    if s.len() > 1 {
        lemma_admitted_head(s.drop_last());
    }
}

/// Consecutive admitted points are always farther apart than the
/// admission threshold — here with no exception even for the final pair,
/// since release admits no extra sample.
pub proof fn lemma_admitted_gaps(s: Seq<Point>, i: int)
    requires
        0 <= i < admitted_spec(s).len() - 1,
    ensures
        dist_sq(admitted_spec(s)[i], admitted_spec(s)[i + 1]) > ADMIT_DIST * ADMIT_DIST,
    decreases s.len(),
{
    if s.len() > 1 {
        let prev = admitted_spec(s.drop_last());
        if admits(prev.last(), s.last()) {
            if i < prev.len() - 1 {
                lemma_admitted_gaps(s.drop_last(), i);
            } else {
                lemma_admitted_head(s.drop_last());
            }
        } else {
            lemma_admitted_gaps(s.drop_last(), i);
        }
    }
}

/// Apply the admission filter to a whole raw sample sequence.
pub fn apply_admission_filter(points: &Vec<Point>) -> (r: Vec<Point>)
    requires
        forall|i: int| 0 <= i < points@.len() ==> valid_point(#[trigger] points@[i]),
    ensures
        r@ == admitted_spec(points@),
{
    let n: usize = points.len();
    let mut r: Vec<Point> = Vec::new();
    if n == 0 {
        proof {
            assert(r@ =~= admitted_spec(points@));
        }
        return r;
    }
    r.push(points[0]);
    let mut i: usize = 1;
    while i < n
        invariant
            1 <= i <= n,
            n == points@.len(),
            forall|k: int| 0 <= k < points@.len() ==> valid_point(#[trigger] points@[k]),
            r@ == admitted_spec(points@.subrange(0, i as int)),
            r@.len() >= 1,
            valid_point(r@.last()),
        decreases n - i,
    {
        proof {
            let pre = points@.subrange(0, i as int);
            let cur = points@.subrange(0, i + 1 as int);
            assert(cur.drop_last() =~= pre);
            assert(cur.last() == points@[i as int]);
            lemma_admitted_head(pre);
        }
        let last: Point = r[r.len() - 1];
        if should_admit(last, points[i]) {
            r.push(points[i]);
        }
        i = i + 1;
    }
    proof {
        assert(points@.subrange(0, n as int) =~= points@);
    }
    r
}

/// The straightened form of a point sequence: collapsed to its two
/// endpoints when more than two points lie collinear within the
/// tolerance, unchanged otherwise. Collapsing only ever fires when it
/// shortens the sequence, so straightening is idempotent.
pub open spec fn straighten_spec(s: Seq<Point>, tol: int) -> Seq<Point> {
    if s.len() > 2 && collinear_spec(s, tol) {
        seq![s[0], s[s.len() - 1]]
    } else {
        s
    }
}

/// Straightening twice is the same as straightening once, for every
/// point sequence and every tolerance.
pub proof fn lemma_straighten_idempotent(s: Seq<Point>, tol: int)
    ensures
        straighten_spec(straighten_spec(s, tol), tol) == straighten_spec(s, tol),
{
    let once = straighten_spec(s, tol);
    assert(once.len() <= 2 || once == s);
}

/// Straighten a point sequence: the exact `straighten_spec`.
pub fn straighten(points: &Vec<Point>, tolerance: i64) -> (r: Vec<Point>)
    requires
        forall|i: int| 0 <= i < points@.len() ==> valid_point(#[trigger] points@[i]),
        0 <= tolerance <= MAX_COORD,
    ensures
        r@ == straighten_spec(points@, tolerance as int),
{
    if points.len() > 2 && is_collinear(points, tolerance) {
        let mut r: Vec<Point> = Vec::new();
        r.push(points[0]);
        r.push(points[points.len() - 1]);
        proof {
            assert(r@ =~= straighten_spec(points@, tolerance as int));
        }
        r
    } else {
        copy_points(points)
    }
}

/// One 25/75 corner-cutting blend: the point one quarter of the way from
/// `a` to `b`.
pub open spec fn blend_quarter(a: Point, b: Point) -> Point {
    lerp_point(a, b, 1, 4)
}

/// One 75/25 corner-cutting blend: the point three quarters of the way
/// from `a` to `b`.
pub open spec fn blend_three_quarter(a: Point, b: Point) -> Point {
    lerp_point(a, b, 3, 4)
}

/// One iteration of corner cutting over the points: each edge is replaced
/// by its two blend points, so `n` points become `2(n - 1)`. Sequences of
/// fewer than two points are unchanged.
pub open spec fn chaikin_points_spec(s: Seq<Point>) -> Seq<Point> {
    if s.len() < 2 {
        s
    } else {
        Seq::new(
            (2 * (s.len() - 1)) as nat,
            |k: int|
                if k % 2 == 0 {
                    blend_quarter(s[k / 2], s[k / 2 + 1])
                } else {
                    blend_three_quarter(s[k / 2], s[k / 2 + 1])
                },
        )
    }
}

/// The widths that go with one corner-cutting iteration: blended with the
/// same 25/75 ratios as the points.
pub open spec fn chaikin_widths_spec(s: Seq<i64>) -> Seq<i64>
{
    if s.len() < 2 {
        s
    } else {
        Seq::new(
            (2 * (s.len() - 1)) as nat,
            |k: int|
                if k % 2 == 0 {
                    (s[k / 2] + (s[k / 2 + 1] - s[k / 2]) * 1 / 4) as i64
                } else {
                    (s[k / 2] + (s[k / 2 + 1] - s[k / 2]) * 3 / 4) as i64
                },
        )
    }
}

/// One iteration of Chaikin corner cutting over points and widths.
pub fn chaikin(points: &Vec<Point>, widths: &Vec<i64>) -> (r: (Vec<Point>, Vec<i64>))
    requires
        points@.len() == widths@.len(),
        forall|i: int| 0 <= i < points@.len() ==> valid_point(#[trigger] points@[i]),
        forall|i: int| 0 <= i < widths@.len() ==> 0 <= #[trigger] widths@[i] <= MAX_POINT_WIDTH,
    ensures
        r.0@ == chaikin_points_spec(points@),
        r.1@ == chaikin_widths_spec(widths@),
        r.0@.len() == r.1@.len(),
        forall|i: int| 0 <= i < r.0@.len() ==> valid_point(#[trigger] r.0@[i]),
        forall|i: int| 0 <= i < r.1@.len() ==> 0 <= #[trigger] r.1@[i] <= MAX_POINT_WIDTH,
{
    let n: usize = points.len();
    if n < 2 {
        let rp = copy_points(points);
        let rw = copy_widths(widths);
        return (rp, rw);
    }
    let mut rp: Vec<Point> = Vec::new();
    let mut rw: Vec<i64> = Vec::new();
    let mut j: usize = 0;
    while j < n - 1
        invariant
            0 <= j <= n - 1,
            2 <= n,
            n == points@.len() == widths@.len(),
            forall|i: int| 0 <= i < points@.len() ==> valid_point(#[trigger] points@[i]),
            forall|i: int|
                0 <= i < widths@.len() ==> 0 <= #[trigger] widths@[i] <= MAX_POINT_WIDTH,
            rp@.len() == 2 * j,
            rw@.len() == 2 * j,
            forall|k: int| 0 <= k < rp@.len() ==> rp@[k] == chaikin_points_spec(points@)[k],
            forall|k: int| 0 <= k < rw@.len() ==> rw@[k] == chaikin_widths_spec(widths@)[k],
            forall|i: int| 0 <= i < rp@.len() ==> valid_point(#[trigger] rp@[i]),
            forall|i: int| 0 <= i < rw@.len() ==> 0 <= #[trigger] rw@[i] <= MAX_POINT_WIDTH,
        decreases n - 1 - j,
    {
        let a: Point = points[j];
        let b: Point = points[j + 1];
        let wa: i64 = widths[j];
        let wb: i64 = widths[j + 1];
        let q1: Point = lerp_point_exec(a, b, 1, 4);
        let q3: Point = lerp_point_exec(a, b, 3, 4);
        let w1: i64 = wa + mul_div_floor(wb - wa, 1, 4);
        let w3: i64 = wa + mul_div_floor(wb - wa, 3, 4);
        rp.push(q1);
        rp.push(q3);
        rw.push(w1);
        rw.push(w3);
        proof {
            assert((2 * j as int) % 2 == 0);
            assert((2 * j as int + 1) % 2 == 1);
            assert((2 * j as int) / 2 == j as int);
            assert((2 * j as int + 1) / 2 == j as int);
        }
        j = j + 1;
    }
    proof {
        assert(rp@ =~= chaikin_points_spec(points@));
        assert(rw@ =~= chaikin_widths_spec(widths@));
    }
    (rp, rw)
}

/// Three-point moving-average smoothing over interior points; the two
/// endpoints are untouched. Sequences of fewer than three points are
/// unchanged.
pub open spec fn moving_average_spec(s: Seq<Point>) -> Seq<Point> {
    if s.len() < 3 {
        s
    } else {
        Seq::new(
            s.len(),
            |k: int|
                if k == 0 || k == s.len() - 1 {
                    s[k]
                } else {
                    avg3(s[k - 1], s[k], s[k + 1])
                },
        )
    }
}

/// The average of three points, each coordinate rounded toward negative
/// infinity.
pub open spec fn avg3(a: Point, b: Point, c: Point) -> Point {
    Point {
        x: (a.x + ((b.x - a.x) + (c.x - a.x)) * 1 / 3) as i64,
        y: (a.y + ((b.y - a.y) + (c.y - a.y)) * 1 / 3) as i64,
    }
}

/// The rounded three-point average of in-range coordinates is in range.
pub proof fn lemma_avg3_bounds(a: int, b: int, c: int, d: int)
    requires
        -MAX_COORD <= a <= MAX_COORD,
        -MAX_COORD <= b <= MAX_COORD,
        -MAX_COORD <= c <= MAX_COORD,
        d == ((b - a) + (c - a)) * 1 / 3,
    ensures
        -MAX_COORD <= a + d <= MAX_COORD,
{
    let delta = (b - a) + (c - a);
    assert(delta * 1 == delta) by (nonlinear_arith);
    vstd::arithmetic::div_mod::lemma_hoist_over_denominator(delta, a, 3nat);
    assert(a * 3 == 3 * a) by (nonlinear_arith);
    assert(delta + a * 3 == a + b + c);
    vstd::arithmetic::div_mod::lemma_div_is_ordered(-300_000_000, a + b + c, 3);
    vstd::arithmetic::div_mod::lemma_div_is_ordered(a + b + c, 300_000_000, 3);
    assert((-300_000_000int) / 3 == -100_000_000);
    assert(300_000_000int / 3 == 100_000_000);
}

/// One pass of three-point moving-average smoothing over the interior
/// points.
pub fn moving_average(points: &Vec<Point>) -> (r: Vec<Point>)
    requires
        forall|i: int| 0 <= i < points@.len() ==> valid_point(#[trigger] points@[i]),
    ensures
        r@ == moving_average_spec(points@),
        r@.len() == points@.len(),
        forall|i: int| 0 <= i < r@.len() ==> valid_point(#[trigger] r@[i]),
{
    let n: usize = points.len();
    if n < 3 {
        let r = copy_points(points);
        return r;
    }
    let mut r: Vec<Point> = Vec::new();
    r.push(points[0]);
    let mut i: usize = 1;
    while i < n - 1
        invariant
            1 <= i <= n - 1,
            3 <= n,
            n == points@.len(),
            forall|k: int| 0 <= k < points@.len() ==> valid_point(#[trigger] points@[k]),
            r@.len() == i,
            forall|k: int| 0 <= k < r@.len() ==> r@[k] == moving_average_spec(points@)[k],
            forall|k: int| 0 <= k < r@.len() ==> valid_point(#[trigger] r@[k]),
        decreases n - 1 - i,
    {
        let a: Point = points[i - 1];
        let b: Point = points[i];
        let c: Point = points[i + 1];
        let dx: i64 = mul_div_floor((b.x - a.x) + (c.x - a.x), 1, 3);
        let dy: i64 = mul_div_floor((b.y - a.y) + (c.y - a.y), 1, 3);
        proof {
            lemma_avg3_bounds(a.x as int, b.x as int, c.x as int, dx as int);
            lemma_avg3_bounds(a.y as int, b.y as int, c.y as int, dy as int);
        }
        let p = Point { x: a.x + dx, y: a.y + dy };
        r.push(p);
        i = i + 1;
    }
    r.push(points[n - 1]);
    proof {
        assert(r@ =~= moving_average_spec(points@));
    }
    r
}

/// The rounded-down length of segment `j` of the polyline.
pub open spec fn seg_len(s: Seq<Point>, j: int) -> int {
    sqrt_floor(dist_sq(s[j], s[j + 1]))
}

/// The square root floor is never negative.
pub proof fn lemma_sqrt_floor_nonneg(n: int)
    ensures
        sqrt_floor(n) >= 0,
    decreases n,
{
    if n > 0 {
        lemma_sqrt_floor_nonneg(n - 1);
    }
}

/// Segment lengths of valid points are small.
pub proof fn lemma_seg_len_bounds(s: Seq<Point>, j: int)
    requires
        0 <= j < s.len() - 1,
        valid_point(s[j]),
        valid_point(s[j + 1]),
    ensures
        0 <= seg_len(s, j) < 300_000_000,
{
    crate::geom::lemma_sq_bound((s[j].x - s[j + 1].x) as int, 200_000_000);
    crate::geom::lemma_sq_bound((s[j].y - s[j + 1].y) as int, 200_000_000);
    crate::geom::lemma_sqrt_floor_is(dist_sq(s[j], s[j + 1]));
    lemma_sqrt_below(dist_sq(s[j], s[j + 1]), seg_len(s, j), 300_000_000);
}

/// Arc length of the polyline from its start up to vertex `j`, summing the
/// rounded-down segment lengths.
pub open spec fn cum_len(s: Seq<Point>, j: int) -> int
    decreases j,
{
    if j <= 0 {
        0
    } else {
        cum_len(s, j - 1) + seg_len(s, j - 1)
    }
}

/// The total arc length of the polyline.
pub open spec fn total_len(s: Seq<Point>) -> int {
    cum_len(s, s.len() - 1)
}

/// Cumulative lengths grow, and stay bounded, over valid points.
pub proof fn lemma_cum_len_bounds(s: Seq<Point>, j: int)
    requires
        0 <= j <= s.len() - 1,
        forall|i: int| 0 <= i < s.len() ==> valid_point(#[trigger] s[i]),
    ensures
        0 <= cum_len(s, j) <= j * 300_000_000,
        forall|i: int| 0 <= i <= j ==> #[trigger] cum_len(s, i) <= cum_len(s, j),
    decreases j,
{
    if j > 0 {
        lemma_cum_len_bounds(s, j - 1);
        lemma_seg_len_bounds(s, j - 1);
        assert((j - 1) * 300_000_000 + 300_000_000 == j * 300_000_000) by (nonlinear_arith);
    }
}

/// The point of the polyline at arc distance `d` from its start: walk the
/// segments, and interpolate within the one that `d` falls in.
pub open spec fn point_at_arc(s: Seq<Point>, d: int) -> Point
    decreases s.len(),
{
    if s.len() <= 1 {
        s[0]
    } else {
        let l = seg_len(s, 0);
        if d < l {
            lerp_point(s[0], s[1], d, l)
        } else {
            point_at_arc(s.drop_first(), d - l)
        }
    }
}

/// The stroke width at arc distance `d` from the start, interpolated the
/// same way as the position.
pub open spec fn width_at_arc(s: Seq<Point>, w: Seq<i64>, d: int) -> int
    decreases s.len(),
{
    if s.len() <= 1 {
        w[0] as int
    } else {
        let l = seg_len(s, 0);
        if d < l {
            w[0] + (w[1] - w[0]) * d / l
        } else {
            width_at_arc(s.drop_first(), w.drop_first(), d - l)
        }
    }
}

/// Dropping the first vertex shifts cumulative lengths by the first
/// segment.
pub proof fn lemma_cum_len_drop_first(s: Seq<Point>, j: int)
    requires
        1 <= j <= s.len() - 1,
        s.len() >= 2,
    ensures
        cum_len(s.drop_first(), j - 1) == cum_len(s, j) - seg_len(s, 0),
    decreases j,
{
    if j == 1 {
        assert(cum_len(s.drop_first(), 0) == 0);
        assert(cum_len(s, 0) == 0);
        assert(cum_len(s, 1) == cum_len(s, 0) + seg_len(s, 0));
    } else {
        lemma_cum_len_drop_first(s, j - 1);
        assert(s.drop_first()[j - 2] == s[j - 1]);
        assert(s.drop_first()[j - 1] == s[j]);
        assert(cum_len(s, j) == cum_len(s, j - 1) + seg_len(s, j - 1));
        assert(cum_len(s.drop_first(), j - 1) == cum_len(s.drop_first(), j - 2) + seg_len(
            s.drop_first(),
            j - 2,
        ));
    }
}

/// Within segment `j`, the point and width at arc distance `d` are the
/// interpolations along that segment.
pub proof fn lemma_at_arc_seg(s: Seq<Point>, w: Seq<i64>, j: int, d: int)
    requires
        s.len() >= 2,
        w.len() == s.len(),
        0 <= j < s.len() - 1,
        forall|i: int| 0 <= i < s.len() ==> valid_point(#[trigger] s[i]),
        cum_len(s, j) <= d,
        d - cum_len(s, j) < seg_len(s, j),
    ensures
        point_at_arc(s, d) == lerp_point(s[j], s[j + 1], d - cum_len(s, j), seg_len(s, j)),
        width_at_arc(s, w, d) == w[j] + (w[j + 1] - w[j]) * (d - cum_len(s, j)) / seg_len(s, j),
    decreases j,
{
    if j == 0 {
        assert(cum_len(s, 0) == 0);
    } else {
        let l0 = seg_len(s, 0);
        lemma_cum_len_bounds(s, j);
        lemma_seg_len_bounds(s, 0);
        assert(cum_len(s, 0) == 0);
        assert(cum_len(s, 1) == cum_len(s, 0) + seg_len(s, 0));
        assert(cum_len(s, 1) == l0);
        assert(cum_len(s, 1) <= cum_len(s, j));
        assert(d >= l0);
        lemma_cum_len_drop_first(s, j);
        assert(forall|i: int| 0 <= i < s.len() - 1 ==> s.drop_first()[i] == s[(i + 1)]);
        assert(forall|i: int| 0 <= i < w.len() - 1 ==> w.drop_first()[i] == w[(i + 1)]);
        assert(seg_len(s.drop_first(), j - 1) == seg_len(s, j));
        lemma_at_arc_seg(s.drop_first(), w.drop_first(), j - 1, d - l0);
    }
}

/// How many interior points resampling emits: one for each whole multiple
/// of the spacing strictly inside the total arc length.
pub open spec fn resample_count(s: Seq<Point>, spacing: int) -> int {
    if total_len(s) <= 0 {
        0
    } else {
        (total_len(s) - 1) / spacing
    }
}

/// The resampled point sequence: the first input point, one point at
/// every whole multiple of the spacing along the arc, and the last input
/// point. Inputs of fewer than two points are unchanged.
pub open spec fn resample_points_spec(s: Seq<Point>, spacing: int) -> Seq<Point> {
    if s.len() < 2 {
        s
    } else {
        seq![s[0]] + Seq::new(
            resample_count(s, spacing) as nat,
            |m: int| point_at_arc(s, (m + 1) * spacing),
        ) + seq![s.last()]
    }
}

/// The widths that go with the resampled points, interpolated along the
/// same arc positions.
pub open spec fn resample_widths_spec(s: Seq<Point>, w: Seq<i64>, spacing: int) -> Seq<i64> {
    if s.len() < 2 {
        w
    } else {
        seq![w[0]] + Seq::new(
            resample_count(s, spacing) as nat,
            |m: int| width_at_arc(s, w, (m + 1) * spacing) as i64,
        ) + seq![w.last()]
    }
}

/// Consecutive interior resampled points sit at arc positions exactly one
/// spacing apart: point `i` of the output lies at arc distance
/// `i * spacing` along the input polyline, for every interior index.
pub proof fn lemma_resample_density(s: Seq<Point>, spacing: int, i: int)
    requires
        s.len() >= 2,
        0 < spacing,
        1 <= i <= resample_count(s, spacing),
    ensures
        resample_points_spec(s, spacing)[i] == point_at_arc(s, i * spacing),
{
    assert(resample_points_spec(s, spacing)[i] == point_at_arc(s, (i - 1 + 1) * spacing));
}

/// Resample the polyline at a fixed arc-length spacing: emit the first
/// point, one point each time the accumulated arc length crosses the
/// spacing, and the final point.
pub fn resample(points: &Vec<Point>, widths: &Vec<i64>, spacing: i64) -> (r: (Vec<Point>, Vec<
    i64,
>))
    requires
        points@.len() == widths@.len(),
        points@.len() <= MAX_STROKE_POINTS,
        forall|i: int| 0 <= i < points@.len() ==> valid_point(#[trigger] points@[i]),
        forall|i: int| 0 <= i < widths@.len() ==> 0 <= #[trigger] widths@[i] <= MAX_POINT_WIDTH,
        0 < spacing <= 400_000_000,
    ensures
        r.0@ == resample_points_spec(points@, spacing as int),
        r.1@ == resample_widths_spec(points@, widths@, spacing as int),
        r.0@.len() == r.1@.len(),
        forall|i: int| 0 <= i < r.0@.len() ==> valid_point(#[trigger] r.0@[i]),
        forall|i: int| 0 <= i < r.1@.len() ==> 0 <= #[trigger] r.1@[i] <= MAX_POINT_WIDTH,
{
    let ghost s = points@;
    let ghost ws = widths@;
    let n: usize = points.len();
    if n < 2 {
        let rp = copy_points(points);
        let rw = copy_widths(widths);
        return (rp, rw);
    }
    let mut out_p: Vec<Point> = Vec::new();
    let mut out_w: Vec<i64> = Vec::new();
    out_p.push(points[0]);
    out_w.push(widths[0]);
    let mut m: u64 = 0;
    let mut cum: i64 = 0;
    let mut next_d: i64 = spacing;
    let mut j: usize = 0;
    proof {
        lemma_cum_len_bounds(s, n - 1 as int);
    }
    while j < n - 1
        invariant
            0 <= j <= n - 1,
            2 <= n <= MAX_STROKE_POINTS,
            n == s.len() == ws.len(),
            s == points@,
            ws == widths@,
            forall|i: int| 0 <= i < s.len() ==> valid_point(#[trigger] s[i]),
            forall|i: int| 0 <= i < ws.len() ==> 0 <= #[trigger] ws[i] <= MAX_POINT_WIDTH,
            0 < spacing <= 400_000_000,
            cum == cum_len(s, j as int),
            0 <= cum <= 3_000_000_000_000_000,
            next_d == (m + 1) * spacing,
            cum <= next_d <= cum + spacing,
            m == 0 || m * spacing < cum,
            out_p@ == seq![s[0]] + Seq::new(m as nat, |k: int| point_at_arc(s, (k + 1) * spacing)),
            out_w@ == seq![ws[0]] + Seq::new(
                m as nat,
                |k: int| width_at_arc(s, ws, (k + 1) * spacing) as i64,
            ),
            forall|i: int| 0 <= i < out_p@.len() ==> valid_point(#[trigger] out_p@[i]),
            forall|i: int| 0 <= i < out_w@.len() ==> 0 <= #[trigger] out_w@[i] <= MAX_POINT_WIDTH,
        decreases n - 1 - j,
    {
        proof {
            lemma_seg_len_bounds(s, j as int);
            lemma_cum_len_bounds(s, j as int);
            lemma_cum_len_bounds(s, n - 1 as int);
        }
        let a: Point = points[j];
        let b: Point = points[j + 1];
        let wa: i64 = widths[j];
        let wb: i64 = widths[j + 1];
        let seg: i64 = dist_i64(a, b);
        proof {
            lemma_sqrt_floor_unique(dist_sq(a, b), seg as int);
            assert(seg == seg_len(s, j as int));
        }
        while next_d - cum < seg
            invariant
                0 <= j < n - 1,
                2 <= n <= MAX_STROKE_POINTS,
                n == s.len() == ws.len(),
                s == points@,
                ws == widths@,
                forall|i: int| 0 <= i < s.len() ==> valid_point(#[trigger] s[i]),
                forall|i: int| 0 <= i < ws.len() ==> 0 <= #[trigger] ws[i] <= MAX_POINT_WIDTH,
                0 < spacing <= 400_000_000,
                a == s[j as int],
                b == s[j as int + 1],
                wa == ws[j as int],
                wb == ws[j as int + 1],
                seg == seg_len(s, j as int),
                0 <= seg < 300_000_000,
                cum == cum_len(s, j as int),
                0 <= cum <= 3_000_000_000_000_000,
                next_d == (m + 1) * spacing,
                cum <= next_d <= cum + seg + spacing,
                m == 0 || m * spacing < cum + seg,
                out_p@ == seq![s[0]] + Seq::new(
                    m as nat,
                    |k: int| point_at_arc(s, (k + 1) * spacing),
                ),
                out_w@ == seq![ws[0]] + Seq::new(
                    m as nat,
                    |k: int| width_at_arc(s, ws, (k + 1) * spacing) as i64,
                ),
                forall|i: int| 0 <= i < out_p@.len() ==> valid_point(#[trigger] out_p@[i]),
                forall|i: int|
                    0 <= i < out_w@.len() ==> 0 <= #[trigger] out_w@[i] <= MAX_POINT_WIDTH,
            decreases cum + seg + spacing - next_d,
        {
            let off: i64 = next_d - cum;
            let p: Point = lerp_point_exec(a, b, off, seg);
            let dw: i64 = mul_div_floor(wb - wa, off, seg);
            let wv: i64 = wa + dw;
            proof {
                lemma_at_arc_seg(s, ws, j as int, next_d as int);
                assert(p == point_at_arc(s, (m + 1) * spacing));
                assert(wv == width_at_arc(s, ws, (m + 1) * spacing));
                assert(out_p@.push(p) =~= seq![s[0]] + Seq::new(
                    (m + 1) as nat,
                    |k: int| point_at_arc(s, (k + 1) * spacing),
                ));
                assert(out_w@.push(wv) =~= seq![ws[0]] + Seq::new(
                    (m + 1) as nat,
                    |k: int| width_at_arc(s, ws, (k + 1) * spacing) as i64,
                ));
                assert((m + 2) * spacing == (m + 1) * spacing + spacing) by (nonlinear_arith);
                assert((m + 1) * spacing == m * spacing + spacing) by (nonlinear_arith);
                assert(m <= m * spacing) by (nonlinear_arith)
                    requires
                        0 <= m,
                        1 <= spacing,
                ;
            }
            out_p.push(p);
            out_w.push(wv);
            m = m + 1;
            next_d = next_d + spacing;
        }
        proof {
            assert(cum_len(s, j + 1 as int) == cum_len(s, j as int) + seg_len(s, j as int));
        }
        cum = cum + seg;
        j = j + 1;
    }
    proof {
        assert(cum == total_len(s));
        if m == 0 {
            assert(next_d == spacing >= cum);
            if cum > 0 {
                assert((cum - 1) / (spacing as int) == 0) by {
                    vstd::arithmetic::div_mod::lemma_basic_div(cum - 1, spacing as int);
                }
            }
            assert(m == resample_count(s, spacing as int));
        } else {
            assert(m * spacing < cum);
            assert(cum <= (m + 1) * spacing);
            assert((m + 1) * spacing == m * spacing + spacing) by (nonlinear_arith);
            assert(0 <= cum - 1 - m * spacing < spacing);
            vstd::arithmetic::div_mod::lemma_fundamental_div_mod_converse(
                cum - 1,
                spacing as int,
                m as int,
                cum - 1 - m * spacing,
            );
            assert(m * spacing + (cum - 1 - m * spacing) == cum - 1);
            assert(m == resample_count(s, spacing as int));
        }
    }
    out_p.push(points[n - 1]);
    out_w.push(widths[n - 1]);
    proof {
        assert(out_p@ =~= resample_points_spec(s, spacing as int));
        assert(out_w@ =~= resample_widths_spec(s, ws, spacing as int));
    }
    (out_p, out_w)
}

/// How many evenly spaced points interpolation inserts into one segment:
/// the rounded-down segment length times the frequency. The frequency is
/// in inserted points per million fixed-point steps of length: a
/// frequency of 100 inserts one point for every ten canvas units.
pub open spec fn interp_count(a: Point, b: Point, freq: int) -> int {
    sqrt_floor(dist_sq(a, b)) * freq / 1_000_000
}

/// The points inserted into one segment: `c` points evenly spaced between
/// `a` and `b`.
pub open spec fn inserted_points(a: Point, b: Point, c: int) -> Seq<Point> {
    Seq::new(c as nat, |k: int| lerp_point(a, b, k + 1, c + 1))
}

/// The widths inserted into one segment, interpolated the same way.
pub open spec fn inserted_widths(wa: i64, wb: i64, c: int) -> Seq<i64> {
    Seq::new(c as nat, |k: int| (wa + (wb - wa) * (k + 1) / (c + 1)) as i64)
}

/// The interpolated point sequence: each consecutive pair keeps its
/// endpoints and gains its inserted points between them.
pub open spec fn interp_points_spec(s: Seq<Point>, freq: int) -> Seq<Point>
    decreases s.len(),
{
    if s.len() < 2 {
        s
    } else {
        seq![s[0]] + inserted_points(s[0], s[1], interp_count(s[0], s[1], freq))
            + interp_points_spec(s.drop_first(), freq)
    }
}

/// The interpolated width sequence, in step with the points.
pub open spec fn interp_widths_spec(s: Seq<Point>, w: Seq<i64>, freq: int) -> Seq<i64>
    decreases s.len(),
{
    if s.len() < 2 {
        w
    } else {
        seq![w[0]] + inserted_widths(w[0], w[1], interp_count(s[0], s[1], freq))
            + interp_widths_spec(s.drop_first(), w.drop_first(), freq)
    }
}

/// Insert `floor(length * frequency)` evenly spaced points into every
/// segment, with positions and widths linearly interpolated.
pub fn interpolate(points: &Vec<Point>, widths: &Vec<i64>, frequency: i64) -> (r: (Vec<Point>,
    Vec<i64>))
    requires
        points@.len() == widths@.len(),
        forall|i: int| 0 <= i < points@.len() ==> valid_point(#[trigger] points@[i]),
        forall|i: int| 0 <= i < widths@.len() ==> 0 <= #[trigger] widths@[i] <= MAX_POINT_WIDTH,
        0 <= frequency <= 1_000_000,
    ensures
        r.0@ == interp_points_spec(points@, frequency as int),
        r.1@ == interp_widths_spec(points@, widths@, frequency as int),
        r.0@.len() == r.1@.len(),
        forall|i: int| 0 <= i < r.0@.len() ==> valid_point(#[trigger] r.0@[i]),
        forall|i: int| 0 <= i < r.1@.len() ==> 0 <= #[trigger] r.1@[i] <= MAX_POINT_WIDTH,
{
    let ghost s = points@;
    let ghost ws = widths@;
    let n: usize = points.len();
    if n < 2 {
        let rp = copy_points(points);
        let rw = copy_widths(widths);
        return (rp, rw);
    }
    let mut out_p: Vec<Point> = Vec::new();
    let mut out_w: Vec<i64> = Vec::new();
    let mut j: usize = 0;
    proof {
        assert(s.subrange(0, n as int) =~= s);
        assert(ws.subrange(0, n as int) =~= ws);
        assert(out_p@ + interp_points_spec(s, frequency as int) =~= interp_points_spec(
            s,
            frequency as int,
        ));
        assert(out_w@ + interp_widths_spec(s, ws, frequency as int) =~= interp_widths_spec(
            s,
            ws,
            frequency as int,
        ));
    }
    while j < n - 1
        invariant
            0 <= j <= n - 1,
            2 <= n,
            n == s.len() == ws.len(),
            s == points@,
            ws == widths@,
            forall|i: int| 0 <= i < s.len() ==> valid_point(#[trigger] s[i]),
            forall|i: int| 0 <= i < ws.len() ==> 0 <= #[trigger] ws[i] <= MAX_POINT_WIDTH,
            0 <= frequency <= 1_000_000,
            interp_points_spec(s, frequency as int) == out_p@ + interp_points_spec(
                s.subrange(j as int, n as int),
                frequency as int,
            ),
            interp_widths_spec(s, ws, frequency as int) == out_w@ + interp_widths_spec(
                s.subrange(j as int, n as int),
                ws.subrange(j as int, n as int),
                frequency as int,
            ),
            out_p@.len() == out_w@.len(),
            forall|i: int| 0 <= i < out_p@.len() ==> valid_point(#[trigger] out_p@[i]),
            forall|i: int| 0 <= i < out_w@.len() ==> 0 <= #[trigger] out_w@[i] <= MAX_POINT_WIDTH,
        decreases n - 1 - j,
    {
        let ghost tail = s.subrange(j as int, n as int);
        let ghost wtail = ws.subrange(j as int, n as int);
        let ghost pre_p = out_p@;
        let ghost pre_w = out_w@;
        proof {
            assert(tail.len() >= 2);
            assert(tail[0] == s[j as int]);
            assert(tail[1] == s[j as int + 1]);
            assert(wtail[0] == ws[j as int]);
            assert(wtail[1] == ws[j as int + 1]);
            assert(tail.drop_first() =~= s.subrange(j + 1 as int, n as int));
            assert(wtail.drop_first() =~= ws.subrange(j + 1 as int, n as int));
            lemma_seg_len_bounds(s, j as int);
        }
        let a: Point = points[j];
        let b: Point = points[j + 1];
        let wa: i64 = widths[j];
        let wb: i64 = widths[j + 1];
        let seg: i64 = dist_i64(a, b);
        proof {
            lemma_sqrt_floor_unique(dist_sq(a, b), seg as int);
            crate::geom::lemma_mul_bound(seg as int, frequency as int, 300_000_000, 1_000_000);
            vstd::arithmetic::div_mod::lemma_div_is_ordered(
                0,
                seg as int * frequency as int,
                1_000_000,
            );
            vstd::arithmetic::div_mod::lemma_div_is_ordered(
                seg as int * frequency as int,
                300_000_000_000_000,
                1_000_000,
            );
            vstd::arithmetic::div_mod::lemma_div_of0(1_000_000);
        }
        let c: i64 = seg * frequency / 1_000_000;
        let ghost ci = interp_count(a, b, frequency as int);
        proof {
            assert(c == ci);
            assert(0 <= c <= 300_000_000);
        }
        out_p.push(a);
        out_w.push(wa);
        let ghost base_p = out_p@;
        let ghost base_w = out_w@;
        let mut k: i64 = 0;
        while k < c
            invariant
                0 <= k <= c,
                0 <= c <= 300_000_000,
                c == ci,
                valid_point(a),
                valid_point(b),
                0 <= wa <= MAX_POINT_WIDTH,
                0 <= wb <= MAX_POINT_WIDTH,
                out_p@.len() == out_w@.len(),
                forall|i: int| 0 <= i < out_p@.len() ==> valid_point(#[trigger] out_p@[i]),
                forall|i: int|
                    0 <= i < out_w@.len() ==> 0 <= #[trigger] out_w@[i] <= MAX_POINT_WIDTH,
                out_p@ == base_p + inserted_points(a, b, ci).subrange(0, k as int),
                out_w@ == base_w + inserted_widths(wa, wb, ci).subrange(0, k as int),
            decreases c - k,
        {
            let p: Point = lerp_point_exec(a, b, k + 1, c + 1);
            let dwv: i64 = mul_div_floor(wb - wa, k + 1, c + 1);
            proof {
                assert(out_p@.push(p) =~= base_p + inserted_points(a, b, ci).subrange(
                    0,
                    k + 1 as int,
                ));
                assert(out_w@.push((wa + dwv) as i64) =~= base_w + inserted_widths(
                    wa,
                    wb,
                    ci,
                ).subrange(0, k + 1 as int));
            }
            out_p.push(p);
            out_w.push(wa + dwv);
            k = k + 1;
        }
        proof {
            let f = frequency as int;
            assert(inserted_points(a, b, ci).subrange(0, ci) =~= inserted_points(a, b, ci));
            assert(inserted_widths(wa, wb, ci).subrange(0, ci) =~= inserted_widths(wa, wb, ci));
            assert(interp_points_spec(tail, f) == seq![tail[0]] + inserted_points(a, b, ci)
                + interp_points_spec(tail.drop_first(), f));
            assert(interp_widths_spec(tail, wtail, f) == seq![wtail[0]] + inserted_widths(
                wa,
                wb,
                ci,
            ) + interp_widths_spec(tail.drop_first(), wtail.drop_first(), f));
            assert(pre_p + interp_points_spec(tail, f) =~= out_p@ + interp_points_spec(
                s.subrange(j + 1 as int, n as int),
                f,
            ));
            assert(pre_w + interp_widths_spec(tail, wtail, f) =~= out_w@ + interp_widths_spec(
                s.subrange(j + 1 as int, n as int),
                ws.subrange(j + 1 as int, n as int),
                f,
            ));
        }
        j = j + 1;
    }
    proof {
        assert(s.subrange(n - 1 as int, n as int).len() == 1);
        assert(interp_points_spec(s.subrange(n - 1 as int, n as int), frequency as int)
            =~= seq![s[n - 1 as int]]);
        assert(interp_widths_spec(
            s.subrange(n - 1 as int, n as int),
            ws.subrange(n - 1 as int, n as int),
            frequency as int,
        ) =~= seq![ws[n - 1 as int]]);
        assert(out_p@.push(s[n - 1 as int]) =~= interp_points_spec(s, frequency as int));
        assert(out_w@.push(ws[n - 1 as int]) =~= interp_widths_spec(s, ws, frequency as int));
    }
    out_p.push(points[n - 1]);
    out_w.push(widths[n - 1]);
    (out_p, out_w)
}

/// The full smoothing pipeline over points: resample at the fixed
/// spacing, two Chaikin corner-cutting iterations, then one moving-average
/// pass. Strokes of fewer than three points are returned unchanged.
pub open spec fn smooth_points_spec(s: Seq<Point>, w: Seq<i64>) -> Seq<Point> {
    if s.len() < 3 {
        s
    } else {
        moving_average_spec(
            chaikin_points_spec(
                chaikin_points_spec(resample_points_spec(s, RESAMPLE_SPACING as int)),
            ),
        )
    }
}

/// The widths that go with the smoothed points: resampled and blended in
/// step with the points; the moving-average pass leaves widths as they
/// are.
pub open spec fn smooth_widths_spec(s: Seq<Point>, w: Seq<i64>) -> Seq<i64> {
    if s.len() < 3 {
        w
    } else {
        chaikin_widths_spec(
            chaikin_widths_spec(resample_widths_spec(s, w, RESAMPLE_SPACING as int)),
        )
    }
}

/// Neither coordinate changes by more than the rounded-down segment
/// length across one segment.
pub proof fn lemma_coord_step(s: Seq<Point>, j: int)
    requires
        0 <= j < s.len() - 1,
        valid_point(s[j]),
        valid_point(s[j + 1]),
    ensures
        -seg_len(s, j) <= s[j + 1].x - s[j].x <= seg_len(s, j),
        -seg_len(s, j) <= s[j + 1].y - s[j].y <= seg_len(s, j),
{
    let dx = s[j].x - s[j + 1].x;
    let dy = s[j].y - s[j + 1].y;
    let l = seg_len(s, j);
    crate::geom::lemma_sq_bound(dx, 200_000_000);
    crate::geom::lemma_sq_bound(dy, 200_000_000);
    crate::geom::lemma_sqrt_floor_is(dist_sq(s[j], s[j + 1]));
    assert(dx * dx + dy * dy < (l + 1) * (l + 1));
    assert(-l <= dx <= l && -l <= dy <= l) by (nonlinear_arith)
        requires
            dx * dx + dy * dy < (l + 1) * (l + 1),
            0 <= dx * dx,
            0 <= dy * dy,
            0 <= l,
    ;
}

/// A linear interpolation moves each coordinate by at most the arc
/// offset, when the full step is bounded by the denominator.
pub proof fn lemma_lerp_disp(dx: int, num: int, den: int)
    requires
        0 < den,
        0 <= num,
        -den <= dx <= den,
    ensures
        -num <= dx * num / den <= num,
{
    assert(-(den * num) <= dx * num <= den * num) by (nonlinear_arith)
        requires
            -den <= dx <= den,
            0 <= num,
    ;
    vstd::arithmetic::div_mod::lemma_div_is_ordered(dx * num, den * num, den);
    vstd::arithmetic::div_mod::lemma_div_is_ordered(-(den * num), dx * num, den);
    vstd::arithmetic::div_mod::lemma_div_multiples_vanish(num, den);
    vstd::arithmetic::div_mod::lemma_div_multiples_vanish(-num, den);
    assert(den * num == num * den) by (nonlinear_arith);
    assert(-(den * num) == den * (-num)) by (nonlinear_arith);
}

/// The point at arc distance `d` lies within `d` of the polyline's first
/// vertex, in each coordinate.
pub proof fn lemma_arc_disp_start(s: Seq<Point>, d: int)
    requires
        s.len() >= 1,
        forall|i: int| 0 <= i < s.len() ==> valid_point(#[trigger] s[i]),
        0 <= d,
    ensures
        -d <= point_at_arc(s, d).x - s[0].x <= d,
        -d <= point_at_arc(s, d).y - s[0].y <= d,
    decreases s.len(),
{
    if s.len() <= 1 {
    } else {
        let l = seg_len(s, 0);
        lemma_seg_len_bounds(s, 0);
        if d < l {
            lemma_coord_step(s, 0);
            lemma_lerp_disp((s[1].x - s[0].x) as int, d, l);
            lemma_lerp_disp((s[1].y - s[0].y) as int, d, l);
        } else {
            assert(forall|i: int| 0 <= i < s.len() - 1 ==> s.drop_first()[i] == s[(i + 1)]);
            lemma_arc_disp_start(s.drop_first(), d - l);
            lemma_coord_step(s, 0);
        }
    }
}

/// The last vertex lies within the total arc length of the first, in
/// each coordinate.
pub proof fn lemma_vertex_span(s: Seq<Point>)
    requires
        s.len() >= 1,
        forall|i: int| 0 <= i < s.len() ==> valid_point(#[trigger] s[i]),
    ensures
        -total_len(s) <= s.last().x - s[0].x <= total_len(s),
        -total_len(s) <= s.last().y - s[0].y <= total_len(s),
    decreases s.len(),
{
    if s.len() <= 1 {
        assert(total_len(s) == 0);
    } else {
        assert(forall|i: int| 0 <= i < s.len() - 1 ==> s.drop_first()[i] == s[(i + 1)]);
        lemma_vertex_span(s.drop_first());
        lemma_coord_step(s, 0);
        lemma_cum_len_drop_first(s, s.len() - 1);
        assert(s.drop_first().last() == s.last());
        assert(total_len(s.drop_first()) == total_len(s) - seg_len(s, 0));
    }
}

/// A linear interpolation lies within the remaining arc of the segment's
/// far endpoint, in each coordinate.
pub proof fn lemma_lerp_disp_far(dx: int, num: int, den: int)
    requires
        0 < den,
        0 <= num <= den,
        -den <= dx <= den,
    ensures
        -(den - num) <= dx * num / den - dx <= den - num,
{
    assert(dx * num <= den * (dx + den - num)) by (nonlinear_arith)
        requires
            -den <= dx <= den,
            0 <= num <= den,
    ;
    assert(den * (dx - den + num) <= dx * num) by (nonlinear_arith)
        requires
            -den <= dx <= den,
            0 <= num <= den,
    ;
    vstd::arithmetic::div_mod::lemma_div_is_ordered(dx * num, den * (dx + den - num), den);
    vstd::arithmetic::div_mod::lemma_div_is_ordered(den * (dx - den + num), dx * num, den);
    vstd::arithmetic::div_mod::lemma_div_multiples_vanish(dx + den - num, den);
    vstd::arithmetic::div_mod::lemma_div_multiples_vanish(dx - den + num, den);
}

/// The point at arc distance `d` lies within the remaining arc of the
/// polyline's last vertex, in each coordinate.
pub proof fn lemma_arc_disp_end(s: Seq<Point>, d: int)
    requires
        s.len() >= 1,
        forall|i: int| 0 <= i < s.len() ==> valid_point(#[trigger] s[i]),
        0 <= d <= total_len(s),
    ensures
        -(total_len(s) - d) <= point_at_arc(s, d).x - s.last().x <= total_len(s) - d,
        -(total_len(s) - d) <= point_at_arc(s, d).y - s.last().y <= total_len(s) - d,
    decreases s.len(),
{
    if s.len() <= 1 {
        assert(total_len(s) == 0);
    } else {
        let l = seg_len(s, 0);
        lemma_seg_len_bounds(s, 0);
        lemma_cum_len_drop_first(s, s.len() - 1);
        assert(forall|i: int| 0 <= i < s.len() - 1 ==> s.drop_first()[i] == s[(i + 1)]);
        assert(total_len(s.drop_first()) == total_len(s) - l);
        assert(s.drop_first().last() == s.last());
        lemma_coord_step(s, 0);
        if d < l {
            lemma_lerp_disp_far((s[1].x - s[0].x) as int, d, l);
            lemma_lerp_disp_far((s[1].y - s[0].y) as int, d, l);
            lemma_vertex_span(s.drop_first());
            assert(s.drop_first()[0] == s[1]);
        } else {
            lemma_arc_disp_end(s.drop_first(), d - l);
        }
    }
}

/// A quarter of a bounded value, rounded toward negative infinity, is
/// bounded.
pub proof fn lemma_div4_bound(v: int, m: int)
    requires
        0 <= m,
        -m <= v <= m,
    ensures
        -((m + 3) / 4) <= v * 1 / 4 <= (m + 3) / 4,
{
    let q = (m + 3) / 4;
    vstd::arithmetic::div_mod::lemma_fundamental_div_mod(m + 3, 4);
    assert(4 * q <= m + 3 && m <= 4 * q);
    assert(v * 1 == v) by (nonlinear_arith);
    vstd::arithmetic::div_mod::lemma_div_is_ordered(v, m, 4);
    vstd::arithmetic::div_mod::lemma_div_is_ordered(m, m + 3, 4);
    vstd::arithmetic::div_mod::lemma_div_is_ordered(4 * (-q), v, 4);
    vstd::arithmetic::div_mod::lemma_div_multiples_vanish(-q, 4);
}

/// The two corner-cutting blends of one edge lie within half the edge's
/// coordinate span of each other, up to rounding.
pub proof fn lemma_quarter_pair_gap(v: int, m: int)
    requires
        0 <= m,
        -m <= v <= m,
    ensures
        -((2 * m + 6) / 4) <= v * 3 / 4 - v * 1 / 4 <= (2 * m + 6) / 4,
{
    let a3 = v * 3 / 4;
    let a1 = v * 1 / 4;
    vstd::arithmetic::div_mod::lemma_fundamental_div_mod(v * 3, 4);
    vstd::arithmetic::div_mod::lemma_fundamental_div_mod(v * 1, 4);
    vstd::arithmetic::div_mod::lemma_mod_bound(v * 3, 4);
    vstd::arithmetic::div_mod::lemma_mod_bound(v * 1, 4);
    assert(v * 3 == 3 * v && v * 1 == v) by (nonlinear_arith);
    let d = a3 - a1;
    assert(4 * d == 2 * v - (v * 3) % 4 + (v * 1) % 4);
    let q = (2 * m + 6) / 4;
    vstd::arithmetic::div_mod::lemma_fundamental_div_mod(2 * m + 6, 4);
    assert(4 * q <= 2 * m + 6 && 2 * m + 3 <= 4 * q);
    assert(-(4 * q) <= 4 * d <= 4 * q);
    assert(-q <= d <= q) by (nonlinear_arith)
        requires
            -(4 * q) <= 4 * d <= 4 * q,
    ;
}

/// The 75/25 blend of one edge lies within a quarter of the edge's
/// coordinate span of the far endpoint, up to rounding.
pub proof fn lemma_three_quarter_far(v: int, m: int)
    requires
        0 <= m,
        -m <= v <= m,
    ensures
        -((m + 6) / 4) <= v * 3 / 4 - v <= (m + 6) / 4,
{
    let a3 = v * 3 / 4;
    vstd::arithmetic::div_mod::lemma_fundamental_div_mod(v * 3, 4);
    vstd::arithmetic::div_mod::lemma_mod_bound(v * 3, 4);
    assert(v * 3 == 3 * v) by (nonlinear_arith);
    let d = a3 - v;
    assert(4 * d == -v - (v * 3) % 4);
    let q = (m + 6) / 4;
    vstd::arithmetic::div_mod::lemma_fundamental_div_mod(m + 6, 4);
    assert(4 * q <= m + 6 && m + 3 <= 4 * q);
    assert(-(4 * q) <= 4 * d <= 4 * q);
    assert(-q <= d <= q) by (nonlinear_arith)
        requires
            -(4 * q) <= 4 * d <= 4 * q,
    ;
}

/// The ends of a resampled polyline: the input endpoints survive
/// exactly, and the outermost gaps span at most one spacing in each
/// coordinate.
pub proof fn lemma_resample_ends(s: Seq<Point>, sp: int)
    requires
        s.len() >= 2,
        forall|i: int| 0 <= i < s.len() ==> valid_point(#[trigger] s[i]),
        0 < sp,
    ensures
        ({
            let r = resample_points_spec(s, sp);
            &&& r.len() >= 2
            &&& r[0] == s[0]
            &&& r.last() == s.last()
            &&& -sp <= r[1].x - r[0].x <= sp
            &&& -sp <= r[1].y - r[0].y <= sp
            &&& -sp <= r[r.len() - 2].x - r.last().x <= sp
            &&& -sp <= r[r.len() - 2].y - r.last().y <= sp
        }),
{
    let r = resample_points_spec(s, sp);
    let total = total_len(s);
    let kcount = resample_count(s, sp);
    lemma_cum_len_bounds(s, s.len() - 1);
    assert(total >= 0);
    assert(kcount >= 0) by {
        if total > 0 {
            vstd::arithmetic::div_mod::lemma_div_is_ordered(0, total - 1, sp);
            vstd::arithmetic::div_mod::lemma_div_of0(sp);
        }
    }
    let mid = Seq::new(kcount as nat, |m: int| point_at_arc(s, (m + 1) * sp));
    assert(r == seq![s[0]] + mid + seq![s.last()]);
    assert(r.len() == kcount + 2);
    assert(r[0] == s[0]);
    assert(r.last() == s.last());
    lemma_vertex_span(s);
    if kcount == 0 {
        assert(total <= sp) by {
            if total > 0 {
                vstd::arithmetic::div_mod::lemma_fundamental_div_mod(total - 1, sp);
                vstd::arithmetic::div_mod::lemma_mod_bound(total - 1, sp);
                assert(total - 1 == sp * ((total - 1) / sp) + (total - 1) % sp);
            }
        }
        assert(r[1] == s.last());
        assert(r[r.len() - 2] == s[0]);
    } else {
        assert(r[1] == mid[0]);
        assert(mid[0] == point_at_arc(s, 1 * sp));
        assert(1 * sp == sp) by (nonlinear_arith);
        lemma_arc_disp_start(s, sp);
        assert(r[r.len() - 2] == mid[kcount - 1]);
        assert(mid[kcount - 1] == point_at_arc(s, (kcount - 1 + 1) * sp));
        assert((kcount - 1 + 1) * sp == kcount * sp) by (nonlinear_arith);
        vstd::arithmetic::div_mod::lemma_fundamental_div_mod(total - 1, sp);
        vstd::arithmetic::div_mod::lemma_mod_bound(total - 1, sp);
        assert(total - 1 == sp * kcount + (total - 1) % sp);
        assert(sp * kcount == kcount * sp) by (nonlinear_arith);
        assert(0 <= kcount * sp <= total - 1);
        assert(total - kcount * sp <= sp);
        lemma_arc_disp_end(s, kcount * sp);
    }
}

/// The outermost points of one corner-cutting pass, as blends of the
/// outermost input edges.
pub proof fn lemma_chaikin_ends(c: Seq<Point>)
    requires
        c.len() >= 2,
    ensures
        ({
            let out = chaikin_points_spec(c);
            &&& out.len() == 2 * (c.len() - 1)
            &&& out.len() >= 2
            &&& out[0] == blend_quarter(c[0], c[1])
            &&& out[1] == blend_three_quarter(c[0], c[1])
            &&& out[out.len() - 2] == blend_quarter(c[c.len() - 2], c.last())
            &&& out.last() == blend_three_quarter(c[c.len() - 2], c.last())
        }),
{
    let out = chaikin_points_spec(c);
    let n = c.len() as int;
    assert(out[0] == blend_quarter(c[0], c[1]));
    assert(out[1] == blend_three_quarter(c[0], c[1]));
    let k2 = 2 * (n - 1) - 2;
    assert(k2 == (n - 2) * 2 + 0);
    vstd::arithmetic::div_mod::lemma_fundamental_div_mod_converse(k2, 2, n - 2, 0);
    let k3 = 2 * (n - 1) - 1;
    assert(k3 == (n - 2) * 2 + 1);
    vstd::arithmetic::div_mod::lemma_fundamental_div_mod_converse(k3, 2, n - 2, 1);
    assert(out[k2] == blend_quarter(c[n - 2], c[n - 1]));
    assert(out[k3] == blend_three_quarter(c[n - 2], c[n - 1]));
}

/// Interpolation keeps both endpoints exactly.
pub proof fn lemma_interp_ends(s: Seq<Point>, freq: int)
    requires
        s.len() >= 1,
    ensures
        interp_points_spec(s, freq).len() >= 1,
        interp_points_spec(s, freq)[0] == s[0],
        interp_points_spec(s, freq).last() == s.last(),
    decreases s.len(),
{
    if s.len() >= 2 {
        assert(forall|i: int| 0 <= i < s.len() - 1 ==> s.drop_first()[i] == s[(i + 1)]);
        lemma_interp_ends(s.drop_first(), freq);
        let out = interp_points_spec(s, freq);
        let tail_out = interp_points_spec(s.drop_first(), freq);
        assert(out[0] == s[0]);
        assert(out.last() == tail_out.last());
        assert(s.drop_first().last() == s.last());
    }
}

/// Smoothing keeps each endpoint within one canvas unit, per coordinate,
/// of the raw stroke's corresponding endpoint: the resampler reproduces
/// the endpoints exactly, each corner-cutting pass pulls them in by at
/// most a quarter of the outermost gap, and the averaging pass leaves
/// them alone.
#[verifier::rlimit(100)]
#[verifier::spinoff_prover]
pub proof fn lemma_smoothing_endpoint_drift(pts: Seq<Point>, ws: Seq<i64>)
    requires
        pts.len() == ws.len(),
        1 <= pts.len(),
        forall|i: int| 0 <= i < pts.len() ==> valid_point(#[trigger] pts[i]),
    ensures
        ({
            let out = smooth_points_spec(pts, ws);
            &&& out.len() >= 1
            &&& -1000 <= out[0].x - pts[0].x <= 1000
            &&& -1000 <= out[0].y - pts[0].y <= 1000
            &&& -1000 <= out.last().x - pts.last().x <= 1000
            &&& -1000 <= out.last().y - pts.last().y <= 1000
        }),
{
    let out = smooth_points_spec(pts, ws);
    if pts.len() < 3 {
        assert(out == pts);
    } else {
        let r = resample_points_spec(pts, RESAMPLE_SPACING as int);
        lemma_resample_ends(pts, RESAMPLE_SPACING as int);
        let c1 = chaikin_points_spec(r);
        lemma_chaikin_ends(r);
        let vx0 = (r[1].x - r[0].x) as int;
        let vy0 = (r[1].y - r[0].y) as int;
        lemma_div4_bound(vx0, 2000);
        lemma_div4_bound(vy0, 2000);
        lemma_quarter_pair_gap(vx0, 2000);
        lemma_quarter_pair_gap(vy0, 2000);
        assert(-500 <= c1[0].x - r[0].x <= 500);
        assert(-500 <= c1[0].y - r[0].y <= 500);
        assert(-1001 <= c1[1].x - c1[0].x <= 1001);
        assert(-1001 <= c1[1].y - c1[0].y <= 1001);
        let vx1 = (r.last().x - r[r.len() - 2].x) as int;
        let vy1 = (r.last().y - r[r.len() - 2].y) as int;
        lemma_three_quarter_far(vx1, 2000);
        lemma_three_quarter_far(vy1, 2000);
        lemma_quarter_pair_gap(vx1, 2000);
        lemma_quarter_pair_gap(vy1, 2000);
        assert(-501 <= c1.last().x - r.last().x <= 501);
        assert(-501 <= c1.last().y - r.last().y <= 501);
        assert(-1001 <= c1.last().x - c1[c1.len() - 2].x <= 1001);
        assert(-1001 <= c1.last().y - c1[c1.len() - 2].y <= 1001);
        let c2 = chaikin_points_spec(c1);
        lemma_chaikin_ends(c1);
        let wx0 = (c1[1].x - c1[0].x) as int;
        let wy0 = (c1[1].y - c1[0].y) as int;
        lemma_div4_bound(wx0, 1001);
        lemma_div4_bound(wy0, 1001);
        assert(-251 <= c2[0].x - c1[0].x <= 251);
        assert(-251 <= c2[0].y - c1[0].y <= 251);
        let wx1 = (c1.last().x - c1[c1.len() - 2].x) as int;
        let wy1 = (c1.last().y - c1[c1.len() - 2].y) as int;
        lemma_three_quarter_far(wx1, 1001);
        lemma_three_quarter_far(wy1, 1001);
        assert(-251 <= c2.last().x - c1.last().x <= 251);
        assert(-251 <= c2.last().y - c1.last().y <= 251);
        let mv = moving_average_spec(c2);
        assert(mv[0] == c2[0]);
        assert(mv.last() == c2.last());
        assert(out == mv);
        assert(-1000 <= out[0].x - pts[0].x <= 1000);
        assert(-1000 <= out.last().x - pts.last().x <= 1000);
    }
}

} // verus!
