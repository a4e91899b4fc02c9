//! Shared helpers: point-to-segment distance, stroke hit-testing, dynamic
//! brush width and shape bounding boxes.

use vstd::prelude::*;
use vstd::arithmetic::div_mod::lemma_div_is_ordered;
use crate::geom::{
    Point, Rect, valid_point, dist_sq, dist_sq_i64, seg_dot, seg_cross, is_sqrt_floor,
    seg_dist_sq_floor, within_seg_dist, within_segment_distance, isqrt64, isqrt128,
    lemma_mul_bound, lemma_sq_bound, lemma_sqrt_below, MAX_COORD, UNIT,
};
use crate::state::{
    DrawingStroke, DynamicBrushMode, InsertedShape, ShapeType, MAX_POINT_WIDTH, MAX_WIDTH,
};
use crate::state::valid_stroke;
use crate::state::valid_shape;
use crate::state::{copy_points, copy_widths, MAX_STROKE_POINTS};
use crate::pipeline::{
    resample, chaikin, moving_average, smooth_points_spec, smooth_widths_spec, RESAMPLE_SPACING,
};

verus! {

/// Padding, in fixed-point steps, added around shape bounding boxes.
pub const BBOX_PAD: i64 = 5_000;

/// Extra vertical padding around an arrow's bounding box, for its head.
pub const ARROW_PAD: i64 = 15_000;

/// Width of the stretch of a stroke from point `i` to point `i + 1`: the
/// larger of the two endpoint widths.
pub open spec fn segment_width_v(w: Seq<i64>, i: int) -> int {
    if w[i] >= w[i + 1] {
        w[i] as int
    } else {
        w[i + 1] as int
    }
}

/// The eraser or cursor disc of diameter `eraser_size` centred at `pos`
/// touches the stretch of the stroke value from point `i` to `i + 1`.
pub open spec fn segment_hit_v(
    pos: Point,
    pts: Seq<Point>,
    w: Seq<i64>,
    i: int,
    eraser_size: int,
) -> bool {
    within_seg_dist(pos, pts[i], pts[i + 1], (eraser_size + segment_width_v(w, i)) / 2)
}

/// The eraser or cursor disc of diameter `eraser_size` centred at `pos`
/// touches some stretch of the stroke value.
pub open spec fn stroke_hit_v(pos: Point, sv: crate::state::StrokeView, eraser_size: int) -> bool {
    exists|i: int|
        0 <= i < sv.points.len() - 1 && segment_hit_v(pos, sv.points, sv.widths, i, eraser_size)
}

/// The eraser or cursor disc of diameter `eraser_size` centred at `pos`
/// touches the stretch of the stroke from point `i` to point `i + 1`.
pub open spec fn segment_hit(pos: Point, s: DrawingStroke, i: int, eraser_size: int) -> bool {
    segment_hit_v(pos, s.points@, s.widths@, i, eraser_size)
}

/// The eraser or cursor disc of diameter `eraser_size` centred at `pos`
/// touches some stretch of the stroke.
pub open spec fn stroke_hit(pos: Point, s: DrawingStroke, eraser_size: int) -> bool {
    stroke_hit_v(pos, s@, eraser_size)
}

/// The exact width formula for `DynamicBrushMode::BrushTip`: full width for
/// the first seventy percent of the points, then a linear taper down to
/// forty percent of the base width.
pub open spec fn brush_tip_width(base: int, idx: int, total: int) -> int {
    let t = if total < 1 { 1int } else { total };
    if 10 * idx > 7 * t {
        base * (12 * t - 10 * idx) / (5 * t)
    } else {
        base
    }
}

/// The exact width formula for `DynamicBrushMode::SpeedBased`: speed is
/// clamped at 500 canvas units per second, then the width scales linearly
/// from one and a half times the base width (at rest) down to half the
/// base width (at the cap). Speeds are fixed-point steps per second.
pub open spec fn speed_based_width(base: int, speed: int) -> int {
    let ns = if speed > 500_000 { 500_000int } else { speed };
    base * (750_000 - ns) / 500_000
}

/// The width assigned to an admitted point, as a function of the brush
/// mode, the point's index, the stroke's point count, and the pointer's
/// instantaneous speed at the point (when known).
pub open spec fn dynamic_width(
    base: int,
    mode: DynamicBrushMode,
    idx: int,
    total: int,
    speed: Option<i64>,
) -> int {
    match mode {
        DynamicBrushMode::Disabled => base,
        DynamicBrushMode::BrushTip => brush_tip_width(base, idx, total),
        DynamicBrushMode::SpeedBased => match speed {
            Option::None => base,
            Option::Some(s) => speed_based_width(base, s as int),
        },
    }
}

/// Speed-based widths stay between half and one and a half times the base
/// width, for every non-negative speed.
pub proof fn lemma_speed_width_bounds(base: int, speed: int)
    requires
        0 < base,
        0 <= speed,
    ensures
        base / 2 <= speed_based_width(base, speed) <= base + base / 2,
{
    let ns = if speed > 500_000 { 500_000int } else { speed };
    assert(0 <= ns <= 500_000);
    assert(base * 250_000 <= base * (750_000 - ns) <= base * 750_000) by (nonlinear_arith)
        requires
            0 < base,
            0 <= ns <= 500_000,
    ;
    lemma_div_is_ordered(base * 250_000, base * (750_000 - ns), 500_000);
    lemma_div_is_ordered(base * (750_000 - ns), base * 750_000, 500_000);
    assert(base * 250_000 / 500_000 == base / 2) by (nonlinear_arith);
    assert(base * 750_000 / 500_000 == base + base / 2) by (nonlinear_arith);
}

/// Brush-tip widths stay between two fifths of the base width and the base
/// width itself, for every index up to the point count.
pub proof fn lemma_brush_tip_bounds(base: int, idx: int, total: int)
    requires
        0 < base,
        0 <= idx <= total,
    ensures
        0 <= brush_tip_width(base, idx, total) <= base,
{
    let t = if total < 1 { 1int } else { total };
    if 10 * idx > 7 * t {
        assert(0 <= idx <= t);
        assert(2 * t <= 12 * t - 10 * idx <= 5 * t);
        assert(0 < base * (2 * t) <= base * (12 * t - 10 * idx) <= base * (5 * t))
            by (nonlinear_arith)
            requires
                0 < base,
                0 < t,
                2 * t <= 12 * t - 10 * idx <= 5 * t,
        ;
        lemma_div_is_ordered(base * (2 * t), base * (12 * t - 10 * idx), 5 * t);
        lemma_div_is_ordered(base * (12 * t - 10 * idx), base * (5 * t), 5 * t);
        assert(base * (5 * t) / (5 * t) == base) by (nonlinear_arith)
            requires
                0 < t,
        ;
        assert(base * (2 * t) / (5 * t) >= 0) by (nonlinear_arith)
            requires
                0 < base,
                0 < t,
        ;
    }
}

/// Geometry and stroke helpers shared across the tools.
pub struct AppUtils;

impl AppUtils {
    /// Whether the eraser or cursor disc of diameter `eraser_size` centred
    /// at `pos` touches the stroke: true point-to-polyline distance against
    /// half the local stroke width plus the disc radius.
    pub fn point_intersects_stroke(pos: Point, stroke: &DrawingStroke, eraser_size: i64) -> (r:
        bool)
        requires
            valid_point(pos),
            valid_stroke(*stroke),
            0 <= eraser_size <= MAX_WIDTH,
        ensures
            r == stroke_hit(pos, *stroke, eraser_size as int),
    {
        let n: usize = stroke.points.len();
        let mut i: usize = 0;
        while i < n - 1
            invariant
                0 <= i <= n,
                n == stroke.points@.len(),
                valid_point(pos),
                valid_stroke(*stroke),
                0 <= eraser_size <= MAX_WIDTH,
                forall|k: int| 0 <= k < i ==> !segment_hit(pos, *stroke, k, eraser_size as int),
            decreases n - i,
        {
            let wa: i64 = stroke.widths[i];
            let wb: i64 = stroke.widths[i + 1];
            let w: i64 = if wa >= wb {
                wa
            } else {
                wb
            };
            let d: i64 = (eraser_size + w) / 2;
            if within_segment_distance(pos, stroke.points[i], stroke.points[i + 1], d) {
                assert(segment_hit(pos, *stroke, i as int, eraser_size as int));
                return true;
            }
            i = i + 1;
        }
        proof {
            assert forall|k: int| 0 <= k < stroke@.points.len() - 1 implies !segment_hit_v(
                pos,
                stroke@.points,
                stroke@.widths,
                k,
                eraser_size as int,
            ) by {
                assert(!segment_hit(pos, *stroke, k, eraser_size as int));
            }
        }
        false
    }

    /// Distance from `p` to the segment from `a` to `b`, rounded down:
    /// the clamped-projection distance, or the distance to `a` when the
    /// segment is degenerate.
    pub fn point_to_line_segment_distance(p: Point, a: Point, b: Point) -> (r: i64)
        requires
            valid_point(p),
            valid_point(a),
            valid_point(b),
        ensures
            is_sqrt_floor(seg_dist_sq_floor(p, a, b), r as int),
            0 <= r,
    {
        let len2: i64 = dist_sq_i64(a, b);
        if len2 == 0 {
            let r: u64 = isqrt64(dist_sq_i64(p, a) as u64);
            return r as i64;
        }
        proof {
            lemma_mul_bound(
                (p.x - a.x) as int,
                (b.x - a.x) as int,
                2 * MAX_COORD as int,
                2 * MAX_COORD as int,
            );
            lemma_mul_bound(
                (p.y - a.y) as int,
                (b.y - a.y) as int,
                2 * MAX_COORD as int,
                2 * MAX_COORD as int,
            );
            lemma_mul_bound(
                (p.x - a.x) as int,
                (b.y - a.y) as int,
                2 * MAX_COORD as int,
                2 * MAX_COORD as int,
            );
            lemma_mul_bound(
                (p.y - a.y) as int,
                (b.x - a.x) as int,
                2 * MAX_COORD as int,
                2 * MAX_COORD as int,
            );
        }
        let dt: i64 = (p.x - a.x) * (b.x - a.x) + (p.y - a.y) * (b.y - a.y);
        if dt <= 0 {
            let r: u64 = isqrt64(dist_sq_i64(p, a) as u64);
            r as i64
        } else if dt >= len2 {
            let r: u64 = isqrt64(dist_sq_i64(p, b) as u64);
            r as i64
        } else {
            let cr: i64 = (p.x - a.x) * (b.y - a.y) - (p.y - a.y) * (b.x - a.x);
            proof {
                lemma_sq_bound(cr as int, 80_000_000_000_000_000);
            }
            let cr2: i128 = (cr as i128) * (cr as i128);
            let q: i128 = cr2 / (len2 as i128);
            proof {
                vstd::arithmetic::div_mod::lemma_div_basics(cr2 as int);
                vstd::arithmetic::div_mod::lemma_div_of0(len2 as int);
                lemma_div_is_ordered(0, cr2 as int, len2 as int);
                vstd::arithmetic::div_mod::lemma_div_is_ordered_by_denominator(
                    cr2 as int,
                    1,
                    len2 as int,
                );
            }
            let r: u64 = isqrt128(q as u128);
            proof {
                lemma_sqrt_below(q as int, r as int, 100_000_000_000_000_000);
            }
            r as i64
        }
    }

    /// The width for a newly admitted point under the given brush mode:
    /// the exact `dynamic_width` formula.
    pub fn calculate_dynamic_width(
        base_width: i64,
        mode: DynamicBrushMode,
        point_index: usize,
        total_points: usize,
        speed: Option<i64>,
    ) -> (r: i64)
        requires
            0 < base_width <= MAX_WIDTH,
            point_index <= total_points,
            total_points <= 1_000_000_000,
            speed is Some ==> 0 <= speed->0,
        ensures
            r == dynamic_width(
                base_width as int,
                mode,
                point_index as int,
                total_points as int,
                speed,
            ),
            0 <= r <= MAX_POINT_WIDTH,
    {
        match mode {
            DynamicBrushMode::Disabled => base_width,
            DynamicBrushMode::BrushTip => {
                let t: usize = if total_points < 1 {
                    1
                } else {
                    total_points
                };
                let ti: i64 = t as i64;
                let idx: i64 = point_index as i64;
                proof {
                    lemma_brush_tip_bounds(base_width as int, point_index as int, t as int);
                }
                if 10 * idx > 7 * ti {
                    proof {
                        lemma_mul_bound(base_width as int, 12 * ti - 10 * idx, MAX_WIDTH as int, 5_000_000_000);
                    }
                    base_width * (12 * ti - 10 * idx) / (5 * ti)
                } else {
                    base_width
                }
            },
            DynamicBrushMode::SpeedBased => {
                match speed {
                    Option::None => base_width,
                    Option::Some(s) => {
                        let ns: i64 = if s > 500_000 {
                            500_000
                        } else {
                            s
                        };
                        proof {
                            lemma_speed_width_bounds(base_width as int, s as int);
                            lemma_mul_bound(base_width as int, 750_000 - ns, MAX_WIDTH as int, 750_000);
                        }
                        base_width * (750_000 - ns) / 500_000
                    },
                }
            },
        }
    }


    /// Run the three-stage smoothing pipeline over a stroke's points and
    /// widths: resampling, two corner-cutting iterations, and one
    /// moving-average pass. Strokes of fewer than three points are
    /// returned unchanged.
    pub fn apply_stroke_smoothing(points: &Vec<Point>, widths: &Vec<i64>) -> (r: (Vec<Point>,
        Vec<i64>))
        requires
            points@.len() == widths@.len(),
            1 <= points@.len() <= MAX_STROKE_POINTS,
            forall|i: int| 0 <= i < points@.len() ==> valid_point(#[trigger] points@[i]),
            forall|i: int|
                0 <= i < widths@.len() ==> 0 <= #[trigger] widths@[i] <= MAX_POINT_WIDTH,
        ensures
            r.0@ == smooth_points_spec(points@, widths@),
            r.1@ == smooth_widths_spec(points@, widths@),
            r.0@.len() == r.1@.len(),
            r.0@.len() >= 1,
            forall|i: int| 0 <= i < r.0@.len() ==> valid_point(#[trigger] r.0@[i]),
            forall|i: int| 0 <= i < r.1@.len() ==> 0 <= #[trigger] r.1@[i] <= MAX_POINT_WIDTH,
    {
        if points.len() < 3 {
            let rp = copy_points(points);
            let rw = copy_widths(widths);
            return (rp, rw);
        }
        let (rp, rw) = resample(points, widths, RESAMPLE_SPACING);
        let (cp, cw) = chaikin(&rp, &rw);
        let (cp2, cw2) = chaikin(&cp, &cw);
        let mp = moving_average(&cp2);
        (mp, cw2)
    }

    /// The exact bounding box of a shape, per kind: lines and arrows run
    /// horizontally from `pos` over their length; rectangles span `size`
    /// in both directions; triangles span `size` across and half of it
    /// down; circles are centred at `pos` with diameter `size`. All but
    /// rectangles carry a fixed padding.
    pub fn calculate_shape_bounding_box(shape: &InsertedShape) -> (r: Rect)
        requires
            valid_shape(*shape),
        ensures
            r == shape_bbox(*shape),
    {
        let p: Point = shape.pos;
        match shape.shape_type {
            ShapeType::Line => Rect {
                min: Point { x: p.x - BBOX_PAD, y: p.y - BBOX_PAD },
                max: Point { x: p.x + shape.size + BBOX_PAD, y: p.y + BBOX_PAD },
            },
            ShapeType::Arrow => Rect {
                min: Point { x: p.x - BBOX_PAD, y: p.y - ARROW_PAD },
                max: Point { x: p.x + shape.size + BBOX_PAD, y: p.y + ARROW_PAD },
            },
            ShapeType::Rectangle => Rect {
                min: p,
                max: Point { x: p.x + shape.size, y: p.y + shape.size },
            },
            ShapeType::Triangle => Rect {
                min: Point { x: p.x - BBOX_PAD, y: p.y - BBOX_PAD },
                max: Point { x: p.x + shape.size + BBOX_PAD, y: p.y + shape.size / 2 + BBOX_PAD },
            },
            ShapeType::Circle => Rect {
                min: Point { x: p.x - shape.size / 2 - BBOX_PAD, y: p.y - shape.size / 2 - BBOX_PAD },
                max: Point { x: p.x + shape.size / 2 + BBOX_PAD, y: p.y + shape.size / 2 + BBOX_PAD },
            },
        }
    }
}

/// The exact bounding box of a shape; see `calculate_shape_bounding_box`.
pub open spec fn shape_bbox(s: InsertedShape) -> Rect {
    let p = s.pos;
    match s.shape_type {
        ShapeType::Line => Rect {
            min: Point { x: (p.x - BBOX_PAD) as i64, y: (p.y - BBOX_PAD) as i64 },
            max: Point { x: (p.x + s.size + BBOX_PAD) as i64, y: (p.y + BBOX_PAD) as i64 },
        },
        ShapeType::Arrow => Rect {
            min: Point { x: (p.x - BBOX_PAD) as i64, y: (p.y - ARROW_PAD) as i64 },
            max: Point { x: (p.x + s.size + BBOX_PAD) as i64, y: (p.y + ARROW_PAD) as i64 },
        },
        ShapeType::Rectangle => Rect {
            min: p,
            max: Point { x: (p.x + s.size) as i64, y: (p.y + s.size) as i64 },
        },
        ShapeType::Triangle => Rect {
            min: Point { x: (p.x - BBOX_PAD) as i64, y: (p.y - BBOX_PAD) as i64 },
            max: Point {
                x: (p.x + s.size + BBOX_PAD) as i64,
                y: (p.y + s.size / 2 + BBOX_PAD) as i64,
            },
        },
        ShapeType::Circle => Rect {
            min: Point {
                x: (p.x - s.size / 2 - BBOX_PAD) as i64,
                y: (p.y - s.size / 2 - BBOX_PAD) as i64,
            },
            max: Point {
                x: (p.x + s.size / 2 + BBOX_PAD) as i64,
                y: (p.y + s.size / 2 + BBOX_PAD) as i64,
            },
        },
    }
}

} // verus!
