use whiteboard::geom::{dist_i64, dist_sq_i64, is_collinear, Point, Rect};
use whiteboard::state::{Color, DrawingStroke, DynamicBrushMode, InsertedShape, ShapeType};
use whiteboard::utils::AppUtils;

fn pt(x: i64, y: i64) -> Point {
    Point { x, y }
}

#[test]
fn distance_of_a_three_four_five_triangle() {
    assert_eq!(dist_sq_i64(pt(0, 0), pt(3000, 4000)), 25_000_000);
    assert_eq!(dist_i64(pt(0, 0), pt(3000, 4000)), 5000);
}

#[test]
fn segment_distance_interior_projection() {
    // Five units along a ten-unit horizontal chord, three units above it.
    let d = AppUtils::point_to_line_segment_distance(pt(5000, 3000), pt(0, 0), pt(10000, 0));
    assert_eq!(d, 3000);
}

#[test]
fn segment_distance_clamps_to_endpoint() {
    let d = AppUtils::point_to_line_segment_distance(pt(-5000, 0), pt(0, 0), pt(10000, 0));
    assert_eq!(d, 5000);
}

#[test]
fn segment_distance_degenerate_segment() {
    let d = AppUtils::point_to_line_segment_distance(pt(4000, 5000), pt(1000, 1000), pt(1000, 1000));
    assert_eq!(d, 5000);
}

#[test]
fn collinear_exactly_at_tolerance() {
    // Points (0,0), (5,t), (10,0): collinear iff t <= tolerance.
    let tol = 3000;
    let at = vec![pt(0, 0), pt(5000, tol), pt(10000, 0)];
    assert!(is_collinear(&at, tol));
}

#[test]
fn collinear_just_over_tolerance() {
    let tol = 3000;
    let over = vec![pt(0, 0), pt(5000, tol + 1), pt(10000, 0)];
    assert!(!is_collinear(&over, tol));
}

#[test]
fn collinear_trivial_for_two_points() {
    let two = vec![pt(0, 0), pt(999_999, 123)];
    assert!(is_collinear(&two, 0));
}

#[test]
fn speed_width_slow_thickens_to_three_halves() {
    let w = AppUtils::calculate_dynamic_width(10_000, DynamicBrushMode::SpeedBased, 1, 2, Some(0));
    assert_eq!(w, 15_000);
}

#[test]
fn speed_width_at_cap_thins_to_half() {
    let w = AppUtils::calculate_dynamic_width(
        10_000,
        DynamicBrushMode::SpeedBased,
        1,
        2,
        Some(500_000),
    );
    assert_eq!(w, 5_000);
    // Speeds past the cap clamp to the same value.
    let w2 = AppUtils::calculate_dynamic_width(
        10_000,
        DynamicBrushMode::SpeedBased,
        1,
        2,
        Some(2_000_000),
    );
    assert_eq!(w2, 5_000);
}

#[test]
fn speed_width_midpoint() {
    let w = AppUtils::calculate_dynamic_width(
        10_000,
        DynamicBrushMode::SpeedBased,
        1,
        2,
        Some(250_000),
    );
    assert_eq!(w, 10_000);
}

#[test]
fn speed_width_stays_in_bounds_for_many_speeds() {
    let base = 7_333;
    let mut speed: i64 = 0;
    while speed < 1_000_000 {
        let w = AppUtils::calculate_dynamic_width(
            base,
            DynamicBrushMode::SpeedBased,
            1,
            2,
            Some(speed),
        );
        assert!(w >= base / 2);
        assert!(w <= base + base / 2);
        speed += 37_111;
    }
}

#[test]
fn brush_tip_tapers_the_last_third() {
    // Full width up to seventy percent of the stroke.
    for idx in 0..=7usize {
        let w = AppUtils::calculate_dynamic_width(10_000, DynamicBrushMode::BrushTip, idx, 10, None);
        assert_eq!(w, 10_000);
    }
    // Then a linear taper: (12t - 10i) / 5t of the base width.
    let w8 = AppUtils::calculate_dynamic_width(10_000, DynamicBrushMode::BrushTip, 8, 10, None);
    assert_eq!(w8, 8_000);
    let w9 = AppUtils::calculate_dynamic_width(10_000, DynamicBrushMode::BrushTip, 9, 10, None);
    assert_eq!(w9, 6_000);
}

#[test]
fn disabled_mode_keeps_base_width() {
    let w = AppUtils::calculate_dynamic_width(
        4_321,
        DynamicBrushMode::Disabled,
        3,
        9,
        Some(400_000),
    );
    assert_eq!(w, 4_321);
}

#[test]
fn stroke_hit_respects_width_and_cursor() {
    let stroke = DrawingStroke {
        points: vec![pt(40_000, 50_000), pt(60_000, 50_000)],
        widths: vec![5_000, 5_000],
        color: Color::rgb(255, 255, 255),
        base_width: 5_000,
    };
    // Two units above the centreline, against half the five-unit width.
    assert!(AppUtils::point_intersects_stroke(pt(50_000, 52_000), &stroke, 0));
    // Three units away misses with no cursor size, hits with a two-unit one.
    assert!(!AppUtils::point_intersects_stroke(pt(50_000, 53_000), &stroke, 0));
    assert!(AppUtils::point_intersects_stroke(pt(50_000, 53_000), &stroke, 2_000));
}

#[test]
fn circle_bounding_box_is_center_plus_radius_plus_padding() {
    let shape = InsertedShape {
        shape_type: ShapeType::Circle,
        pos: pt(100_000, 100_000),
        size: 50_000,
        color: Color::rgb(1, 2, 3),
        rotation: 0,
    };
    let r = AppUtils::calculate_shape_bounding_box(&shape);
    assert_eq!(r, Rect { min: pt(70_000, 70_000), max: pt(130_000, 130_000) });
}

#[test]
fn rectangle_bounding_box_has_no_padding() {
    let shape = InsertedShape {
        shape_type: ShapeType::Rectangle,
        pos: pt(1_000, 2_000),
        size: 10_000,
        color: Color::rgb(1, 2, 3),
        rotation: 0,
    };
    let r = AppUtils::calculate_shape_bounding_box(&shape);
    assert_eq!(r, Rect { min: pt(1_000, 2_000), max: pt(11_000, 12_000) });
}

#[test]
fn arrow_bounding_box_has_tall_padding() {
    let shape = InsertedShape {
        shape_type: ShapeType::Arrow,
        pos: pt(0, 0),
        size: 100_000,
        color: Color::rgb(1, 2, 3),
        rotation: 0,
    };
    let r = AppUtils::calculate_shape_bounding_box(&shape);
    assert_eq!(r, Rect { min: pt(-5_000, -15_000), max: pt(105_000, 15_000) });
}
