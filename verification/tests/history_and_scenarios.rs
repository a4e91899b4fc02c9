use whiteboard::app_state::{AppState, ResizeHandle};
use whiteboard::geom::Point;
use whiteboard::history::History;
use whiteboard::state::{
    CanvasObject, Color, InsertedShape, SelectedObject, ShapeType, FpsCounter,
};

fn pt(x: i64, y: i64) -> Point {
    Point { x, y }
}

fn white() -> Color {
    Color::rgb(255, 255, 255)
}

#[test]
fn undo_after_insert_shape_round_trips() {
    // Insert a circle, undo it, redo it: the canvas returns to exactly
    // one object identical to the original.
    let mut st = AppState::new();
    assert!(st.insert_shape(ShapeType::Circle, pt(100_000, 100_000), 50_000, white()));
    assert_eq!(st.objects.len(), 1);
    let expected = CanvasObject::Shape(InsertedShape {
        shape_type: ShapeType::Circle,
        pos: pt(100_000, 100_000),
        size: 50_000,
        color: white(),
        rotation: 0,
    });
    assert_eq!(st.objects[0], expected);

    assert!(st.undo());
    assert_eq!(st.objects.len(), 0);

    assert!(st.redo());
    assert_eq!(st.objects.len(), 1);
    assert_eq!(st.objects[0], expected);
}

#[test]
fn n_undos_then_n_redos_restore_the_canvas() {
    let mut st = AppState::new();
    assert!(st.insert_shape(ShapeType::Line, pt(0, 0), 10_000, white()));
    assert!(st.insert_shape(ShapeType::Triangle, pt(20_000, 0), 12_000, Color::rgb(9, 8, 7)));
    assert!(st.insert_text(String::from("hello"), pt(5_000, 5_000), white(), 16_000));
    let snapshot: Vec<CanvasObject> = st.objects.clone();

    assert!(st.undo());
    assert!(st.undo());
    assert!(st.undo());
    assert_eq!(st.objects.len(), 0);
    assert!(!st.undo());

    assert!(st.redo());
    assert!(st.redo());
    assert!(st.redo());
    assert!(!st.redo());
    assert_eq!(st.objects.len(), snapshot.len());
    for (a, b) in st.objects.iter().zip(snapshot.iter()) {
        assert_eq!(a, b);
    }
}

#[test]
fn undo_and_redo_on_empty_history_do_nothing() {
    let mut st = AppState::new();
    assert!(!st.undo());
    assert!(!st.redo());
    assert_eq!(st.objects.len(), 0);
}

#[test]
fn a_new_action_discards_the_redo_chain() {
    let mut st = AppState::new();
    assert!(st.insert_shape(ShapeType::Line, pt(0, 0), 10_000, white()));
    assert!(st.undo());
    assert_eq!(st.history.redo_len(), 1);
    assert!(st.insert_shape(ShapeType::Circle, pt(0, 0), 10_000, white()));
    assert_eq!(st.history.redo_len(), 0);
    assert!(!st.redo());
}

#[test]
fn history_entry_cap_evicts_the_oldest() {
    let shape = CanvasObject::Shape(InsertedShape {
        shape_type: ShapeType::Rectangle,
        pos: pt(0, 0),
        size: 10_000,
        color: white(),
        rotation: 0,
    });
    let mut h = History::new(3, 1_000_000);
    for i in 0..5usize {
        h.record_add(i, &shape);
    }
    assert_eq!(h.undo_len(), 3);
}

#[test]
fn history_memory_cap_evicts_the_oldest() {
    let shape = CanvasObject::Shape(InsertedShape {
        shape_type: ShapeType::Rectangle,
        pos: pt(0, 0),
        size: 10_000,
        color: white(),
        rotation: 0,
    });
    // Each shape command costs 96 estimated bytes; a 100-byte cap keeps
    // exactly one.
    let mut h = History::new(50, 100);
    h.record_add(0, &shape);
    assert_eq!(h.undo_len(), 1);
    assert_eq!(h.memory_estimate(), 96);
    h.record_add(1, &shape);
    assert_eq!(h.undo_len(), 1);
    assert_eq!(h.memory_estimate(), 96);
}

#[test]
fn brush_stroke_commit_keeps_endpoints_and_alignment() {
    // Drag from the origin to (100, 0) in a straight line with fifty
    // admitted samples, smoothing on and interpolation at 0.1 per unit:
    // one committed stroke, endpoints within two units of the drag's,
    // and one width per point.
    let mut st = AppState::new();
    st.interpolation_frequency = 100;
    st.pointer_down(0, pt(0, 0), 0);
    for k in 1..=50i64 {
        st.pointer_move(0, pt(k * 2000, 0), (k * 10) as u64);
    }
    assert!(st.pointer_up(0));
    assert_eq!(st.objects.len(), 1);
    match &st.objects[0] {
        CanvasObject::Stroke(s) => {
            assert_eq!(s.points.len(), s.widths.len());
            assert!(s.points.len() >= 2);
            let first = s.points[0];
            let last = *s.points.last().unwrap();
            assert!(first.x.abs() <= 2000 && first.y.abs() <= 2000);
            assert!((last.x - 100_000).abs() <= 2000 && last.y.abs() <= 2000);
        }
        _ => panic!("expected a stroke"),
    }
}

#[test]
fn object_eraser_removes_the_stroke_and_records_it() {
    // A stroke through (50, 50); erasing at (50, 50) with a twenty-unit
    // eraser removes exactly that stroke and records one removal.
    let mut st = AppState::new();
    st.eraser_size = 20_000;
    st.pointer_down(0, pt(40_000, 50_000), 0);
    st.pointer_move(0, pt(60_000, 50_000), 10);
    assert!(st.pointer_up(0));
    assert_eq!(st.objects.len(), 1);
    let before = st.history.undo_len();

    st.erase_at(pt(50_000, 50_000));
    assert_eq!(st.objects.len(), 0);
    assert_eq!(st.history.undo_len(), before + 1);

    assert!(st.undo());
    assert_eq!(st.objects.len(), 1);
}

#[test]
fn eraser_misses_a_distant_stroke() {
    let mut st = AppState::new();
    st.pointer_down(0, pt(0, 0), 0);
    st.pointer_move(0, pt(20_000, 0), 10);
    assert!(st.pointer_up(0));
    let before = st.history.undo_len();
    st.erase_at(pt(90_000, 90_000));
    assert_eq!(st.objects.len(), 1);
    assert_eq!(st.history.undo_len(), before);
}

#[test]
fn eraser_marks_images_then_sweep_removes_them() {
    let mut st = AppState::new();
    assert!(st.insert_image(7, pt(0, 0), 40_000, 20_000));
    st.erase_at(pt(10_000, 10_000));
    // The image is only marked, not yet removed.
    assert_eq!(st.objects.len(), 1);
    match &st.objects[0] {
        CanvasObject::Image(img) => assert!(img.marked_for_deletion),
        _ => panic!("expected an image"),
    }
    st.sweep_removed();
    assert_eq!(st.objects.len(), 0);
    assert!(st.undo());
    assert_eq!(st.objects.len(), 1);
}

#[test]
fn multi_touch_pointers_draw_independently() {
    let mut st = AppState::new();
    st.pointer_down(1, pt(0, 0), 0);
    st.pointer_down(2, pt(50_000, 0), 0);
    st.pointer_move(1, pt(10_000, 0), 5);
    st.pointer_move(2, pt(60_000, 0), 5);
    assert_eq!(st.tracker.active_count(), 2);
    assert!(st.pointer_up(1));
    assert_eq!(st.tracker.active_count(), 1);
    assert!(st.pointer_up(2));
    assert_eq!(st.objects.len(), 2);
    assert!(!st.pointer_up(3));
}

#[test]
fn cancelled_pointer_commits_nothing() {
    let mut st = AppState::new();
    st.pointer_down(0, pt(0, 0), 0);
    st.pointer_move(0, pt(10_000, 0), 5);
    st.pointer_cancel(0);
    assert!(!st.pointer_up(0));
    assert_eq!(st.objects.len(), 0);
}

#[test]
fn admission_filter_applies_live() {
    let mut st = AppState::new();
    st.pointer_down(0, pt(0, 0), 0);
    // A move under one unit away is not admitted.
    assert!(!st.pointer_move(0, pt(500, 0), 5));
    assert!(st.pointer_move(0, pt(1500, 0), 10));
    assert_eq!(st.tracker.entries[0].stroke.points.len(), 2);
}

#[test]
fn straightening_fires_after_a_pause() {
    let mut st = AppState::new();
    st.stroke_straightening = true;
    st.stroke_straightening_tolerance = 3_000;
    st.pointer_down(0, pt(0, 0), 0);
    st.pointer_move(0, pt(5_000, 2_000), 10);
    st.pointer_move(0, pt(10_000, 0), 20);
    assert_eq!(st.tracker.entries[0].stroke.points.len(), 3);
    // A stationary hover 600 ms later collapses the collinear points.
    st.pointer_move(0, pt(10_100, 0), 620);
    assert_eq!(st.tracker.entries[0].stroke.points.len(), 2);
    assert_eq!(st.tracker.entries[0].stroke.points[0], pt(0, 0));
    assert_eq!(st.tracker.entries[0].stroke.points[1], pt(10_000, 0));
}

#[test]
fn selection_picks_the_topmost_object() {
    let mut st = AppState::new();
    assert!(st.insert_shape(ShapeType::Rectangle, pt(100_000, 100_000), 50_000, white()));
    assert!(st.insert_shape(ShapeType::Rectangle, pt(120_000, 120_000), 50_000, white()));
    let sel = st.select_at(pt(125_000, 125_000));
    assert_eq!(sel, Some(SelectedObject::Shape(1)));
    let sel2 = st.select_at(pt(105_000, 105_000));
    assert_eq!(sel2, Some(SelectedObject::Shape(0)));
    let sel3 = st.select_at(pt(400_000, 400_000));
    assert_eq!(sel3, None);
}

#[test]
fn moving_a_selected_shape_translates_it_and_can_be_undone() {
    let mut st = AppState::new();
    assert!(st.insert_shape(ShapeType::Rectangle, pt(100_000, 100_000), 50_000, white()));
    st.select_at(pt(110_000, 110_000));
    assert!(st.move_selected(5_000, -5_000));
    match &st.objects[0] {
        CanvasObject::Shape(s) => assert_eq!(s.pos, pt(105_000, 95_000)),
        _ => panic!("expected a shape"),
    }
    assert!(st.undo());
    match &st.objects[0] {
        CanvasObject::Shape(s) => assert_eq!(s.pos, pt(100_000, 100_000)),
        _ => panic!("expected a shape"),
    }
}

#[test]
fn resizing_an_image_preserves_its_aspect_ratio() {
    let mut st = AppState::new();
    assert!(st.insert_image(1, pt(0, 0), 40_000, 20_000));
    st.select_at(pt(10_000, 10_000));
    assert!(st.resize_selected(ResizeHandle::Right, 10_000, 0));
    match &st.objects[0] {
        CanvasObject::Image(img) => {
            assert_eq!(img.width, 50_000);
            assert_eq!(img.height, 25_000);
            assert_eq!(img.pos, pt(0, 0));
        }
        _ => panic!("expected an image"),
    }
}

#[test]
fn resizing_enforces_the_minimum_extent() {
    let mut st = AppState::new();
    assert!(st.insert_image(1, pt(0, 0), 40_000, 20_000));
    st.select_at(pt(10_000, 10_000));
    // Dragging the right edge far to the left bottoms out at the
    // twenty-unit minimum.
    assert!(st.resize_selected(ResizeHandle::Right, -90_000, 0));
    match &st.objects[0] {
        CanvasObject::Image(img) => {
            assert_eq!(img.width, 20_000);
            assert_eq!(img.height, 20_000);
        }
        _ => panic!("expected an image"),
    }
}

#[test]
fn rotation_wraps_at_a_full_turn() {
    let mut st = AppState::new();
    assert!(st.insert_shape(ShapeType::Triangle, pt(100_000, 100_000), 50_000, white()));
    st.select_at(pt(110_000, 102_000));
    assert!(st.rotate_selected(6_283));
    match &st.objects[0] {
        CanvasObject::Shape(s) => assert_eq!(s.rotation, 0),
        _ => panic!("expected a shape"),
    }
    assert!(st.rotate_selected(-100));
    match &st.objects[0] {
        CanvasObject::Shape(s) => assert_eq!(s.rotation, 6_183),
        _ => panic!("expected a shape"),
    }
}

#[test]
fn clearing_the_canvas_can_be_undone_in_one_step() {
    let mut st = AppState::new();
    assert!(st.insert_shape(ShapeType::Line, pt(0, 0), 10_000, white()));
    assert!(st.insert_shape(ShapeType::Circle, pt(30_000, 0), 10_000, white()));
    st.clear_canvas();
    assert_eq!(st.objects.len(), 0);
    assert!(st.undo());
    assert_eq!(st.objects.len(), 2);
    assert!(st.redo());
    assert_eq!(st.objects.len(), 0);
}

#[test]
fn pixel_eraser_removes_points_and_drops_empty_strokes() {
    let mut st = AppState::new();
    st.stroke_smoothing = false;
    st.eraser_size = 2_000;
    st.pointer_down(0, pt(0, 0), 0);
    st.pointer_move(0, pt(2_000, 0), 5);
    st.pointer_move(0, pt(4_000, 0), 10);
    assert!(st.pointer_up(0));
    match &st.objects[0] {
        CanvasObject::Stroke(s) => assert_eq!(s.points.len(), 3),
        _ => panic!("expected a stroke"),
    }

    // Erasing the middle point leaves a two-point stroke.
    st.pixel_erase_at(pt(2_000, 0));
    match &st.objects[0] {
        CanvasObject::Stroke(s) => {
            assert_eq!(s.points, vec![pt(0, 0), pt(4_000, 0)]);
            assert_eq!(s.widths.len(), 2);
        }
        _ => panic!("expected a stroke"),
    }

    // Erasing one of the remaining points leaves too little to keep.
    st.pixel_erase_at(pt(0, 0));
    assert_eq!(st.objects.len(), 0);
}

#[test]
fn text_insertion_rejects_out_of_range_values() {
    let mut st = AppState::new();
    assert!(!st.insert_text(String::from("x"), pt(0, 0), white(), 0));
    assert!(st.insert_text(String::from("x"), pt(0, 0), white(), 16_000));
    assert_eq!(st.objects.len(), 1);
}

#[test]
fn fps_counter_reports_after_its_window() {
    let mut c = FpsCounter::new(0);
    assert_eq!(c.update(10), 0);
    assert_eq!(c.frame_count, 1);
    // Two frames over sixty milliseconds: 33.333 frames per second.
    let fps = c.update(60);
    assert_eq!(fps, 33_333);
    assert_eq!(c.frame_count, 0);
    assert_eq!(c.last_time_ms, 60);
}

#[test]
fn touch_points_track_one_entry_per_contact() {
    let mut st = AppState::new();
    st.set_touch_point(5, pt(1_000, 2_000));
    st.set_touch_point(9, pt(3_000, 4_000));
    st.set_touch_point(5, pt(1_500, 2_500));
    assert_eq!(st.touch_points.len(), 2);
    st.remove_touch_point(9);
    assert_eq!(st.touch_points.len(), 1);
    assert_eq!(st.touch_points[0].id, 5);
    assert_eq!(st.touch_points[0].pos, pt(1_500, 2_500));
    st.remove_touch_point(7);
    assert_eq!(st.touch_points.len(), 1);
}
