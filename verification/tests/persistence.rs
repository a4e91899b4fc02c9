use whiteboard::codec::{deserialize_canvas, serialize_canvas};
use whiteboard::geom::Point;
use whiteboard::state::{
    CanvasObject, Color, DrawingStroke, InsertedImage, InsertedShape, InsertedText, ShapeType,
};

fn pt(x: i64, y: i64) -> Point {
    Point { x, y }
}

fn sample_stroke() -> CanvasObject {
    CanvasObject::Stroke(DrawingStroke {
        points: vec![pt(0, 0), pt(2_000, 100), pt(4_000, -300)],
        widths: vec![5_000, 5_500, 4_500],
        color: Color::rgb(10, 20, 30),
        base_width: 5_000,
    })
}

fn sample_text() -> CanvasObject {
    CanvasObject::Text(InsertedText {
        text: String::from("héllo, wörld"),
        pos: pt(10_000, 40_000),
        color: Color::rgb(255, 255, 255),
        font_size: 16_000,
    })
}

fn sample_shape() -> CanvasObject {
    CanvasObject::Shape(InsertedShape {
        shape_type: ShapeType::Triangle,
        pos: pt(-7_000, 9_000),
        size: 42_000,
        color: Color::rgb(1, 2, 3),
        rotation: 1_234,
    })
}

#[test]
fn serialization_round_trips_all_non_image_kinds() {
    let canvas = vec![sample_stroke(), sample_text(), sample_shape()];
    let bytes = serialize_canvas(&canvas);
    let back = deserialize_canvas(&bytes).expect("a serialized canvas should load");
    assert_eq!(back.len(), 3);
    assert_eq!(back[0], canvas[0]);
    assert_eq!(back[1], canvas[1]);
    assert_eq!(back[2], canvas[2]);
}

#[test]
fn images_are_dropped_on_save() {
    let image = CanvasObject::Image(InsertedImage {
        texture_id: 99,
        pos: pt(0, 0),
        width: 30_000,
        height: 20_000,
        aspect_w: 30_000,
        aspect_h: 20_000,
        marked_for_deletion: false,
    });
    let canvas = vec![sample_stroke(), image, sample_shape()];
    let bytes = serialize_canvas(&canvas);
    let back = deserialize_canvas(&bytes).expect("a serialized canvas should load");
    assert_eq!(back.len(), 2);
    assert_eq!(back[0], canvas[0]);
    assert_eq!(back[1], canvas[2]);
}

#[test]
fn empty_canvas_round_trips() {
    let canvas: Vec<CanvasObject> = Vec::new();
    let bytes = serialize_canvas(&canvas);
    let back = deserialize_canvas(&bytes).expect("an empty canvas should load");
    assert!(back.is_empty());
}

#[test]
fn truncated_bytes_are_rejected() {
    let canvas = vec![sample_shape()];
    let mut bytes = serialize_canvas(&canvas);
    bytes.pop();
    assert!(deserialize_canvas(&bytes).is_none());
}

#[test]
fn trailing_garbage_is_rejected() {
    let canvas = vec![sample_shape()];
    let mut bytes = serialize_canvas(&canvas);
    bytes.push(0);
    assert!(deserialize_canvas(&bytes).is_none());
}

#[test]
fn unknown_tags_are_rejected() {
    let empty: Vec<CanvasObject> = Vec::new();
    let mut bytes = serialize_canvas(&empty);
    // Claim one object, then supply an invalid tag.
    bytes[0] = 1;
    for _ in 0..8 {
        bytes.push(0xFF);
    }
    assert!(deserialize_canvas(&bytes).is_none());
}
