//! Core data model: colors, tool and mode enums, canvas objects and their
//! validity invariants, and deep equality usable from executable code.

use vstd::prelude::*;
use crate::geom::{Point, valid_point, MAX_COORD};

verus! {

/// Largest stroke or font width, in fixed-point steps (1000 canvas units).
pub const MAX_WIDTH: i64 = 1_000_000;

/// Largest width a single stroke point may carry: speed-based widths reach
/// one and a half times the base width.
pub const MAX_POINT_WIDTH: i64 = 1_500_000;

/// Largest number of points a single stroke may carry.
pub const MAX_STROKE_POINTS: usize = 10_000_000;

/// Largest number of objects the canvas may hold.
pub const MAX_OBJECTS: usize = 1_000_000;

/// Milliradians in one full turn; shape rotations stay in
/// `[0, FULL_TURN_MRAD)`.
pub const FULL_TURN_MRAD: i64 = 6_283;

/// An RGBA color, 8 bits per channel.
#[derive(Clone, Copy, PartialEq, Eq, Structural, Debug)]
pub struct Color {
    pub r: u8,
    pub g: u8,
    pub b: u8,
    pub a: u8,
}

impl Color {
    pub fn rgb(r: u8, g: u8, b: u8) -> (c: Color)
        ensures
            c == (Color { r, g, b, a: 255u8 }),
    {
        Color { r, g, b, a: 255 }
    }
}

/// How the application window is presented.
#[derive(Clone, Copy, PartialEq, Eq, Structural, Debug)]
pub enum WindowMode {
    Windowed,
    Fullscreen,
    BorderlessFullscreen,
}

/// How per-point stroke widths are derived from input.
#[derive(Clone, Copy, PartialEq, Eq, Structural, Debug)]
pub enum DynamicBrushMode {
    Disabled,
    BrushTip,
    SpeedBased,
}

/// The active tool.
#[derive(Clone, Copy, PartialEq, Eq, Structural, Debug)]
pub enum Tool {
    Select,
    Brush,
    ObjectEraser,
    PixelEraser,
    Insert,
    Background,
    Settings,
}

/// The kind of an inserted shape.
#[derive(Clone, Copy, PartialEq, Eq, Structural, Debug)]
pub enum ShapeType {
    Line,
    Arrow,
    Rectangle,
    Triangle,
    Circle,
}

/// A selection: which kind of object is selected, and its index within
/// the canvas object list.
#[derive(Clone, Copy, PartialEq, Eq, Structural, Debug)]
pub enum SelectedObject {
    Stroke(usize),
    Image(usize),
    Text(usize),
    Shape(usize),
}

/// A committed freehand stroke: one width per point.
#[derive(Clone, Debug)]
pub struct DrawingStroke {
    pub points: Vec<Point>,
    pub widths: Vec<i64>,
    pub color: Color,
    pub base_width: i64,
}

/// An inserted image. The texture itself is owned by the rendering layer
/// and referenced here by an opaque identifier; `aspect_w` and `aspect_h`
/// are the original pixel dimensions, fixing the aspect ratio that resizes
/// preserve. Deletion is deferred: the object is first marked, and removed
/// only after the frame's draw calls no longer reference the texture.
#[derive(Clone, Copy, PartialEq, Eq, Structural, Debug)]
pub struct InsertedImage {
    pub texture_id: u64,
    pub pos: Point,
    pub width: i64,
    pub height: i64,
    pub aspect_w: i64,
    pub aspect_h: i64,
    pub marked_for_deletion: bool,
}

/// An inserted text label.
#[derive(Clone, Debug)]
pub struct InsertedText {
    pub text: String,
    pub pos: Point,
    pub color: Color,
    pub font_size: i64,
}

/// An inserted geometric shape. `rotation` is in milliradians.
#[derive(Clone, Copy, PartialEq, Eq, Structural, Debug)]
pub struct InsertedShape {
    pub shape_type: ShapeType,
    pub pos: Point,
    pub size: i64,
    pub color: Color,
    pub rotation: i64,
}

/// Any drawable, selectable object on the canvas.
#[derive(Clone, Debug)]
pub enum CanvasObject {
    Stroke(DrawingStroke),
    Image(InsertedImage),
    Text(InsertedText),
    Shape(InsertedShape),
}

/// The mathematical value of a `DrawingStroke`.
#[verifier::ext_equal]
pub struct StrokeView {
    pub points: Seq<Point>,
    pub widths: Seq<i64>,
    pub color: Color,
    pub base_width: i64,
}

/// The mathematical value of an `InsertedText`.
#[verifier::ext_equal]
pub struct TextView {
    pub text: Seq<char>,
    pub pos: Point,
    pub color: Color,
    pub font_size: i64,
}

/// The mathematical value of a `CanvasObject`.
#[verifier::ext_equal]
pub enum ObjectView {
    Stroke(StrokeView),
    Image(InsertedImage),
    Text(TextView),
    Shape(InsertedShape),
}

impl View for DrawingStroke {
    type V = StrokeView;

    open spec fn view(&self) -> StrokeView {
        StrokeView {
            points: self.points@,
            widths: self.widths@,
            color: self.color,
            base_width: self.base_width,
        }
    }
}

impl View for InsertedText {
    type V = TextView;

    open spec fn view(&self) -> TextView {
        TextView { text: self.text@, pos: self.pos, color: self.color, font_size: self.font_size }
    }
}

impl View for CanvasObject {
    type V = ObjectView;

    open spec fn view(&self) -> ObjectView {
        match self {
            CanvasObject::Stroke(s) => ObjectView::Stroke(s@),
            CanvasObject::Image(i) => ObjectView::Image(*i),
            CanvasObject::Text(t) => ObjectView::Text(t@),
            CanvasObject::Shape(s) => ObjectView::Shape(*s),
        }
    }
}

/// The mathematical value of a whole object list.
pub open spec fn objects_view(s: Seq<CanvasObject>) -> Seq<ObjectView> {
    s.map_values(|o: CanvasObject| o@)
}

/// A well-formed stroke value: at least one point, one width per point,
/// all coordinates on the canvas and all widths representable.
pub open spec fn valid_stroke_v(s: StrokeView) -> bool {
    &&& 1 <= s.points.len() <= MAX_STROKE_POINTS
    &&& s.widths.len() == s.points.len()
    &&& forall|i: int| 0 <= i < s.points.len() ==> valid_point(#[trigger] s.points[i])
    &&& forall|i: int| 0 <= i < s.widths.len() ==> 0 <= #[trigger] s.widths[i] <= MAX_POINT_WIDTH
    &&& 0 < s.base_width <= MAX_WIDTH
}

/// A well-formed stroke.
pub open spec fn valid_stroke(s: DrawingStroke) -> bool {
    valid_stroke_v(s@)
}

/// A well-formed image: on the canvas, positive extent, positive original
/// dimensions.
pub open spec fn valid_image(img: InsertedImage) -> bool {
    &&& valid_point(img.pos)
    &&& 0 < img.width <= MAX_COORD
    &&& 0 < img.height <= MAX_COORD
    &&& 0 < img.aspect_w <= MAX_COORD
    &&& 0 < img.aspect_h <= MAX_COORD
}

/// A well-formed text value.
pub open spec fn valid_text_v(t: TextView) -> bool {
    &&& valid_point(t.pos)
    &&& 0 < t.font_size <= MAX_WIDTH
    &&& t.text.len() <= 100_000
}

/// A well-formed text label.
pub open spec fn valid_text(t: InsertedText) -> bool {
    valid_text_v(t@)
}

/// A well-formed shape.
pub open spec fn valid_shape(s: InsertedShape) -> bool {
    &&& valid_point(s.pos)
    &&& 0 < s.size <= MAX_COORD
    &&& 0 <= s.rotation < FULL_TURN_MRAD
}

/// A well-formed canvas object value.
pub open spec fn valid_object_v(o: ObjectView) -> bool {
    match o {
        ObjectView::Stroke(s) => valid_stroke_v(s),
        ObjectView::Image(i) => valid_image(i),
        ObjectView::Text(t) => valid_text_v(t),
        ObjectView::Shape(s) => valid_shape(s),
    }
}

/// A well-formed canvas object.
pub open spec fn valid_object(o: CanvasObject) -> bool {
    valid_object_v(o@)
}

/// Every object value of the sequence is well-formed.
pub open spec fn valid_objects_v(s: Seq<ObjectView>) -> bool {
    forall|i: int| 0 <= i < s.len() ==> valid_object_v(#[trigger] s[i])
}

/// A well-formed canvas: every object well-formed, and the object count
/// within the representable bound.
pub open spec fn valid_canvas_v(s: Seq<ObjectView>) -> bool {
    valid_objects_v(s) && s.len() <= MAX_OBJECTS
}

/// Every object of the sequence is well-formed.
pub open spec fn valid_objects(s: Seq<CanvasObject>) -> bool {
    valid_objects_v(objects_view(s))
}

/// Element-for-element equality of two point vectors.
pub fn points_eq(a: &Vec<Point>, b: &Vec<Point>) -> (r: bool)
    ensures
        r == (a@ == b@),
{
    if a.len() != b.len() {
        assert(a@ != b@);
        return false;
    }
    let n: usize = a.len();
    let mut i: usize = 0;
    while i < n
        invariant
            0 <= i <= n,
            n == a@.len() == b@.len(),
            forall|k: int| 0 <= k < i ==> a@[k] == b@[k],
        decreases n - i,
    {
        if a[i] != b[i] {
            return false;
        }
        i = i + 1;
    }
    proof {
        assert(a@ =~= b@);
    }
    true
}

/// Element-for-element equality of two width vectors.
pub fn widths_eq(a: &Vec<i64>, b: &Vec<i64>) -> (r: bool)
    ensures
        r == (a@ == b@),
{
    if a.len() != b.len() {
        assert(a@ != b@);
        return false;
    }
    let n: usize = a.len();
    let mut i: usize = 0;
    while i < n
        invariant
            0 <= i <= n,
            n == a@.len() == b@.len(),
            forall|k: int| 0 <= k < i ==> a@[k] == b@[k],
        decreases n - i,
    {
        if a[i] != b[i] {
            return false;
        }
        i = i + 1;
    }
    proof {
        assert(a@ =~= b@);
    }
    true
}

impl PartialEq for DrawingStroke {
    fn eq(&self, o: &DrawingStroke) -> (r: bool) {
        let r = points_eq(&self.points, &o.points) && widths_eq(&self.widths, &o.widths)
            && self.color == o.color && self.base_width == o.base_width;
        proof {
            if r {
                assert(self@ =~= o@);
            }
        }
        r
    }
}

impl vstd::std_specs::cmp::PartialEqSpecImpl for DrawingStroke {
    open spec fn obeys_eq_spec() -> bool {
        true
    }

    open spec fn eq_spec(&self, o: &DrawingStroke) -> bool {
        self@ == o@
    }
}

impl PartialEq for InsertedText {
    fn eq(&self, o: &InsertedText) -> (r: bool) {
        let r = self.text == o.text && self.pos == o.pos && self.color == o.color
            && self.font_size == o.font_size;
        proof {
            if r {
                assert(self@ =~= o@);
            }
        }
        r
    }
}

impl vstd::std_specs::cmp::PartialEqSpecImpl for InsertedText {
    open spec fn obeys_eq_spec() -> bool {
        true
    }

    open spec fn eq_spec(&self, o: &InsertedText) -> bool {
        self@ == o@
    }
}

impl PartialEq for CanvasObject {
    fn eq(&self, o: &CanvasObject) -> (r: bool) {
        match (self, o) {
            (CanvasObject::Stroke(x), CanvasObject::Stroke(y)) => x == y,
            (CanvasObject::Image(x), CanvasObject::Image(y)) => x == y,
            (CanvasObject::Text(x), CanvasObject::Text(y)) => x == y,
            (CanvasObject::Shape(x), CanvasObject::Shape(y)) => x == y,
            _ => false,
        }
    }
}

impl vstd::std_specs::cmp::PartialEqSpecImpl for CanvasObject {
    open spec fn obeys_eq_spec() -> bool {
        true
    }

    open spec fn eq_spec(&self, o: &CanvasObject) -> bool {
        self@ == o@
    }
}

/// A fresh vector holding the same points.
pub fn copy_points(v: &Vec<Point>) -> (r: Vec<Point>)
    ensures
        r@ == v@,
{
    let mut r: Vec<Point> = Vec::new();
    let n: usize = v.len();
    let mut i: usize = 0;
    while i < n
        invariant
            0 <= i <= n,
            n == v@.len(),
            r@ == v@.subrange(0, i as int),
        decreases n - i,
    {
        r.push(v[i]);
        proof {
            assert(r@ =~= v@.subrange(0, i + 1 as int));
        }
        i = i + 1;
    }
    proof {
        assert(r@ =~= v@);
    }
    r
}

/// A fresh vector holding the same widths.
pub fn copy_widths(v: &Vec<i64>) -> (r: Vec<i64>)
    ensures
        r@ == v@,
{
    let mut r: Vec<i64> = Vec::new();
    let n: usize = v.len();
    let mut i: usize = 0;
    while i < n
        invariant
            0 <= i <= n,
            n == v@.len(),
            r@ == v@.subrange(0, i as int),
        decreases n - i,
    {
        r.push(v[i]);
        proof {
            assert(r@ =~= v@.subrange(0, i + 1 as int));
        }
        i = i + 1;
    }
    proof {
        assert(r@ =~= v@);
    }
    r
}

/// A fresh stroke with the same mathematical value.
pub fn copy_stroke(s: &DrawingStroke) -> (r: DrawingStroke)
    ensures
        r@ == s@,
{
    DrawingStroke {
        points: copy_points(&s.points),
        widths: copy_widths(&s.widths),
        color: s.color,
        base_width: s.base_width,
    }
}

/// A fresh object with the same mathematical value.
pub fn copy_object(o: &CanvasObject) -> (r: CanvasObject)
    ensures
        r@ == o@,
{
    match o {
        CanvasObject::Stroke(s) => CanvasObject::Stroke(copy_stroke(s)),
        CanvasObject::Image(i) => CanvasObject::Image(*i),
        CanvasObject::Text(t) => CanvasObject::Text(
            InsertedText { text: t.text.clone(), pos: t.pos, color: t.color, font_size: t.font_size },
        ),
        CanvasObject::Shape(s) => CanvasObject::Shape(*s),
    }
}

/// A fresh object list with the same mathematical value.
pub fn copy_objects(v: &Vec<CanvasObject>) -> (r: Vec<CanvasObject>)
    ensures
        objects_view(r@) == objects_view(v@),
        r@.len() == v@.len(),
{
    let mut r: Vec<CanvasObject> = Vec::new();
    let n: usize = v.len();
    let mut i: usize = 0;
    while i < n
        invariant
            0 <= i <= n,
            n == v@.len(),
            r@.len() == i,
            forall|k: int| 0 <= k < i ==> r@[k]@ == v@[k]@,
        decreases n - i,
    {
        let c: CanvasObject = copy_object(&v[i]);
        r.push(c);
        i = i + 1;
    }
    proof {
        assert(objects_view(r@) =~= objects_view(v@));
    }
    r
}

/// A frame-rate counter over integer milliseconds: reports in
/// milli-frames-per-second, refreshed every fifty milliseconds.
pub struct FpsCounter {
    pub frame_count: u32,
    pub last_time_ms: u64,
    pub current_fps_milli: u64,
}

impl FpsCounter {
    /// A fresh counter, anchored at the given time.
    pub fn new(now_ms: u64) -> (c: FpsCounter)
        ensures
            c.frame_count == 0,
            c.last_time_ms == now_ms,
            c.current_fps_milli == 0,
    {
        FpsCounter { frame_count: 0, last_time_ms: now_ms, current_fps_milli: 0 }
    }

    /// Count one frame; every fifty milliseconds the rate is recomputed
    /// as frames per second (scaled by a thousand) over the elapsed
    /// window and the window restarts.
    pub fn update(&mut self, now_ms: u64) -> (fps_milli: u64)
        requires
            now_ms >= old(self).last_time_ms,
            old(self).frame_count < 1_000_000,
        ensures
            fps_milli == final(self).current_fps_milli,
            now_ms - old(self).last_time_ms >= 50 ==> {
                &&& final(self).current_fps_milli == (old(self).frame_count + 1) * 1_000_000 / (
                now_ms - old(self).last_time_ms)
                &&& final(self).frame_count == 0
                &&& final(self).last_time_ms == now_ms
            },
            now_ms - old(self).last_time_ms < 50 ==> {
                &&& final(self).current_fps_milli == old(self).current_fps_milli
                &&& final(self).frame_count == old(self).frame_count + 1
                &&& final(self).last_time_ms == old(self).last_time_ms
            },
    {
        self.frame_count = self.frame_count + 1;
        let elapsed: u64 = now_ms - self.last_time_ms;
        if elapsed >= 50 {
            proof {
                vstd::arithmetic::div_mod::lemma_div_is_ordered(
                    0,
                    (self.frame_count as int) * 1_000_000,
                    elapsed as int,
                );
                vstd::arithmetic::div_mod::lemma_div_is_ordered(
                    (self.frame_count as int) * 1_000_000,
                    1_000_000_000_000,
                    elapsed as int,
                );
                vstd::arithmetic::div_mod::lemma_div_of0(elapsed as int);
            }
            self.current_fps_milli = (self.frame_count as u64) * 1_000_000 / elapsed;
            self.frame_count = 0;
            self.last_time_ms = now_ms;
        }
        self.current_fps_milli
    }
}

} // verus!
