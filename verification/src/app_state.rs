//! The whiteboard application state: the canvas object list, the
//! selection, the command history, the active-stroke tracker and the tool
//! settings, with the operations the tools perform on them.

use vstd::prelude::*;
use vstd::pervasive::VecAdditionalExecFns;
use vstd::string::StrSliceExecFns;
use crate::geom::{Point, Rect, valid_point, rect_contains_spec, MAX_COORD};
use crate::state::{
    CanvasObject, Color, DrawingStroke, DynamicBrushMode, InsertedImage, InsertedShape,
    InsertedText, ObjectView, SelectedObject, ShapeType, Tool, WindowMode, copy_object,
    objects_view, valid_canvas_v, valid_object, valid_object_v, valid_objects_v, MAX_OBJECTS,
    MAX_POINT_WIDTH,
    MAX_STROKE_POINTS, MAX_WIDTH,
};
use crate::history::{
    CommandView, History, commands_view, evict_front, hist_state, undo_step, redo_step,
};
use crate::tracker::{StrokeTracker, entry_moved};
use crate::utils::{AppUtils, dynamic_width, shape_bbox, stroke_hit};
use crate::pipeline::{
    admits, interp_points_spec, interp_widths_spec, smooth_points_spec, smooth_widths_spec,
};

verus! {

/// Default cap on the number of undo entries.
pub const DEFAULT_MAX_HISTORY: usize = 50;

/// Default cap on the estimated history memory, in bytes (50 MB).
pub const DEFAULT_MAX_HISTORY_MEMORY: u64 = 52_428_800;

/// Diameter of the selection cursor, in fixed-point steps (ten canvas
/// units), used when hit-testing strokes for selection.
pub const SELECT_CURSOR_SIZE: i64 = 10_000;

/// The bounding rectangle of an image.
pub open spec fn image_rect(img: InsertedImage) -> Rect {
    Rect {
        min: img.pos,
        max: Point { x: (img.pos.x + img.width) as i64, y: (img.pos.y + img.height) as i64 },
    }
}

/// The estimated bounding rectangle of a text label: half an em per
/// character across, one em down.
pub open spec fn text_rect_v(t: crate::state::TextView) -> Rect {
    Rect {
        min: t.pos,
        max: Point {
            x: (t.pos.x + t.font_size * t.text.len() / 2) as i64,
            y: (t.pos.y + t.font_size) as i64,
        },
    }
}

/// The whole application state.
pub struct AppState {
    pub objects: Vec<CanvasObject>,
    pub history: History,
    pub tracker: StrokeTracker,
    pub selected_object: Option<SelectedObject>,
    pub current_tool: Tool,
    pub brush_color: Color,
    pub brush_width: i64,
    pub dynamic_brush_mode: DynamicBrushMode,
    pub stroke_smoothing: bool,
    pub stroke_straightening: bool,
    pub stroke_straightening_tolerance: i64,
    pub interpolation_frequency: i64,
    pub eraser_size: i64,
    pub background_color: Color,
    pub show_size_preview: bool,
    pub show_fps: bool,
    pub should_quit: bool,
    pub window_mode: WindowMode,
    pub window_mode_changed: bool,
    pub touch_points: Vec<TouchPoint>,
}

impl AppState {
    /// The selection, if any, points at an object of the matching kind.
    pub open spec fn selection_ok(&self) -> bool {
        match self.selected_object {
            None => true,
            Some(SelectedObject::Stroke(i)) => i < self.objects@.len() && self.objects@[
                i as int
            ]@ is Stroke,
            Some(SelectedObject::Image(i)) => i < self.objects@.len() && self.objects@[
                i as int
            ]@ is Image,
            Some(SelectedObject::Text(i)) => i < self.objects@.len() && self.objects@[
                i as int
            ]@ is Text,
            Some(SelectedObject::Shape(i)) => i < self.objects@.len() && self.objects@[
                i as int
            ]@ is Shape,
        }
    }

    /// The application-state invariant: a well-formed canvas, history and
    /// tracker, settings in range, and a selection that points at an
    /// object of the right kind.
    pub open spec fn wf(&self) -> bool {
        &&& valid_canvas_v(objects_view(self.objects@))
        &&& self.history.wf()
        &&& self.tracker.wf()
        &&& self.tracker.entries@.len() < 1_000
        &&& 0 < self.brush_width <= MAX_WIDTH
        &&& 0 <= self.eraser_size <= MAX_WIDTH
        &&& 0 <= self.stroke_straightening_tolerance <= MAX_COORD
        &&& 0 <= self.interpolation_frequency <= 1_000_000
        &&& forall|i: int, j: int|
            0 <= i < j < self.touch_points@.len() ==> self.touch_points@[i].id
                != self.touch_points@[j].id
        &&& self.selection_ok()
    }

    /// The canvas as a mathematical value.
    pub open spec fn canvas(&self) -> Seq<ObjectView> {
        objects_view(self.objects@)
    }

    /// A fresh state with the defaults: white brush five units wide, no
    /// dynamic width, smoothing on, straightening off with a five-unit
    /// tolerance, no interpolation, a ten-unit eraser, a deep green
    /// background, and the default history caps.
    pub fn new() -> (s: AppState)
        ensures
            s.wf(),
            s.canvas().len() == 0,
            s.history@.undo.len() == 0,
            s.history@.redo.len() == 0,
            s.history@.mem == 0,
            s.history@.max_entries == DEFAULT_MAX_HISTORY,
            s.history@.max_memory == DEFAULT_MAX_HISTORY_MEMORY,
            s.tracker.entries@.len() == 0,
            s.touch_points@.len() == 0,
            s.selected_object is None,
            s.current_tool == Tool::Brush,
            s.brush_color == (Color { r: 255, g: 255, b: 255, a: 255 }),
            s.brush_width == 5_000,
            s.eraser_size == 10_000,
            s.dynamic_brush_mode == DynamicBrushMode::Disabled,
            s.stroke_smoothing == true,
            s.stroke_straightening == false,
            s.stroke_straightening_tolerance == 5_000,
            s.interpolation_frequency == 0,
            s.background_color == (Color { r: 16, g: 80, b: 60, a: 255 }),
            s.show_size_preview == false,
            s.show_fps == true,
            s.should_quit == false,
            s.window_mode == WindowMode::BorderlessFullscreen,
            s.window_mode_changed == false,
    {
        let s = AppState {
            objects: Vec::new(),
            history: History::new(DEFAULT_MAX_HISTORY, DEFAULT_MAX_HISTORY_MEMORY),
            tracker: StrokeTracker::new(),
            selected_object: None,
            current_tool: Tool::Brush,
            brush_color: Color::rgb(255, 255, 255),
            brush_width: 5_000,
            dynamic_brush_mode: DynamicBrushMode::Disabled,
            stroke_smoothing: true,
            stroke_straightening: false,
            stroke_straightening_tolerance: 5_000,
            interpolation_frequency: 0,
            eraser_size: 10_000,
            background_color: Color::rgb(16, 80, 60),
            show_size_preview: false,
            show_fps: true,
            should_quit: false,
            window_mode: WindowMode::BorderlessFullscreen,
            window_mode_changed: false,
            touch_points: Vec::new(),
        };
        proof {
            assert(objects_view(s.objects@) =~= Seq::<ObjectView>::empty());
        }
        s
    }

    /// Append a well-formed object to the canvas and record the insertion.
    fn push_object(&mut self, object: CanvasObject)
        requires
            old(self).wf(),
            valid_object(object),
            old(self).canvas().len() < MAX_OBJECTS,
        ensures
            final(self).wf(),
            final(self).canvas() == old(self).canvas().push(object@),
            final(self).history@.undo == evict_front(
                old(self).history@.undo.push(
                    CommandView::Add { index: old(self).canvas().len() as int, object: object@ },
                ),
                old(self).history@.max_entries,
                old(self).history@.max_memory,
            ),
            final(self).history@.redo.len() == 0,
            final(self).selected_object == old(self).selected_object,
            final(self).tracker == old(self).tracker,
            final(self).touch_points == old(self).touch_points,
            unchanged_settings(old(self), final(self)),
    {
        let index: usize = self.objects.len();
        self.history.record_add(index, &object);
        self.objects.push(object);
        proof {
            assert(objects_view(self.objects@) =~= objects_view(old(self).objects@).push(
                object@,
            ));
        }
    }

    /// Insert a shape at a position. Returns false, changing nothing,
    /// when the shape would be malformed or the canvas is full.
    pub fn insert_shape(
        &mut self,
        shape_type: ShapeType,
        pos: Point,
        size: i64,
        color: Color,
    ) -> (ok: bool)
        requires
            old(self).wf(),
        ensures
            final(self).wf(),
            ok == (valid_point(pos) && 0 < size <= MAX_COORD && old(self).canvas().len()
                < MAX_OBJECTS),
            !ok ==> *final(self) == *old(self),
            ok ==> {
                let shape = InsertedShape { shape_type, pos, size, color, rotation: 0 };
                &&& final(self).canvas() == old(self).canvas().push(ObjectView::Shape(shape))
                &&& final(self).history@.undo == evict_front(
                    old(self).history@.undo.push(
                        CommandView::Add {
                            index: old(self).canvas().len() as int,
                            object: ObjectView::Shape(shape),
                        },
                    ),
                    old(self).history@.max_entries,
                    old(self).history@.max_memory,
                )
                &&& final(self).history@.redo.len() == 0
            },
    {
        if !(pos.x >= -MAX_COORD && pos.x <= MAX_COORD && pos.y >= -MAX_COORD && pos.y
            <= MAX_COORD && size > 0 && size <= MAX_COORD && self.objects.len() < MAX_OBJECTS) {
            return false;
        }
        let shape = InsertedShape { shape_type, pos, size, color, rotation: 0 };
        self.push_object(CanvasObject::Shape(shape));
        true
    }

    /// Insert a text label. Returns false, changing nothing, when the
    /// label would be malformed or the canvas is full.
    pub fn insert_text(&mut self, text: String, pos: Point, color: Color, font_size: i64) -> (ok:
        bool)
        requires
            old(self).wf(),
        ensures
            final(self).wf(),
            ok == (valid_point(pos) && 0 < font_size <= MAX_WIDTH && text@.len() <= 100_000 && old(
                self,
            ).canvas().len() < MAX_OBJECTS),
            ok ==> {
                let tv = crate::state::TextView { text: text@, pos, color, font_size };
                &&& final(self).canvas() == old(self).canvas().push(ObjectView::Text(tv))
                &&& final(self).history@.undo == evict_front(
                    old(self).history@.undo.push(
                        CommandView::Add {
                            index: old(self).canvas().len() as int,
                            object: ObjectView::Text(tv),
                        },
                    ),
                    old(self).history@.max_entries,
                    old(self).history@.max_memory,
                )
                &&& final(self).history@.redo.len() == 0
            },
            !ok ==> final(self).canvas() == old(self).canvas() && final(self).history@ == old(
                self,
            ).history@,
    {
        if !(pos.x >= -MAX_COORD && pos.x <= MAX_COORD && pos.y >= -MAX_COORD && pos.y
            <= MAX_COORD && font_size > 0 && font_size <= MAX_WIDTH && self.objects.len()
            < MAX_OBJECTS) {
            return false;
        }
        if text.as_str().unicode_len() > 100_000 {
            return false;
        }
        let label = InsertedText { text, pos, color, font_size };
        self.push_object(CanvasObject::Text(label));
        true
    }

    /// Insert an image: the texture identifier is owned by the rendering
    /// layer; the original pixel dimensions fix the aspect ratio. Returns
    /// false, changing nothing, when the image would be malformed or the
    /// canvas is full.
    pub fn insert_image(
        &mut self,
        texture_id: u64,
        pos: Point,
        width: i64,
        height: i64,
    ) -> (ok: bool)
        requires
            old(self).wf(),
        ensures
            final(self).wf(),
            ok == (valid_point(pos) && 0 < width <= MAX_COORD && 0 < height <= MAX_COORD && old(
                self,
            ).canvas().len() < MAX_OBJECTS),
            !ok ==> *final(self) == *old(self),
            ok ==> {
                let img = InsertedImage {
                    texture_id,
                    pos,
                    width,
                    height,
                    aspect_w: width,
                    aspect_h: height,
                    marked_for_deletion: false,
                };
                &&& final(self).canvas() == old(self).canvas().push(ObjectView::Image(img))
                &&& final(self).history@.undo == evict_front(
                    old(self).history@.undo.push(
                        CommandView::Add {
                            index: old(self).canvas().len() as int,
                            object: ObjectView::Image(img),
                        },
                    ),
                    old(self).history@.max_entries,
                    old(self).history@.max_memory,
                )
                &&& final(self).history@.redo.len() == 0
            },
    {
        if !(pos.x >= -MAX_COORD && pos.x <= MAX_COORD && pos.y >= -MAX_COORD && pos.y
            <= MAX_COORD && width > 0 && width <= MAX_COORD && height > 0 && height <= MAX_COORD
            && self.objects.len() < MAX_OBJECTS) {
            return false;
        }
        let img = InsertedImage {
            texture_id,
            pos,
            width,
            height,
            aspect_w: width,
            aspect_h: height,
            marked_for_deletion: false,
        };
        self.push_object(CanvasObject::Image(img));
        true
    }

    /// Clear the whole canvas, recording the wiped object list so the
    /// clear can be undone. Clearing an empty canvas records nothing.
    pub fn clear_canvas(&mut self)
        requires
            old(self).wf(),
        ensures
            final(self).wf(),
            final(self).canvas().len() == 0,
            final(self).selected_object is None,
            old(self).canvas().len() > 0 ==> {
                &&& final(self).history@.undo == evict_front(
                    old(self).history@.undo.push(
                        CommandView::Clear { objects: old(self).canvas() },
                    ),
                    old(self).history@.max_entries,
                    old(self).history@.max_memory,
                )
                &&& final(self).history@.redo.len() == 0
            },
            old(self).canvas().len() == 0 ==> final(self).history@ == old(self).history@,
    {
        if self.objects.len() > 0 {
            self.history.record_clear(&self.objects);
            self.objects = Vec::new();
        }
        self.selected_object = None;
        proof {
            assert(objects_view(self.objects@) =~= Seq::<ObjectView>::empty());
        }
    }

    /// Undo the most recent recorded action; clears the selection since
    /// object indices may have shifted. Returns false when there is
    /// nothing to undo.
    pub fn undo(&mut self) -> (r: bool)
        requires
            old(self).wf(),
        ensures
            final(self).wf(),
            r == (old(self).history@.undo.len() > 0),
            hist_state(final(self).history@, final(self).canvas()) == undo_step(
                hist_state(old(self).history@, old(self).canvas()),
            ),
            final(self).selected_object is None,
    {
        self.selected_object = None;
        let mut objects: Vec<CanvasObject> = Vec::new();
        core::mem::swap(&mut objects, &mut self.objects);
        let r = self.history.undo(&mut objects);
        core::mem::swap(&mut objects, &mut self.objects);
        r
    }

    /// Redo the most recently undone action; clears the selection.
    /// Returns false when there is nothing to redo.
    pub fn redo(&mut self) -> (r: bool)
        requires
            old(self).wf(),
        ensures
            final(self).wf(),
            r == (old(self).history@.redo.len() > 0),
            hist_state(final(self).history@, final(self).canvas()) == redo_step(
                hist_state(old(self).history@, old(self).canvas()),
            ),
            final(self).selected_object is None,
    {
        self.selected_object = None;
        let mut objects: Vec<CanvasObject> = Vec::new();
        core::mem::swap(&mut objects, &mut self.objects);
        let r = self.history.redo(&mut objects);
        core::mem::swap(&mut objects, &mut self.objects);
        r
    }
}

impl Default for AppState {
    /// The defaults of a fresh whiteboard; the same state `AppState::new`
    /// builds.
    fn default() -> (s: AppState)
        ensures
            s.wf(),
            s.canvas().len() == 0,
            s.history@.undo.len() == 0,
            s.history@.redo.len() == 0,
            s.history@.mem == 0,
            s.history@.max_entries == DEFAULT_MAX_HISTORY,
            s.history@.max_memory == DEFAULT_MAX_HISTORY_MEMORY,
            s.tracker.entries@.len() == 0,
            s.touch_points@.len() == 0,
            s.selected_object is None,
            s.current_tool == Tool::Brush,
            s.brush_color == (Color { r: 255, g: 255, b: 255, a: 255 }),
            s.brush_width == 5_000,
            s.eraser_size == 10_000,
            s.dynamic_brush_mode == DynamicBrushMode::Disabled,
            s.stroke_smoothing == true,
            s.stroke_straightening == false,
            s.stroke_straightening_tolerance == 5_000,
            s.interpolation_frequency == 0,
            s.background_color == (Color { r: 16, g: 80, b: 60, a: 255 }),
            s.show_size_preview == false,
            s.show_fps == true,
            s.should_quit == false,
            s.window_mode == WindowMode::BorderlessFullscreen,
            s.window_mode_changed == false,
    {
        AppState::new()
    }
}

/// The tool settings and flags of two states agree.
pub open spec fn unchanged_settings(a: &AppState, b: &AppState) -> bool {
    &&& a.current_tool == b.current_tool
    &&& a.brush_color == b.brush_color
    &&& a.brush_width == b.brush_width
    &&& a.dynamic_brush_mode == b.dynamic_brush_mode
    &&& a.stroke_smoothing == b.stroke_smoothing
    &&& a.stroke_straightening == b.stroke_straightening
    &&& a.stroke_straightening_tolerance == b.stroke_straightening_tolerance
    &&& a.interpolation_frequency == b.interpolation_frequency
    &&& a.eraser_size == b.eraser_size
    &&& a.background_color == b.background_color
    &&& a.window_mode == b.window_mode
    &&& a.should_quit == b.should_quit
}

/// Which of the eight resize anchors of a selected object's bounding box
/// is being dragged. Corner handles move two edges, edge handles one.
#[derive(Clone, Copy, PartialEq, Eq, Structural, Debug)]
pub enum ResizeHandle {
    TopLeft,
    Top,
    TopRight,
    Right,
    BottomRight,
    Bottom,
    BottomLeft,
    Left,
}

/// Milliradians in one full turn; shape rotations are kept in
/// `[0, FULL_TURN_MRAD)`.
pub const FULL_TURN_MRAD: i64 = 6_283;

/// Minimum extent, in fixed-point steps, that a resize leaves an image
/// or a text label (twenty canvas units).
pub const MIN_IMAGE_EXTENT: i64 = 20_000;

/// Minimum extent, in fixed-point steps, that a resize leaves a shape
/// (ten canvas units).
pub const MIN_SHAPE_EXTENT: i64 = 10_000;

/// A coordinate clamped to the representable canvas.
pub open spec fn clamp_coord(c: int) -> int {
    if c < -MAX_COORD {
        -MAX_COORD as int
    } else if c > MAX_COORD {
        MAX_COORD as int
    } else {
        c
    }
}

/// A point translated by a delta, clamped to the canvas.
pub open spec fn translate_point(p: Point, dx: int, dy: int) -> Point {
    Point { x: clamp_coord(p.x + dx) as i64, y: clamp_coord(p.y + dy) as i64 }
}

/// An object translated by a delta: a stroke moves every point, the
/// other kinds move their position field.
pub open spec fn translate_object_v(o: ObjectView, dx: int, dy: int) -> ObjectView {
    match o {
        ObjectView::Stroke(sv) => ObjectView::Stroke(
            crate::state::StrokeView {
                points: sv.points.map_values(|p: Point| translate_point(p, dx, dy)),
                ..sv
            },
        ),
        ObjectView::Image(img) => ObjectView::Image(
            InsertedImage { pos: translate_point(img.pos, dx, dy), ..img },
        ),
        ObjectView::Text(t) => ObjectView::Text(
            crate::state::TextView { pos: translate_point(t.pos, dx, dy), ..t },
        ),
        ObjectView::Shape(s) => ObjectView::Shape(
            InsertedShape { pos: translate_point(s.pos, dx, dy), ..s },
        ),
    }
}

/// Clamp a coordinate to the representable canvas.
pub fn clamp_coord_exec(c: i64) -> (r: i64)
    ensures
        r == clamp_coord(c as int),
{
    if c < -MAX_COORD {
        -MAX_COORD
    } else if c > MAX_COORD {
        MAX_COORD
    } else {
        c
    }
}

/// Translate a point by a bounded delta, clamped to the canvas.
pub fn translate_point_exec(p: Point, dx: i64, dy: i64) -> (r: Point)
    requires
        valid_point(p),
        -MAX_COORD <= dx <= MAX_COORD,
        -MAX_COORD <= dy <= MAX_COORD,
    ensures
        r == translate_point(p, dx as int, dy as int),
        valid_point(r),
{
    Point { x: clamp_coord_exec(p.x + dx), y: clamp_coord_exec(p.y + dy) }
}

/// Translate a whole object by a bounded delta.
pub fn translate_object(o: &CanvasObject, dx: i64, dy: i64) -> (r: CanvasObject)
    requires
        valid_object(*o),
        -MAX_COORD <= dx <= MAX_COORD,
        -MAX_COORD <= dy <= MAX_COORD,
    ensures
        r@ == translate_object_v(o@, dx as int, dy as int),
        valid_object(r),
{
    match o {
        CanvasObject::Stroke(s) => {
            let n: usize = s.points.len();
            let mut points: Vec<Point> = Vec::new();
            let mut i: usize = 0;
            while i < n
                invariant
                    0 <= i <= n,
                    n == s.points@.len(),
                    crate::state::valid_stroke(*s),
                    -MAX_COORD <= dx <= MAX_COORD,
                    -MAX_COORD <= dy <= MAX_COORD,
                    points@.len() == i,
                    forall|k: int|
                        0 <= k < i ==> points@[k] == translate_point(
                            s.points@[k],
                            dx as int,
                            dy as int,
                        ),
                    forall|k: int| 0 <= k < i ==> valid_point(#[trigger] points@[k]),
                decreases n - i,
            {
                let p = translate_point_exec(s.points[i], dx, dy);
                points.push(p);
                i = i + 1;
            }
            let widths = crate::state::copy_widths(&s.widths);
            let r = CanvasObject::Stroke(
                DrawingStroke { points, widths, color: s.color, base_width: s.base_width },
            );
            proof {
                assert(r@ =~= translate_object_v(o@, dx as int, dy as int));
            }
            r
        },
        CanvasObject::Image(img) => CanvasObject::Image(
            InsertedImage { pos: translate_point_exec(img.pos, dx, dy), ..*img },
        ),
        CanvasObject::Text(t) => {
            let r = CanvasObject::Text(
                InsertedText {
                    text: t.text.clone(),
                    pos: translate_point_exec(t.pos, dx, dy),
                    color: t.color,
                    font_size: t.font_size,
                },
            );
            proof {
                assert(r@ =~= translate_object_v(o@, dx as int, dy as int));
            }
            r
        },
        CanvasObject::Shape(s) => CanvasObject::Shape(
            InsertedShape { pos: translate_point_exec(s.pos, dx, dy), ..*s },
        ),
    }
}

/// The selection cursor at `pos` touches the object: bounding-box
/// containment for images, texts and shapes; true point-to-polyline
/// distance for strokes.
pub open spec fn select_hit(o: ObjectView, pos: Point) -> bool {
    match o {
        ObjectView::Stroke(sv) => crate::utils::stroke_hit_v(pos, sv, SELECT_CURSOR_SIZE as int),
        ObjectView::Image(img) => rect_contains_spec(image_rect(img), pos),
        ObjectView::Text(t) => rect_contains_spec(text_rect_v(t), pos),
        ObjectView::Shape(s) => rect_contains_spec(shape_bbox(s), pos),
    }
}

/// The index of the topmost object the selection cursor touches: later
/// objects draw on top and are hit-tested first.
pub open spec fn topmost_hit(s: Seq<ObjectView>, pos: Point) -> Option<int>
    decreases s.len(),
{
    if s.len() == 0 {
        None
    } else if select_hit(s.last(), pos) {
        Some(s.len() - 1)
    } else {
        topmost_hit(s.drop_last(), pos)
    }
}

/// The selection value for the object at `i`.
pub open spec fn selection_of(o: ObjectView, i: int) -> SelectedObject {
    match o {
        ObjectView::Stroke(_) => SelectedObject::Stroke(i as usize),
        ObjectView::Image(_) => SelectedObject::Image(i as usize),
        ObjectView::Text(_) => SelectedObject::Text(i as usize),
        ObjectView::Shape(_) => SelectedObject::Shape(i as usize),
    }
}

/// Exact selection hit test for one object.
fn select_hit_exec(o: &CanvasObject, pos: Point) -> (r: bool)
    requires
        valid_object(*o),
        valid_point(pos),
    ensures
        r == select_hit(o@, pos),
{
    match o {
        CanvasObject::Stroke(s) => AppUtils::point_intersects_stroke(pos, s, SELECT_CURSOR_SIZE),
        CanvasObject::Image(img) => {
            let r = Rect {
                min: img.pos,
                max: Point { x: img.pos.x + img.width, y: img.pos.y + img.height },
            };
            r.contains(pos)
        },
        CanvasObject::Text(t) => {
            proof {
                assert(crate::state::valid_text_v(t@));
            }
            let len: usize = t.text.as_str().unicode_len();
            proof {
                crate::geom::lemma_mul_bound(t.font_size as int, len as int, 1_000_000, 100_000);
            }
            let r = Rect {
                min: t.pos,
                max: Point {
                    x: t.pos.x + t.font_size * (len as i64) / 2,
                    y: t.pos.y + t.font_size,
                },
            };
            r.contains(pos)
        },
        CanvasObject::Shape(s) => {
            let r = AppUtils::calculate_shape_bounding_box(s);
            r.contains(pos)
        },
    }
}

impl AppState {
    /// The index of the topmost object the cursor at `pos` touches.
    fn find_topmost(&self, pos: Point) -> (r: Option<usize>)
        requires
            self.wf(),
            valid_point(pos),
        ensures
            r is Some ==> 0 <= r->0 < self.objects@.len() && topmost_hit(self.canvas(), pos)
                == Some(r->0 as int),
            r is None ==> topmost_hit(self.canvas(), pos) is None,
    {
        let ghost cv = self.canvas();
        let n: usize = self.objects.len();
        let mut i: usize = n;
        proof {
            assert(cv.subrange(0, n as int) =~= cv);
        }
        while i > 0
            invariant
                0 <= i <= n,
                n == self.objects@.len(),
                cv == objects_view(self.objects@),
                valid_canvas_v(cv),
                valid_point(pos),
                topmost_hit(cv, pos) == topmost_hit(cv.subrange(0, i as int), pos),
            decreases i,
        {
            proof {
                assert(cv.subrange(0, i as int).last() == cv[i - 1]);
                assert(cv.subrange(0, i as int).drop_last() =~= cv.subrange(0, i - 1 as int));
            }
            let hit = select_hit_exec(&self.objects[i - 1], pos);
            if hit {
                return Some(i - 1);
            }
            i = i - 1;
        }
        proof {
            assert(cv.subrange(0, 0) =~= Seq::<ObjectView>::empty());
        }
        None
    }

    /// Select the topmost object under the cursor, or clear the selection
    /// when nothing is there. The canvas and history are untouched.
    pub fn select_at(&mut self, pos: Point) -> (sel: Option<SelectedObject>)
        requires
            old(self).wf(),
            valid_point(pos),
        ensures
            final(self).wf(),
            final(self).canvas() == old(self).canvas(),
            final(self).history@ == old(self).history@,
            sel == final(self).selected_object,
            final(self).selected_object == match topmost_hit(old(self).canvas(), pos) {
                None => None::<SelectedObject>,
                Some(i) => Some(selection_of(old(self).canvas()[i], i)),
            },
    {
        match self.find_topmost(pos) {
            Option::None => {
                self.selected_object = None;
                None
            },
            Option::Some(i) => {
                let sel = match &self.objects[i] {
                    CanvasObject::Stroke(_) => SelectedObject::Stroke(i),
                    CanvasObject::Image(_) => SelectedObject::Image(i),
                    CanvasObject::Text(_) => SelectedObject::Text(i),
                    CanvasObject::Shape(_) => SelectedObject::Shape(i),
                };
                self.selected_object = Some(sel);
                proof {
                    assert(topmost_hit(old(self).canvas(), pos) is Some);
                }
                Some(sel)
            },
        }
    }

    /// The index of the selected object, if any.
    fn selected_index(&self) -> (r: Option<usize>)
        ensures
            r == match self.selected_object {
                None => None::<usize>,
                Some(SelectedObject::Stroke(i)) => Some(i),
                Some(SelectedObject::Image(i)) => Some(i),
                Some(SelectedObject::Text(i)) => Some(i),
                Some(SelectedObject::Shape(i)) => Some(i),
            },
    {
        match self.selected_object {
            None => None,
            Some(SelectedObject::Stroke(i)) => Some(i),
            Some(SelectedObject::Image(i)) => Some(i),
            Some(SelectedObject::Text(i)) => Some(i),
            Some(SelectedObject::Shape(i)) => Some(i),
        }
    }

    /// Replace the object at `index` with `new_object`, recording the
    /// modification.
    fn modify_object_at(&mut self, index: usize, new_object: CanvasObject)
        requires
            old(self).wf(),
            index < old(self).canvas().len(),
            valid_object(new_object),
            match (old(self).objects@[index as int]@, new_object@) {
                (ObjectView::Stroke(_), ObjectView::Stroke(_)) => true,
                (ObjectView::Image(_), ObjectView::Image(_)) => true,
                (ObjectView::Text(_), ObjectView::Text(_)) => true,
                (ObjectView::Shape(_), ObjectView::Shape(_)) => true,
                _ => false,
            },
        ensures
            final(self).wf(),
            final(self).canvas() == old(self).canvas().update(index as int, new_object@),
            final(self).history@.undo == evict_front(
                old(self).history@.undo.push(
                    CommandView::Modify {
                        index: index as int,
                        old_object: old(self).canvas()[index as int],
                        new_object: new_object@,
                    },
                ),
                old(self).history@.max_entries,
                old(self).history@.max_memory,
            ),
            final(self).history@.redo.len() == 0,
            final(self).selected_object == old(self).selected_object,
            unchanged_settings(old(self), final(self)),
    {
        let old_copy = copy_object(&self.objects[index]);
        self.history.record_modify(index, &old_copy, &new_object);
        self.objects.set(index, new_object);
        proof {
            assert(objects_view(self.objects@) =~= objects_view(old(self).objects@).update(
                index as int,
                new_object@,
            ));
        }
    }

    /// Move the selected object by a delta, recording the modification.
    /// Returns false, changing nothing, when nothing is selected or the
    /// delta is out of range.
    pub fn move_selected(&mut self, dx: i64, dy: i64) -> (ok: bool)
        requires
            old(self).wf(),
        ensures
            final(self).wf(),
            ok == (old(self).selected_object is Some && -MAX_COORD <= dx <= MAX_COORD
                && -MAX_COORD <= dy <= MAX_COORD),
            !ok ==> *final(self) == *old(self),
            ok ==> {
                let i = selected_index_spec(old(self).selected_object->0);
                &&& final(self).canvas() == old(self).canvas().update(
                    i,
                    translate_object_v(old(self).canvas()[i], dx as int, dy as int),
                )
                &&& final(self).history@.redo.len() == 0
                &&& final(self).selected_object == old(self).selected_object
            },
    {
        if !(-MAX_COORD <= dx && dx <= MAX_COORD && -MAX_COORD <= dy && dy <= MAX_COORD) {
            return false;
        }
        match self.selected_index() {
            Option::None => false,
            Option::Some(i) => {
                let moved = translate_object(&self.objects[i], dx, dy);
                self.modify_object_at(i, moved);
                true
            },
        }
    }
}

/// The canvas index a selection points at.
pub open spec fn selected_index_spec(sel: SelectedObject) -> int {
    match sel {
        SelectedObject::Stroke(i) => i as int,
        SelectedObject::Image(i) => i as int,
        SelectedObject::Text(i) => i as int,
        SelectedObject::Shape(i) => i as int,
    }
}

/// What a removal pass is looking for: everything the object eraser
/// touches, or the images already marked for deletion.
#[derive(Clone, Copy)]
pub enum RemovalKind {
    Eraser { pos: Point, size: i64 },
    MarkedImages,
}

/// The eraser disc at `pos` erases the object: true polyline distance
/// for strokes, bounding-box containment for texts and shapes. Images
/// are never erased directly — they are marked and swept later.
pub open spec fn eraser_hits(o: ObjectView, pos: Point, size: int) -> bool {
    match o {
        ObjectView::Stroke(sv) => crate::utils::stroke_hit_v(pos, sv, size),
        ObjectView::Image(_) => false,
        ObjectView::Text(t) => rect_contains_spec(text_rect_v(t), pos),
        ObjectView::Shape(s) => rect_contains_spec(shape_bbox(s), pos),
    }
}

/// Whether a removal pass removes this object.
pub open spec fn removal_hits(k: RemovalKind, o: ObjectView) -> bool {
    match k {
        RemovalKind::Eraser { pos, size } => eraser_hits(o, pos, size as int),
        RemovalKind::MarkedImages => match o {
            ObjectView::Image(img) => img.marked_for_deletion,
            _ => false,
        },
    }
}

/// What a removal pass does to the objects it keeps: the eraser marks
/// the images it touches for deferred deletion, the sweep changes
/// nothing.
pub open spec fn removal_mark(k: RemovalKind, o: ObjectView) -> ObjectView {
    match k {
        RemovalKind::Eraser { pos, size } => match o {
            ObjectView::Image(img) => if rect_contains_spec(image_rect(img), pos) {
                ObjectView::Image(InsertedImage { marked_for_deletion: true, ..img })
            } else {
                o
            },
            _ => o,
        },
        RemovalKind::MarkedImages => o,
    }
}

/// The canvas left by a removal pass: hit objects gone, kept objects
/// marked, order preserved.
pub open spec fn removal_result(s: Seq<ObjectView>, k: RemovalKind) -> Seq<ObjectView>
    decreases s.len(),
{
    if s.len() == 0 {
        s
    } else {
        let rest = removal_result(s.drop_last(), k);
        if removal_hits(k, s.last()) {
            rest
        } else {
            rest.push(removal_mark(k, s.last()))
        }
    }
}

/// The removal commands a pass records, in recording order: one per hit
/// object, from the rear of the canvas forward, each with the object's
/// index in the canvas as the pass found it.
pub open spec fn removal_cmds(s: Seq<ObjectView>, base: int, k: RemovalKind) -> Seq<CommandView>
    decreases s.len(),
{
    if s.len() == 0 {
        Seq::empty()
    } else if removal_hits(k, s.last()) {
        seq![
            CommandView::Remove { index: base + s.len() - 1, object: s.last() },
        ] + removal_cmds(s.drop_last(), base, k)
    } else {
        removal_cmds(s.drop_last(), base, k)
    }
}

/// Peeling the front element off a removal pass: the commands for the
/// whole stretch are the commands for the rest, followed by the front
/// element's own command if it is hit.
pub proof fn lemma_removal_front(s: Seq<ObjectView>, base: int, k: RemovalKind)
    requires
        s.len() >= 1,
    ensures
        removal_cmds(s, base, k) == removal_cmds(s.drop_first(), base + 1, k) + (if removal_hits(
            k,
            s[0],
        ) {
            seq![CommandView::Remove { index: base, object: s[0] }]
        } else {
            Seq::empty()
        }),
        removal_result(s, k) == (if removal_hits(k, s[0]) {
            Seq::empty()
        } else {
            seq![removal_mark(k, s[0])]
        }) + removal_result(s.drop_first(), k),
    decreases s.len(),
{
    let hit0: Seq<CommandView> = if removal_hits(k, s[0]) {
        seq![CommandView::Remove { index: base, object: s[0] }]
    } else {
        Seq::empty()
    };
    let kept0: Seq<ObjectView> = if removal_hits(k, s[0]) {
        Seq::empty()
    } else {
        seq![removal_mark(k, s[0])]
    };
    if s.len() == 1 {
        assert(s.drop_last().len() == 0);
        assert(s.drop_first().len() == 0);
        assert(s.last() == s[0]);
        assert(removal_cmds(s.drop_last(), base, k) =~= Seq::<CommandView>::empty());
        assert(removal_cmds(s.drop_first(), base + 1, k) =~= Seq::<CommandView>::empty());
        assert(removal_result(s.drop_last(), k) =~= Seq::<ObjectView>::empty());
        assert(removal_result(s.drop_first(), k) =~= Seq::<ObjectView>::empty());
        if removal_hits(k, s.last()) {
            assert(removal_cmds(s, base, k) == seq![
                CommandView::Remove { index: base + s.len() - 1, object: s.last() },
            ] + removal_cmds(s.drop_last(), base, k));
            assert(removal_result(s, k) == removal_result(s.drop_last(), k));
        } else {
            assert(removal_cmds(s, base, k) == removal_cmds(s.drop_last(), base, k));
            assert(removal_result(s, k) == removal_result(s.drop_last(), k).push(
                removal_mark(k, s.last()),
            ));
        }
        assert(removal_cmds(s, base, k) =~= removal_cmds(s.drop_first(), base + 1, k) + hit0);
        assert(removal_result(s, k) =~= kept0 + removal_result(s.drop_first(), k));
    } else {
        lemma_removal_front(s.drop_last(), base, k);
        assert(s.drop_last()[0] == s[0]);
        assert(s.drop_first().drop_last() =~= s.drop_last().drop_first());
        assert(s.drop_first().last() == s.last());
        assert(s.drop_first().len() == s.len() - 1);
        if removal_hits(k, s.last()) {
            assert(removal_cmds(s, base, k) == seq![
                CommandView::Remove { index: base + s.len() - 1, object: s.last() },
            ] + removal_cmds(s.drop_last(), base, k));
            assert(removal_cmds(s.drop_first(), base + 1, k) == seq![
                CommandView::Remove { index: base + s.len() - 1, object: s.last() },
            ] + removal_cmds(s.drop_first().drop_last(), base + 1, k));
            assert(removal_result(s, k) == removal_result(s.drop_last(), k));
            assert(removal_result(s.drop_first(), k) == removal_result(
                s.drop_first().drop_last(),
                k,
            ));
            assert(removal_cmds(s, base, k) =~= removal_cmds(s.drop_first(), base + 1, k) + hit0);
            assert(removal_result(s, k) =~= kept0 + removal_result(s.drop_first(), k));
        } else {
            assert(removal_result(s, k) == removal_result(s.drop_last(), k).push(
                removal_mark(k, s.last()),
            ));
            assert(removal_result(s.drop_first(), k) == removal_result(
                s.drop_first().drop_last(),
                k,
            ).push(removal_mark(k, s.last())));
            assert(removal_cmds(s, base, k) == removal_cmds(s.drop_last(), base, k));
            assert(removal_cmds(s.drop_first(), base + 1, k) == removal_cmds(
                s.drop_first().drop_last(),
                base + 1,
                k,
            ));
            assert(removal_cmds(s, base, k) =~= removal_cmds(s.drop_first(), base + 1, k) + hit0);
            assert(removal_result(s, k) =~= kept0 + removal_result(s.drop_first(), k));
        }
    }
}

/// Exact test of `removal_hits`.
fn removal_hits_exec(o: &CanvasObject, k: RemovalKind) -> (r: bool)
    requires
        valid_object(*o),
        match k {
            RemovalKind::Eraser { pos, size } => valid_point(pos) && 0 <= size <= MAX_WIDTH,
            RemovalKind::MarkedImages => true,
        },
    ensures
        r == removal_hits(k, o@),
{
    match k {
        RemovalKind::Eraser { pos, size } => match o {
            CanvasObject::Stroke(s) => {
                proof {
                    assert(crate::state::valid_stroke_v(s@));
                }
                AppUtils::point_intersects_stroke(pos, s, size)
            },
            CanvasObject::Image(_) => false,
            CanvasObject::Text(t) => {
                proof {
                    assert(crate::state::valid_text_v(t@));
                }
                let len: usize = t.text.as_str().unicode_len();
                proof {
                    crate::geom::lemma_mul_bound(
                        t.font_size as int,
                        len as int,
                        1_000_000,
                        100_000,
                    );
                }
                let r = Rect {
                    min: t.pos,
                    max: Point {
                        x: t.pos.x + t.font_size * (len as i64) / 2,
                        y: t.pos.y + t.font_size,
                    },
                };
                r.contains(pos)
            },
            CanvasObject::Shape(s) => {
                let r = AppUtils::calculate_shape_bounding_box(s);
                r.contains(pos)
            },
        },
        RemovalKind::MarkedImages => match o {
            CanvasObject::Image(img) => img.marked_for_deletion,
            _ => false,
        },
    }
}

impl AppState {
    /// One removal pass over the canvas, from the rear forward: hit
    /// objects are removed and recorded, kept objects are marked as the
    /// pass dictates, and the selection is cleared since indices shift.
    fn remove_matching(&mut self, k: RemovalKind)
        requires
            old(self).wf(),
            match k {
                RemovalKind::Eraser { pos, size } => valid_point(pos) && 0 <= size <= MAX_WIDTH,
                RemovalKind::MarkedImages => true,
            },
        ensures
            final(self).wf(),
            final(self).canvas() == removal_result(old(self).canvas(), k),
            final(self).history@.undo == crate::history::record_all(
                old(self).history@.undo,
                removal_cmds(old(self).canvas(), 0, k),
                old(self).history@.max_entries,
                old(self).history@.max_memory,
            ),
            removal_cmds(old(self).canvas(), 0, k).len() > 0 ==> final(self).history@.redo.len()
                == 0,
            removal_cmds(old(self).canvas(), 0, k).len() == 0 ==> final(self).history@ == old(
                self,
            ).history@,
            final(self).selected_object is None,
            unchanged_settings(old(self), final(self)),
    {
        let ghost cv0 = self.canvas();
        let ghost max_n = self.history@.max_entries;
        let ghost max_m = self.history@.max_memory;
        let ghost undo0 = self.history@.undo;
        let ghost redo0 = self.history@.redo;
        let n: usize = self.objects.len();
        let mut i: usize = n;
        proof {
            assert(cv0.subrange(i as int, n as int) =~= Seq::<ObjectView>::empty());
            assert(cv0.subrange(0, i as int) =~= cv0);
            assert(objects_view(self.objects@) =~= cv0.subrange(0, i as int) + removal_result(
                cv0.subrange(i as int, n as int),
                k,
            ));
        }
        while i > 0
            invariant
                0 <= i <= n,
                n == cv0.len(),
                valid_canvas_v(cv0),
                match k {
                    RemovalKind::Eraser { pos, size } => valid_point(pos) && 0 <= size
                        <= MAX_WIDTH,
                    RemovalKind::MarkedImages => true,
                },
                self.objects@.len() <= n,
                i <= self.objects@.len(),
                valid_canvas_v(objects_view(self.objects@)),
                self.history.wf(),
                forall|j: int| 0 <= j < i ==> self.objects@[j]@ == cv0[j],
                objects_view(self.objects@) == cv0.subrange(0, i as int) + removal_result(
                    cv0.subrange(i as int, n as int),
                    k,
                ),
                self.history@.max_entries == max_n,
                self.history@.max_memory == max_m,
                self.history@.undo == crate::history::record_all(
                    undo0,
                    removal_cmds(cv0.subrange(i as int, n as int), i as int, k),
                    max_n,
                    max_m,
                ),
                removal_cmds(cv0.subrange(i as int, n as int), i as int, k).len() > 0
                    ==> self.history@.redo.len() == 0,
                removal_cmds(cv0.subrange(i as int, n as int), i as int, k).len() == 0
                    ==> self.history@.undo == undo0 && self.history@.redo == redo0
                    && self.history@ == old(self).history@,
                self.tracker == old(self).tracker,
                self.touch_points == old(self).touch_points,
                unchanged_settings(old(self), self),
            decreases i,
        {
            let ghost tail = cv0.subrange(i as int, n as int);
            let ghost tail2 = cv0.subrange(i - 1 as int, n as int);
            proof {
                assert(tail2[0] == cv0[i - 1]);
                assert(tail2.drop_first() =~= tail);
                lemma_removal_front(tail2, i - 1 as int, k);
                assert(self.objects@[i - 1 as int]@ == cv0[i - 1]);
            }
            let hit = removal_hits_exec(&self.objects[i - 1], k);
            let ghost old_objs = self.objects@;
            if hit {
                self.history.record_remove(i - 1, &self.objects[i - 1]);
                self.objects.remove(i - 1);
                proof {
                    let cmds2 = removal_cmds(tail2, i - 1 as int, k);
                    let cmds = removal_cmds(tail, i as int, k);
                    assert(cmds2 =~= cmds + seq![
                        CommandView::Remove { index: i - 1 as int, object: cv0[i - 1] },
                    ]);
                    crate::history::lemma_record_all_append(
                        undo0,
                        cmds,
                        seq![CommandView::Remove { index: i - 1 as int, object: cv0[i - 1] }],
                        max_n,
                        max_m,
                    );
                    assert(Seq::<ObjectView>::empty() + removal_result(tail2.drop_first(), k)
                        =~= removal_result(tail2.drop_first(), k));
                    assert(removal_result(tail2, k) == removal_result(tail, k));
                    let c = CommandView::Remove { index: i - 1 as int, object: cv0[i - 1] };
                    assert(seq![c][0] == c);
                    assert(seq![c].drop_first() =~= Seq::<CommandView>::empty());
                    let u1 = crate::history::record_all(undo0, cmds, max_n, max_m);
                    let u2 = evict_front(u1.push(c), max_n, max_m);
                    assert(crate::history::record_all(u1, seq![c], max_n, max_m)
                        == crate::history::record_all(u2, seq![c].drop_first(), max_n, max_m));
                    assert(crate::history::record_all(
                        u2,
                        Seq::<CommandView>::empty(),
                        max_n,
                        max_m,
                    ) == u2);
                    assert(self.objects@ =~= old_objs.remove(i - 1 as int));
                    let lhs = objects_view(self.objects@);
                    let rhs = cv0.subrange(0, i - 1 as int) + removal_result(tail2, k);
                    assert(objects_view(old_objs) == cv0.subrange(0, i as int) + removal_result(
                        tail,
                        k,
                    ));
                    assert(lhs.len() == rhs.len());
                    assert forall|j: int| 0 <= j < lhs.len() implies lhs[j] == rhs[j] by {
                        if j < i - 1 {
                            assert(lhs[j] == old_objs[j]@);
                            assert(old_objs[j]@ == cv0[j]);
                        } else {
                            assert(lhs[j] == old_objs[j + 1]@);
                            assert(old_objs[j + 1]@ == objects_view(old_objs)[j + 1]);
                            assert(objects_view(old_objs)[j + 1] == removal_result(tail, k)[j + 1
                                - i]);
                        }
                    }
                    assert(lhs =~= rhs);
                    assert(valid_canvas_v(lhs)) by {
                        assert(valid_canvas_v(objects_view(old_objs)));
                        assert forall|j: int| 0 <= j < lhs.len() implies valid_object_v(
                            lhs[j],
                        ) by {
                            if j < i - 1 {
                                assert(lhs[j] == objects_view(old_objs)[j]);
                            } else {
                                assert(lhs[j] == objects_view(old_objs)[(j + 1)]);
                            }
                        }
                    }
                }
            } else {
                let is_marked_image: bool = match &self.objects[i - 1] {
                    CanvasObject::Image(img) => {
                        match k {
                            RemovalKind::Eraser { pos, size } => {
                                let r = Rect {
                                    min: img.pos,
                                    max: Point {
                                        x: img.pos.x + img.width,
                                        y: img.pos.y + img.height,
                                    },
                                };
                                r.contains(pos)
                            },
                            RemovalKind::MarkedImages => false,
                        }
                    },
                    _ => false,
                };
                if is_marked_image {
                    let marked: CanvasObject = match &self.objects[i - 1] {
                        CanvasObject::Image(img) => CanvasObject::Image(
                            InsertedImage { marked_for_deletion: true, ..*img },
                        ),
                        _ => copy_object(&self.objects[i - 1]),
                    };
                    proof {
                        assert(marked@ == removal_mark(k, cv0[i - 1]));
                    }
                    self.objects.set(i - 1, marked);
                } else {
                    proof {
                        assert(removal_mark(k, cv0[i - 1]) == cv0[i - 1]);
                    }
                }
                proof {
                    let cmds2 = removal_cmds(tail2, i - 1 as int, k);
                    let cmds = removal_cmds(tail, i as int, k);
                    assert(cmds2 =~= cmds + Seq::<CommandView>::empty());
                    assert(cmds2 =~= cmds);
                    assert(removal_result(tail2, k) == seq![removal_mark(k, cv0[i - 1])]
                        + removal_result(tail, k));
                    assert(self.objects@[i - 1 as int]@ == removal_mark(k, cv0[i - 1]));
                    assert(forall|j: int|
                        0 <= j < self.objects@.len() && j != i - 1 ==> self.objects@[j]
                            == old_objs[j]);
                    let lhs = objects_view(self.objects@);
                    let rhs = cv0.subrange(0, i - 1 as int) + removal_result(tail2, k);
                    assert(objects_view(old_objs) == cv0.subrange(0, i as int) + removal_result(
                        tail,
                        k,
                    ));
                    assert(lhs.len() == rhs.len());
                    assert forall|j: int| 0 <= j < lhs.len() implies lhs[j] == rhs[j] by {
                        if j < i - 1 {
                            assert(lhs[j] == old_objs[j]@);
                            assert(old_objs[j]@ == cv0[j]);
                        } else if j == i - 1 {
                            assert(lhs[j] == removal_mark(k, cv0[i - 1]));
                            assert(rhs[j] == removal_result(tail2, k)[0]);
                        } else {
                            assert(lhs[j] == old_objs[j]@);
                            assert(old_objs[j]@ == objects_view(old_objs)[j]);
                            assert(objects_view(old_objs)[j] == removal_result(tail, k)[j - i]);
                            assert(rhs[j] == removal_result(tail2, k)[(j - (i - 1))]);
                            assert(removal_result(tail2, k)[(j - (i - 1))] == removal_result(
                                tail,
                                k,
                            )[j - i]);
                        }
                    }
                    assert(lhs =~= rhs);
                    assert(valid_canvas_v(lhs)) by {
                        assert(valid_canvas_v(objects_view(old_objs)));
                        assert forall|j: int| 0 <= j < lhs.len() implies valid_object_v(
                            lhs[j],
                        ) by {
                            if j == i - 1 {
                                assert(lhs[j] == removal_mark(k, cv0[i - 1]));
                                assert(valid_object_v(cv0[i - 1]));
                            } else {
                                assert(lhs[j] == objects_view(old_objs)[j]);
                            }
                        }
                    }
                }
            }
            i = i - 1;
        }
        self.selected_object = None;
        proof {
            assert(cv0.subrange(0, 0) =~= Seq::<ObjectView>::empty());
            assert(cv0.subrange(0int, n as int) =~= cv0);
            assert(objects_view(self.objects@) =~= removal_result(cv0, k));
        }
    }

    /// The object eraser at `pos`: remove every stroke, text and shape
    /// the eraser disc touches, recording one removal per object, and
    /// mark every image under the cursor for deferred deletion.
    pub fn erase_at(&mut self, pos: Point)
        requires
            old(self).wf(),
            valid_point(pos),
        ensures
            final(self).wf(),
            final(self).canvas() == removal_result(
                old(self).canvas(),
                RemovalKind::Eraser { pos, size: old(self).eraser_size },
            ),
            final(self).history@.undo == crate::history::record_all(
                old(self).history@.undo,
                removal_cmds(
                    old(self).canvas(),
                    0,
                    RemovalKind::Eraser { pos, size: old(self).eraser_size },
                ),
                old(self).history@.max_entries,
                old(self).history@.max_memory,
            ),
            final(self).selected_object is None,
    {
        let k = RemovalKind::Eraser { pos, size: self.eraser_size };
        self.remove_matching(k);
    }

    /// Sweep out the images marked for deletion, recording one removal
    /// per image. The rendering layer calls this after the frame's draw
    /// calls have been submitted, so no still-bound texture is dropped
    /// mid-frame.
    pub fn sweep_removed(&mut self)
        requires
            old(self).wf(),
        ensures
            final(self).wf(),
            final(self).canvas() == removal_result(old(self).canvas(), RemovalKind::MarkedImages),
            final(self).history@.undo == crate::history::record_all(
                old(self).history@.undo,
                removal_cmds(old(self).canvas(), 0, RemovalKind::MarkedImages),
                old(self).history@.max_entries,
                old(self).history@.max_memory,
            ),
            final(self).selected_object is None,
    {
        self.remove_matching(RemovalKind::MarkedImages);
    }
}

/// The points of a committed stroke after the commit-time pipeline:
/// smoothing (when enabled), then interpolation (when the frequency is
/// positive).
pub open spec fn processed_points(
    pts: Seq<Point>,
    ws: Seq<i64>,
    smoothing: bool,
    freq: int,
) -> Seq<Point> {
    let p1 = if smoothing {
        smooth_points_spec(pts, ws)
    } else {
        pts
    };
    if freq > 0 {
        interp_points_spec(p1, freq)
    } else {
        p1
    }
}

/// The widths of a committed stroke after the commit-time pipeline.
pub open spec fn processed_widths(
    pts: Seq<Point>,
    ws: Seq<i64>,
    smoothing: bool,
    freq: int,
) -> Seq<i64> {
    let p1 = if smoothing {
        smooth_points_spec(pts, ws)
    } else {
        pts
    };
    let w1 = if smoothing {
        smooth_widths_spec(pts, ws)
    } else {
        ws
    };
    if freq > 0 {
        interp_widths_spec(p1, w1, freq)
    } else {
        w1
    }
}

/// A committed brush stroke keeps each endpoint within one canvas unit,
/// per coordinate, of the corresponding raw admitted sample: smoothing
/// drifts an endpoint by less than a unit and interpolation reproduces
/// both exactly. In particular, a straight drag commits a stroke whose
/// first and last points lie within two units of where the drag began
/// and ended.
pub proof fn lemma_commit_endpoint_drift(
    pts: Seq<Point>,
    ws: Seq<i64>,
    smoothing: bool,
    freq: int,
)
    requires
        pts.len() == ws.len(),
        1 <= pts.len(),
        forall|i: int| 0 <= i < pts.len() ==> valid_point(#[trigger] pts[i]),
    ensures
        ({
            let out = processed_points(pts, ws, smoothing, freq);
            &&& out.len() >= 1
            &&& -1000 <= out[0].x - pts[0].x <= 1000
            &&& -1000 <= out[0].y - pts[0].y <= 1000
            &&& -1000 <= out.last().x - pts.last().x <= 1000
            &&& -1000 <= out.last().y - pts.last().y <= 1000
        }),
{
    let p1 = if smoothing {
        smooth_points_spec(pts, ws)
    } else {
        pts
    };
    if smoothing {
        crate::pipeline::lemma_smoothing_endpoint_drift(pts, ws);
    }
    if freq > 0 {
        crate::pipeline::lemma_interp_ends(p1, freq);
    }
}

impl AppState {
    /// Begin a brush stroke for a pointer at its pointer-down position,
    /// with the width the brush mode gives the first point.
    pub fn pointer_down(&mut self, id: u64, pos: Point, now_ms: u64)
        requires
            old(self).wf(),
            valid_point(pos),
        ensures
            final(self).wf(),
            final(self).canvas() == old(self).canvas(),
            final(self).history@ == old(self).history@,
            final(self).selected_object == old(self).selected_object,
            final(self).touch_points@ == old(self).touch_points@,
            unchanged_settings(old(self), final(self)),
            old(self).tracker.entries@.len() >= 999 ==> *final(self) == *old(self),
            old(self).tracker.entries@.len() < 999 ==> {
                let entries = final(self).tracker.entries@;
                &&& entries.len() >= 1
                &&& entries.last().id == id
                &&& entries.last().stroke.points@ == seq![pos]
                &&& entries.last().stroke.widths@ == seq![
                    dynamic_width(
                        old(self).brush_width as int,
                        old(self).dynamic_brush_mode,
                        0,
                        1,
                        None,
                    ) as i64,
                ]
                &&& entries.last().stroke.times@ == seq![now_ms]
                &&& entries.last().stroke.start_time == now_ms
                &&& entries.last().stroke.last_movement_time == now_ms
                &&& ((forall|i: int|
                    0 <= i < old(self).tracker.entries@.len()
                        ==> (#[trigger] old(self).tracker.entries@[i]).id != id)
                    ==> entries.drop_last() == old(self).tracker.entries@)
                &&& (forall|k: int|
                    0 <= k < old(self).tracker.entries@.len()
                        && (#[trigger] old(self).tracker.entries@[k]).id == id
                        ==> entries.drop_last() == old(self).tracker.entries@.remove(k))
            },
    {
        if self.tracker.active_count() >= 999 {
            return ;
        }
        let width: i64 = AppUtils::calculate_dynamic_width(
            self.brush_width,
            self.dynamic_brush_mode,
            0,
            1,
            None,
        );
        self.tracker.pointer_down(id, pos, width, now_ms);
    }

    /// Feed a pointer-move sample into a pointer's in-progress stroke:
    /// the admission filter, the width computation and — when enabled —
    /// the straightening check run live.
    pub fn pointer_move(&mut self, id: u64, pos: Point, now_ms: u64) -> (admitted: bool)
        requires
            old(self).wf(),
            valid_point(pos),
        ensures
            final(self).wf(),
            final(self).canvas() == old(self).canvas(),
            final(self).history@ == old(self).history@,
            final(self).selected_object == old(self).selected_object,
            final(self).touch_points@ == old(self).touch_points@,
            unchanged_settings(old(self), final(self)),
            final(self).tracker.entries@.len() == old(self).tracker.entries@.len(),
            forall|i: int|
                0 <= i < final(self).tracker.entries@.len()
                    && (#[trigger] old(self).tracker.entries@[i]).id != id
                    ==> final(self).tracker.entries@[i] == old(self).tracker.entries@[i],
            forall|i: int|
                0 <= i < final(self).tracker.entries@.len()
                    && (#[trigger] old(self).tracker.entries@[i]).id == id
                    ==> final(self).tracker.entries@[i].id == id
                    && entry_moved(
                    old(self).tracker.entries@[i].stroke,
                    final(self).tracker.entries@[i].stroke,
                    pos,
                    now_ms,
                    old(self).brush_width,
                    old(self).dynamic_brush_mode,
                    old(self).stroke_straightening,
                    old(self).stroke_straightening_tolerance as int,
                ),
            (forall|i: int|
                0 <= i < old(self).tracker.entries@.len()
                    ==> (#[trigger] old(self).tracker.entries@[i]).id != id)
                ==> final(self).tracker.entries@ == old(self).tracker.entries@ && !admitted,
            forall|i: int|
                0 <= i < old(self).tracker.entries@.len()
                    && (#[trigger] old(self).tracker.entries@[i]).id == id
                    ==> admitted == (old(self).tracker.entries@[i].stroke.points@.len()
                    < MAX_STROKE_POINTS
                    && now_ms >= old(self).tracker.entries@[i].stroke.last_movement_time
                    && admits(
                    old(self).tracker.entries@[i].stroke.points@.last(),
                    pos,
                )),
    {
        let admitted = self.tracker.pointer_move(
            id,
            pos,
            now_ms,
            self.brush_width,
            self.dynamic_brush_mode,
            self.stroke_straightening,
            self.stroke_straightening_tolerance,
        );
        admitted
    }

    /// Discard a pointer's in-progress stroke: the platform cancelled the
    /// contact, so nothing is committed.
    pub fn pointer_cancel(&mut self, id: u64)
        requires
            old(self).wf(),
        ensures
            final(self).wf(),
            final(self).canvas() == old(self).canvas(),
            final(self).history@ == old(self).history@,
            final(self).selected_object == old(self).selected_object,
            final(self).touch_points@ == old(self).touch_points@,
            unchanged_settings(old(self), final(self)),
            forall|i: int|
                0 <= i < final(self).tracker.entries@.len() ==> (#[trigger] final(self).tracker.entries@[i]).id != id,
            (forall|i: int|
                0 <= i < old(self).tracker.entries@.len()
                    ==> (#[trigger] old(self).tracker.entries@[i]).id != id)
                ==> final(self).tracker.entries@ == old(self).tracker.entries@,
            forall|k: int|
                0 <= k < old(self).tracker.entries@.len()
                    && (#[trigger] old(self).tracker.entries@[k]).id == id
                    ==> final(self).tracker.entries@ == old(self).tracker.entries@.remove(k),
    {
        self.tracker.pointer_cancel(id);
    }

    /// End a pointer's stroke and commit it to the canvas: the smoothing
    /// and interpolation stages run, and the finished stroke is appended
    /// and recorded — unless the pointer was not drawing, or the processed
    /// stroke or the canvas would exceed its bound, in which case the
    /// stroke is dropped rather than committed malformed.
    pub fn pointer_up(&mut self, id: u64) -> (committed: bool)
        requires
            old(self).wf(),
        ensures
            final(self).wf(),
            forall|i: int|
                0 <= i < old(self).tracker.entries@.len() && (#[trigger] old(self).tracker.entries@[i]).id == id ==> {
                    let pts = processed_points(
                        old(self).tracker.entries@[i].stroke.points@,
                        old(self).tracker.entries@[i].stroke.widths@,
                        old(self).stroke_smoothing,
                        old(self).interpolation_frequency as int,
                    );
                    let ws = processed_widths(
                        old(self).tracker.entries@[i].stroke.points@,
                        old(self).tracker.entries@[i].stroke.widths@,
                        old(self).stroke_smoothing,
                        old(self).interpolation_frequency as int,
                    );
                    &&& committed == (1 <= pts.len() <= MAX_STROKE_POINTS && old(
                        self,
                    ).canvas().len() < MAX_OBJECTS)
                    &&& committed ==> final(self).canvas() == old(self).canvas().push(
                        ObjectView::Stroke(
                            crate::state::StrokeView {
                                points: pts,
                                widths: ws,
                                color: old(self).brush_color,
                                base_width: old(self).brush_width,
                            },
                        ),
                    )
                    &&& !committed ==> final(self).canvas() == old(self).canvas()
                },
            (forall|i: int|
                0 <= i < old(self).tracker.entries@.len() ==> (#[trigger] old(self).tracker.entries@[i]).id != id)
                ==> !committed && final(self).canvas() == old(self).canvas() && final(self).history@
                    == old(self).history@ && final(self).tracker.entries@ == old(
                self,
            ).tracker.entries@,
            forall|k: int|
                0 <= k < old(self).tracker.entries@.len() && (#[trigger] old(self).tracker.entries@[k]).id == id
                    ==> final(self).tracker.entries@ == old(self).tracker.entries@.remove(k),
            forall|i: int|
                0 <= i < final(self).tracker.entries@.len()
                    ==> (#[trigger] final(self).tracker.entries@[i]).id != id,
            final(self).selected_object == old(self).selected_object,
            final(self).touch_points@ == old(self).touch_points@,
            unchanged_settings(old(self), final(self)),
            committed ==> final(self).history@.redo.len() == 0,
    {
        let taken = self.tracker.pointer_up(id);
        match taken {
            Option::None => false,
            Option::Some(stroke) => {
                let crate::tracker::ActiveStroke { points, widths, .. } = stroke;
                let (p1, w1) = if self.stroke_smoothing {
                    AppUtils::apply_stroke_smoothing(&points, &widths)
                } else {
                    (points, widths)
                };
                let (p2, w2) = if self.interpolation_frequency > 0 {
                    crate::pipeline::interpolate(&p1, &w1, self.interpolation_frequency)
                } else {
                    (p1, w1)
                };
                if p2.len() >= 1 && p2.len() <= MAX_STROKE_POINTS && self.objects.len()
                    < MAX_OBJECTS {
                    let s = DrawingStroke {
                        points: p2,
                        widths: w2,
                        color: self.brush_color,
                        base_width: self.brush_width,
                    };
                    self.push_object(CanvasObject::Stroke(s));
                    true
                } else {
                    false
                }
            },
        }
    }
}

/// A length clamped between a minimum extent and the canvas bound.
pub open spec fn clamp_extent(v: int, min: int) -> int {
    if v < min {
        min
    } else if v > MAX_COORD {
        MAX_COORD as int
    } else {
        v
    }
}

/// Whether a handle drags the left, right, top or bottom edge.
pub open spec fn handle_moves_left(h: ResizeHandle) -> bool {
    h == ResizeHandle::TopLeft || h == ResizeHandle::Left || h == ResizeHandle::BottomLeft
}

pub open spec fn handle_moves_right(h: ResizeHandle) -> bool {
    h == ResizeHandle::TopRight || h == ResizeHandle::Right || h == ResizeHandle::BottomRight
}

pub open spec fn handle_moves_top(h: ResizeHandle) -> bool {
    h == ResizeHandle::TopLeft || h == ResizeHandle::Top || h == ResizeHandle::TopRight
}

pub open spec fn handle_moves_bottom(h: ResizeHandle) -> bool {
    h == ResizeHandle::BottomLeft || h == ResizeHandle::Bottom || h == ResizeHandle::BottomRight
}

/// An image resized by dragging one of the eight handles. A handle with
/// a horizontal component drives the width; the pure vertical handles
/// drive the height; the other dimension is re-clamped from the original
/// pixel aspect ratio. The dragged edges move; the opposite edges stay
/// anchored; no dimension goes below the minimum extent.
pub open spec fn resize_image_v(
    img: InsertedImage,
    h: ResizeHandle,
    dx: int,
    dy: int,
) -> InsertedImage {
    if h == ResizeHandle::Top || h == ResizeHandle::Bottom {
        let raw_h = img.height + (if h == ResizeHandle::Top {
            -dy
        } else {
            dy
        });
        let new_h = clamp_extent(raw_h, MIN_IMAGE_EXTENT as int);
        let new_w = clamp_extent(new_h * img.aspect_w / (img.aspect_h as int), MIN_IMAGE_EXTENT as int);
        let new_y = if h == ResizeHandle::Top {
            clamp_coord(img.pos.y + img.height - new_h)
        } else {
            img.pos.y as int
        };
        InsertedImage {
            pos: Point { x: img.pos.x, y: new_y as i64 },
            width: new_w as i64,
            height: new_h as i64,
            ..img
        }
    } else {
        let raw_w = img.width + (if handle_moves_left(h) {
            -dx
        } else {
            dx
        });
        let new_w = clamp_extent(raw_w, MIN_IMAGE_EXTENT as int);
        let new_h = clamp_extent(new_w * img.aspect_h / (img.aspect_w as int), MIN_IMAGE_EXTENT as int);
        let new_x = if handle_moves_left(h) {
            clamp_coord(img.pos.x + img.width - new_w)
        } else {
            img.pos.x as int
        };
        let new_y = if handle_moves_top(h) {
            clamp_coord(img.pos.y + img.height - new_h)
        } else {
            img.pos.y as int
        };
        InsertedImage {
            pos: Point { x: new_x as i64, y: new_y as i64 },
            width: new_w as i64,
            height: new_h as i64,
            ..img
        }
    }
}

/// A text label resized by a handle: the font size grows toward the
/// dragged corner or edge, within its bounds.
pub open spec fn resize_text_delta(h: ResizeHandle, dx: int, dy: int) -> int {
    if handle_moves_right(h) {
        dx
    } else if handle_moves_left(h) {
        -dx
    } else if handle_moves_bottom(h) {
        dy
    } else {
        -dy
    }
}

/// A shape resized by a handle: its size scalar grows toward the dragged
/// edge, within its bounds.
pub open spec fn resize_object_v(o: ObjectView, h: ResizeHandle, dx: int, dy: int) -> ObjectView {
    match o {
        ObjectView::Image(img) => ObjectView::Image(resize_image_v(img, h, dx, dy)),
        ObjectView::Text(t) => ObjectView::Text(
            crate::state::TextView {
                font_size: clamp_font(
                    t.font_size + resize_text_delta(h, dx, dy),
                ) as i64,
                ..t
            },
        ),
        ObjectView::Shape(s) => ObjectView::Shape(
            InsertedShape {
                size: clamp_extent(
                    s.size + resize_text_delta(h, dx, dy),
                    MIN_SHAPE_EXTENT as int,
                ) as i64,
                ..s
            },
        ),
        ObjectView::Stroke(_) => o,
    }
}

/// A font size clamped between the minimum text extent and the width
/// bound.
pub open spec fn clamp_font(v: int) -> int {
    if v < MIN_IMAGE_EXTENT {
        MIN_IMAGE_EXTENT as int
    } else if v > MAX_WIDTH {
        MAX_WIDTH as int
    } else {
        v
    }
}

/// Clamp an extent between a minimum and the canvas bound.
fn clamp_extent_exec(v: i64, min: i64) -> (r: i64)
    ensures
        r == clamp_extent(v as int, min as int),
{
    if v < min {
        min
    } else if v > MAX_COORD {
        MAX_COORD
    } else {
        v
    }
}

/// Resize one object by a handle drag; strokes are resize-inert.
fn resize_object(o: &CanvasObject, h: ResizeHandle, dx: i64, dy: i64) -> (r: CanvasObject)
    requires
        valid_object(*o),
        -MAX_COORD <= dx <= MAX_COORD,
        -MAX_COORD <= dy <= MAX_COORD,
    ensures
        r@ == resize_object_v(o@, h, dx as int, dy as int),
        valid_object(r),
{
    match o {
        CanvasObject::Stroke(_) => {
            let r = copy_object(o);
            proof {
                assert(r@ == resize_object_v(o@, h, dx as int, dy as int));
            }
            r
        },
        CanvasObject::Image(img) => {
            if h == ResizeHandle::Top || h == ResizeHandle::Bottom {
                let raw_h: i64 = img.height + (if h == ResizeHandle::Top {
                    -dy
                } else {
                    dy
                });
                let new_h: i64 = clamp_extent_exec(raw_h, MIN_IMAGE_EXTENT);
                proof {
                    crate::geom::lemma_mul_bound(
                        new_h as int,
                        img.aspect_w as int,
                        100_000_000,
                        100_000_000,
                    );
                    vstd::arithmetic::div_mod::lemma_div_is_ordered(
                        0,
                        new_h as int * img.aspect_w as int,
                        img.aspect_h as int,
                    );
                    vstd::arithmetic::div_mod::lemma_div_of0(img.aspect_h as int);
                }
                let new_w: i64 = clamp_extent_exec(
                    new_h * img.aspect_w / img.aspect_h,
                    MIN_IMAGE_EXTENT,
                );
                let new_y: i64 = if h == ResizeHandle::Top {
                    clamp_coord_exec(img.pos.y + img.height - new_h)
                } else {
                    img.pos.y
                };
                CanvasObject::Image(
                    InsertedImage {
                        pos: Point { x: img.pos.x, y: new_y },
                        width: new_w,
                        height: new_h,
                        ..*img
                    },
                )
            } else {
                let left: bool = h == ResizeHandle::TopLeft || h == ResizeHandle::Left || h
                    == ResizeHandle::BottomLeft;
                let top: bool = h == ResizeHandle::TopLeft || h == ResizeHandle::Top || h
                    == ResizeHandle::TopRight;
                let raw_w: i64 = img.width + (if left {
                    -dx
                } else {
                    dx
                });
                let new_w: i64 = clamp_extent_exec(raw_w, MIN_IMAGE_EXTENT);
                proof {
                    crate::geom::lemma_mul_bound(
                        new_w as int,
                        img.aspect_h as int,
                        100_000_000,
                        100_000_000,
                    );
                    vstd::arithmetic::div_mod::lemma_div_is_ordered(
                        0,
                        new_w as int * img.aspect_h as int,
                        img.aspect_w as int,
                    );
                    vstd::arithmetic::div_mod::lemma_div_of0(img.aspect_w as int);
                }
                let new_h: i64 = clamp_extent_exec(
                    new_w * img.aspect_h / img.aspect_w,
                    MIN_IMAGE_EXTENT,
                );
                let new_x: i64 = if left {
                    clamp_coord_exec(img.pos.x + img.width - new_w)
                } else {
                    img.pos.x
                };
                let new_y: i64 = if top {
                    clamp_coord_exec(img.pos.y + img.height - new_h)
                } else {
                    img.pos.y
                };
                CanvasObject::Image(
                    InsertedImage {
                        pos: Point { x: new_x, y: new_y },
                        width: new_w,
                        height: new_h,
                        ..*img
                    },
                )
            }
        },
        CanvasObject::Text(t) => {
            let right: bool = h == ResizeHandle::TopRight || h == ResizeHandle::Right || h
                == ResizeHandle::BottomRight;
            let left: bool = h == ResizeHandle::TopLeft || h == ResizeHandle::Left || h
                == ResizeHandle::BottomLeft;
            let bottom: bool = h == ResizeHandle::BottomLeft || h == ResizeHandle::Bottom || h
                == ResizeHandle::BottomRight;
            let d: i64 = if right {
                dx
            } else if left {
                -dx
            } else if bottom {
                dy
            } else {
                -dy
            };
            let raw: i64 = t.font_size + d;
            let f: i64 = if raw < MIN_IMAGE_EXTENT {
                MIN_IMAGE_EXTENT
            } else if raw > MAX_WIDTH {
                MAX_WIDTH
            } else {
                raw
            };
            let r = CanvasObject::Text(
                InsertedText { text: t.text.clone(), pos: t.pos, color: t.color, font_size: f },
            );
            proof {
                assert(r@ =~= resize_object_v(o@, h, dx as int, dy as int));
            }
            r
        },
        CanvasObject::Shape(s) => {
            let right: bool = h == ResizeHandle::TopRight || h == ResizeHandle::Right || h
                == ResizeHandle::BottomRight;
            let left: bool = h == ResizeHandle::TopLeft || h == ResizeHandle::Left || h
                == ResizeHandle::BottomLeft;
            let bottom: bool = h == ResizeHandle::BottomLeft || h == ResizeHandle::Bottom || h
                == ResizeHandle::BottomRight;
            let d: i64 = if right {
                dx
            } else if left {
                -dx
            } else if bottom {
                dy
            } else {
                -dy
            };
            let new_size: i64 = clamp_extent_exec(s.size + d, MIN_SHAPE_EXTENT);
            CanvasObject::Shape(InsertedShape { size: new_size, ..*s })
        },
    }
}

impl AppState {
    /// Resize the selected object by a handle drag, recording the
    /// modification. Strokes are resize-inert. Returns false, changing
    /// nothing, when nothing is selected or the deltas are out of range.
    pub fn resize_selected(&mut self, handle: ResizeHandle, dx: i64, dy: i64) -> (ok: bool)
        requires
            old(self).wf(),
        ensures
            final(self).wf(),
            ok == (old(self).selected_object is Some && -MAX_COORD <= dx <= MAX_COORD
                && -MAX_COORD <= dy <= MAX_COORD),
            !ok ==> *final(self) == *old(self),
            ok ==> {
                let i = selected_index_spec(old(self).selected_object->0);
                &&& final(self).canvas() == old(self).canvas().update(
                    i,
                    resize_object_v(old(self).canvas()[i], handle, dx as int, dy as int),
                )
                &&& final(self).history@.redo.len() == 0
                &&& final(self).selected_object == old(self).selected_object
            },
    {
        if !(-MAX_COORD <= dx && dx <= MAX_COORD && -MAX_COORD <= dy && dy <= MAX_COORD) {
            return false;
        }
        match self.selected_index() {
            Option::None => false,
            Option::Some(i) => {
                let resized = resize_object(&self.objects[i], handle, dx, dy);
                self.modify_object_at(i, resized);
                true
            },
        }
    }

    /// Rotate the selected shape by a delta in milliradians, wrapping at
    /// a full turn, recording the modification. Only shapes rotate.
    /// Returns false, changing nothing, when no shape is selected or the
    /// delta exceeds one turn.
    pub fn rotate_selected(&mut self, delta: i64) -> (ok: bool)
        requires
            old(self).wf(),
        ensures
            final(self).wf(),
            ok == (match old(self).selected_object {
                Some(SelectedObject::Shape(_)) => -crate::state::FULL_TURN_MRAD <= delta
                    <= crate::state::FULL_TURN_MRAD,
                _ => false,
            }),
            !ok ==> *final(self) == *old(self),
            ok ==> {
                let i = selected_index_spec(old(self).selected_object->0);
                &&& final(self).canvas() == old(self).canvas().update(
                    i,
                    match old(self).canvas()[i] {
                        ObjectView::Shape(s) => ObjectView::Shape(
                            InsertedShape { rotation: wrap_rotation(s.rotation + delta) as i64, ..s },
                        ),
                        _ => old(self).canvas()[i],
                    },
                )
                &&& final(self).history@.redo.len() == 0
            },
    {
        if !(-crate::state::FULL_TURN_MRAD <= delta && delta <= crate::state::FULL_TURN_MRAD) {
            return false;
        }
        match self.selected_object {
            Option::Some(SelectedObject::Shape(i)) => {
                let rotated: CanvasObject = match &self.objects[i] {
                    CanvasObject::Shape(s) => {
                        let sum: i64 = s.rotation + delta;
                        let wrapped: i64 = if sum < 0 {
                            sum + crate::state::FULL_TURN_MRAD
                        } else if sum >= crate::state::FULL_TURN_MRAD {
                            sum - crate::state::FULL_TURN_MRAD
                        } else {
                            sum
                        };
                        CanvasObject::Shape(InsertedShape { rotation: wrapped, ..*s })
                    },
                    _ => copy_object(&self.objects[i]),
                };
                self.modify_object_at(i, rotated);
                true
            },
            _ => false,
        }
    }
}

/// A rotation wrapped into `[0, FULL_TURN_MRAD)`, for sums at most one
/// turn out of range.
pub open spec fn wrap_rotation(r: int) -> int {
    if r < 0 {
        r + crate::state::FULL_TURN_MRAD
    } else if r >= crate::state::FULL_TURN_MRAD {
        r - crate::state::FULL_TURN_MRAD
    } else {
        r
    }
}

/// Every committed stroke on a well-formed canvas carries exactly one
/// width per point: the width-array length invariant, stated on its own.
pub proof fn lemma_stroke_widths_match(st: &AppState, i: int)
    requires
        st.wf(),
        0 <= i < st.canvas().len(),
        st.canvas()[i] is Stroke,
    ensures
        st.canvas()[i]->Stroke_0.widths.len() == st.canvas()[i]->Stroke_0.points.len(),
        st.canvas()[i]->Stroke_0.points.len() >= 1,
{
    assert(valid_object_v(st.canvas()[i]));
}

/// The points of a stroke that survive a pixel-eraser pass: those
/// farther from the eraser centre than the eraser radius.
pub open spec fn kept_points(pts: Seq<Point>, pos: Point, rad: int) -> Seq<Point>
    decreases pts.len(),
{
    if pts.len() == 0 {
        pts
    } else {
        let rest = kept_points(pts.drop_last(), pos, rad);
        if crate::geom::dist_sq(pts.last(), pos) > rad * rad {
            rest.push(pts.last())
        } else {
            rest
        }
    }
}

/// The widths that go with the surviving points.
pub open spec fn kept_widths(pts: Seq<Point>, ws: Seq<i64>, pos: Point, rad: int) -> Seq<i64>
    decreases pts.len(),
{
    if pts.len() == 0 {
        ws.subrange(0, 0)
    } else {
        let rest = kept_widths(pts.drop_last(), ws.drop_last(), pos, rad);
        if crate::geom::dist_sq(pts.last(), pos) > rad * rad {
            rest.push(ws.last())
        } else {
            rest
        }
    }
}

/// The canvas after a pixel-eraser pass: every stroke loses the points
/// under the eraser, and strokes left with fewer than two points vanish;
/// the other object kinds are untouched.
pub open spec fn pixel_result(s: Seq<ObjectView>, pos: Point, rad: int) -> Seq<ObjectView>
    decreases s.len(),
{
    if s.len() == 0 {
        s
    } else {
        let rest = pixel_result(s.drop_last(), pos, rad);
        match s.last() {
            ObjectView::Stroke(sv) => {
                let kp = kept_points(sv.points, pos, rad);
                let kw = kept_widths(sv.points, sv.widths, pos, rad);
                if kp.len() >= 2 {
                    rest.push(
                        ObjectView::Stroke(crate::state::StrokeView { points: kp, widths: kw, ..sv }),
                    )
                } else {
                    rest
                }
            },
            _ => rest.push(s.last()),
        }
    }
}

/// Drop the points of one stroke that lie within the eraser radius.
fn erase_points_from_stroke(s: &DrawingStroke, pos: Point, rad: i64) -> (r: (Vec<Point>, Vec<
    i64,
>))
    requires
        crate::state::valid_stroke(*s),
        valid_point(pos),
        0 <= rad <= MAX_WIDTH,
    ensures
        r.0@ == kept_points(s.points@, pos, rad as int),
        r.1@ == kept_widths(s.points@, s.widths@, pos, rad as int),
{
    let n: usize = s.points.len();
    let mut rp: Vec<Point> = Vec::new();
    let mut rw: Vec<i64> = Vec::new();
    let mut i: usize = 0;
    proof {
        crate::geom::lemma_sq_bound(rad as int, MAX_COORD as int);
        assert(s.points@.subrange(0, 0) =~= Seq::<Point>::empty());
        assert(rp@ =~= kept_points(s.points@.subrange(0, 0), pos, rad as int));
        assert(rw@ =~= kept_widths(
            s.points@.subrange(0, 0),
            s.widths@.subrange(0, 0),
            pos,
            rad as int,
        ));
    }
    while i < n
        invariant
            0 <= i <= n,
            n == s.points@.len(),
            crate::state::valid_stroke(*s),
            valid_point(pos),
            0 <= rad <= MAX_WIDTH,
            rp@ == kept_points(s.points@.subrange(0, i as int), pos, rad as int),
            rw@ == kept_widths(
                s.points@.subrange(0, i as int),
                s.widths@.subrange(0, i as int),
                pos,
                rad as int,
            ),
        decreases n - i,
    {
        proof {
            assert(s.points@.subrange(0, i + 1 as int).drop_last() =~= s.points@.subrange(
                0,
                i as int,
            ));
            assert(s.widths@.subrange(0, i + 1 as int).drop_last() =~= s.widths@.subrange(
                0,
                i as int,
            ));
            assert(s.points@.subrange(0, i + 1 as int).last() == s.points@[i as int]);
            assert(s.widths@.subrange(0, i + 1 as int).last() == s.widths@[i as int]);
            crate::geom::lemma_sq_bound(rad as int, 100_000_000);
        }
        let d: i64 = crate::geom::dist_sq_i64(s.points[i], pos);
        if d > rad * rad {
            rp.push(s.points[i]);
            rw.push(s.widths[i]);
        }
        i = i + 1;
    }
    proof {
        assert(s.points@.subrange(0, n as int) =~= s.points@);
        assert(s.widths@.subrange(0, n as int) =~= s.widths@);
    }
    (rp, rw)
}

impl AppState {
    /// The pixel eraser at `pos`: remove from every stroke the points
    /// within half the eraser size of the cursor, dropping strokes left
    /// with fewer than two points, and leave every other object alone.
    /// This fine-grained edit is deliberately not recorded in the
    /// history: only whole-object mutations are.
    pub fn pixel_erase_at(&mut self, pos: Point)
        requires
            old(self).wf(),
            valid_point(pos),
        ensures
            final(self).wf(),
            final(self).canvas() == pixel_result(
                old(self).canvas(),
                pos,
                old(self).eraser_size as int / 2,
            ),
            final(self).history@ == old(self).history@,
            final(self).selected_object is None,
    {
        let rad: i64 = self.eraser_size / 2;
        let ghost cv0 = self.canvas();
        let ghost radi = self.eraser_size as int / 2;
        let n: usize = self.objects.len();
        let mut out: Vec<CanvasObject> = Vec::new();
        let mut i: usize = 0;
        proof {
            assert(cv0.subrange(0, 0) =~= Seq::<ObjectView>::empty());
            assert(objects_view(out@) =~= pixel_result(cv0.subrange(0, 0), pos, radi));
        }
        while i < n
            invariant
                0 <= i <= n,
                n == self.objects@.len(),
                cv0 == objects_view(self.objects@),
                valid_canvas_v(cv0),
                valid_point(pos),
                rad == radi,
                0 <= rad <= MAX_WIDTH,
                objects_view(out@) == pixel_result(cv0.subrange(0, i as int), pos, radi),
                out@.len() <= i,
                valid_objects_v(objects_view(out@)),
            decreases n - i,
        {
            proof {
                assert(cv0.subrange(0, i + 1 as int).drop_last() =~= cv0.subrange(0, i as int));
                assert(cv0.subrange(0, i + 1 as int).last() == cv0[i as int]);
                assert(self.objects@[i as int]@ == cv0[i as int]);
            }
            match &self.objects[i] {
                CanvasObject::Stroke(s) => {
                    let (kp, kw) = erase_points_from_stroke(s, pos, rad);
                    if kp.len() >= 2 {
                        proof {
                            lemma_kept_valid(s.points@, s.widths@, pos, radi);
                        }
                        let ns = DrawingStroke {
                            points: kp,
                            widths: kw,
                            color: s.color,
                            base_width: s.base_width,
                        };
                        let ghost pre_out = objects_view(out@);
                        out.push(CanvasObject::Stroke(ns));
                        proof {
                            assert(objects_view(out@) =~= pixel_result(
                                cv0.subrange(0, i + 1 as int),
                                pos,
                                radi,
                            ));
                        }
                    }
                },
                _ => {
                    let c = copy_object(&self.objects[i]);
                    let ghost pre_out = objects_view(out@);
                    out.push(c);
                    proof {
                        assert(objects_view(out@) =~= pixel_result(
                            cv0.subrange(0, i + 1 as int),
                            pos,
                            radi,
                        ));
                    }
                },
            }
            i = i + 1;
        }
        self.objects = out;
        self.selected_object = None;
        proof {
            assert(cv0.subrange(0, n as int) =~= cv0);
        }
    }
}

/// The surviving points and widths of a pixel-erased stroke stay
/// well-formed and aligned.
pub proof fn lemma_kept_valid(pts: Seq<Point>, ws: Seq<i64>, pos: Point, rad: int)
    requires
        pts.len() == ws.len(),
        forall|i: int| 0 <= i < pts.len() ==> valid_point(#[trigger] pts[i]),
        forall|i: int| 0 <= i < ws.len() ==> 0 <= #[trigger] ws[i] <= MAX_POINT_WIDTH,
    ensures
        kept_points(pts, pos, rad).len() == kept_widths(pts, ws, pos, rad).len(),
        kept_points(pts, pos, rad).len() <= pts.len(),
        forall|i: int|
            0 <= i < kept_points(pts, pos, rad).len() ==> valid_point(
                #[trigger] kept_points(pts, pos, rad)[i],
            ),
        forall|i: int|
            0 <= i < kept_widths(pts, ws, pos, rad).len() ==> 0 <= #[trigger] kept_widths(
                pts,
                ws,
                pos,
                rad,
            )[i] <= MAX_POINT_WIDTH,
    decreases pts.len(),
{
    if pts.len() > 0 {
        assert(forall|i: int|
            0 <= i < pts.len() - 1 ==> pts.drop_last()[i] == #[trigger] pts[i]);
        assert(forall|i: int| 0 <= i < ws.len() - 1 ==> ws.drop_last()[i] == #[trigger] ws[i]);
        lemma_kept_valid(pts.drop_last(), ws.drop_last(), pos, rad);
    }
}

/// One visualized touch contact: its platform identifier and its latest
/// position.
#[derive(Clone, Copy, PartialEq, Eq, Structural, Debug)]
pub struct TouchPoint {
    pub id: u64,
    pub pos: Point,
}

impl AppState {
    /// Record or update the position of a touch contact, for the
    /// rendering layer's touch indicators. At most one entry per
    /// identifier is kept.
    pub fn set_touch_point(&mut self, id: u64, pos: Point)
        requires
            old(self).wf(),
            valid_point(pos),
        ensures
            final(self).wf(),
            final(self).canvas() == old(self).canvas(),
            final(self).history@ == old(self).history@,
            exists|i: int|
                0 <= i < final(self).touch_points@.len() && final(self).touch_points@[i]
                    == (TouchPoint { id, pos }),
            forall|i: int, j: int|
                0 <= i < j < final(self).touch_points@.len() ==> final(self).touch_points@[i].id
                    != final(self).touch_points@[j].id,
            final(self).selected_object == old(self).selected_object,
            final(self).tracker == old(self).tracker,
            unchanged_settings(old(self), final(self)),
            (forall|i: int|
                0 <= i < old(self).touch_points@.len() ==> (#[trigger] old(
                    self,
                ).touch_points@[i]).id != id) ==> final(self).touch_points@ == old(
                self,
            ).touch_points@.push(TouchPoint { id, pos }),
            forall|k: int|
                0 <= k < old(self).touch_points@.len() && (#[trigger] old(
                    self,
                ).touch_points@[k]).id == id ==> final(self).touch_points@ == old(
                    self,
                ).touch_points@.remove(k).push(TouchPoint { id, pos }),
    {
        self.remove_touch_point(id);
        let ghost pre = self.touch_points@;
        self.touch_points.push(TouchPoint { id, pos });
        proof {
            let n = self.touch_points@.len() - 1;
            assert(self.touch_points@[n] == (TouchPoint { id, pos }));
            assert(forall|i: int| 0 <= i < n ==> self.touch_points@[i] == pre[i]);
            assert(self.touch_points@ =~= pre.push(TouchPoint { id, pos }));
        }
    }

    /// Forget a touch contact: it ended or was cancelled.
    pub fn remove_touch_point(&mut self, id: u64)
        requires
            old(self).wf(),
        ensures
            final(self).wf(),
            final(self).canvas() == old(self).canvas(),
            final(self).history@ == old(self).history@,
            forall|i: int|
                0 <= i < final(self).touch_points@.len() ==> final(self).touch_points@[i].id != id,
            forall|i: int, j: int|
                0 <= i < j < final(self).touch_points@.len() ==> final(self).touch_points@[i].id
                    != final(self).touch_points@[j].id,
            final(self).selected_object == old(self).selected_object,
            final(self).tracker == old(self).tracker,
            unchanged_settings(old(self), final(self)),
            (forall|i: int|
                0 <= i < old(self).touch_points@.len() ==> (#[trigger] old(
                    self,
                ).touch_points@[i]).id != id) ==> final(self).touch_points@ == old(
                self,
            ).touch_points@,
            forall|k: int|
                0 <= k < old(self).touch_points@.len() && (#[trigger] old(
                    self,
                ).touch_points@[k]).id == id ==> final(self).touch_points@ == old(
                    self,
                ).touch_points@.remove(k),
    {
        let n: usize = self.touch_points.len();
        let mut found: Option<usize> = None;
        let mut i: usize = 0;
        while i < n
            invariant
                0 <= i <= n,
                n == self.touch_points@.len(),
                match found {
                    Some(k) => k < n && self.touch_points@[k as int].id == id,
                    None => forall|k: int| 0 <= k < i ==> self.touch_points@[k].id != id,
                },
            decreases n - i,
        {
            if self.touch_points[i].id == id {
                found = Some(i);
                i = n;
            } else {
                i = i + 1;
            }
        }
        match found {
            Option::Some(k) => {
                let ghost pre = self.touch_points@;
                self.touch_points.remove(k);
                proof {
                    assert(forall|j: int|
                        0 <= j < self.touch_points@.len() ==> self.touch_points@[j] == if j < k {
                            pre[j]
                        } else {
                            pre[(j + 1)]
                        });
                    assert forall|kk: int|
                        0 <= kk < pre.len() && (#[trigger] pre[kk]).id == id implies
                        self.touch_points@ == pre.remove(kk) by {
                        assert(kk == k);
                        assert(self.touch_points@ =~= pre.remove(k as int));
                    }
                }
            },
            Option::None => {},
        }
    }
}

} // verus!
