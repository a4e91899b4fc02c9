//! The active-stroke tracker: per-pointer in-progress drawing state,
//! fed by pointer events, with live admission filtering, dynamic width
//! computation and straightening on pause.

use vstd::prelude::*;
use crate::geom::{Point, valid_point, dist_sq, dist_i64, sqrt_floor, lemma_sqrt_floor_unique,
    is_collinear, collinear_spec, MAX_COORD};
use crate::state::{DynamicBrushMode, MAX_POINT_WIDTH, MAX_STROKE_POINTS, MAX_WIDTH};
use crate::utils::{AppUtils, dynamic_width};
use crate::pipeline::{admits, should_admit, straighten_spec, ADMIT_DIST, STRAIGHTEN_PAUSE_MS};

verus! {

/// The instantaneous pointer speed, in fixed-point steps per second:
/// the rounded-down distance moved, divided by the elapsed time floored
/// at one millisecond.
pub open spec fn sample_speed(last: Point, pos: Point, dt_ms: int) -> int {
    sqrt_floor(dist_sq(last, pos)) * 1000 / (if dt_ms < 1 {
        1int
    } else {
        dt_ms
    })
}

/// One in-progress stroke for one pointer: admitted points, their widths,
/// the absolute time each was admitted, and when the stroke began and
/// last advanced.
pub struct ActiveStroke {
    pub points: Vec<Point>,
    pub widths: Vec<i64>,
    pub times: Vec<u64>,
    pub start_time: u64,
    pub last_movement_time: u64,
}

impl ActiveStroke {
    /// A well-formed in-progress stroke: one width and one timestamp per
    /// point, admission times never decreasing, everything in range.
    pub open spec fn wf(&self) -> bool {
        &&& 1 <= self.points@.len() <= MAX_STROKE_POINTS
        &&& self.widths@.len() == self.points@.len()
        &&& self.times@.len() == self.points@.len()
        &&& forall|i: int| 0 <= i < self.points@.len() ==> valid_point(#[trigger] self.points@[i])
        &&& forall|i: int|
            0 <= i < self.widths@.len() ==> 0 <= #[trigger] self.widths@[i] <= MAX_POINT_WIDTH
        &&& forall|i: int|
            0 <= i < self.times@.len() - 1 ==> #[trigger] self.times@[i] <= self.times@[i + 1]
        &&& self.start_time <= self.times@[0]
        &&& self.times@.last() <= self.last_movement_time
    }

    /// A fresh stroke seeded with the pointer-down position.
    pub fn begin(pos: Point, width: i64, now_ms: u64) -> (s: ActiveStroke)
        requires
            valid_point(pos),
            0 <= width <= MAX_POINT_WIDTH,
        ensures
            s.wf(),
            s.points@ == seq![pos],
            s.widths@ == seq![width],
            s.times@ == seq![now_ms],
            s.start_time == now_ms,
            s.last_movement_time == now_ms,
    {
        let mut points: Vec<Point> = Vec::new();
        let mut widths: Vec<i64> = Vec::new();
        let mut times: Vec<u64> = Vec::new();
        points.push(pos);
        widths.push(width);
        times.push(now_ms);
        proof {
            assert(points@ =~= seq![pos]);
            assert(widths@ =~= seq![width]);
            assert(times@ =~= seq![now_ms]);
        }
        ActiveStroke { points, widths, times, start_time: now_ms, last_movement_time: now_ms }
    }

    /// Feed one pointer-move sample. The sample is admitted, with a width
    /// from the brush mode and the measured speed, exactly when it has
    /// moved past the admission threshold; otherwise nothing changes.
    pub fn add_sample(
        &mut self,
        pos: Point,
        now_ms: u64,
        base_width: i64,
        mode: DynamicBrushMode,
    ) -> (admitted: bool)
        requires
            old(self).wf(),
            valid_point(pos),
            0 < base_width <= MAX_WIDTH,
            now_ms >= old(self).last_movement_time,
            old(self).points@.len() < MAX_STROKE_POINTS,
        ensures
            final(self).wf(),
            admitted == admits(old(self).points@.last(), pos),
            !admitted ==> *final(self) == *old(self),
            admitted ==> {
                let speed = sample_speed(
                    old(self).points@.last(),
                    pos,
                    now_ms - old(self).times@.last(),
                );
                &&& final(self).points@ == old(self).points@.push(pos)
                &&& final(self).widths@ == old(self).widths@.push(
                    dynamic_width(
                        base_width as int,
                        mode,
                        old(self).points@.len() as int,
                        old(self).points@.len() as int + 1,
                        Some(speed as i64),
                    ) as i64,
                )
                &&& final(self).times@ == old(self).times@.push(now_ms)
                &&& final(self).start_time == old(self).start_time
                &&& final(self).last_movement_time == now_ms
            },
    {
        let last: Point = self.points[self.points.len() - 1];
        if !should_admit(last, pos) {
            return false;
        }
        let last_t: u64 = self.times[self.times.len() - 1];
        proof {
            lemma_times_sorted(self.times@, self.times@.len() - 1, self.times@.len() - 1);
        }
        let dt: u64 = if now_ms - last_t < 1 {
            1
        } else {
            now_ms - last_t
        };
        let d: i64 = dist_i64(last, pos);
        proof {
            crate::geom::lemma_sq_bound((last.x - pos.x) as int, 200_000_000);
            crate::geom::lemma_sq_bound((last.y - pos.y) as int, 200_000_000);
            lemma_sqrt_floor_unique(dist_sq(last, pos), d as int);
            crate::geom::lemma_sqrt_below(dist_sq(last, pos), d as int, 300_000_000);
        }
        let speed: i64 = if dt > 1_000_000_000_000 {
            proof {
                vstd::arithmetic::div_mod::lemma_basic_div(d as int * 1000, dt as int);
            }
            0
        } else {
            proof {
                vstd::arithmetic::div_mod::lemma_div_is_ordered(0, d as int * 1000, dt as int);
                vstd::arithmetic::div_mod::lemma_div_is_ordered_by_denominator(
                    d as int * 1000,
                    1,
                    dt as int,
                );
                vstd::arithmetic::div_mod::lemma_div_basics(d as int * 1000);
                vstd::arithmetic::div_mod::lemma_div_of0(dt as int);
            }
            d * 1000 / (dt as i64)
        };
        let idx: usize = self.points.len();
        let width: i64 = AppUtils::calculate_dynamic_width(
            base_width,
            mode,
            idx,
            idx + 1,
            Some(speed),
        );
        self.points.push(pos);
        self.widths.push(width);
        self.times.push(now_ms);
        self.last_movement_time = now_ms;
        true
    }

    /// The straightening check, fired on a pause: when the pointer has not
    /// advanced for longer than the pause threshold and the admitted
    /// points are collinear within the tolerance, the stroke collapses to
    /// its two endpoints, keeping the endpoint widths. It never fires when
    /// the collapse would not change the point count.
    pub fn straighten_on_pause(&mut self, now_ms: u64, tolerance: i64) -> (fired: bool)
        requires
            old(self).wf(),
            0 <= tolerance <= MAX_COORD,
            now_ms >= old(self).last_movement_time,
        ensures
            final(self).wf(),
            fired == (now_ms - old(self).last_movement_time > STRAIGHTEN_PAUSE_MS && old(
                self,
            ).points@.len() > 2 && collinear_spec(old(self).points@, tolerance as int)),
            !fired ==> *final(self) == *old(self),
            fired ==> {
                &&& final(self).points@ == straighten_spec(old(self).points@, tolerance as int)
                &&& final(self).points@ == seq![
                    old(self).points@[0],
                    old(self).points@.last(),
                ]
                &&& final(self).widths@ == seq![
                    old(self).widths@[0],
                    old(self).widths@.last(),
                ]
                &&& final(self).times@ == seq![old(self).times@[0], old(self).times@.last()]
                &&& final(self).start_time == old(self).start_time
                &&& final(self).last_movement_time == old(self).last_movement_time
            },
    {
        if now_ms - self.last_movement_time <= STRAIGHTEN_PAUSE_MS {
            return false;
        }
        if self.points.len() <= 2 {
            return false;
        }
        if !is_collinear(&self.points, tolerance) {
            return false;
        }
        let n: usize = self.points.len();
        let p0: Point = self.points[0];
        let pn: Point = self.points[n - 1];
        let w0: i64 = self.widths[0];
        let wn: i64 = self.widths[n - 1];
        let t0: u64 = self.times[0];
        let tn: u64 = self.times[n - 1];
        let mut points: Vec<Point> = Vec::new();
        let mut widths: Vec<i64> = Vec::new();
        let mut times: Vec<u64> = Vec::new();
        points.push(p0);
        points.push(pn);
        widths.push(w0);
        widths.push(wn);
        times.push(t0);
        times.push(tn);
        self.points = points;
        self.widths = widths;
        self.times = times;
        proof {
            assert(self.points@ =~= seq![old(self).points@[0], old(self).points@.last()]);
            assert(self.widths@ =~= seq![old(self).widths@[0], old(self).widths@.last()]);
            assert(self.times@ =~= seq![old(self).times@[0], old(self).times@.last()]);
            assert(old(self).times@[0] <= old(self).times@.last()) by {
                lemma_times_sorted(old(self).times@, 0, old(self).times@.len() - 1);
            }
        }
        true
    }
}

/// In a pairwise-sorted sequence, any earlier element is at most any
/// later one.
pub proof fn lemma_times_sorted(t: Seq<u64>, i: int, j: int)
    requires
        forall|k: int| 0 <= k < t.len() - 1 ==> #[trigger] t[k] <= t[k + 1],
        0 <= i <= j < t.len(),
    ensures
        t[i] <= t[j],
    decreases j - i,
{
    if i < j {
        lemma_times_sorted(t, i + 1, j);
    }
}

/// How one pointer-move sample changes an in-progress stroke: when the
/// stroke can still grow and time has not run backwards, an admitted
/// sample is appended with its computed width; a sample that is not
/// admitted either fires the straightening collapse — when it is enabled,
/// the pointer has paused long enough and the points are collinear — or
/// changes nothing.
pub open spec fn entry_moved(
    os: ActiveStroke,
    ns: ActiveStroke,
    pos: Point,
    now_ms: u64,
    base_width: i64,
    mode: DynamicBrushMode,
    straightening: bool,
    tolerance: int,
) -> bool {
    if os.points@.len() < MAX_STROKE_POINTS && now_ms >= os.last_movement_time {
        if admits(os.points@.last(), pos) {
            let speed = sample_speed(os.points@.last(), pos, now_ms - os.times@.last());
            &&& ns.points@ == os.points@.push(pos)
            &&& ns.widths@ == os.widths@.push(
                dynamic_width(
                    base_width as int,
                    mode,
                    os.points@.len() as int,
                    os.points@.len() as int + 1,
                    Some(speed as i64),
                ) as i64,
            )
            &&& ns.times@ == os.times@.push(now_ms)
            &&& ns.last_movement_time == now_ms
        } else if straightening && now_ms - os.last_movement_time > STRAIGHTEN_PAUSE_MS
            && os.points@.len() > 2 && collinear_spec(os.points@, tolerance) {
            &&& ns.points@ == seq![os.points@[0], os.points@.last()]
            &&& ns.widths@ == seq![os.widths@[0], os.widths@.last()]
            &&& ns.times@ == seq![os.times@[0], os.times@.last()]
            &&& ns.last_movement_time == os.last_movement_time
        } else {
            ns == os
        }
    } else {
        ns == os
    }
}

/// One tracked pointer: its identifier and its in-progress stroke.
pub struct ActiveEntry {
    pub id: u64,
    pub stroke: ActiveStroke,
}

/// The in-progress strokes of all pointers currently drawing, keyed by
/// pointer identifier (0 for the mouse, touch identifiers otherwise).
pub struct StrokeTracker {
    pub entries: Vec<ActiveEntry>,
}

/// The index of the entry for pointer `id`, if one exists.
pub open spec fn entry_index(s: Seq<ActiveEntry>, id: u64) -> Option<int> {
    if exists|i: int| 0 <= i < s.len() && #[trigger] s[i].id == id {
        Some(choose|i: int| 0 <= i < s.len() && #[trigger] s[i].id == id)
    } else {
        None
    }
}

impl StrokeTracker {
    /// A well-formed tracker: distinct pointer identifiers, each with a
    /// well-formed in-progress stroke.
    pub open spec fn wf(&self) -> bool {
        &&& forall|i: int, j: int|
            0 <= i < j < self.entries@.len() ==> self.entries@[i].id != self.entries@[j].id
        &&& forall|i: int| 0 <= i < self.entries@.len() ==> (#[trigger] self.entries@[i]).stroke.wf()
    }

    /// An empty tracker.
    pub fn new() -> (t: StrokeTracker)
        ensures
            t.wf(),
            t.entries@.len() == 0,
    {
        StrokeTracker { entries: Vec::new() }
    }

    /// How many pointers are currently drawing.
    pub fn active_count(&self) -> (n: usize)
        ensures
            n == self.entries@.len(),
    {
        self.entries.len()
    }

    /// The position of pointer `id` in the entry list.
    fn find(&self, id: u64) -> (r: Option<usize>)
        ensures
            match r {
                Some(i) => 0 <= i < self.entries@.len() && self.entries@[i as int].id == id,
                None => forall|i: int|
                    0 <= i < self.entries@.len() ==> (#[trigger] self.entries@[i]).id != id,
            },
    {
        let n: usize = self.entries.len();
        let mut i: usize = 0;
        while i < n
            invariant
                0 <= i <= n,
                n == self.entries@.len(),
                forall|k: int| 0 <= k < i ==> (#[trigger] self.entries@[k]).id != id,
            decreases n - i,
        {
            if self.entries[i].id == id {
                return Some(i);
            }
            i = i + 1;
        }
        None
    }

    /// Begin a stroke for pointer `id` at the pointer-down position. Any
    /// earlier entry for the same pointer is discarded.
    pub fn pointer_down(&mut self, id: u64, pos: Point, width: i64, now_ms: u64)
        requires
            old(self).wf(),
            valid_point(pos),
            0 <= width <= MAX_POINT_WIDTH,
            old(self).entries@.len() < 1_000,
        ensures
            final(self).wf(),
            final(self).entries@.len() >= 1,
            final(self).entries@.len() <= old(self).entries@.len() + 1,
            final(self).entries@.last().id == id,
            final(self).entries@.last().stroke.points@ == seq![pos],
            final(self).entries@.last().stroke.widths@ == seq![width],
            final(self).entries@.last().stroke.times@ == seq![now_ms],
            final(self).entries@.last().stroke.start_time == now_ms,
            final(self).entries@.last().stroke.last_movement_time == now_ms,
            (forall|i: int|
                0 <= i < old(self).entries@.len() ==> (#[trigger] old(self).entries@[i]).id != id)
                ==> final(self).entries@.drop_last() == old(self).entries@,
            forall|k: int|
                0 <= k < old(self).entries@.len() && (#[trigger] old(self).entries@[k]).id == id
                    ==> final(self).entries@.drop_last() == old(self).entries@.remove(k),
    {
        self.pointer_cancel(id);
        let stroke = ActiveStroke::begin(pos, width, now_ms);
        let ghost pre = self.entries@;
        self.entries.push(ActiveEntry { id, stroke });
        proof {
            let n = self.entries@.len() - 1;
            assert(self.entries@[n].id == id);
            assert(forall|i: int| 0 <= i < n ==> self.entries@[i] == pre[i]);
            assert(self.entries@.drop_last() =~= pre);
        }
    }

    /// Forget pointer `id`'s stroke, if any: the platform cancelled the
    /// contact, so nothing is committed.
    pub fn pointer_cancel(&mut self, id: u64)
        requires
            old(self).wf(),
        ensures
            final(self).wf(),
            forall|i: int|
                0 <= i < final(self).entries@.len() ==> (#[trigger] final(self).entries@[i]).id
                    != id,
            final(self).entries@.len() <= old(self).entries@.len(),
            (forall|i: int|
                0 <= i < old(self).entries@.len() ==> (#[trigger] old(self).entries@[i]).id != id)
                ==> final(self).entries@ == old(self).entries@,
            forall|k: int|
                0 <= k < old(self).entries@.len() && (#[trigger] old(self).entries@[k]).id == id
                    ==> final(self).entries@ == old(self).entries@.remove(k),
    {
        match self.find(id) {
            Option::Some(i) => {
                let ghost pre = self.entries@;
                self.entries.remove(i);
                proof {
                    assert(forall|k: int|
                        0 <= k < self.entries@.len() ==> self.entries@[k] == if k < i {
                            pre[k]
                        } else {
                            pre[(k + 1)]
                        });
                    assert forall|k: int|
                        0 <= k < pre.len() && (#[trigger] pre[k]).id == id implies self.entries@
                        == pre.remove(k) by {
                        assert(k == i);
                        assert(self.entries@ =~= pre.remove(i as int));
                    }
                }
            },
            Option::None => {},
        }
    }

    /// End pointer `id`'s stroke and hand it out for committing; `None`
    /// when the pointer was not drawing.
    pub fn pointer_up(&mut self, id: u64) -> (r: Option<ActiveStroke>)
        requires
            old(self).wf(),
        ensures
            final(self).wf(),
            match r {
                Some(stroke) => stroke.wf() && (exists|i: int|
                    0 <= i < old(self).entries@.len() && (#[trigger] old(self).entries@[i]).id
                        == id) && (forall|i: int|
                    0 <= i < old(self).entries@.len() && (#[trigger] old(self).entries@[i]).id
                        == id ==> stroke == old(self).entries@[i].stroke),
                None => forall|i: int|
                    0 <= i < old(self).entries@.len() ==> (#[trigger] old(self).entries@[i]).id
                        != id,
            },
            forall|i: int|
                0 <= i < final(self).entries@.len() ==> (#[trigger] final(self).entries@[i]).id
                    != id,
            final(self).entries@.len() <= old(self).entries@.len(),
            (forall|i: int|
                0 <= i < old(self).entries@.len() ==> (#[trigger] old(self).entries@[i]).id != id)
                ==> final(self).entries@ == old(self).entries@,
            forall|k: int|
                0 <= k < old(self).entries@.len() && (#[trigger] old(self).entries@[k]).id == id
                    ==> final(self).entries@ == old(self).entries@.remove(k),
    {
        match self.find(id) {
            Option::Some(i) => {
                let ghost pre = self.entries@;
                let entry = self.entries.remove(i);
                proof {
                    assert(forall|k: int|
                        0 <= k < self.entries@.len() ==> self.entries@[k] == if k < i {
                            pre[k]
                        } else {
                            pre[(k + 1)]
                        });
                    assert forall|k: int|
                        0 <= k < pre.len() && (#[trigger] pre[k]).id == id implies self.entries@
                        == pre.remove(k) by {
                        assert(k == i);
                        assert(self.entries@ =~= pre.remove(i as int));
                    }
                }
                Some(entry.stroke)
            },
            Option::None => None,
        }
    }

    /// Feed a pointer-move sample into pointer `id`'s stroke: admission
    /// filter, then width computation, then — when straightening is
    /// enabled — the straightening check against the idle time.
    #[verifier::rlimit(60)]
    pub fn pointer_move(
        &mut self,
        id: u64,
        pos: Point,
        now_ms: u64,
        base_width: i64,
        mode: DynamicBrushMode,
        straightening: bool,
        tolerance: i64,
    ) -> (admitted: bool)
        requires
            old(self).wf(),
            valid_point(pos),
            0 < base_width <= MAX_WIDTH,
            0 <= tolerance <= MAX_COORD,
        ensures
            final(self).wf(),
            final(self).entries@.len() == old(self).entries@.len(),
            forall|i: int|
                0 <= i < final(self).entries@.len() ==> (#[trigger] final(self).entries@[i]).id
                    == old(self).entries@[i].id,
            forall|i: int|
                0 <= i < final(self).entries@.len() && (#[trigger] old(self).entries@[i]).id != id
                    ==> final(self).entries@[i] == old(self).entries@[i],
            forall|i: int|
                0 <= i < final(self).entries@.len() && (#[trigger] old(self).entries@[i]).id == id
                    ==> entry_moved(
                    old(self).entries@[i].stroke,
                    final(self).entries@[i].stroke,
                    pos,
                    now_ms,
                    base_width,
                    mode,
                    straightening,
                    tolerance as int,
                ),
            (forall|i: int|
                0 <= i < old(self).entries@.len() ==> (#[trigger] old(self).entries@[i]).id != id)
                ==> final(self).entries@ == old(self).entries@ && !admitted,
            forall|i: int|
                0 <= i < old(self).entries@.len() && (#[trigger] old(self).entries@[i]).id == id
                    ==> admitted == (old(self).entries@[i].stroke.points@.len()
                    < MAX_STROKE_POINTS && now_ms >= old(
                    self,
                ).entries@[i].stroke.last_movement_time && admits(
                    old(self).entries@[i].stroke.points@.last(),
                    pos,
                )),
    {
        match self.find(id) {
            Option::Some(i) => {
                let ghost pre = self.entries@;
                let mut entry = self.entries.remove(i);
                let mut admitted: bool = false;
                if entry.stroke.points.len() < MAX_STROKE_POINTS
                    && now_ms >= entry.stroke.last_movement_time {
                    admitted = entry.stroke.add_sample(pos, now_ms, base_width, mode);
                    if !admitted && straightening && now_ms >= entry.stroke.last_movement_time {
                        entry.stroke.straighten_on_pause(now_ms, tolerance);
                    }
                }
                proof {
                    assert(entry.id == pre[i as int].id);
                }
                self.entries.insert(i, entry);
                proof {
                    assert(forall|k: int|
                        0 <= k < self.entries@.len() ==> (#[trigger] self.entries@[k]).id
                            == pre[k].id);
                }
                admitted
            },
            Option::None => false,
        }
    }
}

} // verus!
