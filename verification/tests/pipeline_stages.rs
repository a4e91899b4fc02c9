use whiteboard::geom::{dist_i64, Point};
use whiteboard::pipeline::{
    apply_admission_filter, chaikin, interpolate, moving_average, resample, straighten,
};
use whiteboard::utils::AppUtils;

fn pt(x: i64, y: i64) -> Point {
    Point { x, y }
}

#[test]
fn admission_filter_drops_close_samples() {
    let raw = vec![pt(0, 0), pt(500, 0), pt(1500, 0), pt(1600, 0), pt(4000, 0)];
    let admitted = apply_admission_filter(&raw);
    assert_eq!(admitted, vec![pt(0, 0), pt(1500, 0), pt(4000, 0)]);
}

#[test]
fn admission_filter_gaps_exceed_threshold() {
    // Admission-filter monotonicity: every consecutive admitted pair is
    // farther apart than the one-unit threshold.
    let mut raw: Vec<Point> = Vec::new();
    let mut x: i64 = 0;
    for k in 0..200i64 {
        x += 173 + (k % 7) * 391;
        raw.push(pt(x, (k * 57) % 900));
    }
    let admitted = apply_admission_filter(&raw);
    for w in admitted.windows(2) {
        assert!(dist_i64(w[0], w[1]) >= 1000);
        let dx = w[1].x - w[0].x;
        let dy = w[1].y - w[0].y;
        assert!(dx * dx + dy * dy > 1000 * 1000);
    }
}

#[test]
fn straighten_collapses_collinear_points() {
    let pts = vec![pt(0, 0), pt(5000, 2000), pt(10000, 0)];
    let s = straighten(&pts, 3000);
    assert_eq!(s, vec![pt(0, 0), pt(10000, 0)]);
}

#[test]
fn straighten_leaves_bent_points_alone() {
    let pts = vec![pt(0, 0), pt(5000, 2000), pt(10000, 0)];
    let s = straighten(&pts, 1000);
    assert_eq!(s, pts);
}

#[test]
fn straighten_is_idempotent() {
    // Idempotence of straightening: a second pass changes nothing, both
    // when the first pass fired and when it did not.
    let bent = vec![pt(0, 0), pt(5000, 2000), pt(10000, 0)];
    for tol in [0i64, 1000, 2000, 3000, 50_000] {
        let once = straighten(&bent, tol);
        let twice = straighten(&once, tol);
        assert_eq!(once, twice);
    }
}

#[test]
fn resample_spaces_points_evenly() {
    // Resampling density: on a straight line the resampled points sit
    // exactly one spacing apart, except before the appended endpoint.
    let pts = vec![pt(0, 0), pt(10_000, 0)];
    let ws = vec![1000, 2000];
    let (rp, rw) = resample(&pts, &ws, 2000);
    assert_eq!(
        rp,
        vec![pt(0, 0), pt(2000, 0), pt(4000, 0), pt(6000, 0), pt(8000, 0), pt(10_000, 0)]
    );
    assert_eq!(rw, vec![1000, 1200, 1400, 1600, 1800, 2000]);
    for w in rp.windows(2) {
        assert_eq!(dist_i64(w[0], w[1]), 2000);
    }
}

#[test]
fn resample_keeps_endpoints_of_a_bent_polyline() {
    let pts = vec![pt(0, 0), pt(3000, 0), pt(3000, 3000)];
    let ws = vec![1000, 1000, 1000];
    let (rp, rw) = resample(&pts, &ws, 2000);
    assert_eq!(rp.len(), rw.len());
    assert_eq!(rp[0], pt(0, 0));
    assert_eq!(*rp.last().unwrap(), pt(3000, 3000));
    // Total arc length six units, spacing two: two interior points.
    assert_eq!(rp.len(), 4);
    assert_eq!(rp[1], pt(2000, 0));
    assert_eq!(rp[2], pt(3000, 1000));
}

#[test]
fn chaikin_cuts_each_edge_at_quarter_points() {
    let pts = vec![pt(0, 0), pt(4000, 0), pt(4000, 4000)];
    let ws = vec![0, 4000, 4000];
    let (cp, cw) = chaikin(&pts, &ws);
    assert_eq!(cp, vec![pt(1000, 0), pt(3000, 0), pt(4000, 1000), pt(4000, 3000)]);
    assert_eq!(cw, vec![1000, 3000, 4000, 4000]);
}

#[test]
fn chaikin_leaves_short_inputs_alone() {
    let pts = vec![pt(7, 9)];
    let ws = vec![5];
    let (cp, cw) = chaikin(&pts, &ws);
    assert_eq!(cp, pts);
    assert_eq!(cw, ws);
}

#[test]
fn moving_average_smooths_interior_points_only() {
    let pts = vec![pt(0, 0), pt(3000, 3000), pt(6000, 0)];
    let avg = moving_average(&pts);
    assert_eq!(avg, vec![pt(0, 0), pt(3000, 1000), pt(6000, 0)]);
}

#[test]
fn interpolate_inserts_midpoints() {
    // One inserted point for every ten units of length at frequency 100.
    let pts = vec![pt(0, 0), pt(10_000, 0)];
    let ws = vec![1000, 3000];
    let (ip, iw) = interpolate(&pts, &ws, 100);
    assert_eq!(ip, vec![pt(0, 0), pt(5000, 0), pt(10_000, 0)]);
    assert_eq!(iw, vec![1000, 2000, 3000]);
}

#[test]
fn interpolate_zero_frequency_changes_nothing() {
    let pts = vec![pt(0, 0), pt(10_000, 0)];
    let ws = vec![1000, 3000];
    let (ip, iw) = interpolate(&pts, &ws, 0);
    assert_eq!(ip, pts);
    assert_eq!(iw, ws);
}

#[test]
fn smoothing_skips_strokes_under_three_points() {
    let pts = vec![pt(0, 0), pt(9000, 500)];
    let ws = vec![1000, 1000];
    let (sp, sw) = AppUtils::apply_stroke_smoothing(&pts, &ws);
    assert_eq!(sp, pts);
    assert_eq!(sw, ws);
}

#[test]
fn smoothing_keeps_lengths_aligned_and_endpoints_near() {
    let pts = vec![pt(0, 0), pt(10_000, 2000), pt(20_000, 0), pt(30_000, 2000)];
    let ws = vec![1000, 1500, 1500, 1000];
    let (sp, sw) = AppUtils::apply_stroke_smoothing(&pts, &ws);
    assert_eq!(sp.len(), sw.len());
    assert!(sp.len() >= 2);
    let first = sp[0];
    let last = *sp.last().unwrap();
    assert!(dist_i64(first, pt(0, 0)) <= 2000);
    assert!(dist_i64(last, pt(30_000, 2000)) <= 2000);
}
