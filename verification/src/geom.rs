//! Geometry primitives: fixed-point points, squared distances, integer
//! square roots, point-to-segment distance and collinearity tests.

use vstd::prelude::*;

verus! {

/// Number of integer steps per canvas unit (fixed-point scale).
pub const UNIT: i64 = 1000;

/// Largest magnitude a coordinate may have. Chosen so that squared
/// distances and cross products of in-range points fit in `i64`.
pub const MAX_COORD: i64 = 100_000_000;

/// A 2D point in fixed-point canvas space.
#[derive(Clone, Copy, PartialEq, Eq, Structural, Debug)]
pub struct Point {
    pub x: i64,
    pub y: i64,
}

/// An axis-aligned rectangle, by its minimum and maximum corner.
#[derive(Clone, Copy, PartialEq, Eq, Structural, Debug)]
pub struct Rect {
    pub min: Point,
    pub max: Point,
}

/// The point lies inside the rectangle (borders included).
pub open spec fn rect_contains_spec(r: Rect, p: Point) -> bool {
    r.min.x <= p.x <= r.max.x && r.min.y <= p.y <= r.max.y
}

impl Rect {
    /// Containment test for an axis-aligned rectangle.
    pub fn contains(&self, p: Point) -> (b: bool)
        ensures
            b == rect_contains_spec(*self, p),
    {
        self.min.x <= p.x && p.x <= self.max.x && self.min.y <= p.y && p.y <= self.max.y
    }
}

/// A coordinate within the representable canvas.
pub open spec fn valid_coord(c: int) -> bool {
    -MAX_COORD <= c <= MAX_COORD
}

/// Both coordinates of `p` are within the representable canvas.
pub open spec fn valid_point(p: Point) -> bool {
    valid_coord(p.x as int) && valid_coord(p.y as int)
}

/// Squared Euclidean distance between two points.
pub open spec fn dist_sq(a: Point, b: Point) -> int {
    (a.x - b.x) * (a.x - b.x) + (a.y - b.y) * (a.y - b.y)
}

/// `r` is the floor of the real square root of `n`.
pub open spec fn is_sqrt_floor(n: int, r: int) -> bool {
    0 <= r && r * r <= n && n < (r + 1) * (r + 1)
}

impl Point {
    pub fn new(x: i64, y: i64) -> (p: Point)
        ensures
            p.x == x,
            p.y == y,
    {
        Point { x, y }
    }
}

/// The square of a number bounded in magnitude is bounded by the square
/// of the bound.
pub proof fn lemma_sq_bound(x: int, m: int)
    by (nonlinear_arith)
    requires
        -m <= x <= m,
    ensures
        0 <= x * x <= m * m,
{
}

/// Squared distance, computed exactly in `i64`.
pub fn dist_sq_i64(a: Point, b: Point) -> (r: i64)
    requires
        valid_point(a),
        valid_point(b),
    ensures
        r == dist_sq(a, b),
        0 <= r <= 8 * MAX_COORD * MAX_COORD,
{
    let dx: i64 = a.x - b.x;
    let dy: i64 = a.y - b.y;
    proof {
        lemma_sq_bound(dx as int, 2 * MAX_COORD as int);
        lemma_sq_bound(dy as int, 2 * MAX_COORD as int);
    }
    dx * dx + dy * dy
}

/// Floor of the square root of a 64-bit integer, by binary search.
pub fn isqrt64(n: u64) -> (r: u64)
    ensures
        is_sqrt_floor(n as int, r as int),
        r <= 4_294_967_295,
{
    let mut lo: u64 = 0;
    let mut hi: u64 = 4_294_967_295;
    while lo < hi
        invariant
            lo <= hi <= 4_294_967_295,
            lo * lo <= n,
            n < (hi + 1) * (hi + 1),
        decreases hi - lo,
    {
        let mid: u64 = lo + (hi - lo + 1) / 2;
        proof {
            lemma_sq_bound(mid as int, 4_294_967_295);
        }
        if mid * mid <= n {
            lo = mid;
        } else {
            hi = mid - 1;
        }
    }
    lo
}

/// Euclidean distance between two points, rounded down.
pub fn dist_i64(a: Point, b: Point) -> (r: i64)
    requires
        valid_point(a),
        valid_point(b),
    ensures
        is_sqrt_floor(dist_sq(a, b), r as int),
        0 <= r,
{
    let sq: i64 = dist_sq_i64(a, b);
    let root: u64 = isqrt64(sq as u64);
    root as i64
}

/// The floor of the real square root, as a spec-level function.
pub open spec fn sqrt_floor(n: int) -> int
    decreases n,
{
    if n <= 0 {
        0
    } else {
        let r = sqrt_floor(n - 1);
        if (r + 1) * (r + 1) <= n {
            r + 1
        } else {
            r
        }
    }
}

/// `sqrt_floor` satisfies the square root floor predicate.
pub proof fn lemma_sqrt_floor_is(n: int)
    requires
        0 <= n,
    ensures
        is_sqrt_floor(n, sqrt_floor(n)),
    decreases n,
{
    if n > 0 {
        lemma_sqrt_floor_is(n - 1);
        let r = sqrt_floor(n - 1);
        if (r + 1) * (r + 1) <= n {
            assert((r + 2) * (r + 2) > n) by (nonlinear_arith)
                requires
                    n - 1 < (r + 1) * (r + 1),
                    0 <= r,
            ;
        }
    }
}

/// A square root floor is strictly below any strict upper square bound.
pub proof fn lemma_sqrt_below(n: int, r: int, m: int)
    by (nonlinear_arith)
    requires
        is_sqrt_floor(n, r),
        0 <= m,
        n < m * m,
    ensures
        r < m,
{
}

/// The square root floor is unique.
pub proof fn lemma_sqrt_floor_unique(n: int, r: int)
    requires
        is_sqrt_floor(n, r),
    ensures
        r == sqrt_floor(n),
{
    lemma_sqrt_floor_is(n);
    let s = sqrt_floor(n);
    assert(r == s) by (nonlinear_arith)
        requires
            0 <= r && r * r <= n < (r + 1) * (r + 1),
            0 <= s && s * s <= n < (s + 1) * (s + 1),
    ;
}

/// `delta * num / den` rounded toward negative infinity, matching the
/// spec-level integer division. The result lies between 0 and `delta`.
pub fn mul_div_floor(delta: i64, num: i64, den: i64) -> (r: i64)
    requires
        0 < den <= 4 * MAX_COORD,
        0 <= num <= den,
        -4 * MAX_COORD <= delta <= 4 * MAX_COORD,
    ensures
        r == (delta as int) * (num as int) / (den as int),
        delta >= 0 ==> 0 <= r <= delta,
        delta < 0 ==> delta <= r <= 0,
{
    proof {
        lemma_mul_bound(delta as int, num as int, 400_000_000, 400_000_000);
        vstd::arithmetic::div_mod::lemma_div_multiples_vanish(delta as int, den as int);
        assert(delta * den == den * delta) by (nonlinear_arith);
        vstd::arithmetic::div_mod::lemma_div_of0(den as int);
        if delta >= 0 {
            assert(0 <= delta * num <= delta * den) by (nonlinear_arith)
                requires
                    0 <= num <= den,
                    delta >= 0,
            ;
            vstd::arithmetic::div_mod::lemma_div_is_ordered(0, delta * num, den as int);
            vstd::arithmetic::div_mod::lemma_div_is_ordered(delta * num, delta * den, den as int);
        } else {
            assert(delta * den <= delta * num <= 0) by (nonlinear_arith)
                requires
                    0 <= num <= den,
                    delta < 0,
            ;
            vstd::arithmetic::div_mod::lemma_div_is_ordered(delta * den, delta * num, den as int);
            vstd::arithmetic::div_mod::lemma_div_is_ordered(delta * num, 0, den as int);
        }
    }
    let prod: i128 = (delta as i128) * (num as i128);
    let d: i128 = den as i128;
    if prod >= 0 {
        (prod / d) as i64
    } else {
        let p: i128 = -prod;
        let q: i128 = (p + d - 1) / d;
        proof {
            let pi = p as int;
            let di = d as int;
            let qi = q as int;
            vstd::arithmetic::div_mod::lemma_fundamental_div_mod(pi + di - 1, di);
            assert(qi * di <= pi + di - 1 && pi <= qi * di) by (nonlinear_arith)
                requires
                    qi == (pi + di - 1) / di,
                    0 < di,
                    di * qi + ((pi + di - 1) % di) == pi + di - 1,
                    0 <= (pi + di - 1) % di < di,
            ;
            assert(0 <= qi * di - pi < di);
            assert((-qi) * di + (qi * di - pi) == -pi) by (nonlinear_arith);
            vstd::arithmetic::div_mod::lemma_fundamental_div_mod_converse(
                -pi,
                di,
                -qi,
                qi * di - pi,
            );
        }
        (-q) as i64
    }
}

/// Linear interpolation `num/den` of the way from `a` to `b`, each
/// coordinate rounded toward negative infinity.
pub open spec fn lerp_point(a: Point, b: Point, num: int, den: int) -> Point {
    Point {
        x: (a.x + (b.x - a.x) * num / den) as i64,
        y: (a.y + (b.y - a.y) * num / den) as i64,
    }
}

/// Exact linear interpolation between two points.
pub fn lerp_point_exec(a: Point, b: Point, num: i64, den: i64) -> (r: Point)
    requires
        valid_point(a),
        valid_point(b),
        0 < den <= 4 * MAX_COORD,
        0 <= num <= den,
    ensures
        r == lerp_point(a, b, num as int, den as int),
        valid_point(r),
{
    let dx: i64 = mul_div_floor(b.x - a.x, num, den);
    let dy: i64 = mul_div_floor(b.y - a.y, num, den);
    Point { x: a.x + dx, y: a.y + dy }
}

/// Dot product of the vectors `a -> p` and `a -> b`.
pub open spec fn seg_dot(p: Point, a: Point, b: Point) -> int {
    (p.x - a.x) * (b.x - a.x) + (p.y - a.y) * (b.y - a.y)
}

/// Cross product of the vectors `a -> p` and `a -> b`.
pub open spec fn seg_cross(p: Point, a: Point, b: Point) -> int {
    (p.x - a.x) * (b.y - a.y) - (p.y - a.y) * (b.x - a.x)
}

/// The point `p` lies within distance `d` of the segment from `a` to `b`.
/// When the segment is degenerate the distance to `a` is used; otherwise
/// the projection of `p` onto the carrying line is clamped to the segment.
pub open spec fn within_seg_dist(p: Point, a: Point, b: Point, d: int) -> bool {
    let len2 = dist_sq(a, b);
    if len2 == 0 {
        dist_sq(p, a) <= d * d
    } else {
        let dt = seg_dot(p, a, b);
        if dt <= 0 {
            dist_sq(p, a) <= d * d
        } else if dt >= len2 {
            dist_sq(p, b) <= d * d
        } else {
            seg_cross(p, a, b) * seg_cross(p, a, b) <= d * d * len2
        }
    }
}

/// Floor of the squared distance from `p` to the segment from `a` to `b`.
pub open spec fn seg_dist_sq_floor(p: Point, a: Point, b: Point) -> int {
    let len2 = dist_sq(a, b);
    if len2 == 0 {
        dist_sq(p, a)
    } else {
        let dt = seg_dot(p, a, b);
        if dt <= 0 {
            dist_sq(p, a)
        } else if dt >= len2 {
            dist_sq(p, b)
        } else {
            seg_cross(p, a, b) * seg_cross(p, a, b) / len2
        }
    }
}

/// A product of two bounded numbers is bounded by the product of the bounds.
pub proof fn lemma_mul_bound(x: int, y: int, mx: int, my: int)
    by (nonlinear_arith)
    requires
        -mx <= x <= mx,
        -my <= y <= my,
    ensures
        -(mx * my) <= x * y <= mx * my,
{
}

/// Floor of the square root of a 128-bit integer, by binary search.
pub fn isqrt128(n: u128) -> (r: u64)
    ensures
        is_sqrt_floor(n as int, r as int),
{
    let mut lo: u128 = 0;
    let mut hi: u128 = 18_446_744_073_709_551_615;
    while lo < hi
        invariant
            lo <= hi <= 18_446_744_073_709_551_615,
            lo * lo <= n,
            n < (hi + 1) * (hi + 1),
        decreases hi - lo,
    {
        let mid: u128 = lo + (hi - lo + 1) / 2;
        proof {
            lemma_sq_bound(mid as int, 18_446_744_073_709_551_615);
        }
        if mid * mid <= n {
            lo = mid;
        } else {
            hi = mid - 1;
        }
    }
    lo as u64
}

/// Exact test of `within_seg_dist`, in 128-bit intermediate arithmetic.
pub fn within_segment_distance(p: Point, a: Point, b: Point, d: i64) -> (r: bool)
    requires
        valid_point(p),
        valid_point(a),
        valid_point(b),
        0 <= d <= MAX_COORD,
    ensures
        r == within_seg_dist(p, a, b, d as int),
{
    let len2: i64 = dist_sq_i64(a, b);
    proof {
        lemma_sq_bound(d as int, MAX_COORD as int);
    }
    let dd: i64 = d * d;
    if len2 == 0 {
        dist_sq_i64(p, a) <= dd
    } else {
        proof {
            lemma_mul_bound(
                (p.x - a.x) as int,
                (b.x - a.x) as int,
                2 * MAX_COORD as int,
                2 * MAX_COORD as int,
            );
            lemma_mul_bound(
                (p.y - a.y) as int,
                (b.y - a.y) as int,
                2 * MAX_COORD as int,
                2 * MAX_COORD as int,
            );
            lemma_mul_bound(
                (p.x - a.x) as int,
                (b.y - a.y) as int,
                2 * MAX_COORD as int,
                2 * MAX_COORD as int,
            );
            lemma_mul_bound(
                (p.y - a.y) as int,
                (b.x - a.x) as int,
                2 * MAX_COORD as int,
                2 * MAX_COORD as int,
            );
        }
        let dt: i64 = (p.x - a.x) * (b.x - a.x) + (p.y - a.y) * (b.y - a.y);
        if dt <= 0 {
            dist_sq_i64(p, a) <= dd
        } else if dt >= len2 {
            dist_sq_i64(p, b) <= dd
        } else {
            let cr: i64 = (p.x - a.x) * (b.y - a.y) - (p.y - a.y) * (b.x - a.x);
            proof {
                lemma_mul_bound(cr as int, cr as int, 0x7fff_ffff_ffff_ffff, 0x7fff_ffff_ffff_ffff);
                lemma_mul_bound(
                    dd as int,
                    len2 as int,
                    0x7fff_ffff_ffff_ffff,
                    0x7fff_ffff_ffff_ffff,
                );
            }
            let cr2: i128 = (cr as i128) * (cr as i128);
            let bound: i128 = (dd as i128) * (len2 as i128);
            cr2 <= bound
        }
    }
}

/// The point `p` deviates from the chord from `a` to `b` by at most `tol`
/// (distance to `a` when the chord is degenerate).
pub open spec fn point_dev_within(p: Point, a: Point, b: Point, tol: int) -> bool {
    let len2 = dist_sq(a, b);
    if len2 == 0 {
        dist_sq(p, a) <= tol * tol
    } else {
        seg_cross(p, a, b) * seg_cross(p, a, b) <= tol * tol * len2
    }
}

/// Interior point `i` of `s` deviates from the chord between the first and
/// last point of `s` by at most `tol`.
pub open spec fn deviation_within(s: Seq<Point>, i: int, tol: int) -> bool {
    point_dev_within(s[i], s[0], s[s.len() - 1], tol)
}

/// Exact test of `point_dev_within`.
pub fn point_dev_within_exec(p: Point, a: Point, b: Point, tol: i64) -> (r: bool)
    requires
        valid_point(p),
        valid_point(a),
        valid_point(b),
        0 <= tol <= MAX_COORD,
    ensures
        r == point_dev_within(p, a, b, tol as int),
{
    let len2: i64 = dist_sq_i64(a, b);
    proof {
        lemma_sq_bound(tol as int, MAX_COORD as int);
    }
    let tt: i64 = tol * tol;
    if len2 == 0 {
        dist_sq_i64(p, a) <= tt
    } else {
        proof {
            lemma_mul_bound(
                (p.x - a.x) as int,
                (b.y - a.y) as int,
                2 * MAX_COORD as int,
                2 * MAX_COORD as int,
            );
            lemma_mul_bound(
                (p.y - a.y) as int,
                (b.x - a.x) as int,
                2 * MAX_COORD as int,
                2 * MAX_COORD as int,
            );
        }
        let cr: i64 = (p.x - a.x) * (b.y - a.y) - (p.y - a.y) * (b.x - a.x);
        proof {
            lemma_mul_bound(cr as int, cr as int, 0x7fff_ffff_ffff_ffff, 0x7fff_ffff_ffff_ffff);
            lemma_mul_bound(tt as int, len2 as int, 0x7fff_ffff_ffff_ffff, 0x7fff_ffff_ffff_ffff);
        }
        let cr2: i128 = (cr as i128) * (cr as i128);
        let bound: i128 = (tt as i128) * (len2 as i128);
        cr2 <= bound
    }
}

/// The points of `s` are collinear within tolerance `tol`: every interior
/// point lies within `tol` of the chord from the first to the last point.
/// Trivially true for two points or fewer.
pub open spec fn collinear_spec(s: Seq<Point>, tol: int) -> bool {
    s.len() <= 2 || forall|i: int| 1 <= i < s.len() - 1 ==> deviation_within(s, i, tol)
}

/// Exact test of `collinear_spec`.
pub fn is_collinear(points: &Vec<Point>, tolerance: i64) -> (r: bool)
    requires
        forall|i: int| 0 <= i < points@.len() ==> valid_point(#[trigger] points@[i]),
        0 <= tolerance <= MAX_COORD,
    ensures
        r == collinear_spec(points@, tolerance as int),
{
    let n: usize = points.len();
    if n <= 2 {
        return true;
    }
    let a: Point = points[0];
    let b: Point = points[n - 1];
    let mut i: usize = 1;
    while i < n - 1
        invariant
            1 <= i <= n - 1,
            n == points@.len(),
            3 <= n,
            a == points@[0],
            b == points@[n - 1],
            0 <= tolerance <= MAX_COORD,
            forall|k: int| 0 <= k < points@.len() ==> valid_point(#[trigger] points@[k]),
            forall|k: int| 1 <= k < i ==> deviation_within(points@, k, tolerance as int),
        decreases n - i,
    {
        let p: Point = points[i];
        if !point_dev_within_exec(p, a, b, tolerance) {
            assert(!deviation_within(points@, i as int, tolerance as int));
            return false;
        }
        i = i + 1;
    }
    true
}

} // verus!
