//! Geometric primitives on an integer coordinate grid.
//!
//! Coordinates are `i64` values bounded by [`COORD_LIMIT`]; with that bound
//! every quantity the geometry needs (squared distances, dot products,
//! projection feet as exact rationals, and cross-multiplied comparisons of
//! those rationals) fits in 128-bit integers, so all computations here are
//! exact.

use vstd::prelude::*;

verus! {

/// Bound on the absolute value of every coordinate.
///
/// Chosen so that cross-multiplied rational distance comparisons stay below
/// `2^127`: squared distances and dot products are at most `2^41`, distance
/// numerators at most `2^85`, and their products with denominators at most
/// `2^126`.
pub const COORD_LIMIT: i64 = 524288;

/// A 2D point on the integer grid. Immutable value type.
#[derive(Clone, Copy, PartialEq, Eq, Structural, Debug)]
pub struct Point {
    pub x: i64,
    pub y: i64,
}

impl Point {
    /// Both coordinates within the grid bound.
    pub open spec fn in_bounds(self) -> bool {
        &&& -COORD_LIMIT <= self.x <= COORD_LIMIT
        &&& -COORD_LIMIT <= self.y <= COORD_LIMIT
    }

    pub fn new(x: i64, y: i64) -> (p: Point)
        ensures
            p.x == x,
            p.y == y,
    {
        Point { x, y }
    }
}

/// One straight segment: a start and an end point.
#[derive(Clone, Copy, PartialEq, Eq, Structural, Debug)]
pub struct Line {
    pub start: Point,
    pub end: Point,
}

impl Line {
    pub open spec fn in_bounds(self) -> bool {
        self.start.in_bounds() && self.end.in_bounds()
    }

    pub fn new(start: Point, end: Point) -> (l: Line)
        ensures
            l.start == start,
            l.end == end,
    {
        Line { start, end }
    }
}

pub open spec fn sq(a: int) -> int {
    a * a
}

/// Squared Euclidean distance between two grid points.
pub open spec fn dist2(p: Point, q: Point) -> int {
    sq(p.x - q.x) + sq(p.y - q.y)
}

/// `|a * b| <= m * n` whenever `|a| <= m` and `|b| <= n`.
pub proof fn lemma_mul_bound(a: int, b: int, m: int, n: int)
    requires
        -m <= a <= m,
        -n <= b <= n,
        0 <= m,
        0 <= n,
    ensures
        -(m * n) <= a * b <= m * n,
{
    assert(-(m * n) <= a * b <= m * n) by (nonlinear_arith)
        requires
            -m <= a <= m,
            -n <= b <= n,
            0 <= m,
            0 <= n,
    ;
}

/// A square is non-negative.
pub proof fn lemma_sq_nonneg(a: int)
    ensures
        sq(a) >= 0,
{
    assert(a * a >= 0) by (nonlinear_arith);
}

/// Bound on the squared distance between two in-bounds points.
pub proof fn lemma_dist2_bounds(p: Point, q: Point)
    requires
        p.in_bounds(),
        q.in_bounds(),
    ensures
        0 <= dist2(p, q) <= 0x20000000000,
{
    lemma_sq_nonneg(p.x - q.x);
    lemma_sq_nonneg(p.y - q.y);
    lemma_mul_bound(p.x - q.x, p.x - q.x, 1048576, 1048576);
    lemma_mul_bound(p.y - q.y, p.y - q.y, 1048576, 1048576);
    assert(sq(p.x - q.x) <= 0x10000000000);
    assert(sq(p.y - q.y) <= 0x10000000000);
}

/// A point of a matched (projected) trajectory: an exact rational point
/// `(x_num / den, y_num / den)`. Projection feet of grid points onto grid
/// segments are rational with the segment's squared length as denominator,
/// so they are kept exactly rather than rounded back to the grid.
#[derive(Clone, Copy, PartialEq, Eq, Structural, Debug)]
pub struct MatchedPoint {
    pub x_num: i64,
    pub y_num: i64,
    pub den: i64,
}

impl MatchedPoint {
    pub open spec fn wf(self) -> bool {
        self.den >= 1
    }

    /// Equality as rationals (cross-multiplied).
    pub open spec fn r_eq(self, o: MatchedPoint) -> bool {
        &&& self.x_num * o.den == o.x_num * self.den
        &&& self.y_num * o.den == o.y_num * self.den
    }

    /// A grid point as a rational point with denominator one.
    pub open spec fn from_point(p: Point) -> MatchedPoint {
        MatchedPoint { x_num: p.x, y_num: p.y, den: 1 }
    }
}

/// Result of projecting a query point onto a polyline.
///
/// `Intersection` means the query point lies exactly on the polyline (its
/// distance to the polyline is zero); `SinglePoint` carries the unique
/// nearest point; `Indeterminate` means no unique nearest point exists:
/// the polyline has no segment of positive length, or two exactly
/// equidistant nearest points differ.
#[derive(Clone, Copy, PartialEq, Eq, Structural, Debug)]
pub enum Closest {
    SinglePoint(MatchedPoint),
    Intersection(MatchedPoint),
    Indeterminate,
}

/// All points of a polyline within the grid bound.
pub open spec fn wf_points(ps: Seq<Point>) -> bool {
    forall|i: int| 0 <= i < ps.len() ==> #[trigger] ps[i].in_bounds()
}

/// Squared length of segment `i` (from point `i` to point `i + 1`).
pub open spec fn seg_d(ps: Seq<Point>, i: int) -> int {
    dist2(ps[i], ps[i + 1])
}

/// Dot product of `q - ps[i]` with the direction vector of segment `i`.
pub open spec fn seg_dot(q: Point, ps: Seq<Point>, i: int) -> int {
    (q.x - ps[i].x) * (ps[i + 1].x - ps[i].x) + (q.y - ps[i].y) * (ps[i + 1].y - ps[i].y)
}

pub open spec fn clamp(t: int, hi: int) -> int {
    if t < 0 {
        0
    } else if t > hi {
        hi
    } else {
        t
    }
}

/// Projection parameter of `q` onto segment `i`, clamped to the segment,
/// as a fraction of `seg_d`.
pub open spec fn seg_t(q: Point, ps: Seq<Point>, i: int) -> int {
    clamp(seg_dot(q, ps, i), seg_d(ps, i))
}

/// `seg_d(ps, i)` times the squared distance from `q` to segment `i`.
pub open spec fn seg_num(q: Point, ps: Seq<Point>, i: int) -> int {
    dist2(q, ps[i]) * seg_d(ps, i) - (2 * seg_dot(q, ps, i) - seg_t(q, ps, i)) * seg_t(q, ps, i)
}

/// Numerator of the x coordinate of the foot of `q` on segment `i`;
/// the denominator is `seg_d(ps, i)`.
pub open spec fn foot_x(q: Point, ps: Seq<Point>, i: int) -> int {
    ps[i].x * seg_d(ps, i) + seg_t(q, ps, i) * (ps[i + 1].x - ps[i].x)
}

/// Numerator of the y coordinate of the foot of `q` on segment `i`.
pub open spec fn foot_y(q: Point, ps: Seq<Point>, i: int) -> int {
    ps[i].y * seg_d(ps, i) + seg_t(q, ps, i) * (ps[i + 1].y - ps[i].y)
}

/// Segment `i` exists and has positive length.
pub open spec fn seg_valid(ps: Seq<Point>, i: int) -> bool {
    0 <= i < ps.len() - 1 && seg_d(ps, i) > 0
}

/// The distance from `q` to segment `i` is strictly smaller than to
/// segment `j` (compared exactly as rationals).
pub open spec fn seg_lt(q: Point, ps: Seq<Point>, i: int, j: int) -> bool {
    seg_num(q, ps, i) * seg_d(ps, j) < seg_num(q, ps, j) * seg_d(ps, i)
}

/// The distances from `q` to segments `i` and `j` are exactly equal.
pub open spec fn seg_eq_dist(q: Point, ps: Seq<Point>, i: int, j: int) -> bool {
    seg_num(q, ps, i) * seg_d(ps, j) == seg_num(q, ps, j) * seg_d(ps, i)
}

/// The feet of `q` on segments `i` and `j` are the same rational point.
pub open spec fn feet_eq(q: Point, ps: Seq<Point>, i: int, j: int) -> bool {
    &&& foot_x(q, ps, i) * seg_d(ps, j) == foot_x(q, ps, j) * seg_d(ps, i)
    &&& foot_y(q, ps, i) * seg_d(ps, j) == foot_y(q, ps, j) * seg_d(ps, i)
}

/// The first segment among the first `n` attaining the minimal distance to
/// `q`, or `None` if no segment among them is valid.
pub open spec fn fm_upto(q: Point, ps: Seq<Point>, n: int) -> Option<int>
    decreases n,
{
    if n <= 0 {
        None
    } else {
        let prev = fm_upto(q, ps, n - 1);
        if !seg_valid(ps, n - 1) {
            prev
        } else {
            match prev {
                None => Some(n - 1),
                Some(p) => if seg_lt(q, ps, n - 1, p) {
                    Some(n - 1)
                } else {
                    prev
                },
            }
        }
    }
}

/// The first minimal-distance segment of the whole polyline.
pub open spec fn fm(q: Point, ps: Seq<Point>) -> Option<int> {
    fm_upto(q, ps, ps.len() - 1)
}

/// Among the first `n` segments, some valid segment is exactly as close to
/// `q` as the minimum but has a different foot: no unique nearest point.
pub open spec fn ambiguous_upto(q: Point, ps: Seq<Point>, n: int) -> bool {
    fm_upto(q, ps, n) matches Some(m) && exists|j: int|
        0 <= j < n && #[trigger] seg_valid(ps, j) && seg_eq_dist(q, ps, j, m) && !feet_eq(
            q,
            ps,
            j,
            m,
        )
}

pub open spec fn ambiguous(q: Point, ps: Seq<Point>) -> bool {
    ambiguous_upto(q, ps, ps.len() - 1)
}

/// The foot of `q` on segment `i` as a rational point.
pub open spec fn spec_foot(q: Point, ps: Seq<Point>, i: int) -> MatchedPoint {
    MatchedPoint {
        x_num: foot_x(q, ps, i) as i64,
        y_num: foot_y(q, ps, i) as i64,
        den: seg_d(ps, i) as i64,
    }
}

/// The query point lies exactly on some valid segment of the polyline.
pub open spec fn on_polyline(q: Point, ps: Seq<Point>) -> bool {
    exists|i: int| #[trigger] seg_valid(ps, i) && seg_num(q, ps, i) == 0
}

/// What projecting `q` onto the polyline yields: the query point itself if
/// it lies on the polyline; otherwise the foot of the first
/// minimal-distance segment, unless an equidistant different foot makes the
/// nearest point ambiguous; `Indeterminate` if no valid segment exists.
pub open spec fn closest_spec(q: Point, ps: Seq<Point>) -> Closest {
    match fm(q, ps) {
        None => Closest::Indeterminate,
        Some(m) => if seg_num(q, ps, m) == 0 {
            Closest::Intersection(MatchedPoint::from_point(q))
        } else if ambiguous(q, ps) {
            Closest::Indeterminate
        } else {
            Closest::SinglePoint(spec_foot(q, ps, m))
        },
    }
}

/// Exact squared Euclidean distance.
pub fn dist2_exec(p: &Point, q: &Point) -> (r: u128)
    requires
        p.in_bounds(),
        q.in_bounds(),
    ensures
        r == dist2(*p, *q),
{
    proof {
        lemma_dist2_bounds(*p, *q);
    }
    let dx: i128 = p.x as i128 - q.x as i128;
    let dy: i128 = p.y as i128 - q.y as i128;
    proof {
        lemma_mul_bound(dx as int, dx as int, 0x200000, 0x200000);
        lemma_mul_bound(dy as int, dy as int, 0x200000, 0x200000);
    }
    (dx * dx + dy * dy) as u128
}

/// Squaring ignores the sign of a difference.
pub proof fn lemma_sq_swap(a: int, b: int)
    ensures
        sq(a - b) == sq(b - a),
{
    assert((a - b) * (a - b) == (b - a) * (b - a)) by (nonlinear_arith);
}

/// `x * y >= 0` for non-negative factors, and monotonicity in each factor.
pub proof fn lemma_mul_nonneg_le(x: int, y: int, xm: int, ym: int)
    requires
        0 <= x <= xm,
        0 <= y <= ym,
    ensures
        0 <= x * y <= xm * ym,
{
    assert(0 <= x * y <= xm * ym) by (nonlinear_arith)
        requires
            0 <= x <= xm,
            0 <= y <= ym,
    ;
}

/// Ring identity behind [`lemma_foot_dist`]: with `d` the squared length of
/// direction vector `v`, the squared (scaled) offset from the foot equals
/// `d` times the distance numerator.
proof fn lemma_foot_alg(ux: int, uy: int, vx: int, vy: int, t: int, d: int)
    requires
        d == vx * vx + vy * vy,
    ensures
        sq(t * vx - ux * d) + sq(t * vy - uy * d) == d * ((ux * ux + uy * uy) * d - (2 * (ux * vx
            + uy * vy) - t) * t),
{
    let tvx = t * vx;
    let uxd = ux * d;
    let tvy = t * vy;
    let uyd = uy * d;
    let tt = t * t;
    let td = t * d;
    let dd = d * d;
    let vxx = vx * vx;
    let vyy = vy * vy;
    let uxx = ux * ux;
    let uyy = uy * uy;
    let sx = ux * vx;
    let sy = uy * vy;
    let dot = sx + sy;
    let uu = uxx + uyy;
    assert((tvx - uxd) * (tvx - uxd) == tvx * tvx - 2 * (tvx * uxd) + uxd * uxd)
        by (nonlinear_arith);
    assert((tvy - uyd) * (tvy - uyd) == tvy * tvy - 2 * (tvy * uyd) + uyd * uyd)
        by (nonlinear_arith);
    assert(tvx * tvx == tt * vxx) by (nonlinear_arith)
        requires
            tvx == t * vx,
            tt == t * t,
            vxx == vx * vx,
    ;
    assert(tvy * tvy == tt * vyy) by (nonlinear_arith)
        requires
            tvy == t * vy,
            tt == t * t,
            vyy == vy * vy,
    ;
    assert(tvx * uxd == td * sx) by (nonlinear_arith)
        requires
            tvx == t * vx,
            uxd == ux * d,
            td == t * d,
            sx == ux * vx,
    ;
    assert(tvy * uyd == td * sy) by (nonlinear_arith)
        requires
            tvy == t * vy,
            uyd == uy * d,
            td == t * d,
            sy == uy * vy,
    ;
    assert(uxd * uxd == uxx * dd) by (nonlinear_arith)
        requires
            uxd == ux * d,
            uxx == ux * ux,
            dd == d * d,
    ;
    assert(uyd * uyd == uyy * dd) by (nonlinear_arith)
        requires
            uyd == uy * d,
            uyy == uy * uy,
            dd == d * d,
    ;
    assert(tt * vxx + tt * vyy == tt * d) by (nonlinear_arith)
        requires
            d == vxx + vyy,
    ;
    assert(uxx * dd + uyy * dd == uu * dd) by (nonlinear_arith)
        requires
            uu == uxx + uyy,
    ;
    assert(td * sx + td * sy == td * dot) by (nonlinear_arith)
        requires
            dot == sx + sy,
    ;
    assert(d * (uu * d - (2 * dot - t) * t) == uu * dd - 2 * (td * dot) + tt * d)
        by (nonlinear_arith)
        requires
            tt == t * t,
            td == t * d,
            dd == d * d,
    ;
    assert(sq(tvx - uxd) == (tvx - uxd) * (tvx - uxd));
    assert(sq(tvy - uyd) == (tvy - uyd) * (tvy - uyd));
}

/// Bounds on every per-segment quantity, and non-negativity of the distance
/// numerator.
pub proof fn lemma_seg_bounds(q: Point, ps: Seq<Point>, i: int)
    requires
        wf_points(ps),
        q.in_bounds(),
        0 <= i < ps.len() - 1,
    ensures
        0 <= seg_d(ps, i) <= 0x20000000000,
        -0x20000000000 <= seg_dot(q, ps, i) <= 0x20000000000,
        0 <= seg_t(q, ps, i) <= seg_d(ps, i),
        0 <= seg_num(q, ps, i) <= 0x400000000000000000000,
        -0x4000000000000000 <= foot_x(q, ps, i) <= 0x4000000000000000,
        -0x4000000000000000 <= foot_y(q, ps, i) <= 0x4000000000000000,
{
    let a = ps[i];
    let b = ps[i + 1];
    let ux = q.x - a.x;
    let uy = q.y - a.y;
    let vx = b.x - a.x;
    let vy = b.y - a.y;
    let d = seg_d(ps, i);
    let dot = seg_dot(q, ps, i);
    let t = seg_t(q, ps, i);
    let num = seg_num(q, ps, i);
    assert(ps[i].in_bounds());
    assert(ps[i + 1].in_bounds());
    lemma_dist2_bounds(a, b);
    lemma_dist2_bounds(q, a);
    lemma_mul_bound(ux, vx, 1048576, 1048576);
    lemma_mul_bound(uy, vy, 1048576, 1048576);
    lemma_sq_swap(a.x as int, b.x as int);
    lemma_sq_swap(a.y as int, b.y as int);
    assert(d == vx * vx + vy * vy);
    assert(dist2(q, a) == ux * ux + uy * uy);
    // the subtracted term of the numerator is non-negative ...
    if dot < 0 {
        assert((2 * dot - t) * t == 0) by (nonlinear_arith)
            requires
                t == 0,
        ;
    } else {
        assert(t >= 0 && 2 * dot - t >= 0);
        assert((2 * dot - t) * t >= 0) by (nonlinear_arith)
            requires
                2 * dot - t >= 0,
                t >= 0,
        ;
    }
    // ... so the numerator is at most `dist2(q, a) * d`
    lemma_mul_nonneg_le(dist2(q, a), d, 0x20000000000, 0x20000000000);
    // and non-negative, since `d * num` is a sum of squares
    lemma_foot_dist(q, ps, i);
    lemma_sq_nonneg(foot_x(q, ps, i) - q.x * d);
    lemma_sq_nonneg(foot_y(q, ps, i) - q.y * d);
    if d > 0 {
        assert(num >= 0) by (nonlinear_arith)
            requires
                d > 0,
                d * num >= 0,
        ;
    } else {
        assert(t == 0);
        assert(num == dist2(q, a) * 0 - (2 * dot - 0) * 0);
        assert(num == 0) by (nonlinear_arith)
            requires
                num == dist2(q, a) * 0 - (2 * dot - 0) * 0,
        ;
    }
    // foot bounds
    lemma_mul_bound(a.x as int, d, 524288, 0x20000000000);
    lemma_mul_bound(a.y as int, d, 524288, 0x20000000000);
    lemma_mul_bound(t, vx, 0x20000000000, 1048576);
    lemma_mul_bound(t, vy, 0x20000000000, 1048576);
}

/// The squared (scaled) distance between `q` and the foot on segment `i`
/// equals `seg_d` times the distance numerator. In particular a zero
/// numerator means the foot is `q` itself.
pub proof fn lemma_foot_dist(q: Point, ps: Seq<Point>, i: int)
    requires
        0 <= i < ps.len() - 1,
    ensures
        sq(foot_x(q, ps, i) - q.x * seg_d(ps, i)) + sq(foot_y(q, ps, i) - q.y * seg_d(ps, i))
            == seg_d(ps, i) * seg_num(q, ps, i),
{
    let a = ps[i];
    let b = ps[i + 1];
    let ux = q.x - a.x;
    let uy = q.y - a.y;
    let vx = b.x - a.x;
    let vy = b.y - a.y;
    let d = seg_d(ps, i);
    let t = seg_t(q, ps, i);
    lemma_sq_swap(a.x as int, b.x as int);
    lemma_sq_swap(a.y as int, b.y as int);
    assert(d == vx * vx + vy * vy);
    lemma_foot_alg(ux, uy, vx, vy, t, d);
    assert(a.x * d - q.x * d == -(ux * d)) by (nonlinear_arith)
        requires
            ux == q.x - a.x,
    ;
    assert(a.y * d - q.y * d == -(uy * d)) by (nonlinear_arith)
        requires
            uy == q.y - a.y,
    ;
    assert(foot_x(q, ps, i) - q.x * d == t * vx - ux * d);
    assert(foot_y(q, ps, i) - q.y * d == t * vy - uy * d);
}

/// Transitivity of exact rational comparison (non-strict then strict).
pub proof fn lemma_rat_trans(an: int, ad: int, bn: int, bd: int, cn: int, cd: int)
    requires
        ad > 0,
        bd > 0,
        cd > 0,
        an * bd >= bn * ad,
        bn * cd > cn * bd,
    ensures
        an * cd > cn * ad,
{
    assert(an * cd > cn * ad) by (nonlinear_arith)
        requires
            ad > 0,
            bd > 0,
            cd > 0,
            an * bd >= bn * ad,
            bn * cd > cn * bd,
    ;
}

/// What [`fm_upto`] yields: nothing when no segment is valid; otherwise a
/// valid segment no farther than any valid segment and strictly nearer than
/// every earlier valid segment.
pub proof fn lemma_fm_props(q: Point, ps: Seq<Point>, n: int)
    requires
        n <= ps.len() - 1,
    ensures
        fm_upto(q, ps, n) is None <==> (forall|j: int| 0 <= j < n ==> !#[trigger] seg_valid(ps, j)),
        fm_upto(q, ps, n) matches Some(m) ==> {
            &&& 0 <= m < n
            &&& seg_valid(ps, m)
            &&& forall|j: int| 0 <= j < n && #[trigger] seg_valid(ps, j) ==> !seg_lt(q, ps, j, m)
            &&& forall|j: int| 0 <= j < m && #[trigger] seg_valid(ps, j) ==> seg_lt(q, ps, m, j)
        },
    decreases n,
{
    if n <= 0 {
    } else {
        lemma_fm_props(q, ps, n - 1);
        let prev = fm_upto(q, ps, n - 1);
        if seg_valid(ps, n - 1) {
            match prev {
                Option::None => {},
                Option::Some(p) => {
                    if seg_lt(q, ps, n - 1, p) {
                        // the new segment becomes the minimum; every earlier
                        // valid segment was no nearer than `p`, hence farther
                        // than `n - 1`
                        assert forall|j: int|
                            0 <= j < n - 1 && #[trigger] seg_valid(ps, j) implies seg_lt(
                            q,
                            ps,
                            n - 1,
                            j,
                        ) by {
                            lemma_rat_trans(
                                seg_num(q, ps, j),
                                seg_d(ps, j),
                                seg_num(q, ps, p),
                                seg_d(ps, p),
                                seg_num(q, ps, n - 1),
                                seg_d(ps, n - 1),
                            );
                        }
                    }
                },
            }
        }
    }
}


/// Finding any point of the polyline at distance zero pins the minimum at
/// zero, making the projection an intersection.
pub proof fn lemma_zero_hit(q: Point, ps: Seq<Point>, j: int)
    requires
        wf_points(ps),
        q.in_bounds(),
        seg_valid(ps, j),
        seg_num(q, ps, j) == 0,
        forall|j2: int| 0 <= j2 < j && #[trigger] seg_valid(ps, j2) ==> seg_num(q, ps, j2) != 0,
    ensures
        fm(q, ps) == Some(j),
        closest_spec(q, ps) == Closest::Intersection(MatchedPoint::from_point(q)),
{
    lemma_fm_props(q, ps, ps.len() - 1);
    let m = fm(q, ps)->Some_0;
    assert(fm(q, ps) is Some);
    assert(!seg_lt(q, ps, j, m));
    lemma_seg_bounds(q, ps, m);
    assert(seg_num(q, ps, m) * seg_d(ps, j) <= 0);
    assert(seg_num(q, ps, m) == 0) by (nonlinear_arith)
        requires
            seg_num(q, ps, m) * seg_d(ps, j) <= 0,
            seg_d(ps, j) > 0,
            seg_num(q, ps, m) >= 0,
    ;
    // the first minimizer cannot lie before `j`: earlier valid segments have
    // non-zero, hence strictly positive, numerators
    if m != j {
        if m < j {
            assert(seg_num(q, ps, m) != 0);
        } else {
            assert(seg_lt(q, ps, m, j));
            lemma_seg_bounds(q, ps, j);
        }
    }
}

/// An ordered chain of points, interpreted as connected straight segments.
/// Road geometry; also usable for a raw trajectory.
#[derive(Clone, Debug)]
pub struct Polyline {
    pub points: Vec<Point>,
}

impl View for Polyline {
    type V = Seq<Point>;

    open spec fn view(&self) -> Seq<Point> {
        self.points@
    }
}

impl Polyline {
    /// Every point within the grid bound.
    pub open spec fn wf(self) -> bool {
        wf_points(self@)
    }

    pub fn new(points: Vec<Point>) -> (pl: Polyline)
        ensures
            pl@ == points@,
    {
        Polyline { points }
    }

    pub fn len(&self) -> (n: usize)
        ensures
            n == self@.len(),
    {
        self.points.len()
    }

    /// Projection of `q` onto this polyline, together with the exact
    /// squared distance to it as a rational `(numerator, denominator)`.
    /// The distance pair is meaningful for a determinate result only; an
    /// intersection has distance zero.
    pub fn closest_point_full(&self, q: &Point) -> (r: (Closest, u128, u128))
        requires
            self.wf(),
            q.in_bounds(),
        ensures
            r.0 == closest_spec(*q, self@),
            fm(*q, self@) matches Some(m) ==> r.1 == seg_num(*q, self@, m) && r.2 == seg_d(
                self@,
                m,
            ),
            fm(*q, self@) is None ==> r.0 == Closest::Indeterminate,
    {
        let ghost ps = self@;
        let n = self.points.len();
        if n < 2 {
            proof {
                lemma_fm_props(*q, ps, ps.len() - 1);
            }
            return (Closest::Indeterminate, 0, 0);
        }
        let mut has_best: bool = false;
        let mut best_idx: usize = 0;
        let mut best_num: u128 = 0;
        let mut best_den: u128 = 1;
        let mut best_fx: i64 = 0;
        let mut best_fy: i64 = 0;
        let mut tied: bool = false;
        let mut i: usize = 0;
        while i < n - 1
            invariant
                self.wf(),
                q.in_bounds(),
                ps == self@,
                n == ps.len(),
                2 <= n <= usize::MAX,
                0 <= i <= n - 1,
                has_best == (fm_upto(*q, ps, i as int) is Some),
                has_best ==> {
                    &&& fm_upto(*q, ps, i as int) == Some(best_idx as int)
                    &&& best_idx < i
                    &&& seg_valid(ps, best_idx as int)
                    &&& best_num == seg_num(*q, ps, best_idx as int)
                    &&& best_den == seg_d(ps, best_idx as int)
                    &&& best_fx == foot_x(*q, ps, best_idx as int)
                    &&& best_fy == foot_y(*q, ps, best_idx as int)
                },
                tied == ambiguous_upto(*q, ps, i as int),
                forall|j: int|
                    0 <= j < i && #[trigger] seg_valid(ps, j) ==> seg_num(*q, ps, j) != 0,
            decreases n - 1 - i,
        {
            let ghost gi = i as int;
            proof {
                lemma_seg_bounds(*q, ps, gi);
            }
            let a = self.points[i];
            let b = self.points[i + 1];
            let ux: i128 = q.x as i128 - a.x as i128;
            let uy: i128 = q.y as i128 - a.y as i128;
            let vx: i128 = b.x as i128 - a.x as i128;
            let vy: i128 = b.y as i128 - a.y as i128;
            proof {
                assert(a == ps[gi] && b == ps[gi + 1]);
                assert(ps[gi].in_bounds() && ps[gi + 1].in_bounds());
                lemma_mul_bound(vx as int, vx as int, 1048576, 1048576);
                lemma_mul_bound(vy as int, vy as int, 1048576, 1048576);
                lemma_mul_bound(ux as int, ux as int, 1048576, 1048576);
                lemma_mul_bound(uy as int, uy as int, 1048576, 1048576);
                lemma_mul_bound(ux as int, vx as int, 1048576, 1048576);
                lemma_mul_bound(uy as int, vy as int, 1048576, 1048576);
                lemma_sq_swap(a.x as int, b.x as int);
                lemma_sq_swap(a.y as int, b.y as int);
            }
            let d: i128 = vx * vx + vy * vy;
            let dotp: i128 = ux * vx + uy * vy;
            assert(d == seg_d(ps, gi));
            assert(dotp == seg_dot(*q, ps, gi));
            if d > 0 {
                let t: i128 = if dotp < 0 {
                    0
                } else if dotp > d {
                    d
                } else {
                    dotp
                };
                assert(t == seg_t(*q, ps, gi));
                let uu: i128 = ux * ux + uy * uy;
                proof {
                    lemma_mul_bound(uu as int, d as int, 0x20000000000, 0x20000000000);
                    lemma_mul_bound(
                        2 * dotp - t,
                        t as int,
                        0x60000000000,
                        0x20000000000,
                    );
                }
                let num: i128 = uu * d - (2 * dotp - t) * t;
                assert(num == seg_num(*q, ps, gi));
                proof {
                    lemma_mul_bound(a.x as int, d as int, 524288, 0x20000000000);
                    lemma_mul_bound(a.y as int, d as int, 524288, 0x20000000000);
                    lemma_mul_bound(t as int, vx as int, 0x20000000000, 1048576);
                    lemma_mul_bound(t as int, vy as int, 0x20000000000, 1048576);
                }
                let fx: i128 = a.x as i128 * d + t * vx;
                let fy: i128 = a.y as i128 * d + t * vy;
                assert(fx == foot_x(*q, ps, gi));
                assert(fy == foot_y(*q, ps, gi));
                if num == 0 {
                    proof {
                        lemma_zero_hit(*q, ps, gi);
                    }
                    return (
                        Closest::Intersection(MatchedPoint { x_num: q.x, y_num: q.y, den: 1 }),
                        0,
                        d as u128,
                    );
                }
                if !has_best {
                    has_best = true;
                    best_idx = i;
                    best_num = num as u128;
                    best_den = d as u128;
                    best_fx = fx as i64;
                    best_fy = fy as i64;
                    tied = false;
                    proof {
                        assert(fm_upto(*q, ps, gi + 1) == Some(gi));
                        assert(!ambiguous_upto(*q, ps, gi + 1)) by {
                            if ambiguous_upto(*q, ps, gi + 1) {
                                let j = choose|j: int|
                                    0 <= j < gi + 1 && #[trigger] seg_valid(ps, j) && seg_eq_dist(
                                        *q,
                                        ps,
                                        j,
                                        gi,
                                    ) && !feet_eq(*q, ps, j, gi);
                                assert(fm_upto(*q, ps, gi) is None);
                                lemma_fm_props(*q, ps, gi);
                                assert(!seg_valid(ps, j) || j == gi);
                            }
                        }
                    }
                } else {
                    proof {
                        lemma_seg_bounds(*q, ps, best_idx as int);
                        lemma_mul_nonneg_le(
                            num as int,
                            best_den as int,
                            0x400000000000000000000,
                            0x20000000000,
                        );
                        lemma_mul_nonneg_le(
                            best_num as int,
                            d as int,
                            0x400000000000000000000,
                            0x20000000000,
                        );
                    }
                    let lhs: u128 = (num as u128) * best_den;
                    let rhs: u128 = best_num * (d as u128);
                    assert(lhs == seg_num(*q, ps, gi) * seg_d(ps, best_idx as int));
                    assert(rhs == seg_num(*q, ps, best_idx as int) * seg_d(ps, gi));
                    let ghost old_best = best_idx as int;
                    if lhs < rhs {
                        proof {
                            lemma_fm_props(*q, ps, gi);
                            assert(fm_upto(*q, ps, gi + 1) == Some(gi));
                            assert forall|j: int|
                                0 <= j < gi + 1 && #[trigger] seg_valid(ps, j) && j != gi implies
                                seg_lt(*q, ps, gi, j) by {
                                lemma_rat_trans(
                                    seg_num(*q, ps, j),
                                    seg_d(ps, j),
                                    seg_num(*q, ps, old_best),
                                    seg_d(ps, old_best),
                                    seg_num(*q, ps, gi),
                                    seg_d(ps, gi),
                                );
                            }
                        }
                        best_idx = i;
                        best_num = num as u128;
                        best_den = d as u128;
                        best_fx = fx as i64;
                        best_fy = fy as i64;
                        tied = false;
                        proof {
                            assert(!ambiguous_upto(*q, ps, gi + 1)) by {
                                if ambiguous_upto(*q, ps, gi + 1) {
                                    let j = choose|j: int|
                                        0 <= j < gi + 1 && #[trigger] seg_valid(ps, j)
                                            && seg_eq_dist(*q, ps, j, gi) && !feet_eq(
                                            *q,
                                            ps,
                                            j,
                                            gi,
                                        );
                                    assert(j != gi);
                                    assert(seg_lt(*q, ps, gi, j));
                                }
                            }
                        }
                    } else {
                        proof {
                            assert(!seg_lt(*q, ps, gi, old_best));
                            assert(fm_upto(*q, ps, gi + 1) == Some(old_best));
                        }
                        if lhs == rhs {
                            proof {
                                lemma_mul_bound(
                                    fx as int,
                                    best_den as int,
                                    0x4000000000000000,
                                    0x20000000000,
                                );
                                lemma_mul_bound(
                                    best_fx as int,
                                    d as int,
                                    0x4000000000000000,
                                    0x20000000000,
                                );
                                lemma_mul_bound(
                                    fy as int,
                                    best_den as int,
                                    0x4000000000000000,
                                    0x20000000000,
                                );
                                lemma_mul_bound(
                                    best_fy as int,
                                    d as int,
                                    0x4000000000000000,
                                    0x20000000000,
                                );
                            }
                            let l1: i128 = fx * (best_den as i128);
                            let r1: i128 = (best_fx as i128) * d;
                            let l2: i128 = fy * (best_den as i128);
                            let r2: i128 = (best_fy as i128) * d;
                            if !(l1 == r1 && l2 == r2) {
                                tied = true;
                                proof {
                                    assert(seg_valid(ps, gi) && seg_eq_dist(*q, ps, gi, old_best)
                                        && !feet_eq(*q, ps, gi, old_best));
                                    assert(ambiguous_upto(*q, ps, gi + 1));
                                }
                            } else {
                                proof {
                                    assert(feet_eq(*q, ps, gi, old_best));
                                    assert(ambiguous_upto(*q, ps, gi + 1) == ambiguous_upto(
                                        *q,
                                        ps,
                                        gi,
                                    )) by {
                                        if ambiguous_upto(*q, ps, gi + 1) {
                                            let j = choose|j: int|
                                                0 <= j < gi + 1 && #[trigger] seg_valid(ps, j)
                                                    && seg_eq_dist(*q, ps, j, old_best) && !feet_eq(
                                                    *q,
                                                    ps,
                                                    j,
                                                    old_best,
                                                );
                                            if j == gi {
                                                assert(false);
                                            } else {
                                                assert(ambiguous_upto(*q, ps, gi));
                                            }
                                        }
                                        if ambiguous_upto(*q, ps, gi) {
                                            let j = choose|j: int|
                                                0 <= j < gi && #[trigger] seg_valid(ps, j)
                                                    && seg_eq_dist(*q, ps, j, old_best) && !feet_eq(
                                                    *q,
                                                    ps,
                                                    j,
                                                    old_best,
                                                );
                                            assert(ambiguous_upto(*q, ps, gi + 1));
                                        }
                                    }
                                }
                            }
                        } else {
                            proof {
                                assert(ambiguous_upto(*q, ps, gi + 1) == ambiguous_upto(
                                    *q,
                                    ps,
                                    gi,
                                )) by {
                                    if ambiguous_upto(*q, ps, gi + 1) {
                                        let j = choose|j: int|
                                            0 <= j < gi + 1 && #[trigger] seg_valid(ps, j)
                                                && seg_eq_dist(*q, ps, j, old_best) && !feet_eq(
                                                *q,
                                                ps,
                                                j,
                                                old_best,
                                            );
                                        if j == gi {
                                            assert(false);
                                        } else {
                                            assert(ambiguous_upto(*q, ps, gi));
                                        }
                                    }
                                    if ambiguous_upto(*q, ps, gi) {
                                        let j = choose|j: int|
                                            0 <= j < gi && #[trigger] seg_valid(ps, j)
                                                && seg_eq_dist(*q, ps, j, old_best) && !feet_eq(
                                                *q,
                                                ps,
                                                j,
                                                old_best,
                                            );
                                        assert(ambiguous_upto(*q, ps, gi + 1));
                                    }
                                }
                            }
                        }
                    }
                }
            } else {
                proof {
                    assert(!seg_valid(ps, gi));
                    assert(fm_upto(*q, ps, gi + 1) == fm_upto(*q, ps, gi));
                    assert(ambiguous_upto(*q, ps, gi + 1) == ambiguous_upto(*q, ps, gi)) by {
                        if has_best {
                            let ghost ob = best_idx as int;
                            if ambiguous_upto(*q, ps, gi + 1) {
                                let j = choose|j: int|
                                    0 <= j < gi + 1 && #[trigger] seg_valid(ps, j) && seg_eq_dist(
                                        *q,
                                        ps,
                                        j,
                                        ob,
                                    ) && !feet_eq(*q, ps, j, ob);
                                assert(j != gi);
                                assert(ambiguous_upto(*q, ps, gi));
                            }
                            if ambiguous_upto(*q, ps, gi) {
                                let j = choose|j: int|
                                    0 <= j < gi && #[trigger] seg_valid(ps, j) && seg_eq_dist(
                                        *q,
                                        ps,
                                        j,
                                        ob,
                                    ) && !feet_eq(*q, ps, j, ob);
                                assert(ambiguous_upto(*q, ps, gi + 1));
                            }
                        }
                    }
                }
            }
            i += 1;
        }
        if !has_best {
            return (Closest::Indeterminate, 0, 0);
        }
        if tied {
            proof {
                assert(seg_num(*q, ps, fm(*q, ps)->Some_0) != 0);
            }
            return (Closest::Indeterminate, best_num, best_den);
        }
        proof {
            lemma_seg_bounds(*q, ps, best_idx as int);
            assert(seg_num(*q, ps, best_idx as int) != 0);
        }
        (
            Closest::SinglePoint(MatchedPoint { x_num: best_fx, y_num: best_fy, den: best_den as i64 }),
            best_num,
            best_den,
        )
    }

    /// Projection of `q` onto this polyline.
    pub fn closest_point(&self, q: &Point) -> (r: Closest)
        requires
            self.wf(),
            q.in_bounds(),
        ensures
            r == closest_spec(*q, self@),
    {
        let (c, _, _) = self.closest_point_full(q);
        c
    }
}


/// Scale factor for reported (non-squared) distances and for
/// [`line_similarity`]: results are fixed-point values in units of
/// `1 / SCALE`.
pub const SCALE: u64 = 256;

/// Floor of the square root, as a recursive definition.
pub open spec fn sqrt_floor(x: int) -> int
    decreases x,
{
    if x <= 0 {
        0
    } else {
        let s = sqrt_floor(x - 1);
        if (s + 1) * (s + 1) <= x {
            s + 1
        } else {
            s
        }
    }
}

/// [`sqrt_floor`] is the unique `s >= 0` with `s * s <= x < (s + 1)^2`.
pub proof fn lemma_sqrt_floor_bounds(x: int)
    requires
        x >= 0,
    ensures
        sqrt_floor(x) >= 0,
        sq(sqrt_floor(x)) <= x,
        x < sq(sqrt_floor(x) + 1),
    decreases x,
{
    if x == 0 {
    } else {
        lemma_sqrt_floor_bounds(x - 1);
        let s = sqrt_floor(x - 1);
        if (s + 1) * (s + 1) <= x {
            assert(x - 1 < sq(s + 1));
            assert(x == (s + 1) * (s + 1));
            assert(sq(s + 1) < sq(s + 2)) by (nonlinear_arith)
                requires
                    s >= 0,
            ;
        }
    }
}

/// Any `r` within the square-root bracket is the floor square root.
pub proof fn lemma_sqrt_floor_unique(x: int, r: int)
    requires
        x >= 0,
        r >= 0,
        sq(r) <= x,
        x < sq(r + 1),
    ensures
        r == sqrt_floor(x),
{
    lemma_sqrt_floor_bounds(x);
    let s = sqrt_floor(x);
    assert(r < s + 1 && s < r + 1) by (nonlinear_arith)
        requires
            r >= 0,
            s >= 0,
            r * r <= x,
            x < (r + 1) * (r + 1),
            s * s <= x,
            x < (s + 1) * (s + 1),
    ;
}

/// Floor square root is monotone.
pub proof fn lemma_sqrt_floor_mono(x: int, y: int)
    requires
        0 <= x <= y,
    ensures
        sqrt_floor(x) <= sqrt_floor(y),
{
    lemma_sqrt_floor_bounds(x);
    lemma_sqrt_floor_bounds(y);
    let a = sqrt_floor(x);
    let b = sqrt_floor(y);
    assert(a <= b) by (nonlinear_arith)
        requires
            a >= 0,
            b >= 0,
            a * a <= x,
            x <= y,
            y < (b + 1) * (b + 1),
    ;
}

/// Exact floor square root by bisection.
pub fn isqrt(x: u128) -> (r: u64)
    requires
        x < 0x10000000000000000000000000000,
    ensures
        r == sqrt_floor(x as int),
        sq(r as int) <= x < sq(r as int + 1),
{
    if x == 0 {
        proof {
            lemma_sqrt_floor_unique(0, 0);
        }
        return 0;
    }
    let mut lo: u64 = 0;
    let mut hi: u64 = 0x100000000000000;
    proof {
        assert(sq(hi as int) == 0x10000000000000000000000000000);
    }
    while lo + 1 < hi
        invariant
            lo < hi <= 0x100000000000000,
            sq(lo as int) <= x,
            x < sq(hi as int),
        decreases hi - lo,
    {
        let mid: u64 = lo + (hi - lo) / 2;
        proof {
            lemma_mul_nonneg_le(mid as int, mid as int, 0x100000000000000, 0x100000000000000);
        }
        let m2: u128 = (mid as u128) * (mid as u128);
        if m2 <= x {
            lo = mid;
        } else {
            hi = mid;
        }
    }
    proof {
        assert(x < sq(lo as int + 1));
        lemma_sqrt_floor_unique(x as int, lo as int);
    }
    lo
}

/// Scaled distance from an exact squared-distance rational: the floor of
/// `SCALE * sqrt(num / den)`.
pub open spec fn dist_scaled_of(num: int, den: int) -> int {
    sqrt_floor((SCALE * SCALE) * num / den)
}

/// Executable scaled distance for a squared-distance rational.
pub fn dist_scaled(num: u128, den: u128) -> (r: u64)
    requires
        den >= 1,
        num <= 0x400000000000000000000,
    ensures
        r == dist_scaled_of(num as int, den as int),
{
    proof {
        lemma_mul_nonneg_le(num as int, 65536, 0x400000000000000000000, 65536);
        vstd::arithmetic::div_mod::lemma_div_nonincreasing((65536 * num) as int, den as int);
        vstd::arithmetic::div_mod::lemma_div_pos_is_pos((65536 * num) as int, den as int);
    }
    let s2: u128 = (num * 65536) / den;
    proof {
        assert(65536 * (num as int) == (SCALE * SCALE) * num);
        assert(num * 65536 == 65536 * num) by (nonlinear_arith);
    }
    isqrt(s2)
}

/// Lagrange's identity for 2D vectors: Cauchy-Schwarz with exact defect.
pub proof fn lemma_lagrange(ux: int, uy: int, vx: int, vy: int)
    ensures
        (ux * ux + uy * uy) * (vx * vx + vy * vy) == sq(ux * vx + uy * vy) + sq(
            ux * vy - uy * vx,
        ),
{
    let a = ux * vx;
    let b = uy * vy;
    let c = ux * vy;
    let e = uy * vx;
    assert((a + b) * (a + b) == a * a + 2 * (a * b) + b * b) by (nonlinear_arith);
    assert((c - e) * (c - e) == c * c - 2 * (c * e) + e * e) by (nonlinear_arith);
    assert(a * b == c * e) by (nonlinear_arith)
        requires
            a == ux * vx,
            b == uy * vy,
            c == ux * vy,
            e == uy * vx,
    ;
    assert(a * a == (ux * ux) * (vx * vx)) by (nonlinear_arith)
        requires
            a == ux * vx,
    ;
    assert(b * b == (uy * uy) * (vy * vy)) by (nonlinear_arith)
        requires
            b == uy * vy,
    ;
    assert(c * c == (ux * ux) * (vy * vy)) by (nonlinear_arith)
        requires
            c == ux * vy,
    ;
    assert(e * e == (uy * uy) * (vx * vx)) by (nonlinear_arith)
        requires
            e == uy * vx,
    ;
    assert((ux * ux + uy * uy) * (vx * vx + vy * vy) == (ux * ux) * (vx * vx) + (ux * ux) * (vy
        * vy) + (uy * uy) * (vx * vx) + (uy * uy) * (vy * vy)) by (nonlinear_arith);
    assert(sq(a + b) == (a + b) * (a + b));
    assert(sq(c - e) == (c - e) * (c - e));
}

/// Direction similarity of two segments, in units of `1 / SCALE`.
///
/// Both segments are scaled to unit length and the Euclidean norm of the
/// difference of their direction vectors is reported: `0` for identical
/// direction, about `SCALE * sqrt(2)` for perpendicular segments, and
/// `2 * SCALE` for opposite directions. A degenerate (zero-length) segment
/// cannot be normalized; the guarded result is `0`.
pub open spec fn sim_spec(a: Line, b: Line) -> int {
    let da = dist2(a.start, a.end);
    let db = dist2(b.start, b.end);
    if da <= 0 || db <= 0 {
        0
    } else {
        let dot = (a.end.x - a.start.x) * (b.end.x - b.start.x) + (a.end.y - a.start.y) * (b.end.y
            - b.start.y);
        let r = sqrt_floor(da * db);
        let mag = if dot < 0 {
            -dot
        } else {
            dot
        };
        let term = 2 * (mag * (SCALE * SCALE)) / r;
        let s2 = if dot < 0 {
            2 * (SCALE * SCALE) + term
        } else {
            2 * (SCALE * SCALE) - term
        };
        sqrt_floor(s2)
    }
}


/// Cauchy-Schwarz cap on the dot product: its magnitude is at most the
/// floor square root of the product of the squared lengths.
proof fn lemma_dot_capped(ux: int, uy: int, vx: int, vy: int, r: int)
    requires
        sq(r) <= (ux * ux + uy * uy) * (vx * vx + vy * vy) < sq(r + 1),
        r >= 0,
    ensures
        -r <= ux * vx + uy * vy <= r,
{
    lemma_lagrange(ux, uy, vx, vy);
    let dot = ux * vx + uy * vy;
    lemma_sq_nonneg(ux * vy - uy * vx);
    assert(sq(dot) < sq(r + 1));
    assert(-r <= dot <= r) by (nonlinear_arith)
        requires
            dot * dot < (r + 1) * (r + 1),
            r >= 0,
    ;
}

/// The normalized-difference square `s2` of [`sim_spec`] lies in
/// `[0, 4 * SCALE^2]`, because the scaled dot term is capped by
/// `2 * SCALE^2`.
proof fn lemma_sim_term_bounds(mag: int, r: int)
    requires
        0 <= mag <= r,
        r >= 1,
    ensures
        0 <= 2 * (mag * (SCALE * SCALE)) / r <= 2 * (SCALE * SCALE),
{
    vstd::arithmetic::div_mod::lemma_div_pos_is_pos(2 * (mag * (SCALE * SCALE)), r);
    assert(2 * (mag * 65536) <= 2 * (r * 65536)) by (nonlinear_arith)
        requires
            0 <= mag <= r,
    ;
    vstd::arithmetic::div_mod::lemma_div_is_ordered(
        2 * (mag * (SCALE * SCALE)),
        2 * (r * (SCALE * SCALE)),
        r,
    );
    vstd::arithmetic::div_mod::lemma_div_multiples_vanish(131072int, r);
    assert(2 * (r * 65536) == r * (2 * 65536)) by (nonlinear_arith);
}

/// Direction similarity of two segments (see [`sim_spec`]).
pub fn line_similarity(fst: &Line, snd: &Line) -> (r: u64)
    requires
        fst.in_bounds(),
        snd.in_bounds(),
    ensures
        r == sim_spec(*fst, *snd),
{
    proof {
        lemma_dist2_bounds(fst.start, fst.end);
        lemma_dist2_bounds(snd.start, snd.end);
    }
    let ax: i128 = fst.end.x as i128 - fst.start.x as i128;
    let ay: i128 = fst.end.y as i128 - fst.start.y as i128;
    let bx: i128 = snd.end.x as i128 - snd.start.x as i128;
    let by: i128 = snd.end.y as i128 - snd.start.y as i128;
    proof {
        lemma_mul_bound(ax as int, ax as int, 1048576, 1048576);
        lemma_mul_bound(ay as int, ay as int, 1048576, 1048576);
        lemma_mul_bound(bx as int, bx as int, 1048576, 1048576);
        lemma_mul_bound(by as int, by as int, 1048576, 1048576);
        lemma_mul_bound(ax as int, bx as int, 1048576, 1048576);
        lemma_mul_bound(ay as int, by as int, 1048576, 1048576);
        lemma_sq_swap(fst.start.x as int, fst.end.x as int);
        lemma_sq_swap(fst.start.y as int, fst.end.y as int);
        lemma_sq_swap(snd.start.x as int, snd.end.x as int);
        lemma_sq_swap(snd.start.y as int, snd.end.y as int);
    }
    let da: i128 = ax * ax + ay * ay;
    let db: i128 = bx * bx + by * by;
    assert(da == dist2(fst.start, fst.end));
    assert(db == dist2(snd.start, snd.end));
    if da == 0 || db == 0 {
        return 0;
    }
    let dot: i128 = ax * bx + ay * by;
    proof {
        lemma_mul_nonneg_le(da as int, db as int, 0x20000000000, 0x20000000000);
    }
    let dprod: u128 = (da as u128) * (db as u128);
    let root = isqrt(dprod);
    let mag: u128 = if dot < 0 {
        (-dot) as u128
    } else {
        dot as u128
    };
    proof {
        assert((da as int) * (db as int) >= 1) by (nonlinear_arith)
            requires
                da as int >= 1,
                db as int >= 1,
        ;
        assert(sq(root as int + 1) == (root as int + 1) * (root as int + 1));
        assert(root as int >= 1) by (nonlinear_arith)
            requires
                dprod as int >= 1,
                (root as int + 1) * (root as int + 1) > dprod as int,
                root as int >= 0,
        ;
        lemma_dot_capped(ax as int, ay as int, bx as int, by as int, root as int);
        lemma_sim_term_bounds(mag as int, root as int);
        lemma_mul_nonneg_le(mag as int, 65536, 0x20000000000, 65536);
    }
    let term: u128 = 2 * (mag * 65536) / (root as u128);
    let s2: u128 = if dot < 0 {
        2 * 65536 + term
    } else {
        2 * 65536 - term
    };
    let r = isqrt(s2);
    proof {
        assert(mag * 65536 == (mag as int) * (SCALE * SCALE));
    }
    r
}

/// For non-degenerate segments the similarity lies in `[0, 2 * SCALE]`.
pub proof fn lemma_line_similarity_bounds(a: Line, b: Line)
    requires
        a.in_bounds(),
        b.in_bounds(),
        dist2(a.start, a.end) > 0,
        dist2(b.start, b.end) > 0,
    ensures
        0 <= sim_spec(a, b) <= 2 * SCALE,
{
    let da = dist2(a.start, a.end);
    let db = dist2(b.start, b.end);
    let ux = a.end.x - a.start.x;
    let uy = a.end.y - a.start.y;
    let vx = b.end.x - b.start.x;
    let vy = b.end.y - b.start.y;
    lemma_sq_swap(a.start.x as int, a.end.x as int);
    lemma_sq_swap(a.start.y as int, a.end.y as int);
    lemma_sq_swap(b.start.x as int, b.end.x as int);
    lemma_sq_swap(b.start.y as int, b.end.y as int);
    assert(da == ux * ux + uy * uy);
    assert(db == vx * vx + vy * vy);
    let dot = ux * vx + uy * vy;
    lemma_mul_nonneg_le(da, db, da, db);
    lemma_sqrt_floor_bounds(da * db);
    let root = sqrt_floor(da * db);
    assert(root >= 1) by (nonlinear_arith)
        requires
            da >= 1,
            db >= 1,
            da * db < (root + 1) * (root + 1),
            root >= 0,
    ;
    lemma_dot_capped(ux, uy, vx, vy, root);
    let mag = if dot < 0 {
        -dot
    } else {
        dot
    };
    lemma_sim_term_bounds(mag, root);
    let term = 2 * (mag * (SCALE * SCALE)) / root;
    let s2 = if dot < 0 {
        2 * (SCALE * SCALE) + term
    } else {
        2 * (SCALE * SCALE) - term
    };
    assert(0 <= s2 <= 4 * (SCALE * SCALE));
    lemma_sqrt_floor_mono(s2, 4 * (SCALE * SCALE));
    lemma_sqrt_floor_unique(4 * (SCALE * SCALE), 2 * SCALE);
    lemma_sqrt_floor_bounds(s2);
}

/// A non-degenerate segment has similarity zero with itself.
pub proof fn lemma_line_similarity_self(a: Line)
    requires
        a.in_bounds(),
        dist2(a.start, a.end) > 0,
    ensures
        sim_spec(a, a) == 0,
{
    let da = dist2(a.start, a.end);
    let ux = a.end.x - a.start.x;
    let uy = a.end.y - a.start.y;
    lemma_sq_swap(a.start.x as int, a.end.x as int);
    lemma_sq_swap(a.start.y as int, a.end.y as int);
    assert(da == ux * ux + uy * uy);
    let dot = ux * vxy_self(a).0 + uy * vxy_self(a).1;
    assert(dot == da);
    assert(sq(da) <= da * da < sq(da + 1)) by (nonlinear_arith)
        requires
            da >= 1,
    ;
    lemma_sqrt_floor_unique(da * da, da);
    let root = sqrt_floor(da * da);
    assert(root == da);
    assert(2 * (da * (SCALE * SCALE)) == (2 * (SCALE * SCALE)) * da) by (nonlinear_arith);
    vstd::arithmetic::div_mod::lemma_div_multiples_vanish(2 * (SCALE * SCALE), da);
    assert(da * (2 * (SCALE * SCALE)) == 2 * (da * (SCALE * SCALE))) by (nonlinear_arith);
    assert(2 * (da * (SCALE * SCALE)) / da == 2 * (SCALE * SCALE));
}

/// Perpendicular non-degenerate segments have similarity
/// `floor(SCALE * sqrt(2))`.
pub proof fn lemma_line_similarity_perpendicular(a: Line, b: Line)
    requires
        a.in_bounds(),
        b.in_bounds(),
        dist2(a.start, a.end) > 0,
        dist2(b.start, b.end) > 0,
        (a.end.x - a.start.x) * (b.end.x - b.start.x) + (a.end.y - a.start.y) * (b.end.y
            - b.start.y) == 0,
    ensures
        sim_spec(a, b) == sqrt_floor(2 * (SCALE * SCALE)),
{
    let da = dist2(a.start, a.end);
    let db = dist2(b.start, b.end);
    lemma_mul_nonneg_le(da, db, da, db);
    lemma_sqrt_floor_bounds(da * db);
    let root = sqrt_floor(da * db);
    assert(root >= 1) by (nonlinear_arith)
        requires
            da >= 1,
            db >= 1,
            da * db < (root + 1) * (root + 1),
            root >= 0,
    ;
    assert(2 * (0 * (SCALE * SCALE)) == 0);
    vstd::arithmetic::div_mod::lemma_div_of0(root);
}

/// Direction vector of a segment, for spec reuse.
pub open spec fn vxy_self(a: Line) -> (int, int) {
    (a.end.x - a.start.x, a.end.y - a.start.y)
}


/// The segments of a trajectory: consecutive point pairs, in order. A
/// trajectory of `n` points has `n - 1` segments.
pub fn segments_of(points: &Vec<Point>) -> (r: Vec<Line>)
    ensures
        r@.len() == if points@.len() == 0 {
            0int
        } else {
            points@.len() - 1
        },
        forall|i: int|
            0 <= i < r@.len() ==> #[trigger] r@[i] == (Line {
                start: points@[i],
                end: points@[i + 1],
            }),
{
    let n = points.len();
    let mut r: Vec<Line> = Vec::new();
    if n == 0 {
        return r;
    }
    let mut i: usize = 0;
    while i < n - 1
        invariant
            n == points@.len(),
            1 <= n,
            0 <= i <= n - 1,
            r@.len() == i,
            forall|j: int|
                0 <= j < i ==> #[trigger] r@[j] == (Line {
                    start: points@[j],
                    end: points@[j + 1],
                }),
        decreases n - 1 - i,
    {
        r.push(Line { start: points[i], end: points[i + 1] });
        i += 1;
    }
    r
}

} // verus!
