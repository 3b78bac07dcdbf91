//! Matching trajectory segments onto road geometry: candidate generation
//! from the spatial index, exact scoring, best-candidate selection, and the
//! fail-fast matcher over a whole trajectory.

use vstd::prelude::*;

use crate::geom::{
    closest_spec, dist_scaled, dist_scaled_of, fm, lemma_fm_props, lemma_seg_bounds,
    lemma_sqrt_floor_bounds, lemma_sqrt_floor_mono, lemma_sqrt_floor_unique, seg_d, seg_num,
    seg_valid, sq, wf_points, Closest, Line, MatchedPoint, Point, Polyline, SCALE,
};
use crate::index::{rank_lt, road_den, road_num, road_ok, RoadIndex};

verus! {

/// A matched segment: both endpoints replaced by their projections onto
/// the selected road, as exact rational points.
#[derive(Clone, Copy, PartialEq, Eq, Structural, Debug)]
pub struct MatchedLine {
    pub start: MatchedPoint,
    pub end: MatchedPoint,
}

/// The projection of `q` onto road geometry `g`, if it is determinate.
pub open spec fn closest_mp(q: Point, g: Polyline) -> Option<MatchedPoint> {
    match closest_spec(q, g@) {
        Closest::SinglePoint(m) => Some(m),
        Closest::Intersection(m) => Some(m),
        Closest::Indeterminate => None,
    }
}

/// Scaled distance from `q` to road geometry `g` (zero when `q` lies on
/// the road).
pub open spec fn point_road_dist(q: Point, g: Polyline) -> int {
    dist_scaled_of(road_num(q, g), road_den(q, g))
}

/// A candidate road can be scored for segment `l`: the projections of both
/// segment endpoints onto it are determinate.
pub open spec fn road_matchable(l: Line, g: Polyline) -> bool {
    closest_mp(l.start, g) is Some && closest_mp(l.end, g) is Some
}

/// Match cost of candidate `g` for segment `l`: the sum of the scaled
/// distances of both endpoints to the road, doubled when both project to
/// the same point (a candidate that plausibly covers only one endpoint).
pub open spec fn road_score(l: Line, g: Polyline) -> int {
    let cs = closest_mp(l.start, g)->Some_0;
    let ce = closest_mp(l.end, g)->Some_0;
    let w: int = if cs.r_eq(ce) {
        2
    } else {
        1
    };
    (point_road_dist(l.start, g) + point_road_dist(l.end, g)) * w
}

/// `r` is the ranked nearest-neighbor prefix of length `min(k, n)` for
/// query point `q` (see [`RoadIndex::nearest_neighbors`]).
pub open spec fn is_nn(r: Seq<usize>, q: Point, idx: RoadIndex, k: int) -> bool {
    &&& r.len() == if k < idx.ids@.len() {
        k
    } else {
        idx.ids@.len() as int
    }
    &&& forall|a: int| 0 <= a < r.len() ==> (#[trigger] r[a]) < idx.ids@.len()
    &&& forall|a: int, b: int|
        0 <= a < b < r.len() ==> rank_lt(q, idx, #[trigger] r[a] as int, #[trigger] r[b] as int)
    &&& forall|p: int|
        0 <= p < idx.ids@.len() && !(#[trigger] r.contains(p as usize)) ==> forall|a: int|
            0 <= a < r.len() ==> rank_lt(q, idx, #[trigger] r[a] as int, p)
}

/// `c` is the candidate list of segment `l`: the nearest neighbors of the
/// segment's start followed by those of its end (duplicates possible).
pub open spec fn is_candidate_list(c: Seq<usize>, l: Line, idx: RoadIndex, k: int) -> bool {
    exists|a: Seq<usize>, b: Seq<usize>|
        {
            &&& #[trigger] is_nn(a, l.start, idx, k)
            &&& #[trigger] is_nn(b, l.end, idx, k)
            &&& c == a + b
        }
}

/// Candidate position `a` wins for segment `l`: it is scorable, its score
/// is minimal, and every earlier scorable candidate scores strictly worse.
pub open spec fn is_best_choice(a: int, c: Seq<usize>, l: Line, idx: RoadIndex) -> bool {
    &&& 0 <= a < c.len()
    &&& road_matchable(l, idx.geoms@[c[a] as int])
    &&& forall|b: int|
        0 <= b < c.len() && road_matchable(l, (#[trigger] idx.geoms@[c[b] as int])) ==> road_score(
            l,
            idx.geoms@[c[a] as int],
        ) <= road_score(l, idx.geoms@[c[b] as int])
    &&& forall|b: int|
        0 <= b < a && road_matchable(l, (#[trigger] idx.geoms@[c[b] as int])) ==> road_score(
            l,
            idx.geoms@[c[b] as int],
        ) > road_score(l, idx.geoms@[c[a] as int])
}

/// `ml` is what matching segment `l` yields: the projections of the
/// segment's endpoints onto the winning candidate road.
pub open spec fn is_match_result(ml: MatchedLine, l: Line, idx: RoadIndex, k: int) -> bool {
    exists|c: Seq<usize>, a: int|
        {
            &&& #[trigger] is_candidate_list(c, l, idx, k)
            &&& #[trigger] is_best_choice(a, c, l, idx)
            &&& Some(ml.start) == closest_mp(l.start, idx.geoms@[c[a] as int])
            &&& Some(ml.end) == closest_mp(l.end, idx.geoms@[c[a] as int])
        }
}

/// Segment `l` has a winning candidate.
pub open spec fn has_match(l: Line, idx: RoadIndex, k: int) -> bool {
    exists|c: Seq<usize>, a: int|
        #[trigger] is_candidate_list(c, l, idx, k) && #[trigger] is_best_choice(a, c, l, idx)
}

/// Every candidate for segment `l` is unscorable: the segment cannot be
/// matched.
pub open spec fn no_match(l: Line, idx: RoadIndex, k: int) -> bool {
    exists|c: Seq<usize>|
        #[trigger] is_candidate_list(c, l, idx, k) && forall|a: int|
            0 <= a < c.len() ==> !road_matchable(l, (#[trigger] idx.geoms@[c[a] as int]))
}

/// A determinate projection is bounded: its numerators fit the foot range
/// and its denominator is a positive squared segment length.
pub proof fn lemma_closest_mp_bounds(q: Point, g: Polyline)
    requires
        wf_points(g@),
        q.in_bounds(),
    ensures
        closest_mp(q, g) matches Some(m) ==> {
            &&& -0x4000000000000000 <= m.x_num <= 0x4000000000000000
            &&& -0x4000000000000000 <= m.y_num <= 0x4000000000000000
            &&& 1 <= m.den <= 0x20000000000
        },
{
    lemma_fm_props(q, g@, g@.len() - 1);
    if closest_mp(q, g) is Some {
        let m = fm(q, g@)->Some_0;
        lemma_seg_bounds(q, g@, m);
    }
}

/// Scaled distances of bounded rationals fit comfortably in 50 bits.
pub proof fn lemma_dist_scaled_bound(num: int, den: int)
    requires
        0 <= num <= 0x400000000000000000000,
        den >= 1,
    ensures
        0 <= dist_scaled_of(num, den) <= 0x2000000000000,
{
    let x = (SCALE * SCALE) * num;
    crate::geom::lemma_mul_nonneg_le(num, 65536, 0x400000000000000000000, 65536);
    assert(SCALE * SCALE == 65536);
    assert(65536 * num == num * 65536) by (nonlinear_arith);
    vstd::arithmetic::div_mod::lemma_div_nonincreasing(x, den);
    vstd::arithmetic::div_mod::lemma_div_pos_is_pos(x, den);
    lemma_sqrt_floor_bounds(x / den);
    lemma_sqrt_floor_mono(x / den, 0x4000000000000000000000000);
    assert(sq(0x2000000000000) == 0x4000000000000000000000000);
    assert(0x4000000000000000000000000int < sq(0x2000000000000int + 1)) by (nonlinear_arith);
    lemma_sqrt_floor_unique(0x4000000000000000000000000, 0x2000000000000);
}

/// Candidate roads for one trajectory segment: the `max_candidates`
/// nearest roads to the segment's start, then the `max_candidates` nearest
/// roads to its end (a bounded list; duplicates possible). Positions into
/// the index are returned.
///
/// Using both endpoints avoids missing the right road where a segment
/// crosses an intersection. `max_candidates` trades recall for compute
/// cost; values between five and twenty work well.
pub fn candidates(l: &Line, index: &RoadIndex, max_candidates: usize) -> (r: Vec<usize>)
    requires
        index.wf(),
        l.in_bounds(),
    ensures
        is_candidate_list(r@, *l, *index, max_candidates as int),
        forall|a: int| 0 <= a < r@.len() ==> (#[trigger] r@[a]) < index.ids@.len(),
{
    let mut first = index.nearest_neighbors(&l.start, max_candidates);
    let mut second = index.nearest_neighbors(&l.end, max_candidates);
    let ghost ga = first@;
    let ghost gb = second@;
    first.append(&mut second);
    proof {
        assert(first@ == ga + gb);
        assert(is_nn(ga, l.start, *index, max_candidates as int));
        assert(is_nn(gb, l.end, *index, max_candidates as int));
    }
    first
}

/// Choose the best-scoring candidate for segment `l` among `cands`
/// (positions into the index). Candidates whose projection of either
/// endpoint is indeterminate are discarded. On success, the winner's
/// position within `cands` and the projections of both endpoints onto it
/// (freshly recomputed) are returned; `None` means every candidate was
/// discarded.
pub fn select_best(l: &Line, index: &RoadIndex, cands: &Vec<usize>) -> (r: Option<
    (usize, MatchedPoint, MatchedPoint),
>)
    requires
        index.wf(),
        l.in_bounds(),
        forall|a: int| 0 <= a < cands@.len() ==> (#[trigger] cands@[a]) < index.ids@.len(),
    ensures
        r is None ==> forall|a: int|
            0 <= a < cands@.len() ==> !road_matchable(*l, (#[trigger] index.geoms@[cands@[a] as int])),
        r matches Some((a, ms, me)) ==> {
            &&& is_best_choice(a as int, cands@, *l, *index)
            &&& Some(ms) == closest_mp(l.start, index.geoms@[cands@[a as int] as int])
            &&& Some(me) == closest_mp(l.end, index.geoms@[cands@[a as int] as int])
        },
{
    let n = cands.len();
    let mut best_pos: usize = 0;
    let mut best_score: u64 = 0;
    let mut has_best: bool = false;
    let mut b: usize = 0;
    while b < n
        invariant
            index.wf(),
            l.in_bounds(),
            n == cands@.len(),
            0 <= b <= n,
            forall|a: int| 0 <= a < n ==> (#[trigger] cands@[a]) < index.ids@.len(),
            !has_best ==> forall|a: int|
                0 <= a < b ==> !road_matchable(*l, (#[trigger] index.geoms@[cands@[a] as int])),
            has_best ==> {
                &&& best_pos < b
                &&& road_matchable(*l, index.geoms@[cands@[best_pos as int] as int])
                &&& best_score == road_score(*l, index.geoms@[cands@[best_pos as int] as int])
                &&& forall|a: int|
                    0 <= a < b && road_matchable(
                        *l,
                        (#[trigger] index.geoms@[cands@[a] as int]),
                    ) ==> best_score <= road_score(*l, index.geoms@[cands@[a] as int])
                &&& forall|a: int|
                    0 <= a < best_pos && road_matchable(
                        *l,
                        (#[trigger] index.geoms@[cands@[a] as int]),
                    ) ==> best_score < road_score(*l, index.geoms@[cands@[a] as int])
            },
        decreases n - b,
    {
        let pos = cands[b];
        let score_opt = score_candidate(l, index, pos);
        match score_opt {
            Option::Some(sc) => {
                if !has_best || sc < best_score {
                    has_best = true;
                    best_pos = b;
                    best_score = sc;
                }
            },
            Option::None => {},
        }
        b += 1;
    }
    if !has_best {
        return None;
    }
    let pos = cands[best_pos];
    let g = index.geom_at(pos);
    proof {
        crate::index::lemma_road_rational(l.start, *index, pos as int);
    }
    let (cs, _ns, _ds) = g.closest_point_full(&l.start);
    let (ce, _ne, _de) = g.closest_point_full(&l.end);
    let ms = match cs {
        Closest::SinglePoint(m) => m,
        Closest::Intersection(m) => m,
        Closest::Indeterminate => {
            proof {
                assert(false);
            }
            MatchedPoint { x_num: 0, y_num: 0, den: 1 }
        },
    };
    let me = match ce {
        Closest::SinglePoint(m) => m,
        Closest::Intersection(m) => m,
        Closest::Indeterminate => {
            proof {
                assert(false);
            }
            MatchedPoint { x_num: 0, y_num: 0, den: 1 }
        },
    };
    Some((best_pos, ms, me))
}

/// Score one candidate road for segment `l`, or `None` if either endpoint
/// projection is indeterminate.
fn score_candidate(l: &Line, index: &RoadIndex, pos: usize) -> (r: Option<u64>)
    requires
        index.wf(),
        l.in_bounds(),
        pos < index.ids@.len(),
    ensures
        r is Some <==> road_matchable(*l, index.geoms@[pos as int]),
        r matches Some(sc) ==> sc == road_score(*l, index.geoms@[pos as int]),
{
    let g = index.geom_at(pos);
    proof {
        crate::index::lemma_road_rational(l.start, *index, pos as int);
        crate::index::lemma_road_rational(l.end, *index, pos as int);
        lemma_closest_mp_bounds(l.start, *g);
        lemma_closest_mp_bounds(l.end, *g);
        lemma_dist_scaled_bound(road_num(l.start, *g), road_den(l.start, *g));
        lemma_dist_scaled_bound(road_num(l.end, *g), road_den(l.end, *g));
    }
    let (cs, ns, ds) = g.closest_point_full(&l.start);
    let ms = match cs {
        Closest::SinglePoint(m) => m,
        Closest::Intersection(m) => m,
        Closest::Indeterminate => {
            return None;
        },
    };
    let (ce, ne, de) = g.closest_point_full(&l.end);
    let me = match ce {
        Closest::SinglePoint(m) => m,
        Closest::Intersection(m) => m,
        Closest::Indeterminate => {
            return None;
        },
    };
    let fd = dist_scaled(ns, ds);
    let ld = dist_scaled(ne, de);
    proof {
        crate::geom::lemma_mul_bound(
            ms.x_num as int,
            me.den as int,
            0x4000000000000000,
            0x20000000000,
        );
        crate::geom::lemma_mul_bound(
            me.x_num as int,
            ms.den as int,
            0x4000000000000000,
            0x20000000000,
        );
        crate::geom::lemma_mul_bound(
            ms.y_num as int,
            me.den as int,
            0x4000000000000000,
            0x20000000000,
        );
        crate::geom::lemma_mul_bound(
            me.y_num as int,
            ms.den as int,
            0x4000000000000000,
            0x20000000000,
        );
    }
    let same = (ms.x_num as i128) * (me.den as i128) == (me.x_num as i128) * (ms.den as i128)
        && (ms.y_num as i128) * (me.den as i128) == (me.y_num as i128) * (ms.den as i128);
    proof {
        assert(same == ms.r_eq(me));
    }
    let w: u64 = if same {
        2
    } else {
        1
    };
    Some((fd + ld) * w)
}

/// Match every segment of a trajectory against the index, fail-fast.
///
/// On success the output has exactly one matched segment per input
/// segment, in order. On the first segment for which every candidate is
/// discarded, matching aborts and returns that segment's position and
/// original value; every earlier segment had a winning candidate and
/// nothing is emitted.
pub fn segment_match(segments: &Vec<Line>, index: &RoadIndex, max_candidates: usize) -> (r:
    Result<Vec<MatchedLine>, (usize, Line)>)
    requires
        index.wf(),
        index.ids@.len() >= 1,
        forall|i: int| 0 <= i < segments@.len() ==> (#[trigger] segments@[i]).in_bounds(),
    ensures
        match r {
            Ok(out) => {
                &&& out@.len() == segments@.len()
                &&& forall|i: int|
                    0 <= i < segments@.len() ==> is_match_result(
                        #[trigger] out@[i],
                        segments@[i],
                        *index,
                        max_candidates as int,
                    )
            },
            Err((i, l)) => {
                &&& i < segments@.len()
                &&& l == segments@[i as int]
                &&& no_match(l, *index, max_candidates as int)
                &&& forall|j: int|
                    0 <= j < i ==> has_match(
                        #[trigger] segments@[j],
                        *index,
                        max_candidates as int,
                    )
            },
        },
{
    let n = segments.len();
    let mut out: Vec<MatchedLine> = Vec::new();
    let mut i: usize = 0;
    while i < n
        invariant
            index.wf(),
            index.ids@.len() >= 1,
            n == segments@.len(),
            0 <= i <= n,
            forall|j: int| 0 <= j < n ==> (#[trigger] segments@[j]).in_bounds(),
            out@.len() == i,
            forall|j: int|
                0 <= j < i ==> is_match_result(
                    #[trigger] out@[j],
                    segments@[j],
                    *index,
                    max_candidates as int,
                ),
            forall|j: int|
                0 <= j < i ==> has_match(#[trigger] segments@[j], *index, max_candidates as int),
        decreases n - i,
    {
        let l = segments[i];
        let cands = candidates(&l, index, max_candidates);
        let picked = select_best(&l, index, &cands);
        match picked {
            Option::Some((a, ms, me)) => {
                proof {
                    assert(is_best_choice(a as int, cands@, l, *index));
                    assert(is_match_result(
                        MatchedLine { start: ms, end: me },
                        l,
                        *index,
                        max_candidates as int,
                    ));
                    assert(has_match(l, *index, max_candidates as int));
                }
                out.push(MatchedLine { start: ms, end: me });
            },
            Option::None => {
                proof {
                    assert(no_match(l, *index, max_candidates as int));
                }
                return Err((i, l));
            },
        }
        i += 1;
    }
    Ok(out)
}


/// Anything that can report the closest point of its geometry to a query
/// point: the one capability the matcher needs of a geometry.
pub trait ClosestPoint: Sized {
    /// Inputs on which the projection is defined.
    spec fn closest_req(self, p: Point) -> bool;

    /// What projecting `p` onto this geometry yields.
    spec fn closest_point_spec(self, p: Point) -> Closest;

    /// Project `p` onto this geometry.
    fn closest_point(&self, p: &Point) -> (r: Closest)
        requires
            self.closest_req(*p),
        ensures
            r == self.closest_point_spec(*p),
    ;
}

impl ClosestPoint for Polyline {
    open spec fn closest_req(self, p: Point) -> bool {
        self.wf() && p.in_bounds()
    }

    open spec fn closest_point_spec(self, p: Point) -> Closest {
        closest_spec(p, self@)
    }

    fn closest_point(&self, p: &Point) -> (r: Closest) {
        let (c, _, _) = self.closest_point_full(p);
        c
    }
}

impl ClosestPoint for crate::table::road::Road {
    open spec fn closest_req(self, p: Point) -> bool {
        self.geom.wf() && p.in_bounds()
    }

    open spec fn closest_point_spec(self, p: Point) -> Closest {
        closest_spec(p, self.geom@)
    }

    fn closest_point(&self, p: &Point) -> (r: Closest) {
        let (c, _, _) = self.geom.closest_point_full(p);
        c
    }
}

/// Match every point of a trajectory to its closest point on one road.
///
/// Defined for trajectories whose every point has a determinate projection
/// onto the road; the output replaces each point by that projection, in
/// order.
pub fn map_match_traj_to_road<R: ClosestPoint>(traj: &Vec<Point>, road: &R) -> (r: Vec<
    MatchedPoint,
>)
    requires
        forall|i: int|
            0 <= i < traj@.len() ==> road.closest_req(#[trigger] traj@[i]),
        forall|i: int|
            0 <= i < traj@.len() ==> road.closest_point_spec(#[trigger] traj@[i])
                != Closest::Indeterminate,
    ensures
        r@.len() == traj@.len(),
        forall|i: int|
            0 <= i < traj@.len() ==> match road.closest_point_spec(#[trigger] traj@[i]) {
                Closest::SinglePoint(m) => r@[i] == m,
                Closest::Intersection(m) => r@[i] == m,
                Closest::Indeterminate => false,
            },
{
    let n = traj.len();
    let mut r: Vec<MatchedPoint> = Vec::new();
    let mut i: usize = 0;
    while i < n
        invariant
            n == traj@.len(),
            0 <= i <= n,
            r@.len() == i,
            forall|j: int|
                0 <= j < n ==> road.closest_req(#[trigger] traj@[j]),
            forall|j: int|
                0 <= j < n ==> road.closest_point_spec(#[trigger] traj@[j])
                    != Closest::Indeterminate,
            forall|j: int|
                0 <= j < i ==> match road.closest_point_spec(#[trigger] traj@[j]) {
                    Closest::SinglePoint(m) => r@[j] == m,
                    Closest::Intersection(m) => r@[j] == m,
                    Closest::Indeterminate => false,
                },
        decreases n - i,
    {
        let p = traj[i];
        let c = road.closest_point(&p);
        match c {
            Closest::SinglePoint(m) => {
                r.push(m);
            },
            Closest::Intersection(m) => {
                r.push(m);
            },
            Closest::Indeterminate => {
                proof {
                    assert(false);
                }
            },
        }
        i += 1;
    }
    r
}

/// A point that lies exactly on a road's geometry projects to itself: the
/// result is an intersection carrying the point, at distance zero.
pub proof fn lemma_identity_match(q: Point, g: Polyline)
    requires
        wf_points(g@),
        q.in_bounds(),
        crate::geom::on_polyline(q, g@),
    ensures
        closest_spec(q, g@) == Closest::Intersection(MatchedPoint::from_point(q)),
        closest_mp(q, g) == Some(MatchedPoint::from_point(q)),
        road_num(q, g) == 0,
        point_road_dist(q, g) == 0,
{
    let j = choose|j: int| #[trigger] seg_valid(g@, j) && seg_num(q, g@, j) == 0;
    lemma_fm_props(q, g@, g@.len() - 1);
    let m = fm(q, g@)->Some_0;
    assert(fm(q, g@) is Some);
    assert(!crate::geom::seg_lt(q, g@, j, m));
    lemma_seg_bounds(q, g@, m);
    assert(seg_num(q, g@, m) * seg_d(g@, j) <= 0);
    assert(seg_num(q, g@, m) == 0) by (nonlinear_arith)
        requires
            seg_num(q, g@, m) * seg_d(g@, j) <= 0,
            seg_d(g@, j) > 0,
            seg_num(q, g@, m) >= 0,
    ;
    assert(dist_scaled_of(0, road_den(q, g)) == 0) by {
        vstd::arithmetic::div_mod::lemma_div_pos_is_pos(0, road_den(q, g));
        vstd::arithmetic::div_mod::lemma_div_nonincreasing(0, road_den(q, g));
        assert((SCALE * SCALE) * 0 == 0);
    }
}

/// Degenerate rejection: when two equally near segments of a road would
/// project a query point to two different feet, no unique closest point
/// exists and the projection is indeterminate.
pub proof fn lemma_degenerate_rejection(q: Point, g: Polyline, i: int, j: int)
    requires
        wf_points(g@),
        q.in_bounds(),
        seg_valid(g@, i),
        seg_valid(g@, j),
        !crate::geom::on_polyline(q, g@),
        crate::geom::seg_eq_dist(q, g@, i, j),
        !crate::geom::feet_eq(q, g@, i, j),
        forall|l: int| #[trigger] seg_valid(g@, l) ==> !crate::geom::seg_lt(q, g@, l, i),
    ensures
        closest_spec(q, g@) == Closest::Indeterminate,
        closest_mp(q, g) is None,
{
    lemma_fm_props(q, g@, g@.len() - 1);
    let m = fm(q, g@)->Some_0;
    assert(fm(q, g@) is Some);
    // the first minimizer is exactly as near as `i`
    assert(!crate::geom::seg_lt(q, g@, m, i));
    assert(!crate::geom::seg_lt(q, g@, i, m));
    assert(crate::geom::seg_eq_dist(q, g@, i, m)) by {
        assert(seg_num(q, g@, i) * seg_d(g@, m) >= seg_num(q, g@, m) * seg_d(g@, i));
        assert(seg_num(q, g@, i) * seg_d(g@, m) <= seg_num(q, g@, m) * seg_d(g@, i));
    }
    // `m` has a non-zero numerator, else `q` would lie on the polyline
    assert(seg_num(q, g@, m) != 0);
    // one of `i`, `j` has a foot different from `m`'s
    if crate::geom::feet_eq(q, g@, i, m) && crate::geom::feet_eq(q, g@, j, m) {
        lemma_feet_eq_trans(q, g@, i, m, j);
        assert(false);
    }
    lemma_seg_bounds(q, g@, i);
    lemma_seg_bounds(q, g@, j);
    lemma_seg_bounds(q, g@, m);
    if !crate::geom::feet_eq(q, g@, i, m) {
        assert(crate::geom::ambiguous(q, g@));
    } else {
        assert(crate::geom::seg_eq_dist(q, g@, j, m)) by {
            lemma_eq_dist_trans(q, g@, j, i, m);
        }
        assert(crate::geom::ambiguous(q, g@));
    }
}

/// Transitivity of exact foot equality across segments.
proof fn lemma_feet_eq_trans(q: Point, ps: Seq<Point>, i: int, m: int, j: int)
    requires
        seg_valid(ps, i),
        seg_valid(ps, m),
        seg_valid(ps, j),
        crate::geom::feet_eq(q, ps, i, m),
        crate::geom::feet_eq(q, ps, j, m),
    ensures
        crate::geom::feet_eq(q, ps, i, j),
{
    let fxi = crate::geom::foot_x(q, ps, i);
    let fyi = crate::geom::foot_y(q, ps, i);
    let fxm = crate::geom::foot_x(q, ps, m);
    let fym = crate::geom::foot_y(q, ps, m);
    let fxj = crate::geom::foot_x(q, ps, j);
    let fyj = crate::geom::foot_y(q, ps, j);
    let di = seg_d(ps, i);
    let dm = seg_d(ps, m);
    let dj = seg_d(ps, j);
    assert(fxi * dj == fxj * di) by (nonlinear_arith)
        requires
            di > 0,
            dm > 0,
            dj > 0,
            fxi * dm == fxm * di,
            fxj * dm == fxm * dj,
    ;
    assert(fyi * dj == fyj * di) by (nonlinear_arith)
        requires
            di > 0,
            dm > 0,
            dj > 0,
            fyi * dm == fym * di,
            fyj * dm == fym * dj,
    ;
}

/// Transitivity of exact distance equality across segments.
proof fn lemma_eq_dist_trans(q: Point, ps: Seq<Point>, j: int, i: int, m: int)
    requires
        seg_valid(ps, i),
        seg_valid(ps, m),
        seg_valid(ps, j),
        crate::geom::seg_eq_dist(q, ps, i, j),
        crate::geom::seg_eq_dist(q, ps, i, m),
    ensures
        crate::geom::seg_eq_dist(q, ps, j, m),
{
    let ni = seg_num(q, ps, i);
    let nj = seg_num(q, ps, j);
    let nm = seg_num(q, ps, m);
    let di = seg_d(ps, i);
    let dj = seg_d(ps, j);
    let dm = seg_d(ps, m);
    assert(nj * dm == nm * dj) by (nonlinear_arith)
        requires
            di > 0,
            dj > 0,
            dm > 0,
            ni * dj == nj * di,
            ni * dm == nm * di,
    ;
}


/// The projection of `q` onto road `i` of a collection is determinate.
pub open spec fn road_det(q: Point, gs: Seq<Polyline>, i: int) -> bool {
    0 <= i < gs.len() && closest_mp(q, gs[i]) is Some
}

/// Road `i` of a collection is strictly nearer to `q` than road `j`
/// (exact rational comparison of squared distances).
pub open spec fn mroad_lt(q: Point, gs: Seq<Polyline>, i: int, j: int) -> bool {
    road_num(q, gs[i]) * road_den(q, gs[j]) < road_num(q, gs[j]) * road_den(q, gs[i])
}

/// The distances from `q` to roads `i` and `j` are exactly equal.
pub open spec fn mroad_eq_dist(q: Point, gs: Seq<Polyline>, i: int, j: int) -> bool {
    road_num(q, gs[i]) * road_den(q, gs[j]) == road_num(q, gs[j]) * road_den(q, gs[i])
}

/// The first road among the first `n` with a determinate projection at
/// minimal distance to `q`, or `None` if none is determinate.
pub open spec fn mfm_upto(q: Point, gs: Seq<Polyline>, n: int) -> Option<int>
    decreases n,
{
    if n <= 0 {
        None
    } else {
        let prev = mfm_upto(q, gs, n - 1);
        if !road_det(q, gs, n - 1) {
            prev
        } else {
            match prev {
                None => Some(n - 1),
                Some(p) => if mroad_lt(q, gs, n - 1, p) {
                    Some(n - 1)
                } else {
                    prev
                },
            }
        }
    }
}

pub open spec fn mfm(q: Point, gs: Seq<Polyline>) -> Option<int> {
    mfm_upto(q, gs, gs.len() as int)
}

/// Some determinate road is exactly as near to `q` as the nearest but
/// projects `q` to a different point: no unique nearest point over the
/// collection.
pub open spec fn mambiguous(q: Point, gs: Seq<Polyline>) -> bool {
    mfm(q, gs) matches Some(m) && exists|j: int|
        #[trigger] road_det(q, gs, j) && mroad_eq_dist(q, gs, j, m) && !(closest_mp(
            q,
            gs[j],
        )->Some_0).r_eq(closest_mp(q, gs[m])->Some_0)
}

/// What projecting `q` onto a whole collection of roads yields: the query
/// point itself if it lies on some road; otherwise the projection onto the
/// first nearest determinate road, unless an equally near different
/// projection makes the nearest point ambiguous; `Indeterminate` when no
/// road projects determinately.
pub open spec fn multi_closest_spec(q: Point, gs: Seq<Polyline>) -> Closest {
    match mfm(q, gs) {
        None => Closest::Indeterminate,
        Some(m) => if road_num(q, gs[m]) == 0 {
            Closest::Intersection(MatchedPoint::from_point(q))
        } else if mambiguous(q, gs) {
            Closest::Indeterminate
        } else {
            Closest::SinglePoint(closest_mp(q, gs[m])->Some_0)
        },
    }
}

/// All geometries of a collection within the grid bound.
pub open spec fn wf_geoms(gs: Seq<Polyline>) -> bool {
    forall|i: int| 0 <= i < gs.len() ==> wf_points((#[trigger] gs[i])@)
}

/// A determinate road has a defined, positive-denominator, bounded
/// distance rational, and its projection point is bounded.
proof fn lemma_mroad_rational(q: Point, gs: Seq<Polyline>, i: int)
    requires
        wf_geoms(gs),
        q.in_bounds(),
        road_det(q, gs, i),
    ensures
        fm(q, gs[i]@) is Some,
        1 <= road_den(q, gs[i]) <= 0x20000000000,
        0 <= road_num(q, gs[i]) <= 0x400000000000000000000,
{
    assert(wf_points(gs[i]@));
    assert(fm(q, gs[i]@) is Some);
    lemma_fm_props(q, gs[i]@, gs[i]@.len() - 1);
    lemma_seg_bounds(q, gs[i]@, fm(q, gs[i]@)->Some_0);
}

/// What [`mfm_upto`] yields: nothing when no road is determinate;
/// otherwise a determinate road no farther than any determinate road and
/// strictly nearer than every earlier determinate one.
proof fn lemma_mfm_props(q: Point, gs: Seq<Polyline>, n: int)
    requires
        wf_geoms(gs),
        q.in_bounds(),
        n <= gs.len(),
    ensures
        mfm_upto(q, gs, n) is None <==> (forall|j: int| 0 <= j < n ==> !#[trigger] road_det(q, gs, j)),
        mfm_upto(q, gs, n) matches Some(m) ==> {
            &&& 0 <= m < n
            &&& road_det(q, gs, m)
            &&& forall|j: int| 0 <= j < n && #[trigger] road_det(q, gs, j) ==> !mroad_lt(q, gs, j, m)
            &&& forall|j: int| 0 <= j < m && #[trigger] road_det(q, gs, j) ==> mroad_lt(q, gs, m, j)
        },
    decreases n,
{
    if n <= 0 {
    } else {
        lemma_mfm_props(q, gs, n - 1);
        let prev = mfm_upto(q, gs, n - 1);
        if road_det(q, gs, n - 1) {
            lemma_mroad_rational(q, gs, n - 1);
            match prev {
                Option::None => {},
                Option::Some(p) => {
                    lemma_mroad_rational(q, gs, p);
                    if mroad_lt(q, gs, n - 1, p) {
                        assert forall|j: int|
                            0 <= j < n - 1 && #[trigger] road_det(q, gs, j) implies mroad_lt(
                            q,
                            gs,
                            n - 1,
                            j,
                        ) by {
                            lemma_mroad_rational(q, gs, j);
                            crate::geom::lemma_rat_trans(
                                road_num(q, gs[j]),
                                road_den(q, gs[j]),
                                road_num(q, gs[p]),
                                road_den(q, gs[p]),
                                road_num(q, gs[n - 1]),
                                road_den(q, gs[n - 1]),
                            );
                        }
                    }
                },
            }
        }
    }
}

/// Project `q` onto a whole collection of road geometries, exactly as
/// [`multi_closest_spec`] describes.
pub fn multi_closest_point(gs: &Vec<Polyline>, q: &Point) -> (r: Closest)
    requires
        wf_geoms(gs@),
        q.in_bounds(),
    ensures
        r == multi_closest_spec(*q, gs@),
{
    let n = gs.len();
    let mut has_best: bool = false;
    let mut best_idx: usize = 0;
    let mut best_num: u128 = 0;
    let mut best_den: u128 = 1;
    let mut best_mp = MatchedPoint { x_num: 0, y_num: 0, den: 1 };
    let mut tied: bool = false;
    let mut i: usize = 0;
    while i < n
        invariant
            wf_geoms(gs@),
            q.in_bounds(),
            n == gs@.len(),
            0 <= i <= n,
            has_best == (mfm_upto(*q, gs@, i as int) is Some),
            has_best ==> {
                &&& mfm_upto(*q, gs@, i as int) == Some(best_idx as int)
                &&& best_idx < i
                &&& road_det(*q, gs@, best_idx as int)
                &&& best_num == road_num(*q, gs@[best_idx as int])
                &&& best_den == road_den(*q, gs@[best_idx as int])
                &&& best_mp == closest_mp(*q, gs@[best_idx as int])->Some_0
            },
            tied == (has_best && exists|j: int|
                0 <= j < i && #[trigger] road_det(*q, gs@, j) && mroad_eq_dist(
                    *q,
                    gs@,
                    j,
                    best_idx as int,
                ) && !(closest_mp(*q, gs@[j])->Some_0).r_eq(
                    closest_mp(*q, gs@[best_idx as int])->Some_0,
                )),
            forall|j: int|
                0 <= j < i && #[trigger] road_det(*q, gs@, j) ==> road_num(*q, gs@[j]) != 0,
        decreases n - i,
    {
        let ghost gi = i as int;
        let g = &gs[i];
        let (c, num, den) = g.closest_point_full(q);
        let mp_opt = match c {
            Closest::SinglePoint(m) => Some(m),
            Closest::Intersection(m) => Some(m),
            Closest::Indeterminate => None,
        };
        match mp_opt {
            Option::None => {
                proof {
                    assert(!road_det(*q, gs@, gi));
                    assert(mfm_upto(*q, gs@, gi + 1) == mfm_upto(*q, gs@, gi));
                }
            },
            Option::Some(mp) => {
                proof {
                    assert(road_det(*q, gs@, gi));
                    lemma_mroad_rational(*q, gs@, gi);
                    lemma_closest_mp_bounds(*q, gs@[gi]);
                }
                if num == 0 {
                    proof {
                        lemma_mfm_props(*q, gs@, gs@.len() as int);
                        let m = mfm(*q, gs@)->Some_0;
                        assert(mfm(*q, gs@) is Some);
                        assert(!mroad_lt(*q, gs@, gi, m));
                        lemma_mroad_rational(*q, gs@, m);
                        assert(road_num(*q, gs@[m]) == 0) by (nonlinear_arith)
                            requires
                                road_num(*q, gs@[m]) * road_den(*q, gs@[gi]) <= 0,
                                road_den(*q, gs@[gi]) > 0,
                                road_num(*q, gs@[m]) >= 0,
                        ;
                    }
                    return Closest::Intersection(MatchedPoint { x_num: q.x, y_num: q.y, den: 1 });
                }
                if !has_best {
                    has_best = true;
                    best_idx = i;
                    best_num = num;
                    best_den = den;
                    best_mp = mp;
                    tied = false;
                    proof {
                        lemma_mfm_props(*q, gs@, gi);
                        assert(mfm_upto(*q, gs@, gi + 1) == Some(gi));
                    }
                } else {
                    proof {
                        lemma_mroad_rational(*q, gs@, best_idx as int);
                        lemma_closest_mp_bounds(*q, gs@[best_idx as int]);
                        crate::geom::lemma_mul_nonneg_le(
                            num as int,
                            best_den as int,
                            0x400000000000000000000,
                            0x20000000000,
                        );
                        crate::geom::lemma_mul_nonneg_le(
                            best_num as int,
                            den as int,
                            0x400000000000000000000,
                            0x20000000000,
                        );
                    }
                    let lhs: u128 = num * best_den;
                    let rhs: u128 = best_num * den;
                    let ghost ob = best_idx as int;
                    if lhs < rhs {
                        proof {
                            lemma_mfm_props(*q, gs@, gi);
                            assert(mfm_upto(*q, gs@, gi + 1) == Some(gi));
                        }
                        best_idx = i;
                        best_num = num;
                        best_den = den;
                        best_mp = mp;
                        tied = false;
                        proof {
                            assert forall|j: int|
                                0 <= j < gi + 1 && #[trigger] road_det(*q, gs@, j) && j != gi
                                implies mroad_lt(*q, gs@, gi, j) by {
                                lemma_mroad_rational(*q, gs@, j);
                                lemma_mroad_rational(*q, gs@, ob);
                                lemma_mroad_rational(*q, gs@, gi);
                                crate::geom::lemma_rat_trans(
                                    road_num(*q, gs@[j]),
                                    road_den(*q, gs@[j]),
                                    road_num(*q, gs@[ob]),
                                    road_den(*q, gs@[ob]),
                                    road_num(*q, gs@[gi]),
                                    road_den(*q, gs@[gi]),
                                );
                            }
                            assert(!(exists|j: int|
                                0 <= j < gi + 1 && #[trigger] road_det(*q, gs@, j)
                                    && mroad_eq_dist(*q, gs@, j, gi) && !(closest_mp(
                                    *q,
                                    gs@[j],
                                )->Some_0).r_eq(closest_mp(*q, gs@[gi])->Some_0)));
                        }
                    } else {
                        proof {
                            assert(!mroad_lt(*q, gs@, gi, ob));
                            assert(mfm_upto(*q, gs@, gi + 1) == Some(ob));
                        }
                        if lhs == rhs {
                            proof {
                                crate::geom::lemma_mul_bound(
                                    mp.x_num as int,
                                    best_mp.den as int,
                                    0x4000000000000000,
                                    0x20000000000,
                                );
                                crate::geom::lemma_mul_bound(
                                    best_mp.x_num as int,
                                    mp.den as int,
                                    0x4000000000000000,
                                    0x20000000000,
                                );
                                crate::geom::lemma_mul_bound(
                                    mp.y_num as int,
                                    best_mp.den as int,
                                    0x4000000000000000,
                                    0x20000000000,
                                );
                                crate::geom::lemma_mul_bound(
                                    best_mp.y_num as int,
                                    mp.den as int,
                                    0x4000000000000000,
                                    0x20000000000,
                                );
                            }
                            let same = (mp.x_num as i128) * (best_mp.den as i128) == (
                            best_mp.x_num as i128) * (mp.den as i128) && (mp.y_num as i128) * (
                            best_mp.den as i128) == (best_mp.y_num as i128) * (mp.den as i128);
                            proof {
                                assert(same == mp.r_eq(best_mp));
                            }
                            if !same {
                                tied = true;
                                proof {
                                    assert(road_det(*q, gs@, gi) && mroad_eq_dist(
                                        *q,
                                        gs@,
                                        gi,
                                        ob,
                                    ) && !(closest_mp(*q, gs@[gi])->Some_0).r_eq(
                                        closest_mp(*q, gs@[ob])->Some_0,
                                    ));
                                }
                            } else {
                            }
                        } else {
                        }
                    }
                }
            },
        }
        i += 1;
    }
    if !has_best {
        proof {
            lemma_mfm_props(*q, gs@, gs@.len() as int);
        }
        return Closest::Indeterminate;
    }
    if tied {
        return Closest::Indeterminate;
    }
    Closest::SinglePoint(best_mp)
}

impl ClosestPoint for crate::table::road::Roads {
    open spec fn closest_req(self, p: Point) -> bool {
        wf_geoms(self.geom@) && p.in_bounds()
    }

    open spec fn closest_point_spec(self, p: Point) -> Closest {
        multi_closest_spec(p, self.geom@)
    }

    fn closest_point(&self, p: &Point) -> (r: Closest) {
        multi_closest_point(&self.geom, p)
    }
}

} // verus!
