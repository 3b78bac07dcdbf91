//! Tests for the geometric primitives, the spatial index, and the segment
//! matcher. Coordinates live on the library's integer grid; data taken
//! from fractional sources is scaled by ten.

use rusty_roads::geom::{isqrt, line_similarity, Closest, Line, MatchedPoint, Point, Polyline};
use rusty_roads::index::{BuildError, RoadIndex};
use rusty_roads::map_match::{
    candidates, map_match_traj_to_road, segment_match, select_best, ClosestPoint, MatchedLine,
};
use rusty_roads::table::road::{Direction, Road};
use rusty_roads::table::Insertable;

fn polyline(coords: &[(i64, i64)]) -> Polyline {
    let mut pts = Vec::new();
    for &(x, y) in coords {
        pts.push(Point::new(x, y));
    }
    Polyline::new(pts)
}

fn new_road(geom: Polyline) -> Road {
    Road {
        id: 0,
        geom,
        osm_id: 69,
        code: 42,
        direction: Direction::Bidirectional,
        maxspeed: 2137,
        layer: 1,
        bridge: false,
        tunnel: false,
    }
}

fn index_of(ids: &[u64], roads: &[&[(i64, i64)]]) -> RoadIndex {
    let mut geoms = Vec::new();
    for r in roads {
        geoms.push(polyline(r));
    }
    RoadIndex::from_ids_and_roads(ids.to_vec(), geoms).expect("index should build")
}

#[test]
fn road_identical_closest() {
    let coords = [(1, 2), (3, 4), (5, 6)];
    let road = new_road(polyline(&coords));
    let res = coords.iter().all(|&(x, y)| {
        matches!(
            road.closest_point(&Point::new(x, y)),
            Closest::Intersection(_)
        )
    });
    assert!(res)
}

#[test]
fn road_indeterminate_closest() {
    // these queries sit on the segment's perpendicular bisector, yet each
    // has a unique closest point (the foot of the perpendicular), so
    // neither projection is indeterminate; genuine ambiguity needs two
    // equally near different feet (see degenerate_rejection)
    let ls = [(1, 1), (1, 2)];
    let road = new_road(polyline(&[(0, 0), (2, 0)]));
    let res = ls
        .iter()
        .all(|&(x, y)| matches!(road.closest_point(&Point::new(x, y)), Closest::Indeterminate));
    assert!(!res);
    for &(x, y) in ls.iter() {
        match road.closest_point(&Point::new(x, y)) {
            Closest::SinglePoint(m) => {
                assert_eq!((m.x_num / m.den, m.y_num / m.den), (1, 0));
            }
            other => panic!("expected the foot of the perpendicular, got {:?}", other),
        }
    }
}

#[test]
fn rtree_nn() {
    let rtree = index_of(&[1, 2], &[&[(10, 0), (20, 0)], &[(20, 0), (30, 0)]]);
    let qp = Point::new(11, 0);
    let nn = rtree.nearest_neighbors(&qp, 1);
    assert_eq!(nn.len(), 1);
    let closest = rtree.geom_at(nn[0]).closest_point(&qp);
    assert!(!matches!(closest, Closest::Indeterminate));
    assert_eq!(rtree.id_at(nn[0]), 1);
}

#[test]
fn segment_test() {
    // every segment of a trajectory running near the two roads should be
    // matchable
    let rtree = index_of(&[1, 2], &[&[(0, 0), (100, 0)], &[(100, 0), (100, 100)]]);
    let traj = [
        Line::new(Point::new(10, 4), Point::new(50, 5)),
        Line::new(Point::new(50, 5), Point::new(98, 30)),
    ];
    let matched = segment_match(&traj.to_vec(), &rtree, 20)
        .expect("should be able to match all lines");
    assert_eq!(matched.len(), 2);
}

#[test]
fn slope() {
    let line = Line::new(Point::new(0, 0), Point::new(0, 1));
    let other_line = Line::new(Point::new(0, 1), Point::new(1, 1));
    // scaled by 256: floor(256 * sqrt(2)) == 362
    assert_eq!(line_similarity(&line, &other_line), 362);
}

#[test]
fn line_similarity_extremes() {
    let a = Line::new(Point::new(0, 0), Point::new(7, 0));
    let same_direction = Line::new(Point::new(5, 5), Point::new(9, 5));
    let opposite = Line::new(Point::new(9, 5), Point::new(5, 5));
    assert_eq!(line_similarity(&a, &a), 0);
    assert_eq!(line_similarity(&a, &same_direction), 0);
    assert_eq!(line_similarity(&a, &opposite), 512);
    // a degenerate segment is guarded to zero
    let degenerate = Line::new(Point::new(3, 3), Point::new(3, 3));
    assert_eq!(line_similarity(&a, &degenerate), 0);
}

#[test]
fn isqrt_exact() {
    assert_eq!(isqrt(0), 0);
    assert_eq!(isqrt(1), 1);
    assert_eq!(isqrt(2), 1);
    assert_eq!(isqrt(4), 2);
    assert_eq!(isqrt(99), 9);
    assert_eq!(isqrt(100), 10);
    assert_eq!(isqrt(131072), 362);
}

#[test]
fn identity_match() {
    // every trajectory point lies exactly on the road: each projection is
    // an intersection at the point itself, at distance zero
    let road_geom = polyline(&[(10, 20), (30, 40), (50, 60)]);
    let on_road = [
        Point::new(10, 20),
        Point::new(20, 30),
        Point::new(30, 40),
        Point::new(45, 55),
        Point::new(50, 60),
    ];
    for p in on_road.iter() {
        match road_geom.closest_point(p) {
            Closest::Intersection(m) => {
                assert_eq!(m.x_num, p.x);
                assert_eq!(m.y_num, p.y);
                assert_eq!(m.den, 1);
            }
            other => panic!("expected an intersection, got {:?}", other),
        }
    }
    let matched = map_match_traj_to_road(&on_road.to_vec(), &new_road(road_geom));
    assert_eq!(matched.len(), on_road.len());
    for (m, p) in matched.iter().zip(on_road.iter()) {
        assert_eq!((m.x_num, m.y_num, m.den), (p.x, p.y, 1));
    }
}

#[test]
fn degenerate_rejection() {
    // a query point on the bisector of a right-angle road corner is
    // exactly equidistant from two different feet: indeterminate
    let corner = polyline(&[(20, 0), (0, 0), (0, 20)]);
    assert!(matches!(
        corner.closest_point(&Point::new(10, 10)),
        Closest::Indeterminate
    ));
    // off the bisector the projection is unique
    assert!(matches!(
        corner.closest_point(&Point::new(10, 9)),
        Closest::SinglePoint(_)
    ));
}

#[test]
fn empty_index_queries() {
    // a freshly constructed index yields no candidates, distinguishable
    // from any successful query
    let idx = RoadIndex::new();
    let nn = idx.nearest_neighbors(&Point::new(0, 0), 5);
    assert_eq!(nn.len(), 0);
    let l = Line::new(Point::new(0, 0), Point::new(1, 1));
    let cands = candidates(&l, &idx, 5);
    assert_eq!(cands.len(), 0);
    assert!(select_best(&l, &idx, &cands).is_none());
    let boxed = idx.box_query(&Point::new(-10, -10), &Point::new(10, 10));
    assert_eq!(boxed.len(), 0);
}

#[test]
fn concrete_scenario() {
    // two collinear roads sharing the point (20, 0); the segment matches
    // the first road, with its end snapped near the shared area
    let rtree = index_of(&[1, 2], &[&[(10, 0), (20, 0)], &[(20, 0), (30, 0)]]);
    let traj = vec![Line::new(Point::new(10, 4), Point::new(21, 5))];
    let matched = segment_match(&traj, &rtree, 20).expect("the segment should match");
    assert_eq!(matched.len(), 1);
    let MatchedLine { start, end } = matched[0];
    // start snaps to (10, 0), end to the shared point (20, 0)
    assert_eq!((start.x_num, start.y_num, start.den), (1000, 0, 100));
    assert_eq!((end.x_num, end.y_num, end.den), (2000, 0, 100));
}

#[test]
fn fail_fast_termination() {
    // the second segment lies on the corner bisector of the only nearby
    // road, so both its endpoints project indeterminately: matching
    // aborts exactly there, with the original segment returned
    let rtree = index_of(
        &[1, 2],
        &[&[(20, 0), (0, 0), (0, 20)], &[(100, 100), (200, 100)]],
    );
    let good = Line::new(Point::new(100, 100), Point::new(120, 101));
    let bad = Line::new(Point::new(10, 10), Point::new(11, 11));
    let traj = vec![good, bad];
    let res = segment_match(&traj, &rtree, 1);
    match res {
        Err((i, l)) => {
            assert_eq!(i, 1);
            assert_eq!(l, bad);
        }
        Ok(_) => panic!("matching should fail on the bisector segment"),
    }
    // with the unmatchable segment first, nothing is emitted at all
    let res2 = segment_match(&vec![bad, good], &rtree, 1);
    assert!(matches!(res2, Err((0, _))));
}

#[test]
fn cardinality_preservation() {
    let rtree = index_of(&[1], &[&[(0, 0), (1000, 0)]]);
    let mut traj = Vec::new();
    for i in 0..9 {
        traj.push(Line::new(
            Point::new(i * 100, 3),
            Point::new((i + 1) * 100, 3),
        ));
    }
    let matched = segment_match(&traj, &rtree, 5).expect("all segments should match");
    assert_eq!(matched.len(), traj.len());
}

fn dissimilarity(matched: &[MatchedLine], clean: &[Line]) -> f64 {
    let mp = |m: &MatchedPoint, p: &Point| -> f64 {
        let x = m.x_num as f64 / m.den as f64 - p.x as f64;
        let y = m.y_num as f64 / m.den as f64 - p.y as f64;
        x * x + y * y
    };
    matched
        .iter()
        .zip(clean.iter())
        .map(|(m, l)| mp(&m.start, &l.start) + mp(&m.end, &l.end))
        .sum()
}

#[test]
fn noise_monotonicity() {
    // matching noisier versions of a clean trajectory along one road must
    // not yield a better match than less noisy versions
    let rtree = index_of(&[1], &[&[(0, 0), (1000, 0)]]);
    let clean = vec![
        Line::new(Point::new(100, 0), Point::new(200, 0)),
        Line::new(Point::new(200, 0), Point::new(300, 0)),
    ];
    let mut prev = -1.0f64;
    for noise in [2i64, 5, 11, 23] {
        let noisy: Vec<Line> = clean
            .iter()
            .map(|l| {
                Line::new(
                    Point::new(l.start.x + noise, l.start.y - noise),
                    Point::new(l.end.x + noise, l.end.y - noise),
                )
            })
            .collect();
        let matched = segment_match(&noisy, &rtree, 5).expect("noisy segments should match");
        let d = dissimilarity(&matched, &clean);
        assert!(
            d >= prev,
            "a noisier input must not match the clean trajectory better"
        );
        prev = d;
    }
}

#[test]
fn index_build_rejections() {
    // mismatched array lengths
    let r = RoadIndex::from_ids_and_roads(vec![1, 2], vec![polyline(&[(0, 0), (1, 1)])]);
    assert!(matches!(r, Err(BuildError::MismatchedLengths)));
    // fewer than two points
    let r = RoadIndex::from_ids_and_roads(vec![1], vec![polyline(&[(0, 0)])]);
    assert!(matches!(r, Err(BuildError::MalformedGeometry)));
    // no segment of positive length
    let r = RoadIndex::from_ids_and_roads(vec![1], vec![polyline(&[(5, 5), (5, 5)])]);
    assert!(matches!(r, Err(BuildError::MalformedGeometry)));
    // a coordinate beyond the grid bound
    let r = RoadIndex::from_ids_and_roads(vec![1], vec![polyline(&[(0, 0), (600000, 0)])]);
    assert!(matches!(r, Err(BuildError::MalformedGeometry)));
}

#[test]
fn index_insert_and_empty() {
    let mut idx = RoadIndex::new();
    assert!(idx.insert(7, polyline(&[(0, 0), (5, 0)])).is_ok());
    assert!(idx.insert(9, polyline(&[(5, 5)])).is_err());
    assert_eq!(idx.len(), 1);
    assert_eq!(idx.id_at(0), 7);
    idx.empty();
    assert_eq!(idx.len(), 0);
}

#[test]
fn box_query_intersections() {
    let idx = index_of(
        &[1, 2, 3],
        &[
            &[(0, 0), (10, 10)],
            &[(20, 20), (30, 25)],
            &[(5, 5), (50, 50)],
        ],
    );
    // every road whose geometry meets the box is found, each once
    let mut hits = idx.box_query(&Point::new(-1, -1), &Point::new(35, 35));
    hits.sort();
    assert_eq!(hits, vec![1, 2, 3]);
    // a road crossing into the box counts even though its bounding box is
    // not contained in it
    let crossing = idx.box_query(&Point::new(5, 5), &Point::new(20, 20));
    assert!(crossing.contains(&1));
    let all = idx.box_query(&Point::new(-100, -100), &Point::new(100, 100));
    assert_eq!(all.len(), 3);
    let none = idx.box_query(&Point::new(60, 60), &Point::new(70, 70));
    assert_eq!(none.len(), 0);
    // overlapping bounding boxes alone are not enough: the box sits
    // beside the diagonal road without touching it
    let beside = index_of(&[7], &[&[(0, 6), (6, 0)]]);
    let missed = beside.box_query(&Point::new(4, 4), &Point::new(9, 9));
    assert_eq!(missed.len(), 0);
    let touched = beside.box_query(&Point::new(2, 2), &Point::new(9, 9));
    assert_eq!(touched, vec![7]);
}

#[test]
fn candidates_are_bounded_and_ordered() {
    let idx = index_of(
        &[1, 2, 3],
        &[
            &[(0, 0), (10, 0)],
            &[(0, 100), (10, 100)],
            &[(0, 210), (10, 210)],
        ],
    );
    let l = Line::new(Point::new(5, 10), Point::new(5, 120));
    let cands = candidates(&l, &idx, 2);
    // two nearest for the start, two nearest for the end, concatenated
    assert_eq!(cands.len(), 4);
    assert_eq!(idx.id_at(cands[0]), 1);
    assert_eq!(idx.id_at(cands[1]), 2);
    assert_eq!(idx.id_at(cands[2]), 2);
    assert_eq!(idx.id_at(cands[3]), 3);
}

#[test]
fn select_best_prefers_covering_road() {
    // the road covering both endpoints wins over one that projects both
    // endpoints to a single shared point (the doubled-cost guard)
    let idx = index_of(&[1, 2], &[&[(0, 10), (100, 10)], &[(-50, 0), (0, 0)]]);
    let l = Line::new(Point::new(10, 5), Point::new(90, 5));
    let cands = candidates(&l, &idx, 2);
    let (winner, ms, me) = select_best(&l, &idx, &cands).expect("a candidate should score");
    assert_eq!(idx.id_at(cands[winner]), 1);
    assert_ne!((ms.x_num, ms.den), (me.x_num, me.den));
}

#[test]
fn lines_vs_points() {
    let pts = vec![
        Point::new(1, 2),
        Point::new(2, 3),
        Point::new(3, 4),
        Point::new(4, 5),
    ];
    let segs = rusty_roads::geom::segments_of(&pts);
    assert_eq!(segs.len(), pts.len() - 1);
    assert_eq!(segs[0], Line::new(pts[0], pts[1]));
    assert_eq!(segs[2], Line::new(pts[2], pts[3]));
    assert_eq!(rusty_roads::geom::segments_of(&Vec::new()).len(), 0);
}

#[test]
fn box_query_after_insert() {
    // entries added to a live index are found by envelope queries
    let mut idx = RoadIndex::new();
    idx.insert(5, polyline(&[(1, 1), (4, 4)])).expect("valid road");
    idx.insert(6, polyline(&[(40, 40), (44, 48)])).expect("valid road");
    let near = idx.box_query(&Point::new(0, 0), &Point::new(10, 10));
    assert_eq!(near, vec![5]);
    let far = idx.box_query(&Point::new(39, 39), &Point::new(45, 49));
    assert_eq!(far, vec![6]);
}

#[test]
fn roads_collection_closest() {
    let mut roads: rusty_roads::table::road::Roads = rusty_roads::default();
    let mut r1 = new_road(polyline(&[(0, 0), (100, 0)]));
    r1.osm_id = 1;
    let mut r2 = new_road(polyline(&[(0, 50), (100, 50)]));
    r2.osm_id = 2;
    roads.insert(r1);
    roads.insert(r2);
    // nearer the first road: a unique projection onto it
    match roads.closest_point(&Point::new(30, 10)) {
        Closest::SinglePoint(m) => assert_eq!((m.x_num / m.den, m.y_num / m.den), (30, 0)),
        other => panic!("expected a unique projection, got {:?}", other),
    }
    // on the second road: an intersection
    assert!(matches!(
        roads.closest_point(&Point::new(70, 50)),
        Closest::Intersection(_)
    ));
    // exactly between the two roads: ambiguous between two feet
    assert!(matches!(
        roads.closest_point(&Point::new(30, 25)),
        Closest::Indeterminate
    ));
}
