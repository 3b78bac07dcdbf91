//! The spatial index: road polylines keyed by stable identifiers, with
//! exact nearest-neighbor ranking and an R-tree of bounding boxes for
//! envelope queries.

use vstd::multiset::Multiset;
use vstd::prelude::*;

use crate::boxtree::{
    box_tree_bulk_load, box_tree_contents, box_tree_insert, box_tree_locate_intersecting,
    box_tree_new, entry_bounded, entry_ordered, BoxEntry, BoxTree,
};
use crate::geom::{
    dist2, fm, seg_d, seg_num, seg_valid, wf_points, Point, Polyline, COORD_LIMIT,
};
use crate::Id;

verus! {

/// Why building or inserting into the index rejected its input.
#[derive(Clone, Copy, PartialEq, Eq, Structural, Debug)]
pub enum BuildError {
    /// The identifier and geometry arrays have different lengths.
    MismatchedLengths,
    /// A polyline has fewer than two points, an out-of-bounds coordinate,
    /// or no segment of positive length.
    MalformedGeometry,
}

/// A polyline acceptable as road geometry: at least two points, all within
/// the grid bound, and at least one segment of positive length.
pub open spec fn road_ok(ps: Seq<Point>) -> bool {
    &&& ps.len() >= 2
    &&& wf_points(ps)
    &&& exists|i: int| seg_valid(ps, i)
}

/// Bounding box `(min_x, min_y, max_x, max_y)` of the first `n` points.
pub open spec fn bbox_upto(ps: Seq<Point>, n: int) -> (int, int, int, int)
    decreases n,
{
    if n <= 1 {
        (ps[0].x as int, ps[0].y as int, ps[0].x as int, ps[0].y as int)
    } else {
        let b = bbox_upto(ps, n - 1);
        let p = ps[n - 1];
        (
            if p.x < b.0 {
                p.x as int
            } else {
                b.0
            },
            if p.y < b.1 {
                p.y as int
            } else {
                b.1
            },
            if p.x > b.2 {
                p.x as int
            } else {
                b.2
            },
            if p.y > b.3 {
                p.y as int
            } else {
                b.3
            },
        )
    }
}

/// The box-tree entry of the road stored at index position `pos`: the
/// position and the bounding box of its geometry.
pub open spec fn pos_entry(pos: int, g: Polyline) -> BoxEntry {
    let b = bbox_upto(g@, g@.len() as int);
    (pos as u64, b.0 as i64, b.1 as i64, b.2 as i64, b.3 as i64)
}

/// The box-tree entries of a geometry array, keyed by position.
pub open spec fn entries_seq(gs: Seq<Polyline>) -> Seq<BoxEntry> {
    Seq::new(gs.len(), |i: int| pos_entry(i, gs[i]))
}

/// The bounding box of the first `n >= 1` in-bounds points is in bounds,
/// ordered, and contains each of those points.
proof fn lemma_bbox_bounds(ps: Seq<Point>, n: int)
    requires
        wf_points(ps),
        1 <= n <= ps.len(),
    ensures
        ({
            let b = bbox_upto(ps, n);
            &&& -COORD_LIMIT <= b.0 <= b.2 <= COORD_LIMIT
            &&& -COORD_LIMIT <= b.1 <= b.3 <= COORD_LIMIT
        }),
        forall|j: int|
            0 <= j < n ==> {
                let b = bbox_upto(ps, n);
                &&& b.0 <= (#[trigger] ps[j]).x <= b.2
                &&& b.1 <= ps[j].y <= b.3
            },
    decreases n,
{
    assert(ps[0].in_bounds());
    if n > 1 {
        lemma_bbox_bounds(ps, n - 1);
        assert(ps[n - 1].in_bounds());
    }
}

/// Properties of the stored entries of a well-formed geometry array: each
/// entry's corners are ordered and in bounds, its first component is its
/// position, and no entry occurs twice.
proof fn lemma_entries_props(gs: Seq<Polyline>)
    requires
        gs.len() <= usize::MAX,
        forall|i: int| 0 <= i < gs.len() ==> road_ok((#[trigger] gs[i])@),
    ensures
        forall|e: BoxEntry|
            #[trigger] entries_seq(gs).to_multiset().count(e) > 0 ==> entry_ordered(e)
                && entry_bounded(e) && e.0 < gs.len() && e == entries_seq(gs)[e.0 as int],
        entries_seq(gs).no_duplicates(),
        forall|e: BoxEntry|
            #[trigger] entries_seq(gs).to_multiset().count(e) > 0 ==> entries_seq(
                gs,
            ).to_multiset().count(e) == 1,
{
    broadcast use vstd::seq_lib::group_to_multiset_ensures;
    broadcast use vstd::multiset::group_multiset_axioms;

    let es = entries_seq(gs);
    assert forall|e: BoxEntry| #[trigger] es.to_multiset().count(e) > 0 implies entry_ordered(e)
        && entry_bounded(e) && e.0 < gs.len() && e == es[e.0 as int] by {
        assert(es.contains(e));
        let k = choose|k: int| 0 <= k < es.len() && es[k] == e;
        assert(road_ok(gs[k]@));
        lemma_bbox_bounds(gs[k]@, gs[k]@.len() as int);
        assert(e.0 == k);
    }
    assert(es.no_duplicates()) by {
        assert forall|a: int, b: int|
            0 <= a < es.len() && 0 <= b < es.len() && a != b implies es[a] != es[b] by {
            assert(es[a].0 == a && es[b].0 == b);
        }
    }
    es.lemma_multiset_has_no_duplicates();
}

/// Two points coincide exactly when their squared distance is zero.
pub proof fn lemma_dist2_zero(p: Point, q: Point)
    ensures
        dist2(p, q) >= 0,
        (dist2(p, q) == 0) <==> (p.x == q.x && p.y == q.y),
{
    crate::geom::lemma_sq_nonneg(p.x - q.x);
    crate::geom::lemma_sq_nonneg(p.y - q.y);
    assert((p.x - q.x != 0 ==> (p.x - q.x) * (p.x - q.x) > 0) && (p.x - q.x == 0 ==> (p.x - q.x)
        * (p.x - q.x) == 0)) by (nonlinear_arith);
    assert((p.y - q.y != 0 ==> (p.y - q.y) * (p.y - q.y) > 0) && (p.y - q.y == 0 ==> (p.y - q.y)
        * (p.y - q.y) == 0)) by (nonlinear_arith);
}

/// The spatial index over road geometries.
///
/// `ids` and `geoms` are parallel arrays: entry `i` is road `ids[i]` with
/// geometry `geoms[i]`. The box tree mirrors the entries' bounding boxes.
/// The fields are public for inspection; mutate only through the methods,
/// which keep [`RoadIndex::wf`].
pub struct RoadIndex {
    pub ids: Vec<Id>,
    pub geoms: Vec<Polyline>,
    pub tree: BoxTree,
}

impl RoadIndex {
    /// Well-formed: parallel arrays, acceptable geometry, and a box tree
    /// that mirrors the entries.
    pub open spec fn wf(self) -> bool {
        &&& self.ids@.len() == self.geoms@.len()
        &&& forall|i: int|
            0 <= i < self.geoms@.len() ==> road_ok((#[trigger] self.geoms@[i])@)
        &&& box_tree_contents(self.tree) == entries_seq(self.geoms@).to_multiset()
    }

    /// Number of road entries.
    pub fn len(&self) -> (n: usize)
        ensures
            n == self.ids@.len(),
    {
        self.ids.len()
    }

    /// Identifier of entry `i`.
    pub fn id_at(&self, i: usize) -> (id: Id)
        requires
            i < self.ids@.len(),
        ensures
            id == self.ids@[i as int],
    {
        self.ids[i]
    }

    /// Geometry of entry `i`.
    pub fn geom_at(&self, i: usize) -> (g: &Polyline)
        requires
            self.wf(),
            i < self.geoms@.len(),
        ensures
            g == self.geoms@[i as int],
            road_ok(g@),
    {
        &self.geoms[i]
    }

    /// A fresh, empty index.
    pub fn new() -> (r: RoadIndex)
        ensures
            r.wf(),
            r.ids@.len() == 0,
    {
        let tree = box_tree_new();
        proof {
            broadcast use vstd::seq_lib::group_to_multiset_ensures;

            assert(entries_seq(Seq::<Polyline>::empty()).to_multiset()
                =~= Multiset::<BoxEntry>::empty());
        }
        RoadIndex { ids: Vec::new(), geoms: Vec::new(), tree }
    }

    /// Bulk-construct the index from parallel arrays. Rejects arrays of
    /// different lengths and malformed geometry; otherwise the index holds
    /// exactly the given entries, in order.
    pub fn from_ids_and_roads(ids: Vec<Id>, roads: Vec<Polyline>) -> (r: Result<
        RoadIndex,
        BuildError,
    >)
        ensures
            match r {
                Ok(idx) => {
                    &&& ids@.len() == roads@.len()
                    &&& forall|i: int| 0 <= i < roads@.len() ==> road_ok((#[trigger] roads@[i])@)
                    &&& idx.ids@ == ids@
                    &&& idx.geoms@ == roads@
                    &&& idx.wf()
                },
                Err(BuildError::MismatchedLengths) => ids@.len() != roads@.len(),
                Err(BuildError::MalformedGeometry) => ids@.len() == roads@.len() && exists|i: int|
                    0 <= i < roads@.len() && !road_ok((#[trigger] roads@[i])@),
            },
    {
        if ids.len() != roads.len() {
            return Err(BuildError::MismatchedLengths);
        }
        let n = roads.len();
        let mut i: usize = 0;
        while i < n
            invariant
                n == roads@.len(),
                ids@.len() == roads@.len(),
                0 <= i <= n,
                forall|j: int| 0 <= j < i ==> road_ok((#[trigger] roads@[j])@),
            decreases n - i,
        {
            if !check_road(&roads[i]) {
                proof {
                    assert(!road_ok((roads@[i as int])@));
                    assert(exists|k: int|
                        0 <= k < roads@.len() && !road_ok((#[trigger] roads@[k])@));
                }
                return Err(BuildError::MalformedGeometry);
            }
            i += 1;
        }
        let mut entries: Vec<BoxEntry> = Vec::new();
        let mut j: usize = 0;
        while j < n
            invariant
                n == roads@.len(),
                n == ids@.len(),
                0 <= j <= n,
                entries@.len() == j,
                forall|k: int| 0 <= k < n ==> road_ok((#[trigger] roads@[k])@),
                forall|k: int|
                    0 <= k < j ==> #[trigger] entries@[k] == pos_entry(k, roads@[k])
                        && entry_ordered(entries@[k]),
            decreases n - j,
        {
            let (x0, y0, x1, y1) = poly_bbox(&roads[j]);
            entries.push((j as u64, x0, y0, x1, y1));
            j += 1;
        }
        proof {
            assert(entries@ =~= entries_seq(roads@));
        }
        let tree = box_tree_bulk_load(entries);
        Ok(RoadIndex { ids, geoms: roads, tree })
    }

    /// Add one entry to a live index. Rejects malformed geometry and
    /// otherwise appends the entry.
    pub fn insert(&mut self, id: Id, road: Polyline) -> (r: Result<(), BuildError>)
        requires
            old(self).wf(),
        ensures
            match r {
                Ok(()) => {
                    &&& road_ok(road@)
                    &&& final (self).ids@ == old(self).ids@.push(id)
                    &&& final (self).geoms@ == old(self).geoms@.push(road)
                    &&& final (self).wf()
                },
                Err(BuildError::MalformedGeometry) => {
                    &&& !road_ok(road@)
                    &&& *final (self) == *old(self)
                },
                Err(BuildError::MismatchedLengths) => false,
            },
    {
        if !check_road(&road) {
            return Err(BuildError::MalformedGeometry);
        }
        let (x0, y0, x1, y1) = poly_bbox(&road);
        let pos = self.ids.len();
        let entry: BoxEntry = (pos as u64, x0, y0, x1, y1);
        self.ids.push(id);
        self.geoms.push(road);
        proof {
            assert(old(self).geoms@.len() == pos as int);
            lemma_entries_props(old(self).geoms@);
        }
        box_tree_insert(&mut self.tree, entry);
        proof {
            broadcast use vstd::seq_lib::group_to_multiset_ensures;

            let old_entries = entries_seq(old(self).geoms@);
            let new_entries = entries_seq(self.geoms@);
            assert(new_entries =~= old_entries.push(entry));
            assert(old_entries.push(entry).to_multiset() =~= old_entries.to_multiset().insert(
                entry,
            ));
        }
        Ok(())
    }

    /// Discard every entry.
    pub fn empty(&mut self)
        ensures
            final (self).wf(),
            final (self).ids@.len() == 0,
    {
        *self = RoadIndex::new();
    }

    /// All identifiers of entries whose geometry meets the closed box
    /// spanned by `lo` and `hi`, each once, in unspecified order. The box
    /// tree prunes to entries whose bounding box overlaps the query box;
    /// an exact segment-versus-box test then keeps the roads whose
    /// geometry truly meets it.
    pub fn box_query(&self, lo: &Point, hi: &Point) -> (r: Vec<Id>)
        requires
            self.wf(),
            lo.x <= hi.x,
            lo.y <= hi.y,
            lo.in_bounds(),
            hi.in_bounds(),
        ensures
            exists|s: Seq<usize>|
                {
                    &&& #[trigger] s.no_duplicates()
                    &&& forall|k: int|
                        0 <= k < s.len() ==> (#[trigger] s[k]) < self.geoms@.len()
                            && geom_box_intersects(self.geoms@[s[k] as int]@, *lo, *hi)
                    &&& forall|p: int|
                        0 <= p < self.geoms@.len() && geom_box_intersects(
                            (#[trigger] self.geoms@[p])@,
                            *lo,
                            *hi,
                        ) ==> s.contains(p as usize)
                    &&& r@ == s.map_values((|p: usize| self.ids@[p as int]))
                },
    {
        let ghost es = entries_seq(self.geoms@);
        let glen = self.geoms.len();
        let ghost n = glen as int;
        proof {
            broadcast use vstd::seq_lib::group_to_multiset_ensures;
            broadcast use vstd::multiset::group_multiset_axioms;

            lemma_entries_props(self.geoms@);
        }
        let found = box_tree_locate_intersecting(&self.tree, lo.x, lo.y, hi.x, hi.y);
        proof {
            broadcast use vstd::seq_lib::group_to_multiset_ensures;
            broadcast use vstd::multiset::group_multiset_axioms;

            assert forall|j: int|
                0 <= j < found@.len() implies (#[trigger] found@[j]).0 < n && found@[j]
                == es[found@[j].0 as int] by {
                assert(found@.contains(found@[j]));
                assert(found@.to_multiset().count(found@[j]) > 0);
                assert(box_tree_contents(self.tree).count(found@[j]) > 0);
            }
            assert(found@.no_duplicates()) by {
                assert forall|x: BoxEntry|
                    found@.to_multiset().contains(x) implies found@.to_multiset().count(x)
                    == 1 by {
                    assert(box_tree_contents(self.tree).count(x) > 0);
                    assert(es.to_multiset().count(x) == 1);
                }
                found@.lemma_multiset_has_no_duplicates_conv();
            }
        }
        let mut r: Vec<Id> = Vec::new();
        let ghost mut sel: Seq<usize> = Seq::empty();
        let mut i: usize = 0;
        while i < found.len()
            invariant
                self.wf(),
                lo.in_bounds(),
                hi.in_bounds(),
                n == self.geoms@.len(),
                n <= usize::MAX,
                es == entries_seq(self.geoms@),
                0 <= i <= found@.len(),
                forall|j: int|
                    0 <= j < found@.len() ==> (#[trigger] found@[j]).0 < n && found@[j]
                        == es[found@[j].0 as int],
                found@.no_duplicates(),
                r@ == sel.map_values((|p: usize| self.ids@[p as int])),
                sel.no_duplicates(),
                forall|k: int|
                    0 <= k < sel.len() ==> (#[trigger] sel[k]) < n && geom_box_intersects(
                        self.geoms@[sel[k] as int]@,
                        *lo,
                        *hi,
                    ),
                forall|k: int|
                    #![trigger sel[k]]
                    0 <= k < sel.len() ==> exists|j: int|
                        0 <= j < i && (#[trigger] found@[j]).0 == sel[k],
                forall|j: int|
                    0 <= j < i && geom_box_intersects(
                        self.geoms@[(#[trigger] found@[j]).0 as int]@,
                        *lo,
                        *hi,
                    ) ==> sel.contains(found@[j].0 as usize),
            decreases found@.len() - i,
        {
            let e = found[i];
            proof {
                assert(e.0 < n);
            }
            let pos = e.0 as usize;
            let g = self.geom_at(pos);
            if geom_intersects_box(g, lo, hi) {
                proof {
                    assert forall|k: int| 0 <= k < sel.len() implies sel[k] != pos by {
                        if sel[k] == pos {
                            let j = choose|j: int|
                                0 <= j < i && (#[trigger] found@[j]).0 == sel[k];
                            assert(found@[j] == es[pos as int]);
                            assert(found@[i as int] == es[pos as int]);
                        }
                    }
                }
                let id = self.id_at(pos);
                let ghost old_sel = sel;
                r.push(id);
                proof {
                    sel = sel.push(pos);
                    assert(sel.map_values((|p: usize| self.ids@[p as int])) =~= old_sel.map_values(
                        (|p: usize| self.ids@[p as int]),
                    ).push(self.ids@[pos as int]));
                    assert(sel.no_duplicates()) by {
                        assert forall|a: int, b: int|
                            0 <= a < sel.len() && 0 <= b < sel.len() && a != b implies sel[a]
                            != sel[b] by {
                            if a < sel.len() - 1 && b < sel.len() - 1 {
                                assert(old_sel[a] != old_sel[b]);
                            }
                        }
                    }
                    assert forall|k: int| #![trigger sel[k]]
                        0 <= k < sel.len() implies exists|j: int|
                        0 <= j < i + 1 && (#[trigger] found@[j]).0 == sel[k] by {
                        if k < sel.len() - 1 {
                            let j = choose|j: int|
                                0 <= j < i && (#[trigger] found@[j]).0 == old_sel[k];
                            assert(found@[j].0 == sel[k]);
                        } else {
                            assert(found@[i as int].0 == sel[k]);
                        }
                    }
                    assert forall|j: int|
                        0 <= j < i + 1 && geom_box_intersects(
                            self.geoms@[(#[trigger] found@[j]).0 as int]@,
                            *lo,
                            *hi,
                        ) implies sel.contains(found@[j].0 as usize) by {
                        if j == i as int {
                            assert(sel[sel.len() - 1] == pos);
                        } else {
                            assert(old_sel.contains(found@[j].0 as usize));
                            let w = choose|w: int|
                                0 <= w < old_sel.len() && old_sel[w] == found@[j].0 as usize;
                            assert(sel[w] == found@[j].0 as usize);
                        }
                    }
                }
            } else {
                proof {
                    assert(!geom_box_intersects(self.geoms@[found@[i as int].0 as int]@, *lo, *hi));
                }
            }
            i += 1;
        }
        proof {
            broadcast use vstd::seq_lib::group_to_multiset_ensures;
            broadcast use vstd::multiset::group_multiset_axioms;

            assert forall|p: int|
                0 <= p < n && geom_box_intersects(
                    (#[trigger] self.geoms@[p])@,
                    *lo,
                    *hi,
                ) implies sel.contains(p as usize) by {
                let ps = self.geoms@[p]@;
                let si = choose|si: int|
                    0 <= si < ps.len() - 1 && #[trigger] seg_box_intersects(
                        ps[si],
                        ps[si + 1],
                        *lo,
                        *hi,
                    );
                assert(road_ok(ps));
                lemma_bbox_bounds(ps, ps.len() as int);
                let e = es[p];
                // the segment's extents overlap the box, and the road's
                // bounding box contains the segment, so the entry passes
                // the tree's overlap filter
                assert(e.1 <= hi.x && e.2 <= hi.y && lo.x <= e.3 && lo.y <= e.4);
                assert(es.contains(e));
                assert(es.to_multiset().count(e) > 0);
                assert(found@.to_multiset().count(e) > 0);
                assert(found@.contains(e));
                let j = choose|j: int| 0 <= j < found@.len() && found@[j] == e;
                assert(found@[j].0 == p);
            }
            assert(exists|s: Seq<usize>|
                {
                    &&& #[trigger] s.no_duplicates()
                    &&& forall|k: int|
                        0 <= k < s.len() ==> (#[trigger] s[k]) < self.geoms@.len()
                            && geom_box_intersects(self.geoms@[s[k] as int]@, *lo, *hi)
                    &&& forall|p: int|
                        0 <= p < self.geoms@.len() && geom_box_intersects(
                            (#[trigger] self.geoms@[p])@,
                            *lo,
                            *hi,
                        ) ==> s.contains(p as usize)
                    &&& r@ == s.map_values((|p: usize| self.ids@[p as int]))
                }) by {
                assert(sel.no_duplicates());
            }
        }
        r
    }
}

impl Default for RoadIndex {
    /// A fresh, empty index.
    fn default() -> (r: Self)
        ensures
            r.wf(),
            r.ids@.len() == 0,
    {
        RoadIndex::new()
    }
}

/// Cross product locating `(px, py)` relative to the directed line
/// through `a` and `b`: positive on one side, negative on the other, zero
/// on the line.
pub open spec fn line_side(a: Point, b: Point, px: int, py: int) -> int {
    (b.x - a.x) * (py - a.y) - (b.y - a.y) * (px - a.x)
}

/// The segment from `a` to `b` meets the closed box spanned by `lo` and
/// `hi`. By the separating-axis criterion for two convex shapes, they
/// intersect exactly when their extents overlap on both coordinate axes
/// and the box's corners do not lie strictly on one side of the segment's
/// line.
pub open spec fn seg_box_intersects(a: Point, b: Point, lo: Point, hi: Point) -> bool {
    &&& (if a.x < b.x {
        a.x as int
    } else {
        b.x as int
    }) <= hi.x
    &&& (if a.x > b.x {
        a.x as int
    } else {
        b.x as int
    }) >= lo.x
    &&& (if a.y < b.y {
        a.y as int
    } else {
        b.y as int
    }) <= hi.y
    &&& (if a.y > b.y {
        a.y as int
    } else {
        b.y as int
    }) >= lo.y
    &&& !(line_side(a, b, lo.x as int, lo.y as int) > 0 && line_side(a, b, hi.x as int, lo.y as int)
        > 0 && line_side(a, b, lo.x as int, hi.y as int) > 0 && line_side(
        a,
        b,
        hi.x as int,
        hi.y as int,
    ) > 0)
    &&& !(line_side(a, b, lo.x as int, lo.y as int) < 0 && line_side(a, b, hi.x as int, lo.y as int)
        < 0 && line_side(a, b, lo.x as int, hi.y as int) < 0 && line_side(
        a,
        b,
        hi.x as int,
        hi.y as int,
    ) < 0)
}

/// A polyline meets the closed box: some segment of it does.
pub open spec fn geom_box_intersects(ps: Seq<Point>, lo: Point, hi: Point) -> bool {
    exists|i: int|
        0 <= i < ps.len() - 1 && #[trigger] seg_box_intersects(ps[i], ps[i + 1], lo, hi)
}

/// Whether the segment from `a` to `b` meets the closed box (see
/// [`seg_box_intersects`]).
fn seg_intersects_box(a: &Point, b: &Point, lo: &Point, hi: &Point) -> (r: bool)
    requires
        a.in_bounds(),
        b.in_bounds(),
        lo.in_bounds(),
        hi.in_bounds(),
    ensures
        r == seg_box_intersects(*a, *b, *lo, *hi),
{
    let minx = if a.x < b.x {
        a.x
    } else {
        b.x
    };
    let maxx = if a.x > b.x {
        a.x
    } else {
        b.x
    };
    let miny = if a.y < b.y {
        a.y
    } else {
        b.y
    };
    let maxy = if a.y > b.y {
        a.y
    } else {
        b.y
    };
    if !(minx <= hi.x && maxx >= lo.x && miny <= hi.y && maxy >= lo.y) {
        return false;
    }
    let dx: i128 = b.x as i128 - a.x as i128;
    let dy: i128 = b.y as i128 - a.y as i128;
    proof {
        crate::geom::lemma_mul_bound(dx as int, lo.y - a.y, 1048576, 1048576);
        crate::geom::lemma_mul_bound(dx as int, hi.y - a.y, 1048576, 1048576);
        crate::geom::lemma_mul_bound(dy as int, lo.x - a.x, 1048576, 1048576);
        crate::geom::lemma_mul_bound(dy as int, hi.x - a.x, 1048576, 1048576);
    }
    let t_ly: i128 = dx * (lo.y as i128 - a.y as i128);
    let t_hy: i128 = dx * (hi.y as i128 - a.y as i128);
    let s_lx: i128 = dy * (lo.x as i128 - a.x as i128);
    let s_hx: i128 = dy * (hi.x as i128 - a.x as i128);
    let c_ll: i128 = t_ly - s_lx;
    let c_hl: i128 = t_ly - s_hx;
    let c_lh: i128 = t_hy - s_lx;
    let c_hh: i128 = t_hy - s_hx;
    proof {
        assert(c_ll == line_side(*a, *b, lo.x as int, lo.y as int));
        assert(c_hl == line_side(*a, *b, hi.x as int, lo.y as int));
        assert(c_lh == line_side(*a, *b, lo.x as int, hi.y as int));
        assert(c_hh == line_side(*a, *b, hi.x as int, hi.y as int));
    }
    let all_pos = c_ll > 0 && c_hl > 0 && c_lh > 0 && c_hh > 0;
    let all_neg = c_ll < 0 && c_hl < 0 && c_lh < 0 && c_hh < 0;
    !(all_pos || all_neg)
}

/// Whether any segment of the polyline meets the closed box.
fn geom_intersects_box(g: &Polyline, lo: &Point, hi: &Point) -> (r: bool)
    requires
        wf_points(g@),
        lo.in_bounds(),
        hi.in_bounds(),
    ensures
        r == geom_box_intersects(g@, *lo, *hi),
{
    let n = g.points.len();
    if n == 0 {
        return false;
    }
    let mut k: usize = 0;
    while k < n - 1
        invariant
            n == g@.len(),
            1 <= n,
            wf_points(g@),
            lo.in_bounds(),
            hi.in_bounds(),
            0 <= k <= n - 1,
            forall|j: int|
                0 <= j < k ==> !#[trigger] seg_box_intersects(g@[j], g@[j + 1], *lo, *hi),
        decreases n - 1 - k,
    {
        let a = g.points[k];
        let b = g.points[k + 1];
        proof {
            assert(g@[k as int].in_bounds() && g@[k as int + 1].in_bounds());
        }
        if seg_intersects_box(&a, &b, lo, hi) {
            return true;
        }
        k += 1;
    }
    false
}

/// Whether a polyline is acceptable road geometry (see [`road_ok`]).
pub fn check_road(g: &Polyline) -> (b: bool)
    ensures
        b == road_ok(g@),
{
    let n = g.points.len();
    if n < 2 {
        return false;
    }
    let mut i: usize = 0;
    while i < n
        invariant
            n == g@.len(),
            0 <= i <= n,
            forall|j: int| 0 <= j < i ==> (#[trigger] g@[j]).in_bounds(),
        decreases n - i,
    {
        let p = g.points[i];
        if p.x < -COORD_LIMIT || p.x > COORD_LIMIT || p.y < -COORD_LIMIT || p.y > COORD_LIMIT {
            proof {
                assert(!(g@[i as int].in_bounds()));
                assert(!wf_points(g@));
            }
            return false;
        }
        i += 1;
    }
    let mut k: usize = 0;
    while k < n - 1
        invariant
            n == g@.len(),
            2 <= n,
            0 <= k <= n - 1,
            forall|j: int| 0 <= j < n ==> (#[trigger] g@[j]).in_bounds(),
            forall|j: int| 0 <= j < k ==> !seg_valid(g@, j),
        decreases n - 1 - k,
    {
        let a = g.points[k];
        let b = g.points[k + 1];
        proof {
            lemma_dist2_zero(g@[k as int], g@[k as int + 1]);
        }
        if a.x != b.x || a.y != b.y {
            assert(seg_valid(g@, k as int));
            return true;
        }
        k += 1;
    }
    proof {
        assert forall|j: int| !seg_valid(g@, j) by {
            if 0 <= j < n - 1 {
            }
        }
    }
    false
}

/// Bounding box of a non-empty polyline, `(min_x, min_y, max_x, max_y)`.
pub fn poly_bbox(g: &Polyline) -> (r: (i64, i64, i64, i64))
    requires
        wf_points(g@),
        g@.len() >= 1,
    ensures
        ({
            let b = bbox_upto(g@, g@.len() as int);
            &&& r.0 == b.0
            &&& r.1 == b.1
            &&& r.2 == b.2
            &&& r.3 == b.3
            &&& r.0 <= r.2
            &&& r.1 <= r.3
            &&& -COORD_LIMIT <= r.0 && r.2 <= COORD_LIMIT
            &&& -COORD_LIMIT <= r.1 && r.3 <= COORD_LIMIT
        }),
{
    proof {
        lemma_bbox_bounds(g@, g@.len() as int);
    }
    let n = g.points.len();
    let p0 = g.points[0];
    let mut mnx = p0.x;
    let mut mny = p0.y;
    let mut mxx = p0.x;
    let mut mxy = p0.y;
    let mut i: usize = 1;
    while i < n
        invariant
            n == g@.len(),
            wf_points(g@),
            1 <= i <= n,
            ({
                let b = bbox_upto(g@, i as int);
                mnx == b.0 && mny == b.1 && mxx == b.2 && mxy == b.3
            }),
        decreases n - i,
    {
        let p = g.points[i];
        if p.x < mnx {
            mnx = p.x;
        }
        if p.y < mny {
            mny = p.y;
        }
        if p.x > mxx {
            mxx = p.x;
        }
        if p.y > mxy {
            mxy = p.y;
        }
        i += 1;
    }
    (mnx, mny, mxx, mxy)
}


/// Exact squared distance from `q` to a road geometry, as a rational
/// `road_num / road_den` (the distance of its first minimal-distance
/// segment).
pub open spec fn road_num(q: Point, g: Polyline) -> int {
    seg_num(q, g@, fm(q, g@)->Some_0)
}

/// Denominator of the exact squared distance from `q` to a road geometry.
pub open spec fn road_den(q: Point, g: Polyline) -> int {
    seg_d(g@, fm(q, g@)->Some_0)
}

/// Strict ranking of index entries by ascending exact squared distance to
/// `q`, ties broken by entry position.
pub open spec fn rank_lt(q: Point, idx: RoadIndex, i: int, j: int) -> bool {
    let ni = road_num(q, idx.geoms@[i]);
    let di = road_den(q, idx.geoms@[i]);
    let nj = road_num(q, idx.geoms@[j]);
    let dj = road_den(q, idx.geoms@[j]);
    ni * dj < nj * di || (ni * dj == nj * di && i < j)
}

/// A well-formed index gives every entry a positive-denominator, bounded
/// distance rational.
pub proof fn lemma_road_rational(q: Point, idx: RoadIndex, i: int)
    requires
        idx.wf(),
        q.in_bounds(),
        0 <= i < idx.geoms@.len(),
    ensures
        fm(q, idx.geoms@[i]@) is Some,
        1 <= road_den(q, idx.geoms@[i]) <= 0x20000000000,
        0 <= road_num(q, idx.geoms@[i]) <= 0x400000000000000000000,
{
    let g = idx.geoms@[i];
    assert(road_ok(g@));
    crate::geom::lemma_fm_props(q, g@, g@.len() - 1);
    let v = choose|s: int| seg_valid(g@, s);
    assert(seg_valid(g@, v));
    assert(fm(q, g@) is Some);
    let m = fm(q, g@)->Some_0;
    crate::geom::lemma_seg_bounds(q, g@, m);
}

/// The ranking is total: of two distinct entries, exactly one precedes the
/// other.
pub proof fn lemma_rank_total(q: Point, idx: RoadIndex, i: int, j: int)
    requires
        0 <= i < idx.geoms@.len(),
        0 <= j < idx.geoms@.len(),
        i != j,
    ensures
        rank_lt(q, idx, i, j) <==> !rank_lt(q, idx, j, i),
{
}

proof fn lemma_rat_lt_lt(an: int, ad: int, bn: int, bd: int, cn: int, cd: int)
    requires
        ad > 0,
        bd > 0,
        cd > 0,
        an * bd < bn * ad,
        bn * cd < cn * bd,
    ensures
        an * cd < cn * ad,
{
    assert(an * cd < cn * ad) by (nonlinear_arith)
        requires
            ad > 0,
            bd > 0,
            cd > 0,
            an * bd < bn * ad,
            bn * cd < cn * bd,
    ;
}

proof fn lemma_rat_eq_lt(an: int, ad: int, bn: int, bd: int, cn: int, cd: int)
    requires
        ad > 0,
        bd > 0,
        cd > 0,
        an * bd == bn * ad,
        bn * cd < cn * bd,
    ensures
        an * cd < cn * ad,
{
    assert(an * cd < cn * ad) by (nonlinear_arith)
        requires
            ad > 0,
            bd > 0,
            cd > 0,
            an * bd == bn * ad,
            bn * cd < cn * bd,
    ;
}

proof fn lemma_rat_lt_eq(an: int, ad: int, bn: int, bd: int, cn: int, cd: int)
    requires
        ad > 0,
        bd > 0,
        cd > 0,
        an * bd < bn * ad,
        bn * cd == cn * bd,
    ensures
        an * cd < cn * ad,
{
    assert(an * cd < cn * ad) by (nonlinear_arith)
        requires
            ad > 0,
            bd > 0,
            cd > 0,
            an * bd < bn * ad,
            bn * cd == cn * bd,
    ;
}

proof fn lemma_rat_eq_eq(an: int, ad: int, bn: int, bd: int, cn: int, cd: int)
    requires
        ad > 0,
        bd > 0,
        cd > 0,
        an * bd == bn * ad,
        bn * cd == cn * bd,
    ensures
        an * cd == cn * ad,
{
    assert(an * cd == cn * ad) by (nonlinear_arith)
        requires
            ad > 0,
            bd > 0,
            cd > 0,
            an * bd == bn * ad,
            bn * cd == cn * bd,
    ;
}

/// The ranking is transitive.
pub proof fn lemma_rank_trans(q: Point, idx: RoadIndex, i: int, j: int, l: int)
    requires
        idx.wf(),
        q.in_bounds(),
        0 <= i < idx.geoms@.len(),
        0 <= j < idx.geoms@.len(),
        0 <= l < idx.geoms@.len(),
        rank_lt(q, idx, i, j),
        rank_lt(q, idx, j, l),
    ensures
        rank_lt(q, idx, i, l),
{
    lemma_road_rational(q, idx, i);
    lemma_road_rational(q, idx, j);
    lemma_road_rational(q, idx, l);
    let ni = road_num(q, idx.geoms@[i]);
    let di = road_den(q, idx.geoms@[i]);
    let nj = road_num(q, idx.geoms@[j]);
    let dj = road_den(q, idx.geoms@[j]);
    let nl = road_num(q, idx.geoms@[l]);
    let dl = road_den(q, idx.geoms@[l]);
    if ni * dj < nj * di {
        if nj * dl < nl * dj {
            lemma_rat_lt_lt(ni, di, nj, dj, nl, dl);
        } else {
            lemma_rat_lt_eq(ni, di, nj, dj, nl, dl);
        }
    } else {
        if nj * dl < nl * dj {
            lemma_rat_eq_lt(ni, di, nj, dj, nl, dl);
        } else {
            lemma_rat_eq_eq(ni, di, nj, dj, nl, dl);
        }
    }
}

/// The stored per-entry distance pair is exact and bounded.
pub open spec fn dist_ok(q: Point, idx: RoadIndex, j: int, d: (u128, u128)) -> bool {
    &&& d.0 == road_num(q, idx.geoms@[j])
    &&& d.1 == road_den(q, idx.geoms@[j])
    &&& 1 <= d.1 <= 0x20000000000
    &&& d.0 <= 0x400000000000000000000
}

impl RoadIndex {
    /// The first `min(k, len)` entries by ascending exact squared distance
    /// from `q` to their geometry, ties broken by entry position: every
    /// entry left out ranks after every entry returned.
    pub fn nearest_neighbors(&self, q: &Point, k: usize) -> (r: Vec<usize>)
        requires
            self.wf(),
            q.in_bounds(),
        ensures
            r@.len() == if k < self.ids@.len() {
                k as int
            } else {
                self.ids@.len() as int
            },
            forall|a: int| 0 <= a < r@.len() ==> (#[trigger] r@[a]) < self.ids@.len(),
            forall|a: int, b: int|
                0 <= a < b < r@.len() ==> rank_lt(
                    *q,
                    *self,
                    #[trigger] r@[a] as int,
                    #[trigger] r@[b] as int,
                ),
            forall|p: int|
                0 <= p < self.ids@.len() && !(#[trigger] r@.contains(p as usize)) ==> forall|a: int|
                    0 <= a < r@.len() ==> rank_lt(*q, *self, #[trigger] r@[a] as int, p),
    {
        let n = self.ids.len();
        let mut dists: Vec<(u128, u128)> = Vec::new();
        let mut i: usize = 0;
        while i < n
            invariant
                self.wf(),
                q.in_bounds(),
                n == self.ids@.len(),
                0 <= i <= n,
                dists@.len() == i,
                forall|j: int| 0 <= j < i ==> dist_ok(*q, *self, j, #[trigger] dists@[j]),
            decreases n - i,
        {
            proof {
                lemma_road_rational(*q, *self, i as int);
            }
            let g = &self.geoms[i];
            let (_c, num, den) = g.closest_point_full(q);
            dists.push((num, den));
            i += 1;
        }
        let mut perm: Vec<usize> = Vec::new();
        let mut t: usize = 0;
        while t < n
            invariant
                0 <= t <= n,
                perm@.len() == t,
                forall|a: int| 0 <= a < t ==> #[trigger] perm@[a] == a,
            decreases n - t,
        {
            perm.push(t);
            t += 1;
        }
        assert forall|v: int| 0 <= v < n implies #[trigger] perm@.contains(v as usize) by {
            assert(perm@[v] == v as usize);
        }
        let mut s: usize = 0;
        while s < n
            invariant
                self.wf(),
                q.in_bounds(),
                n == self.ids@.len(),
                0 <= s <= n,
                dists@.len() == n,
                forall|j: int| 0 <= j < n ==> dist_ok(*q, *self, j, #[trigger] dists@[j]),
                perm@.len() == n,
                forall|a: int| 0 <= a < n ==> (#[trigger] perm@[a]) < n,
                forall|a: int, b: int| 0 <= a < b < n ==> perm@[a] != perm@[b],
                forall|v: int| 0 <= v < n ==> #[trigger] perm@.contains(v as usize),
                forall|a: int, b: int|
                    0 <= a < b < s ==> rank_lt(
                        *q,
                        *self,
                        #[trigger] perm@[a] as int,
                        #[trigger] perm@[b] as int,
                    ),
                forall|a: int, b: int|
                    0 <= a < s <= b < n ==> rank_lt(
                        *q,
                        *self,
                        #[trigger] perm@[a] as int,
                        #[trigger] perm@[b] as int,
                    ),
            decreases n - s,
        {
            let mut m: usize = s;
            let mut c: usize = s + 1;
            while c < n
                invariant
                    self.wf(),
                    q.in_bounds(),
                    n == self.ids@.len(),
                    dists@.len() == n,
                    forall|j: int| 0 <= j < n ==> dist_ok(*q, *self, j, #[trigger] dists@[j]),
                    perm@.len() == n,
                    forall|a: int| 0 <= a < n ==> (#[trigger] perm@[a]) < n,
                    forall|a: int, b: int| 0 <= a < b < n ==> perm@[a] != perm@[b],
                    0 <= s <= m < c <= n,
                    s < n,
                    forall|e: int|
                        s <= e < c && e != m ==> rank_lt(
                            *q,
                            *self,
                            perm@[m as int] as int,
                            #[trigger] perm@[e] as int,
                        ),
                decreases n - c,
            {
                let pc = perm[c];
                let pm = perm[m];
                let dc = dists[pc];
                let dm = dists[pm];
                proof {
                    crate::geom::lemma_mul_nonneg_le(
                        dc.0 as int,
                        dm.1 as int,
                        0x400000000000000000000,
                        0x20000000000,
                    );
                    crate::geom::lemma_mul_nonneg_le(
                        dm.0 as int,
                        dc.1 as int,
                        0x400000000000000000000,
                        0x20000000000,
                    );
                }
                let lhs: u128 = dc.0 * dm.1;
                let rhs: u128 = dm.0 * dc.1;
                let less = lhs < rhs || (lhs == rhs && pc < pm);
                proof {
                    assert(pc != pm);
                    assert(less == rank_lt(*q, *self, pc as int, pm as int));
                    lemma_rank_total(*q, *self, pc as int, pm as int);
                }
                if less {
                    proof {
                        assert forall|e: int|
                            s <= e < c + 1 && e != c implies rank_lt(
                            *q,
                            *self,
                            perm@[c as int] as int,
                            #[trigger] perm@[e] as int,
                        ) by {
                            if e == m {
                            } else {
                                lemma_rank_trans(
                                    *q,
                                    *self,
                                    perm@[c as int] as int,
                                    perm@[m as int] as int,
                                    perm@[e] as int,
                                );
                            }
                        }
                    }
                    m = c;
                } else {
                }
                c += 1;
            }
            let pm = perm[m];
            let ps_ = perm[s];
            let ghost old_perm = perm@;
            perm.set(m, ps_);
            perm.set(s, pm);
            proof {
                assert(perm@ =~= old_perm.update(m as int, ps_).update(s as int, pm));
                assert forall|v: int| 0 <= v < n implies #[trigger] perm@.contains(v as usize) by {
                    assert(old_perm.contains(v as usize));
                    let a = choose|a: int| 0 <= a < old_perm.len() && old_perm[a] == v as usize;
                    if a == s as int {
                        assert(perm@[m as int] == v as usize);
                    } else if a == m as int {
                        assert(perm@[s as int] == v as usize);
                    } else {
                        assert(perm@[a] == v as usize);
                    }
                }
                assert forall|a: int, b: int|
                    0 <= a < s + 1 <= b < n implies rank_lt(
                    *q,
                    *self,
                    #[trigger] perm@[a] as int,
                    #[trigger] perm@[b] as int,
                ) by {
                    if a < s {
                        if b == m as int {
                            assert(perm@[b] == old_perm[s as int]);
                        } else {
                            assert(perm@[b] == old_perm[b]);
                        }
                    } else {
                        assert(perm@[a] == old_perm[m as int]);
                        if b == m as int {
                            assert(perm@[b] == old_perm[s as int]);
                            if m != s {
                                assert(rank_lt(
                                    *q,
                                    *self,
                                    old_perm[m as int] as int,
                                    old_perm[s as int] as int,
                                ));
                            }
                        } else {
                            assert(perm@[b] == old_perm[b]);
                        }
                    }
                }
            }
            s += 1;
        }
        let m_out: usize = if k < n {
            k
        } else {
            n
        };
        let mut r: Vec<usize> = Vec::new();
        let mut o: usize = 0;
        while o < m_out
            invariant
                0 <= o <= m_out <= n,
                perm@.len() == n,
                r@.len() == o,
                forall|a: int| 0 <= a < o ==> #[trigger] r@[a] == perm@[a],
            decreases m_out - o,
        {
            r.push(perm[o]);
            o += 1;
        }
        proof {
            assert forall|p: int|
                0 <= p < n && !(#[trigger] r@.contains(p as usize)) implies forall|a: int|
                0 <= a < r@.len() ==> rank_lt(*q, *self, #[trigger] r@[a] as int, p) by {
                assert(perm@.contains(p as usize));
                let b = choose|b: int| 0 <= b < perm@.len() && perm@[b] == p as usize;
                assert(b >= m_out) by {
                    if b < m_out {
                        assert(r@[b] == p as usize);
                    }
                }
                assert forall|a: int|
                    0 <= a < r@.len() implies rank_lt(*q, *self, #[trigger] r@[a] as int, p) by {
                    assert(r@[a] == perm@[a]);
                    assert(rank_lt(*q, *self, perm@[a] as int, perm@[b] as int));
                }
            }
        }
        r
    }
}

} // verus!
