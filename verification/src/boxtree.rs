//! Trusted boundary to the `rstar` R-tree.
//!
//! The index keeps, beside its verified road table, an R-tree of road
//! bounding boxes for envelope queries. The tree holds entries
//! `(position, min_x, min_y, max_x, max_y)` — the entry's position in the
//! index and its bounding box; this module declares what each `rstar` call
//! does to the tree's contents, named by [`box_tree_contents`].

use vstd::multiset::Multiset;
use vstd::prelude::*;

use crate::geom::COORD_LIMIT;

verus! {

/// An entry of the box tree: an index position with the axis-aligned
/// bounding box of the road geometry stored there.
pub type BoxEntry = (u64, i64, i64, i64, i64);

/// An R-tree of road bounding boxes, backed by `rstar::RTree`.
#[verifier::external_body]
pub struct BoxTree {
    tree: rstar::RTree<rstar::primitives::GeomWithData<rstar::primitives::Rectangle<[i64; 2]>, u64>>,
}

/// What the tree holds, as a multiset of entries.
pub uninterp spec fn box_tree_contents(t: BoxTree) -> Multiset<BoxEntry>;

/// An entry's box corners are ordered.
pub open spec fn entry_ordered(e: BoxEntry) -> bool {
    e.1 <= e.3 && e.2 <= e.4
}

/// An entry's box corners are within the coordinate grid.
pub open spec fn entry_bounded(e: BoxEntry) -> bool {
    &&& -COORD_LIMIT <= e.1 <= COORD_LIMIT
    &&& -COORD_LIMIT <= e.2 <= COORD_LIMIT
    &&& -COORD_LIMIT <= e.3 <= COORD_LIMIT
    &&& -COORD_LIMIT <= e.4 <= COORD_LIMIT
}

/// Relies on `rstar::RTree::new`: an empty tree holds nothing.
#[verifier::external_body]
pub(crate) fn box_tree_new() -> (t: BoxTree)
    ensures
        box_tree_contents(t) == Multiset::<BoxEntry>::empty(),
{
    BoxTree { tree: rstar::RTree::new() }
}

/// Relies on `rstar::RTree::bulk_load`: builds a balanced tree holding
/// exactly the given elements. The bulk-load path only compares and
/// partitions, so it needs no bound on the corners; they must be ordered,
/// as `rstar::primitives::Rectangle::from_corners` normalizes unordered
/// ones.
#[verifier::external_body]
pub(crate) fn box_tree_bulk_load(items: Vec<BoxEntry>) -> (t: BoxTree)
    requires
        forall|i: int| 0 <= i < items@.len() ==> entry_ordered(#[trigger] items@[i]),
    ensures
        box_tree_contents(t) == items@.to_multiset(),
{
    let elems: Vec<_> = items
        .into_iter()
        .map(
            |(pos, x0, y0, x1, y1)| rstar::primitives::GeomWithData::new(
                rstar::primitives::Rectangle::from_corners([x0, y0], [x1, y1]),
                pos,
            ),
        )
        .collect();
    BoxTree { tree: rstar::RTree::bulk_load(elems) }
}

/// Relies on `rstar::RTree::insert`: adds exactly one element. Inserting
/// into a full node runs split and reinsertion heuristics that compute
/// areas, perimeters and squared center distances on the corner values, so
/// the new entry and everything already stored must be within the grid
/// bound, where that arithmetic cannot overflow.
#[verifier::external_body]
pub(crate) fn box_tree_insert(t: &mut BoxTree, item: BoxEntry)
    requires
        entry_ordered(item),
        entry_bounded(item),
        forall|e: BoxEntry| box_tree_contents(*old(t)).count(e) > 0 ==> #[trigger] entry_bounded(e),
    ensures
        box_tree_contents(*final(t)) == box_tree_contents(*old(t)).insert(item),
{
    t.tree.insert(
        rstar::primitives::GeomWithData::new(
            rstar::primitives::Rectangle::from_corners([item.1, item.2], [item.3, item.4]),
            item.0,
        ),
    );
}

/// Relies on `rstar::RTree::locate_in_envelope_intersecting`: yields
/// exactly the elements whose rectangle intersects the query envelope
/// (component-wise overlap of the corner ranges), in unspecified order.
#[verifier::external_body]
pub(crate) fn box_tree_locate_intersecting(t: &BoxTree, x0: i64, y0: i64, x1: i64, y1: i64) -> (r:
    Vec<BoxEntry>)
    requires
        x0 <= x1,
        y0 <= y1,
        forall|e: BoxEntry| box_tree_contents(*t).count(e) > 0 ==> #[trigger] entry_ordered(e),
    ensures
        r@.to_multiset() == box_tree_contents(*t).filter(
            (|e: BoxEntry| e.1 <= x1 && e.2 <= y1 && x0 <= e.3 && y0 <= e.4),
        ),
{
    let aabb = rstar::AABB::from_corners([x0, y0], [x1, y1]);
    t.tree
        .locate_in_envelope_intersecting(aabb)
        .map(
            |g| {
                let rect = g.geom();
                let lo = rect.lower();
                let hi = rect.upper();
                (g.data, lo[0], lo[1], hi[0], hi[1])
            },
        )
        .collect()
}

} // verus!
