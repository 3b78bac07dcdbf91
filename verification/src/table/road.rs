//! The road table: full road records in columnar form, with generated
//! identifiers and deduplication by the source map identifier.

use vstd::prelude::*;

use crate::geom::Polyline;
use crate::table::{find_u64, Deleteable, Insertable, Queryable};
use crate::Id;

verus! {

/// Travel direction of a road.
#[derive(Debug, Clone, Copy, PartialEq, Eq, Structural, PartialOrd, Ord, Hash)]
pub enum Direction {
    Forward,
    Backward,
    Bidirectional,
}

impl From<u8> for Direction {
    /// Decode a direction from its wire byte; unknown bytes decode to
    /// `Bidirectional`.
    fn from(value: u8) -> (r: Self) {
        match value {
            0u8 => Direction::Forward,
            1u8 => Direction::Backward,
            _ => Direction::Bidirectional,
        }
    }
}

impl vstd::std_specs::convert::FromSpecImpl<u8> for Direction {
    open spec fn obeys_from_spec() -> bool {
        true
    }

    open spec fn from_spec(v: u8) -> Direction {
        if v == 0 {
            Direction::Forward
        } else if v == 1 {
            Direction::Backward
        } else {
            Direction::Bidirectional
        }
    }
}

impl From<Direction> for u8 {
    /// Encode a direction as its wire byte.
    fn from(value: Direction) -> (r: Self) {
        match value {
            Direction::Forward => 0,
            Direction::Backward => 1,
            Direction::Bidirectional => 2,
        }
    }
}

impl vstd::std_specs::convert::FromSpecImpl<Direction> for u8 {
    open spec fn obeys_from_spec() -> bool {
        true
    }

    open spec fn from_spec(v: Direction) -> u8 {
        match v {
            Direction::Forward => 0,
            Direction::Backward => 1,
            Direction::Bidirectional => 2,
        }
    }
}

/// Key into the [`Roads`] table.
#[derive(Debug, Clone, Copy)]
pub struct RoadKey(pub Id);

/// One road record. The identifier of an inserted road is generated by the
/// table; the record's own `id` field is ignored on insert.
#[derive(Debug, Clone)]
pub struct Road {
    /// Primary key.
    pub id: Id,
    /// Shape of the road.
    pub geom: Polyline,
    /// Identifier in the source map data.
    pub osm_id: u64,
    /// Foreign key into the feature-class table.
    pub code: u16,
    /// Travel direction.
    pub direction: Direction,
    /// Speed limit in km/h.
    pub maxspeed: u16,
    /// Vertical layer of the road.
    pub layer: i16,
    /// The road is a bridge.
    pub bridge: bool,
    /// The road is a tunnel.
    pub tunnel: bool,
}

/// Columnar table of road records, keyed by generated identifiers and
/// deduplicated by source map identifier.
#[derive(Debug)]
pub struct Roads {
    pub id: Vec<Id>,
    pub geom: Vec<Polyline>,
    pub osm_id: Vec<u64>,
    pub code: Vec<u16>,
    pub direction: Vec<Direction>,
    pub maxspeed: Vec<u16>,
    pub layer: Vec<i16>,
    pub bridge: Vec<bool>,
    pub tunnel: Vec<bool>,
}

impl Roads {
    /// Parallel columns with strictly increasing identifiers.
    pub open spec fn wf(self) -> bool {
        &&& self.id@.len() == self.geom@.len()
        &&& self.id@.len() == self.osm_id@.len()
        &&& self.id@.len() == self.code@.len()
        &&& self.id@.len() == self.direction@.len()
        &&& self.id@.len() == self.maxspeed@.len()
        &&& self.id@.len() == self.layer@.len()
        &&& self.id@.len() == self.bridge@.len()
        &&& self.id@.len() == self.tunnel@.len()
        &&& forall|a: int, b: int|
            #![trigger self.id@[a], self.id@[b]]
            0 <= a < b < self.id@.len() ==> self.id@[a] < self.id@[b]
    }

    /// The identifier the next fresh road receives.
    pub open spec fn next_id(self) -> int {
        if self.id@.len() == 0 {
            0
        } else {
            self.id@.last() + 1
        }
    }

    pub fn new() -> (t: Roads)
        ensures
            t.wf(),
            t.id@.len() == 0,
    {
        Roads {
            id: Vec::new(),
            geom: Vec::new(),
            osm_id: Vec::new(),
            code: Vec::new(),
            direction: Vec::new(),
            maxspeed: Vec::new(),
            layer: Vec::new(),
            bridge: Vec::new(),
            tunnel: Vec::new(),
        }
    }
}

impl Default for Roads {
    /// An empty table.
    fn default() -> (t: Self)
        ensures
            t.wf(),
            t.id@.len() == 0,
    {
        Roads::new()
    }
}

impl Insertable<Road> for Roads {
    type Key = RoadKey;

    open spec fn ready_for(self, n: nat) -> bool {
        &&& self.wf()
        &&& self.next_id() + n <= u64::MAX + 1
    }

    proof fn ready_for_mono(self, m: nat, n: nat) {
    }

    open spec fn inserted(pre: Roads, data: Road, post: Roads, k: RoadKey) -> bool {
        match pre.osm_id@.index_of_first(data.osm_id) {
            Some(j) => {
                &&& post.id@ == pre.id@
                &&& post.geom@ == pre.geom@
                &&& post.osm_id@ == pre.osm_id@
                &&& post.code@ == pre.code@
                &&& post.direction@ == pre.direction@
                &&& post.maxspeed@ == pre.maxspeed@
                &&& post.layer@ == pre.layer@
                &&& post.bridge@ == pre.bridge@
                &&& post.tunnel@ == pre.tunnel@
                &&& k.0 == pre.id@[j]
            },
            None => {
                &&& post.id@ == pre.id@.push(pre.next_id() as u64)
                &&& post.geom@ == pre.geom@.push(data.geom)
                &&& post.osm_id@ == pre.osm_id@.push(data.osm_id)
                &&& post.code@ == pre.code@.push(data.code)
                &&& post.direction@ == pre.direction@.push(data.direction)
                &&& post.maxspeed@ == pre.maxspeed@.push(data.maxspeed)
                &&& post.layer@ == pre.layer@.push(data.layer)
                &&& post.bridge@ == pre.bridge@.push(data.bridge)
                &&& post.tunnel@ == pre.tunnel@.push(data.tunnel)
                &&& k.0 == pre.next_id()
            },
        }
    }

    fn insert(&mut self, data: Road) -> (k: RoadKey) {
        proof {
            self.osm_id@.index_of_first_ensures(data.osm_id);
        }
        let found = find_u64(&self.osm_id, data.osm_id);
        match found {
            Option::Some(j) => {
                let k = RoadKey(self.id[j]);
                proof {
                    assert(Roads::inserted(*self, data, *self, k));
                }
                k
            },
            Option::None => {
                let next: u64 = if self.id.len() == 0 {
                    0
                } else {
                    self.id[self.id.len() - 1] + 1
                };
                let ghost pre = *self;
                self.id.push(next);
                self.geom.push(data.geom);
                self.osm_id.push(data.osm_id);
                self.code.push(data.code);
                self.direction.push(data.direction);
                self.maxspeed.push(data.maxspeed);
                self.layer.push(data.layer);
                self.bridge.push(data.bridge);
                self.tunnel.push(data.tunnel);
                proof {
                    assert forall|a: int, b: int|
                        #![trigger self.id@[a], self.id@[b]]
                        0 <= a < b < self.id@.len() implies self.id@[a] < self.id@[b] by {
                        if b == self.id@.len() - 1 && a < b {
                            assert(pre.id@[a] <= pre.id@[pre.id@.len() - 1]);
                        }
                    }
                }
                let k = RoadKey(next);
                proof {
                    assert(Roads::inserted(pre, data, *self, k));
                }
                k
            },
        }
    }
}

impl Queryable<RoadKey> for Roads {
    open spec fn find_ready(self) -> bool {
        self.wf()
    }

    open spec fn find_spec(self, key: RoadKey) -> Option<int> {
        self.id@.index_of_first(key.0)
    }

    fn find_index(&self, key: &RoadKey) -> (r: Option<usize>) {
        find_u64(&self.id, key.0)
    }
}

impl Deleteable<RoadKey> for Roads {
    type Output = Road;

    open spec fn del_ready(self) -> bool {
        self.wf()
    }

    open spec fn deleted(pre: Roads, key: RoadKey, post: Roads, out: Option<Road>) -> bool {
        match pre.id@.index_of_first(key.0) {
            None => {
                &&& post.id@ == pre.id@
                &&& post.geom@ == pre.geom@
                &&& post.osm_id@ == pre.osm_id@
                &&& post.code@ == pre.code@
                &&& post.direction@ == pre.direction@
                &&& post.maxspeed@ == pre.maxspeed@
                &&& post.layer@ == pre.layer@
                &&& post.bridge@ == pre.bridge@
                &&& post.tunnel@ == pre.tunnel@
                &&& out is None
            },
            Some(j) => {
                &&& out matches Some(row) && row.id == pre.id@[j] && row.geom == pre.geom@[j]
                    && row.osm_id == pre.osm_id@[j] && row.code == pre.code@[j] && row.direction
                    == pre.direction@[j] && row.maxspeed == pre.maxspeed@[j] && row.layer
                    == pre.layer@[j] && row.bridge == pre.bridge@[j] && row.tunnel
                    == pre.tunnel@[j]
                &&& post.id@ == pre.id@.remove(j)
                &&& post.geom@ == pre.geom@.remove(j)
                &&& post.osm_id@ == pre.osm_id@.remove(j)
                &&& post.code@ == pre.code@.remove(j)
                &&& post.direction@ == pre.direction@.remove(j)
                &&& post.maxspeed@ == pre.maxspeed@.remove(j)
                &&& post.layer@ == pre.layer@.remove(j)
                &&& post.bridge@ == pre.bridge@.remove(j)
                &&& post.tunnel@ == pre.tunnel@.remove(j)
            },
        }
    }

    fn delete(&mut self, key: &RoadKey) -> (out: Option<Road>) {
        proof {
            self.id@.index_of_first_ensures(key.0);
        }
        let found = find_u64(&self.id, key.0);
        match found {
            Option::None => {
                proof {
                    assert(Roads::deleted(*self, *key, *self, None::<Road>));
                }
                None
            },
            Option::Some(j) => {
                let ghost pre = *self;
                let id = self.id.remove(j);
                let geom = self.geom.remove(j);
                let osm_id = self.osm_id.remove(j);
                let code = self.code.remove(j);
                let direction = self.direction.remove(j);
                let maxspeed = self.maxspeed.remove(j);
                let layer = self.layer.remove(j);
                let bridge = self.bridge.remove(j);
                let tunnel = self.tunnel.remove(j);
                proof {
                    assert forall|a: int, b: int|
                        #![trigger self.id@[a], self.id@[b]]
                        0 <= a < b < self.id@.len() implies self.id@[a] < self.id@[b] by {
                        let a0 = if a < j { a } else { a + 1 };
                        let b0 = if b < j { b } else { b + 1 };
                        assert(self.id@[a] == pre.id@[a0]);
                        assert(self.id@[b] == pre.id@[b0]);
                        assert(pre.id@[a0] < pre.id@[b0]);
                    }
                }
                Some(Road { id, geom, osm_id, code, direction, maxspeed, layer, bridge, tunnel })
            },
        }
    }
}

} // verus!
