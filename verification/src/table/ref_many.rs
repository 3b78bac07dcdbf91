//! The many-to-many link table between roads and reference designations,
//! keyed by the composite (road, reference) pair.

use vstd::prelude::*;

use crate::table::road::RoadKey;
use crate::table::ref_item::RefKey;
use crate::table::{Deleteable, Insertable, Queryable};
use crate::Id;

verus! {

/// Composite key into the [`RefMany`] table.
#[derive(Debug, Clone, Copy)]
pub struct RefManyKey(pub RoadKey, pub RefKey);

/// One row of the [`RefMany`] table.
pub struct RefManyRow {
    pub road_id: Id,
    pub ref_id: Id,
}

/// Columnar link table: row `i` links road `road_id[i]` to reference
/// `ref_id[i]`.
#[derive(Debug)]
pub struct RefMany {
    pub road_id: Vec<Id>,
    pub ref_id: Vec<Id>,
}

/// The rows of two parallel identifier columns, as pairs.
pub open spec fn pair_seq(a: Seq<Id>, b: Seq<Id>) -> Seq<(Id, Id)> {
    Seq::new(a.len(), |i: int| (a[i], b[i]))
}

/// Position of the first row equal to `(x, y)` in a pair of parallel
/// columns.
fn find_pair(a: &Vec<Id>, b: &Vec<Id>, x: Id, y: Id) -> (r: Option<usize>)
    requires
        a@.len() == b@.len(),
    ensures
        match r {
            Some(u) => pair_seq(a@, b@).index_of_first((x, y)) == Some(u as int),
            None => pair_seq(a@, b@).index_of_first((x, y)) is None,
        },
{
    let n = a.len();
    let mut i: usize = 0;
    while i < n
        invariant
            n == a@.len(),
            a@.len() == b@.len(),
            0 <= i <= n,
            forall|j: int| 0 <= j < i ==> #[trigger] pair_seq(a@, b@)[j] != (x, y),
        decreases n - i,
    {
        if a[i] == x && b[i] == y {
            proof {
                assert(pair_seq(a@, b@)[i as int] == (x, y));
                pair_seq(a@, b@).index_of_first_ensures((x, y));
            }
            return Some(i);
        }
        proof {
            assert(pair_seq(a@, b@)[i as int] != (x, y));
        }
        i += 1;
    }
    proof {
        pair_seq(a@, b@).index_of_first_ensures((x, y));
        if pair_seq(a@, b@).contains((x, y)) {
            let w = choose|w: int|
                0 <= w < pair_seq(a@, b@).len() && pair_seq(a@, b@)[w] == (x, y);
            assert(false);
        }
    }
    None
}

impl RefMany {
    /// Parallel columns.
    pub open spec fn wf(self) -> bool {
        self.road_id@.len() == self.ref_id@.len()
    }

    pub fn new() -> (t: RefMany)
        ensures
            t.wf(),
            t.road_id@.len() == 0,
            t.ref_id@.len() == 0,
    {
        RefMany { road_id: Vec::new(), ref_id: Vec::new() }
    }
}

impl Default for RefMany {
    /// An empty table.
    fn default() -> (t: Self)
        ensures
            t.wf(),
            t.road_id@.len() == 0,
            t.ref_id@.len() == 0,
    {
        RefMany::new()
    }
}

impl Insertable<RefManyRow> for RefMany {
    type Key = RefManyKey;

    open spec fn ready_for(self, n: nat) -> bool {
        self.wf()
    }

    proof fn ready_for_mono(self, m: nat, n: nat) {
    }

    open spec fn inserted(pre: RefMany, data: RefManyRow, post: RefMany, k: RefManyKey) -> bool {
        match pair_seq(pre.road_id@, pre.ref_id@).index_of_first((data.road_id, data.ref_id)) {
            Some(j) => {
                &&& post.road_id@ == pre.road_id@
                &&& post.ref_id@ == pre.ref_id@
                &&& k.0.0 == pre.road_id@[j] && k.1.0 == pre.ref_id@[j]
            },
            None => {
                &&& post.road_id@ == pre.road_id@.push(data.road_id)
                &&& post.ref_id@ == pre.ref_id@.push(data.ref_id)
                &&& k.0.0 == data.road_id && k.1.0 == data.ref_id
            },
        }
    }

    fn insert(&mut self, data: RefManyRow) -> (k: RefManyKey) {
        let found = find_pair(&self.road_id, &self.ref_id, data.road_id, data.ref_id);
        proof {
            pair_seq(self.road_id@, self.ref_id@).index_of_first_ensures(
                (data.road_id, data.ref_id),
            );
        }
        match found {
            Option::Some(j) => {
                let k = RefManyKey(RoadKey(self.road_id[j]), RefKey(self.ref_id[j]));
                proof {
                    assert(pair_seq(self.road_id@, self.ref_id@)[j as int] == (
                        data.road_id,
                        data.ref_id,
                    ));
                    assert(RefMany::inserted(*self, data, *self, k));
                }
                k
            },
            Option::None => {
                let ghost pre = *self;
                let k = RefManyKey(RoadKey(data.road_id), RefKey(data.ref_id));
                self.road_id.push(data.road_id);
                self.ref_id.push(data.ref_id);
                proof {
                    assert(RefMany::inserted(pre, data, *self, k));
                }
                k
            },
        }
    }
}

impl Queryable<RefManyKey> for RefMany {
    open spec fn find_ready(self) -> bool {
        self.wf()
    }

    open spec fn find_spec(self, key: RefManyKey) -> Option<int> {
        pair_seq(self.road_id@, self.ref_id@).index_of_first((key.0.0, key.1.0))
    }

    fn find_index(&self, key: &RefManyKey) -> (r: Option<usize>) {
        find_pair(&self.road_id, &self.ref_id, key.0.0, key.1.0)
    }
}

impl Deleteable<RefManyKey> for RefMany {
    type Output = RefManyRow;

    open spec fn del_ready(self) -> bool {
        self.wf()
    }

    open spec fn deleted(pre: RefMany, key: RefManyKey, post: RefMany, out: Option<RefManyRow>) -> bool {
        match pair_seq(pre.road_id@, pre.ref_id@).index_of_first((key.0.0, key.1.0)) {
            None => {
                &&& post.road_id@ == pre.road_id@
                &&& post.ref_id@ == pre.ref_id@
                &&& out is None
            },
            Some(j) => {
                &&& out matches Some(row) && row.road_id == pre.road_id@[j] && row.ref_id
                    == pre.ref_id@[j]
                &&& post.road_id@ == pre.road_id@.remove(j)
                &&& post.ref_id@ == pre.ref_id@.remove(j)
            },
        }
    }

    fn delete(&mut self, key: &RefManyKey) -> (out: Option<RefManyRow>) {
        let found = find_pair(&self.road_id, &self.ref_id, key.0.0, key.1.0);
        proof {
            pair_seq(self.road_id@, self.ref_id@).index_of_first_ensures((key.0.0, key.1.0));
        }
        match found {
            Option::None => {
                proof {
                    assert(RefMany::deleted(*self, *key, *self, None::<RefManyRow>));
                }
                None
            },
            Option::Some(j) => {
                proof {
                    assert(pair_seq(self.road_id@, self.ref_id@)[j as int] == (key.0.0, key.1.0));
                }
                let road_id = self.road_id.remove(j);
                let ref_id = self.ref_id.remove(j);
                Some(RefManyRow { road_id, ref_id })
            },
        }
    }
}

} // verus!
