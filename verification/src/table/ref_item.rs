//! The table of road reference designations: generated identifiers,
//! deduplicated by the reference text.

use vstd::prelude::*;

use crate::table::{find_string, find_u64, string_views, Deleteable, Insertable, Queryable};
use crate::Id;

verus! {

/// Key into the [`Ref`] table.
#[derive(Debug, Clone, Copy)]
pub struct RefKey(pub Id);

/// One row of the [`Ref`] table. The identifier of an inserted row is
/// generated by the table; the row's own `id` field is ignored on insert.
pub struct RefRow {
    pub id: Id,
    pub reff: String,
}

/// Columnar table of road reference designations.
#[derive(Debug)]
pub struct Ref {
    pub id: Vec<Id>,
    pub reff: Vec<String>,
}

impl Ref {
    /// Parallel columns with strictly increasing identifiers.
    pub open spec fn wf(self) -> bool {
        &&& self.id@.len() == self.reff@.len()
        &&& forall|a: int, b: int|
            #![trigger self.id@[a], self.id@[b]]
            0 <= a < b < self.id@.len() ==> self.id@[a] < self.id@[b]
    }

    /// The identifier the next fresh row receives.
    pub open spec fn next_id(self) -> int {
        if self.id@.len() == 0 {
            0
        } else {
            self.id@.last() + 1
        }
    }

    pub fn new() -> (t: Ref)
        ensures
            t.wf(),
            t.id@.len() == 0,
            t.reff@.len() == 0,
    {
        Ref { id: Vec::new(), reff: Vec::new() }
    }
}

impl Default for Ref {
    /// An empty table.
    fn default() -> (t: Self)
        ensures
            t.wf(),
            t.id@.len() == 0,
            t.reff@.len() == 0,
    {
        Ref::new()
    }
}

impl Insertable<RefRow> for Ref {
    type Key = RefKey;

    open spec fn ready_for(self, n: nat) -> bool {
        &&& self.wf()
        &&& self.next_id() + n <= u64::MAX + 1
    }

    proof fn ready_for_mono(self, m: nat, n: nat) {
    }

    open spec fn inserted(pre: Ref, data: RefRow, post: Ref, k: RefKey) -> bool {
        match string_views(pre.reff@).index_of_first(data.reff@) {
            Some(j) => {
                &&& post.id@ == pre.id@
                &&& post.reff@ == pre.reff@
                &&& k.0 == pre.id@[j]
            },
            None => {
                &&& post.id@ == pre.id@.push(pre.next_id() as u64)
                &&& post.reff@ == pre.reff@.push(data.reff)
                &&& k.0 == pre.next_id()
            },
        }
    }

    fn insert(&mut self, data: RefRow) -> (k: RefKey) {
        proof {
            string_views(self.reff@).index_of_first_ensures(data.reff@);
        }
        let found = find_string(&self.reff, &data.reff);
        match found {
            Option::Some(j) => {
                let k = RefKey(self.id[j]);
                proof {
                    assert(Ref::inserted(*self, data, *self, k));
                }
                k
            },
            Option::None => {
                let next: u64 = if self.id.len() == 0 {
                    0
                } else {
                    self.id[self.id.len() - 1] + 1
                };
                let ghost pre = *self;
                self.id.push(next);
                self.reff.push(data.reff);
                proof {
                    assert forall|a: int, b: int|
                        #![trigger self.id@[a], self.id@[b]]
                        0 <= a < b < self.id@.len() implies self.id@[a] < self.id@[b] by {
                        if b == self.id@.len() - 1 && a < b {
                            assert(pre.id@[a] <= pre.id@[pre.id@.len() - 1]);
                        }
                    }
                }
                let k = RefKey(next);
                proof {
                    assert(Ref::inserted(pre, data, *self, k));
                }
                k
            },
        }
    }
}

impl Queryable<RefKey> for Ref {
    open spec fn find_ready(self) -> bool {
        self.wf()
    }

    open spec fn find_spec(self, key: RefKey) -> Option<int> {
        self.id@.index_of_first(key.0)
    }

    fn find_index(&self, key: &RefKey) -> (r: Option<usize>) {
        find_u64(&self.id, key.0)
    }
}

impl Deleteable<RefKey> for Ref {
    type Output = RefRow;

    open spec fn del_ready(self) -> bool {
        self.wf()
    }

    open spec fn deleted(pre: Ref, key: RefKey, post: Ref, out: Option<RefRow>) -> bool {
        match pre.id@.index_of_first(key.0) {
            None => {
                &&& post.id@ == pre.id@
                &&& post.reff@ == pre.reff@
                &&& out is None
            },
            Some(j) => {
                &&& out matches Some(row) && row.id == pre.id@[j] && row.reff == pre.reff@[j]
                &&& post.id@ == pre.id@.remove(j)
                &&& post.reff@ == pre.reff@.remove(j)
            },
        }
    }

    fn delete(&mut self, key: &RefKey) -> (out: Option<RefRow>) {
        proof {
            self.id@.index_of_first_ensures(key.0);
        }
        let found = find_u64(&self.id, key.0);
        match found {
            Option::None => {
                proof {
                    assert(Ref::deleted(*self, *key, *self, None::<RefRow>));
                }
                None
            },
            Option::Some(j) => {
                let ghost pre = *self;
                let id = self.id.remove(j);
                let reff = self.reff.remove(j);
                proof {
                    assert forall|a: int, b: int|
                        #![trigger self.id@[a], self.id@[b]]
                        0 <= a < b < self.id@.len() implies self.id@[a] < self.id@[b] by {
                        let a0 = if a < j { a } else { a + 1 };
                        let b0 = if b < j { b } else { b + 1 };
                        assert(self.id@[a] == pre.id@[a0]);
                        assert(self.id@[b] == pre.id@[b0]);
                        assert(pre.id@[a0] < pre.id@[b0]);
                    }
                }
                Some(RefRow { id, reff })
            },
        }
    }
}

} // verus!
