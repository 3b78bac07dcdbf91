//! The table of road names: generated identifiers, deduplicated by name.

use vstd::prelude::*;

use crate::table::{find_string, find_u64, string_views, Deleteable, Insertable, Queryable};
use crate::Id;

verus! {

/// Key into the [`Name`] table.
#[derive(Debug, Clone, Copy)]
pub struct NameKey(pub Id);

/// One row of the [`Name`] table. The identifier of an inserted row is
/// generated by the table; the row's own `id` field is ignored on insert.
#[derive(Debug)]
pub struct NameRow {
    pub id: Id,
    pub name: String,
}

/// Columnar table of road names, keyed by generated identifiers.
#[derive(Debug)]
pub struct Name {
    pub id: Vec<Id>,
    pub name: Vec<String>,
}

impl Name {
    /// Parallel columns with strictly increasing identifiers.
    pub open spec fn wf(self) -> bool {
        &&& self.id@.len() == self.name@.len()
        &&& forall|a: int, b: int|
            #![trigger self.id@[a], self.id@[b]]
            0 <= a < b < self.id@.len() ==> self.id@[a] < self.id@[b]
    }

    /// The identifier the next fresh row receives.
    pub open spec fn next_id(self) -> int {
        if self.id@.len() == 0 {
            0
        } else {
            self.id@.last() + 1
        }
    }

    pub fn new() -> (t: Name)
        ensures
            t.wf(),
            t.id@.len() == 0,
            t.name@.len() == 0,
    {
        Name { id: Vec::new(), name: Vec::new() }
    }
}

impl Default for Name {
    /// An empty table.
    fn default() -> (t: Self)
        ensures
            t.wf(),
            t.id@.len() == 0,
            t.name@.len() == 0,
    {
        Name::new()
    }
}

impl Insertable<NameRow> for Name {
    type Key = NameKey;

    open spec fn ready_for(self, n: nat) -> bool {
        &&& self.wf()
        &&& self.next_id() + n <= u64::MAX + 1
    }

    proof fn ready_for_mono(self, m: nat, n: nat) {
    }

    open spec fn inserted(pre: Name, data: NameRow, post: Name, k: NameKey) -> bool {
        match string_views(pre.name@).index_of_first(data.name@) {
            Some(j) => {
                &&& post.id@ == pre.id@
                &&& post.name@ == pre.name@
                &&& k.0 == pre.id@[j]
            },
            None => {
                &&& post.id@ == pre.id@.push(pre.next_id() as u64)
                &&& post.name@ == pre.name@.push(data.name)
                &&& k.0 == pre.next_id()
            },
        }
    }

    fn insert(&mut self, data: NameRow) -> (k: NameKey) {
        proof {
            string_views(self.name@).index_of_first_ensures(data.name@);
        }
        let found = find_string(&self.name, &data.name);
        match found {
            Option::Some(j) => {
                let k = NameKey(self.id[j]);
                proof {
                    assert(Name::inserted(*self, data, *self, k));
                }
                k
            },
            Option::None => {
                let next: u64 = if self.id.len() == 0 {
                    0
                } else {
                    self.id[self.id.len() - 1] + 1
                };
                let ghost pre = *self;
                self.id.push(next);
                self.name.push(data.name);
                proof {
                    assert forall|a: int, b: int|
                        #![trigger self.id@[a], self.id@[b]]
                        0 <= a < b < self.id@.len() implies self.id@[a] < self.id@[b] by {
                        if b == self.id@.len() - 1 && a < b {
                            assert(pre.id@[a] <= pre.id@[pre.id@.len() - 1]);
                        }
                    }
                }
                let k = NameKey(next);
                proof {
                    assert(Name::inserted(pre, data, *self, k));
                }
                k
            },
        }
    }
}

impl Queryable<NameKey> for Name {
    open spec fn find_ready(self) -> bool {
        self.wf()
    }

    open spec fn find_spec(self, key: NameKey) -> Option<int> {
        self.id@.index_of_first(key.0)
    }

    fn find_index(&self, key: &NameKey) -> (r: Option<usize>) {
        find_u64(&self.id, key.0)
    }
}

impl Deleteable<NameKey> for Name {
    type Output = NameRow;

    open spec fn del_ready(self) -> bool {
        self.wf()
    }

    open spec fn deleted(pre: Name, key: NameKey, post: Name, out: Option<NameRow>) -> bool {
        match pre.id@.index_of_first(key.0) {
            None => {
                &&& post.id@ == pre.id@
                &&& post.name@ == pre.name@
                &&& out is None
            },
            Some(j) => {
                &&& out matches Some(row) && row.id == pre.id@[j] && row.name == pre.name@[j]
                &&& post.id@ == pre.id@.remove(j)
                &&& post.name@ == pre.name@.remove(j)
            },
        }
    }

    fn delete(&mut self, key: &NameKey) -> (out: Option<NameRow>) {
        proof {
            self.id@.index_of_first_ensures(key.0);
        }
        let found = find_u64(&self.id, key.0);
        match found {
            Option::None => {
                proof {
                    assert(self.id@.index_of_first(key.0) is None);
                    assert(Name::deleted(*self, *key, *self, None::<NameRow>));
                }
                None
            },
            Option::Some(j) => {
                let ghost pre = *self;
                let id = self.id.remove(j);
                let name = self.name.remove(j);
                proof {
                    assert forall|a: int, b: int|
                        #![trigger self.id@[a], self.id@[b]]
                        0 <= a < b < self.id@.len() implies self.id@[a] < self.id@[b] by {
                        let a0 = if a < j { a } else { a + 1 };
                        let b0 = if b < j { b } else { b + 1 };
                        assert(self.id@[a] == pre.id@[a0]);
                        assert(self.id@[b] == pre.id@[b0]);
                        assert(pre.id@[a0] < pre.id@[b0]);
                    }
                }
                Some(NameRow { id, name })
            },
        }
    }
}

} // verus!
