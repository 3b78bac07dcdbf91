//! The table of feature classes: rows keyed by their own class code,
//! deduplicated by class name.

use vstd::prelude::*;

use crate::table::{find_string, string_views, Deleteable, Insertable, Queryable};

verus! {

/// Key into the [`FeatureClass`] table.
#[derive(Debug, Clone, Copy)]
pub struct FeatureClassKey(pub u16);

/// One row of the [`FeatureClass`] table.
#[derive(Debug)]
pub struct FeatureClassRow {
    pub code: u16,
    pub fclass: String,
}

/// Columnar table of feature classes, keyed by class code.
#[derive(Debug)]
pub struct FeatureClass {
    pub code: Vec<u16>,
    pub fclass: Vec<String>,
}

impl FeatureClass {
    /// Parallel columns.
    pub open spec fn wf(self) -> bool {
        self.code@.len() == self.fclass@.len()
    }

    pub fn new() -> (t: FeatureClass)
        ensures
            t.wf(),
            t.code@.len() == 0,
            t.fclass@.len() == 0,
    {
        FeatureClass { code: Vec::new(), fclass: Vec::new() }
    }
}

impl Default for FeatureClass {
    /// An empty table.
    fn default() -> (t: Self)
        ensures
            t.wf(),
            t.code@.len() == 0,
            t.fclass@.len() == 0,
    {
        FeatureClass::new()
    }
}

/// Position of the first occurrence of `needle` in a column of codes.
fn find_u16(xs: &Vec<u16>, needle: u16) -> (r: Option<usize>)
    ensures
        match r {
            Some(u) => xs@.index_of_first(needle) == Some(u as int),
            None => xs@.index_of_first(needle) is None,
        },
{
    let n = xs.len();
    let mut i: usize = 0;
    while i < n
        invariant
            n == xs@.len(),
            0 <= i <= n,
            forall|j: int| 0 <= j < i ==> xs@[j] != needle,
        decreases n - i,
    {
        if xs[i] == needle {
            proof {
                xs@.index_of_first_ensures(needle);
            }
            return Some(i);
        }
        i += 1;
    }
    proof {
        xs@.index_of_first_ensures(needle);
        if xs@.contains(needle) {
            let w = choose|w: int| 0 <= w < xs@.len() && xs@[w] == needle;
            assert(false);
        }
    }
    None
}

impl Insertable<FeatureClassRow> for FeatureClass {
    type Key = FeatureClassKey;

    open spec fn ready_for(self, n: nat) -> bool {
        self.wf()
    }

    proof fn ready_for_mono(self, m: nat, n: nat) {
    }

    open spec fn inserted(
        pre: FeatureClass,
        data: FeatureClassRow,
        post: FeatureClass,
        k: FeatureClassKey,
    ) -> bool {
        match string_views(pre.fclass@).index_of_first(data.fclass@) {
            Some(j) => {
                &&& post.code@ == pre.code@
                &&& post.fclass@ == pre.fclass@
                &&& k.0 == pre.code@[j]
            },
            None => {
                &&& post.code@ == pre.code@.push(data.code)
                &&& post.fclass@ == pre.fclass@.push(data.fclass)
                &&& k.0 == data.code
            },
        }
    }

    fn insert(&mut self, data: FeatureClassRow) -> (k: FeatureClassKey) {
        proof {
            string_views(self.fclass@).index_of_first_ensures(data.fclass@);
        }
        let found = find_string(&self.fclass, &data.fclass);
        match found {
            Option::Some(j) => {
                let k = FeatureClassKey(self.code[j]);
                proof {
                    assert(FeatureClass::inserted(*self, data, *self, k));
                }
                k
            },
            Option::None => {
                let ghost pre = *self;
                let k = FeatureClassKey(data.code);
                self.code.push(data.code);
                self.fclass.push(data.fclass);
                proof {
                    assert(FeatureClass::inserted(pre, data, *self, k));
                }
                k
            },
        }
    }
}

impl Queryable<FeatureClassKey> for FeatureClass {
    open spec fn find_ready(self) -> bool {
        self.wf()
    }

    open spec fn find_spec(self, key: FeatureClassKey) -> Option<int> {
        self.code@.index_of_first(key.0)
    }

    fn find_index(&self, key: &FeatureClassKey) -> (r: Option<usize>) {
        find_u16(&self.code, key.0)
    }
}

impl Deleteable<FeatureClassKey> for FeatureClass {
    type Output = FeatureClassRow;

    open spec fn del_ready(self) -> bool {
        self.wf()
    }

    open spec fn deleted(
        pre: FeatureClass,
        key: FeatureClassKey,
        post: FeatureClass,
        out: Option<FeatureClassRow>,
    ) -> bool {
        match pre.code@.index_of_first(key.0) {
            None => {
                &&& post.code@ == pre.code@
                &&& post.fclass@ == pre.fclass@
                &&& out is None
            },
            Some(j) => {
                &&& out matches Some(row) && row.code == pre.code@[j] && row.fclass
                    == pre.fclass@[j]
                &&& post.code@ == pre.code@.remove(j)
                &&& post.fclass@ == pre.fclass@.remove(j)
            },
        }
    }

    fn delete(&mut self, key: &FeatureClassKey) -> (out: Option<FeatureClassRow>) {
        proof {
            self.code@.index_of_first_ensures(key.0);
        }
        let found = find_u16(&self.code, key.0);
        match found {
            Option::None => {
                proof {
                    assert(FeatureClass::deleted(*self, *key, *self, None::<FeatureClassRow>));
                }
                None
            },
            Option::Some(j) => {
                let code = self.code.remove(j);
                let fclass = self.fclass.remove(j);
                Some(FeatureClassRow { code, fclass })
            },
        }
    }
}

} // verus!
