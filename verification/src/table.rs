//! In-memory columnar tables for road metadata, with insert / delete /
//! lookup capabilities shared by all tables.
//!
//! Identifier-generating tables hand out the last identifier plus one and
//! deduplicate on a designated column; this linear-scan scheme is
//! intentionally simple and is exactly specified per table.

use vstd::prelude::*;

pub mod feature_class;
pub mod name;
pub mod ref_item;
pub mod ref_many;
pub mod road;

verus! {

/// Rows of type `Data` can be inserted into `Self`.
pub trait Insertable<Data>: Sized {
    type Key;

    /// The table can accept `n` more rows (well-formedness plus room in
    /// the identifier space).
    spec fn ready_for(self, n: nat) -> bool;

    /// How one insertion changes the table and what key it returns.
    spec fn inserted(pre: Self, data: Data, post: Self, k: Self::Key) -> bool;

    /// Room for more rows includes room for fewer.
    proof fn ready_for_mono(self, m: nat, n: nat)
        requires
            m <= n,
            self.ready_for(n),
        ensures
            self.ready_for(m),
    ;

    /// Insert one row; returns its key.
    fn insert(&mut self, data: Data) -> (k: Self::Key)
        requires
            old(self).ready_for(1),
        ensures
            Self::inserted(*old(self), data, *final (self), k),
            forall|n: nat| old(self).ready_for(n + 1) ==> final (self).ready_for(n),
    ;

    /// Insert many rows, collecting their keys: the table steps through a
    /// chain of states, one insertion per row, in order.
    fn insert_many(&mut self, data: Vec<Data>) -> (keys: Vec<Self::Key>)
        requires
            old(self).ready_for(data@.len()),
        ensures
            keys@.len() == data@.len(),
            final (self).ready_for(0),
            exists|states: Seq<Self>|
                {
                    &&& (#[trigger] states.len()) == data@.len() + 1
                    &&& states[0] == *old(self)
                    &&& states[data@.len() as int] == *final (self)
                    &&& forall|i: int|
                        0 <= i < data@.len() ==> #[trigger] Self::inserted(
                            states[i],
                            data@[i],
                            states[i + 1],
                            keys@[i],
                        )
                },
    {
        let ghost n0 = data@.len();
        let ghost orig = data@;
        let mut rest = data;
        let mut keys: Vec<Self::Key> = Vec::new();
        let ghost mut states: Seq<Self> = seq![*old(self)];
        while rest.len() > 0
            invariant
                n0 == orig.len(),
                keys@.len() + rest@.len() == n0,
                rest@ == orig.subrange(keys@.len() as int, n0 as int),
                self.ready_for(rest@.len()),
                states.len() == keys@.len() + 1,
                states[0] == *old(self),
                states[keys@.len() as int] == *self,
                forall|i: int|
                    0 <= i < keys@.len() ==> #[trigger] Self::inserted(
                        states[i],
                        orig[i],
                        states[i + 1],
                        keys@[i],
                    ),
            decreases rest@.len(),
        {
            let ghost pre_rest = rest@;
            let ghost kk = keys@.len() as int;
            proof {
                self.ready_for_mono(1, rest@.len());
                assert(pre_rest[0] == orig.subrange(kk, n0 as int)[0]);
            }
            let row = rest.remove(0);
            let k = self.insert(row);
            keys.push(k);
            proof {
                states = states.push(*self);
                assert forall|t: int|
                    0 <= t < rest@.len() implies rest@[t] == orig.subrange(
                    kk + 1,
                    n0 as int,
                )[t] by {
                    assert(rest@[t] == pre_rest.subrange(1, pre_rest.len() as int)[t]);
                    assert(pre_rest[1 + t] == orig.subrange(kk, n0 as int)[1 + t]);
                }
                assert(rest@ =~= orig.subrange(kk + 1, n0 as int));
            }
        }
        proof {
            assert(orig.subrange(n0 as int, n0 as int).len() == 0);
        }
        keys
    }
}

/// Rows can be deleted from `Self` by a `Key`.
pub trait Deleteable<Key>: Sized {
    type Output;

    /// The table is fit for deletion (well-formed).
    spec fn del_ready(self) -> bool;

    /// How deleting `key` changes the table and what row comes out.
    spec fn deleted(pre: Self, key: Key, post: Self, out: Option<Self::Output>) -> bool;

    /// Delete the row with the given key, returning it if it was present.
    fn delete(&mut self, key: &Key) -> (out: Option<Self::Output>)
        requires
            old(self).del_ready(),
        ensures
            Self::deleted(*old(self), *key, *final (self), out),
            final (self).del_ready(),
    ;

    /// Delete many keys, collecting the removed rows: the table steps
    /// through a chain of states, one deletion per key, in order.
    fn delete_many(&mut self, keys: &Vec<Key>) -> (outs: Vec<Option<Self::Output>>)
        requires
            old(self).del_ready(),
        ensures
            outs@.len() == keys@.len(),
            final (self).del_ready(),
            exists|states: Seq<Self>|
                {
                    &&& (#[trigger] states.len()) == keys@.len() + 1
                    &&& states[0] == *old(self)
                    &&& states[keys@.len() as int] == *final (self)
                    &&& forall|i: int|
                        0 <= i < keys@.len() ==> #[trigger] Self::deleted(
                            states[i],
                            keys@[i],
                            states[i + 1],
                            outs@[i],
                        )
                },
    {
        let mut outs: Vec<Option<Self::Output>> = Vec::new();
        let ghost mut states: Seq<Self> = seq![*old(self)];
        let mut i: usize = 0;
        while i < keys.len()
            invariant
                0 <= i <= keys@.len(),
                outs@.len() == i,
                self.del_ready(),
                states.len() == i + 1,
                states[0] == *old(self),
                states[i as int] == *self,
                forall|j: int|
                    0 <= j < i ==> #[trigger] Self::deleted(
                        states[j],
                        keys@[j],
                        states[j + 1],
                        outs@[j],
                    ),
            decreases keys@.len() - i,
        {
            let out = self.delete(&keys[i]);
            outs.push(out);
            proof {
                states = states.push(*self);
            }
            i += 1;
        }
        outs
    }
}

/// Rows of `Self` can be looked up by a `Key`.
pub trait Queryable<Key>: Sized {
    /// The table is fit for lookup (well-formed).
    spec fn find_ready(self) -> bool;

    /// The position the lookup yields, if any.
    spec fn find_spec(self, key: Key) -> Option<int>;

    /// Find the position of the row with the given key.
    fn find_index(&self, key: &Key) -> (r: Option<usize>)
        requires
            self.find_ready(),
        ensures
            match r {
                Some(u) => self.find_spec(*key) == Some(u as int),
                None => self.find_spec(*key) is None,
            },
    ;

    /// Find the positions of many keys.
    fn find_many_indexes(&self, keys: &Vec<Key>) -> (rs: Vec<Option<usize>>)
        requires
            self.find_ready(),
        ensures
            rs@.len() == keys@.len(),
            forall|i: int|
                0 <= i < keys@.len() ==> match #[trigger] rs@[i] {
                    Some(u) => self.find_spec(keys@[i]) == Some(u as int),
                    None => self.find_spec(keys@[i]) is None,
                },
    {
        let mut rs: Vec<Option<usize>> = Vec::new();
        let mut i: usize = 0;
        while i < keys.len()
            invariant
                self.find_ready(),
                0 <= i <= keys@.len(),
                rs@.len() == i,
                forall|j: int|
                    0 <= j < i ==> match #[trigger] rs@[j] {
                        Some(u) => self.find_spec(keys@[j]) == Some(u as int),
                        None => self.find_spec(keys@[j]) is None,
                    },
            decreases keys@.len() - i,
        {
            let r = self.find_index(&keys[i]);
            rs.push(r);
            i += 1;
        }
        rs
    }
}


/// The views (character sequences) of a column of strings.
pub open spec fn string_views(ss: Seq<String>) -> Seq<Seq<char>> {
    ss.map_values(|s: String| s@)
}

/// Position of the first string in the column whose text equals `needle`.
pub fn find_string(ss: &Vec<String>, needle: &String) -> (r: Option<usize>)
    ensures
        match r {
            Some(u) => string_views(ss@).index_of_first(needle@) == Some(u as int),
            None => string_views(ss@).index_of_first(needle@) is None,
        },
{
    proof {
        string_views(ss@).index_of_first_ensures(needle@);
    }
    let n = ss.len();
    let mut i: usize = 0;
    while i < n
        invariant
            n == ss@.len(),
            0 <= i <= n,
            forall|j: int| 0 <= j < i ==> string_views(ss@)[j] != needle@,
        decreases n - i,
    {
        if ss[i] == *needle {
            proof {
                assert(string_views(ss@)[i as int] == needle@);
                string_views(ss@).index_of_first_ensures(needle@);
            }
            return Some(i);
        }
        i += 1;
    }
    proof {
        string_views(ss@).index_of_first_ensures(needle@);
        if string_views(ss@).contains(needle@) {
            let w = choose|w: int|
                0 <= w < string_views(ss@).len() && string_views(ss@)[w] == needle@;
            assert(false);
        }
    }
    None
}

/// Position of the first occurrence of `needle` in a column of integers.
pub fn find_u64(xs: &Vec<u64>, needle: u64) -> (r: Option<usize>)
    ensures
        match r {
            Some(u) => xs@.index_of_first(needle) == Some(u as int),
            None => xs@.index_of_first(needle) is None,
        },
{
    proof {
        xs@.index_of_first_ensures(needle);
    }
    let n = xs.len();
    let mut i: usize = 0;
    while i < n
        invariant
            n == xs@.len(),
            0 <= i <= n,
            forall|j: int| 0 <= j < i ==> xs@[j] != needle,
        decreases n - i,
    {
        if xs[i] == needle {
            proof {
                xs@.index_of_first_ensures(needle);
            }
            return Some(i);
        }
        i += 1;
    }
    proof {
        xs@.index_of_first_ensures(needle);
        if xs@.contains(needle) {
            let w = choose|w: int| 0 <= w < xs@.len() && xs@[w] == needle;
            assert(false);
        }
    }
    None
}

} // verus!
