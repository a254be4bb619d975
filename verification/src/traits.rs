//! The ordered-map face of a table, and the table-level operations
//! that work over it, as traits.

use vstd::prelude::*;

use crate::enums::IndexOrColumn;
use crate::errors::TableError;
use crate::table::Table;
use crate::table::col_find;
use crate::table::keys_sorted;
use crate::table::lemma_key_index;
use crate::table::str_views;
use crate::table::swap_effect;

verus! {

/// Ordered-map access to keyed rows.
pub trait BtreeMapTrait<V>: Sized {
    /// The container is in its invariant.
    spec fn t_wf(&self) -> bool;

    /// The keyed rows.
    spec fn t_map(&self) -> Map<u64, Seq<V>>;

    /// The keys, in ascending order.
    spec fn t_keys(&self) -> Seq<u64>;

    /// The fixed row width.
    spec fn t_width(&self) -> nat;

    /// Drop every row.
    fn clear(&mut self)
        requires
            old(self).t_wf(),
        ensures
            final(self).t_wf(),
            final(self).t_map() == Map::<u64, Seq<V>>::empty(),
            final(self).t_width() == old(self).t_width(),
    ;

    /// Look a key up.
    fn get(&self, key: u64) -> (r: Option<&Vec<V>>)
        requires
            self.t_wf(),
        ensures
            match r {
                Option::Some(row) => self.t_map().contains_key(key) && row@ == self.t_map()[key],
                Option::None => !self.t_map().contains_key(key),
            },
    ;

    /// Whether a key is bound.
    fn contains_key(&self, key: u64) -> (r: bool)
        requires
            self.t_wf(),
        ensures
            r == self.t_map().contains_key(key),
    ;

    /// Bind a key to a row, returning the row it replaced.
    fn insert(&mut self, key: u64, value: Vec<V>) -> (r: Option<Vec<V>>)
        requires
            old(self).t_wf(),
            value@.len() == old(self).t_width(),
        ensures
            final(self).t_wf(),
            final(self).t_width() == old(self).t_width(),
            final(self).t_map() == old(self).t_map().insert(key, value@),
            match r {
                Option::Some(old_row) => old(self).t_map().contains_key(key) && old_row@ == old(
                    self,
                ).t_map()[key],
                Option::None => !old(self).t_map().contains_key(key),
            },
    ;

    /// Look a key up for mutation: what the caller leaves behind the
    /// reference becomes the row under that key, and the container is
    /// back in its invariant when that row kept its width.
    fn get_mut(&mut self, key: u64) -> (r: Option<&mut Vec<V>>)
        requires
            old(self).t_wf(),
        ensures
            match r {
                Option::Some(row) => {
                    &&& old(self).t_map().contains_key(key)
                    &&& (*row)@ == old(self).t_map()[key]
                    &&& final(self).t_keys() == old(self).t_keys()
                    &&& final(self).t_width() == old(self).t_width()
                    &&& final(self).t_map() == old(self).t_map().insert(key, (*final(row))@)
                    &&& ((*final(row))@.len() == old(self).t_width() ==> final(self).t_wf())
                },
                Option::None => !old(self).t_map().contains_key(key) && *final(self) == *old(
                    self,
                ),
            },
    ;

    /// Unbind a key, returning the row it was bound to.
    fn remove(&mut self, key: u64) -> (r: Option<Vec<V>>)
        requires
            old(self).t_wf(),
        ensures
            final(self).t_wf(),
            final(self).t_width() == old(self).t_width(),
            final(self).t_map() == old(self).t_map().remove(key),
            match r {
                Option::Some(row) => old(self).t_map().contains_key(key) && row@ == old(
                    self,
                ).t_map()[key],
                Option::None => !old(self).t_map().contains_key(key),
            },
    ;

    /// The bindings whose key falls in `start..end`, in ascending
    /// order.
    fn range<'a>(&'a self, start: u64, end: u64) -> (r: Vec<(u64, &'a Vec<V>)>)
        requires
            self.t_wf(),
        ensures
            keys_sorted(r@.map_values(|p: (u64, &'a Vec<V>)| p.0)),
            forall|j: int|
                0 <= j < r@.len() ==> {
                    &&& start <= (#[trigger] r@[j]).0 < end
                    &&& self.t_map().contains_key(r@[j].0)
                    &&& r@[j].1@ == self.t_map()[r@[j].0]
                },
            forall|k: u64|
                #[trigger] self.t_map().contains_key(k) && start <= k < end ==> exists|j: int|
                    0 <= j < r@.len() && (#[trigger] r@[j]).0 == k,
    ;

    /// Every binding, in ascending key order.
    fn iter<'a>(&'a self) -> (r: Vec<(u64, &'a Vec<V>)>)
        requires
            self.t_wf(),
        ensures
            r@.map_values(|p: (u64, &'a Vec<V>)| p.0) == self.t_keys(),
            forall|j: int|
                0 <= j < r@.len() ==> (#[trigger] r@[j]).1@ == self.t_map()[r@[j].0],
    ;

    /// The keys, in ascending order.
    fn keys(&self) -> (r: Vec<u64>)
        requires
            self.t_wf(),
        ensures
            r@ == self.t_keys(),
    ;

    /// The rows, in ascending key order.
    fn values<'a>(&'a self) -> (r: Vec<&'a Vec<V>>)
        requires
            self.t_wf(),
        ensures
            r@.len() == self.t_keys().len(),
            forall|j: int|
                0 <= j < r@.len() ==> (#[trigger] r@[j])@ == self.t_map()[self.t_keys()[j]],
    ;

    /// The number of rows.
    fn len(&self) -> (r: usize)
        requires
            self.t_wf(),
        ensures
            r == self.t_keys().len(),
    ;

    /// Whether there are no rows.
    fn is_empty(&self) -> (r: bool)
        requires
            self.t_wf(),
        ensures
            r == (self.t_keys().len() == 0),
    ;

    /// Split at a key: keep everything below it, hand back everything
    /// at or above it.
    fn split_off(&mut self, key: u64) -> (r: Self)
        requires
            old(self).t_wf(),
        ensures
            final(self).t_wf(),
            r.t_wf(),
            final(self).t_width() == old(self).t_width(),
            r.t_width() == old(self).t_width(),
            forall|k: u64|
                #[trigger] old(self).t_map().contains_key(k) ==> if k < key {
                    final(self).t_map().contains_key(k) && final(self).t_map()[k] == old(
                        self,
                    ).t_map()[k]
                } else {
                    r.t_map().contains_key(k) && r.t_map()[k] == old(self).t_map()[k]
                },
            forall|k: u64|
                #[trigger] final(self).t_map().contains_key(k) ==> old(
                    self,
                ).t_map().contains_key(k) && k < key,
            forall|k: u64|
                #[trigger] r.t_map().contains_key(k) ==> old(self).t_map().contains_key(k) && k
                    >= key,
    ;
}

impl<V> BtreeMapTrait<V> for Table<V> {
    open spec fn t_wf(&self) -> bool {
        self.wf()
    }

    open spec fn t_map(&self) -> Map<u64, Seq<V>> {
        self.row_map()
    }

    open spec fn t_keys(&self) -> Seq<u64> {
        self.key_seq()
    }

    open spec fn t_width(&self) -> nat {
        self.width()
    }

    fn clear(&mut self) {
        Table::clear(self)
    }

    fn get(&self, key: u64) -> (r: Option<&Vec<V>>) {
        Table::get(self, key)
    }

    fn contains_key(&self, key: u64) -> (r: bool) {
        Table::contains_key(self, key)
    }

    fn insert(&mut self, key: u64, value: Vec<V>) -> (r: Option<Vec<V>>) {
        Table::insert(self, key, value)
    }

    fn get_mut(&mut self, key: u64) -> (r: Option<&mut Vec<V>>) {
        Table::get_mut(self, key)
    }

    fn remove(&mut self, key: u64) -> (r: Option<Vec<V>>) {
        Table::remove(self, key)
    }

    #[verifier::loop_isolation(false)]
    fn range<'a>(&'a self, start: u64, end: u64) -> (r: Vec<(u64, &'a Vec<V>)>) {
        let mut out: Vec<(u64, &'a Vec<V>)> = Vec::new();
        let mut i: usize = 0;
        while i < self.len()
            invariant
                i <= self.spec_len(),
                keys_sorted(out@.map_values(|p: (u64, &'a Vec<V>)| p.0)),
                forall|j: int|
                    0 <= j < out@.len() ==> {
                        &&& start <= (#[trigger] out@[j]).0 < end
                        &&& self.row_map().contains_key(out@[j].0)
                        &&& out@[j].1@ == self.row_map()[out@[j].0]
                        &&& exists|idx: int|
                            0 <= idx < i && self.key_seq()[idx] == (#[trigger] out@[j]).0
                    },
                forall|k: u64|
                    #[trigger] self.row_map().contains_key(k) && start <= k < end
                        && self.key_seq().take(i as int).contains(k) ==> exists|j: int|
                        0 <= j < out@.len() && (#[trigger] out@[j]).0 == k,
            decreases self.spec_len() - i,
        {
            let k = self.key_at(i);
            proof {
                lemma_key_index(self.key_seq(), k, i as int);
            }
            let ghost out_pre = out@;
            if start <= k && k < end {
                let row = self.row_at(i);
                proof {
                    if out@.len() > 0 {
                        let j = out@.len() - 1;
                        let idx = choose|idx: int|
                            0 <= idx < i && self.key_seq()[idx] == (#[trigger] out@[j]).0;
                        assert(self.key_seq()[idx] < self.key_seq()[i as int]);
                    }
                }
                out.push((k, row));
                proof {
                    let km = out@.map_values(|p: (u64, &'a Vec<V>)| p.0);
                    let km0 = out_pre.map_values(|p: (u64, &'a Vec<V>)| p.0);
                    assert forall|a: int, b: int| 0 <= a < b < km.len() implies km[a] < km[b] by {
                        if b < km.len() - 1 {
                            assert(km0[a] == km[a] && km0[b] == km[b]);
                        } else {
                            assert(km[b] == k);
                            if a < km.len() - 1 {
                                assert(km0[a] == km[a]);
                            }
                        }
                    }
                }
            }
            proof {
                assert forall|k2: u64|
                    #[trigger] self.row_map().contains_key(k2) && start <= k2 < end
                        && self.key_seq().take(i as int + 1).contains(k2) implies exists|j: int|
                    0 <= j < out@.len() && (#[trigger] out@[j]).0 == k2 by {
                    let idx = choose|idx: int|
                        0 <= idx < i + 1 && #[trigger] self.key_seq().take(i as int + 1)[idx] == k2;
                    if idx < i {
                        assert(self.key_seq().take(i as int)[idx] == k2);
                        assert(self.key_seq().take(i as int).contains(k2));
                        let j = choose|j: int|
                            0 <= j < out_pre.len() && (#[trigger] out_pre[j]).0 == k2;
                        assert(out@[j].0 == k2);
                    } else {
                        assert(k2 == k);
                        assert(out@[out@.len() - 1].0 == k2);
                    }
                }
            }
            i += 1;
        }
        proof {
            assert(self.key_seq().take(self.spec_len() as int) =~= self.key_seq());
        }
        out
    }

    #[verifier::loop_isolation(false)]
    fn iter<'a>(&'a self) -> (r: Vec<(u64, &'a Vec<V>)>) {
        let mut out: Vec<(u64, &'a Vec<V>)> = Vec::new();
        let mut i: usize = 0;
        while i < self.len()
            invariant
                i <= self.spec_len(),
                out@.len() == i,
                forall|j: int| 0 <= j < i ==> (#[trigger] out@[j]).0 == self.key_seq()[j],
                forall|j: int| 0 <= j < i ==> (#[trigger] out@[j]).1@ == self.row_seq()[j],
            decreases self.spec_len() - i,
        {
            let k = self.key_at(i);
            let row = self.row_at(i);
            out.push((k, row));
            i += 1;
        }
        proof {
            assert(out@.map_values(|p: (u64, &'a Vec<V>)| p.0) =~= self.key_seq());
            assert forall|j: int|
                0 <= j < out@.len() implies (#[trigger] out@[j]).1@ == self.row_map()[out@[j].0] by {
                lemma_key_index(self.key_seq(), self.key_seq()[j], j);
            }
        }
        out
    }

    #[verifier::loop_isolation(false)]
    fn keys(&self) -> (r: Vec<u64>) {
        let mut out: Vec<u64> = Vec::new();
        let mut i: usize = 0;
        while i < self.len()
            invariant
                i <= self.spec_len(),
                out@.len() == i,
                forall|j: int| 0 <= j < i ==> #[trigger] out@[j] == self.key_seq()[j],
            decreases self.spec_len() - i,
        {
            out.push(self.key_at(i));
            i += 1;
        }
        proof {
            assert(out@ =~= self.key_seq());
        }
        out
    }

    #[verifier::loop_isolation(false)]
    fn values<'a>(&'a self) -> (r: Vec<&'a Vec<V>>) {
        let mut out: Vec<&'a Vec<V>> = Vec::new();
        let mut i: usize = 0;
        while i < self.len()
            invariant
                i <= self.spec_len(),
                out@.len() == i,
                forall|j: int| 0 <= j < i ==> (#[trigger] out@[j])@ == self.row_seq()[j],
            decreases self.spec_len() - i,
        {
            out.push(self.row_at(i));
            i += 1;
        }
        proof {
            assert forall|j: int|
                0 <= j < out@.len() implies (#[trigger] out@[j])@ == self.row_map()[self.key_seq()[j]] by {
                lemma_key_index(self.key_seq(), self.key_seq()[j], j);
            }
        }
        out
    }

    fn len(&self) -> (r: usize) {
        Table::len(self)
    }

    fn is_empty(&self) -> (r: bool) {
        Table::is_empty(self)
    }

    fn split_off(&mut self, key: u64) -> (r: Self) {
        Table::split_off(self, key)
    }
}

/// The table-level operations over an ordered-map container: slicing
/// by key range and swapping columns.
pub trait TableTrait<V: Clone>: BtreeMapTrait<V> {
    /// The column names.
    spec fn t_hview(&self) -> Seq<Seq<char>>;

    /// The metadata.
    spec fn t_meta(&self) -> Option<Seq<(Seq<char>, Seq<char>)>>;

    /// The rows at each storage position.
    spec fn t_rows(&self) -> Seq<Seq<V>>;

    /// A fresh table holding clones of the rows in `start..end`.
    fn slice_owned(&self, start: u64, end: u64) -> (r: Self)
        requires
            self.t_wf(),
        ensures
            r.t_wf(),
            r.t_hview() == self.t_hview(),
            forall|k: u64|
                #[trigger] r.t_map().contains_key(k) == (self.t_map().contains_key(k) && start <= k
                    < end),
            forall|k: u64|
                #[trigger] r.t_map().contains_key(k) ==> crate::table::cloned_seq(
                    self.t_map()[k],
                    r.t_map()[k],
                ),
    ;

    /// Keep only the rows in `start..end`, in place.
    fn slice_inplace(&mut self, start: u64, end: u64)
        requires
            old(self).t_wf(),
        ensures
            final(self).t_wf(),
            final(self).t_hview() == old(self).t_hview(),
            final(self).t_meta() == old(self).t_meta(),
            forall|k: u64|
                #[trigger] final(self).t_map().contains_key(k) == (old(
                    self,
                ).t_map().contains_key(k) && start <= k < end),
            forall|k: u64|
                #[trigger] final(self).t_map().contains_key(k) ==> final(self).t_map()[k] == old(
                    self,
                ).t_map()[k],
    ;

    /// The column names.
    fn headers<'a>(&'a self) -> (r: &'a Vec<String>)
        ensures
            str_views(r@) == self.t_hview(),
    ;

    /// Swap two columns named by index or by header string.
    fn swap_columns(&mut self, a: IndexOrColumn, b: IndexOrColumn) -> (r: Result<(), TableError>)
        requires
            old(self).t_wf(),
        ensures
            final(self).t_wf(),
            r is Ok ==> exists|x: int, y: int|
                {
                    &&& #[trigger] col_place(old(self).t_hview(), a, x)
                    &&& #[trigger] col_place(old(self).t_hview(), b, y)
                    &&& table_swap_shape(
                        old(self).t_hview(),
                        old(self).t_keys(),
                        old(self).t_rows(),
                        old(self).t_meta(),
                        final(self).t_hview(),
                        final(self).t_keys(),
                        final(self).t_rows(),
                        final(self).t_meta(),
                        x,
                        y,
                    )
                },
            r is Err ==> *final(self) == *old(self),
    ;

    /// Swap two columns by position.
    fn swap(&mut self, a: usize, b: usize) -> (r: Result<(), TableError>)
        requires
            old(self).t_wf(),
        ensures
            final(self).t_wf(),
            r is Ok <==> (a < old(self).t_hview().len() && b < old(self).t_hview().len()),
            r is Ok ==> table_swap_shape(
                old(self).t_hview(),
                old(self).t_keys(),
                old(self).t_rows(),
                old(self).t_meta(),
                final(self).t_hview(),
                final(self).t_keys(),
                final(self).t_rows(),
                final(self).t_meta(),
                a as int,
                b as int,
            ),
            r is Err ==> *final(self) == *old(self),
    ;
}

/// Where a column designator lands in a header list: an index as
/// itself, a name at its first occurrence.
pub open spec fn col_place(h: Seq<Seq<char>>, c: IndexOrColumn, x: int) -> bool {
    match c {
        IndexOrColumn::Index(i) => x == i as int,
        IndexOrColumn::Column(s) => col_find(h, s@) == Option::Some(x),
    }
}

/// Columns `x` and `y` exchanged in the headers and in every row,
/// with the keys and the metadata kept.
pub open spec fn table_swap_shape<V>(
    h0: Seq<Seq<char>>,
    k0: Seq<u64>,
    r0: Seq<Seq<V>>,
    m0: Option<Seq<(Seq<char>, Seq<char>)>>,
    h1: Seq<Seq<char>>,
    k1: Seq<u64>,
    r1: Seq<Seq<V>>,
    m1: Option<Seq<(Seq<char>, Seq<char>)>>,
    x: int,
    y: int,
) -> bool {
    &&& h1 == h0.update(x, h0[y]).update(y, h0[x])
    &&& k1 == k0
    &&& r1.len() == r0.len()
    &&& forall|i: int|
        0 <= i < r0.len() ==> #[trigger] r1[i] == r0[i].update(x, r0[i][y]).update(y, r0[i][x])
    &&& m1 == m0
}

impl<V: Clone> TableTrait<V> for Table<V> {
    open spec fn t_hview(&self) -> Seq<Seq<char>> {
        self.hview()
    }

    open spec fn t_meta(&self) -> Option<Seq<(Seq<char>, Seq<char>)>> {
        self.meta_view()
    }

    open spec fn t_rows(&self) -> Seq<Seq<V>> {
        self.row_seq()
    }

    fn slice_owned(&self, start: u64, end: u64) -> (r: Self) {
        Table::slice_owned(self, start, end)
    }

    fn slice_inplace(&mut self, start: u64, end: u64) {
        Table::slice_inplace(self, start, end)
    }

    fn headers<'a>(&'a self) -> (r: &'a Vec<String>) {
        Table::headers(self)
    }

    fn swap_columns(&mut self, a: IndexOrColumn, b: IndexOrColumn) -> (r: Result<(), TableError>) {
        let ghost a0 = a;
        let ghost b0 = b;
        let r = Table::swap_columns(self, a, b);
        proof {
            if r is Ok {
                let pa = Table::<V>::resolve(old(self).hview(), a0);
                let pb = Table::<V>::resolve(old(self).hview(), b0);
                assert(col_place(old(self).t_hview(), a0, pa->0));
                assert(col_place(old(self).t_hview(), b0, pb->0));
            }
        }
        r
    }

    fn swap(&mut self, a: usize, b: usize) -> (r: Result<(), TableError>) {
        let r = Table::swap(self, a, b);
        proof {
            if r is Ok {
                assert(swap_effect(*old(self), *final(self), a as int, b as int));
            }
        }
        r
    }
}

} // verus!
