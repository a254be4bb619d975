//! Row and column traversal, and folds over columns.

use vstd::prelude::*;

use crate::table::Table;
use crate::table::str_views;

verus! {

/// One row: its key and its cells, each under its column name.
pub struct Row<'a, V> {
    pub index: u64,
    pub cells: Vec<(String, &'a V)>,
}

/// One column: its name, its position, and its cells in key order.
pub struct Column<'a, V> {
    pub header: String,
    pub column_index: usize,
    pub pairs: Vec<(u64, &'a V)>,
}

/// All rows of a table, in key order.
pub type IterRows<'a, V> = Vec<Row<'a, V>>;

/// All columns of a table, in header order.
pub type IterColumns<'a, V> = Vec<Column<'a, V>>;

/// The cells of one column, in key order.
pub open spec fn column_seq<V>(t: Table<V>, j: int) -> Seq<V> {
    Seq::new(t.spec_len(), |i: int| t.row_seq()[i][j])
}

/// `out` is a left fold of `f` over the column cells paired with their
/// keys, starting from `acc`.
pub open spec fn folds_to<V, B, F: Fn(B, (u64, &V)) -> B>(
    f: F,
    acc: B,
    keys: Seq<u64>,
    col: Seq<V>,
    out: B,
) -> bool
    decreases col.len(),
{
    if col.len() == 0 || keys.len() != col.len() {
        out == acc
    } else {
        exists|mid: B|
            folds_to(f, acc, keys.drop_last(), col.drop_last(), mid) && #[trigger] call_ensures(
                f,
                (mid, (keys.last(), &col.last())),
                out,
            )
    }
}

/// `out` folds `f` over column `j`, starting from some clone of
/// `init`.
pub open spec fn column_folded<V, B: Clone, F: Fn(B, (u64, &V)) -> B>(
    f: F,
    init: B,
    t: Table<V>,
    j: int,
    out: B,
) -> bool {
    exists|b0: B|
        #[trigger] vstd::pervasive::cloned::<B>(init, b0) && folds_to(
            f,
            b0,
            t.key_seq(),
            column_seq(t, j),
            out,
        )
}

impl<V> Table<V> {
    /// The rows, each with its key and its header-aligned cells.
    #[verifier::loop_isolation(false)]
    pub fn iter_rows<'a>(&'a self) -> (r: Vec<Row<'a, V>>)
        requires
            self.wf(),
        ensures
            r@.len() == self.spec_len(),
            forall|i: int|
                0 <= i < r@.len() ==> {
                    &&& (#[trigger] r@[i]).index == self.key_seq()[i]
                    &&& r@[i].cells@.len() == self.width()
                    &&& forall|j: int|
                        0 <= j < self.width() ==> ((#[trigger] r@[i].cells@[j]).0@
                            == self.hview()[j] && *r@[i].cells@[j].1 == self.row_seq()[i][j])
                },
    {
        let mut out: Vec<Row<'a, V>> = Vec::new();
        let mut i: usize = 0;
        while i < self.len()
            invariant
                i <= self.spec_len(),
                out@.len() == i,
                forall|p: int|
                    0 <= p < i ==> {
                        &&& (#[trigger] out@[p]).index == self.key_seq()[p]
                        &&& out@[p].cells@.len() == self.width()
                        &&& forall|j: int|
                            0 <= j < self.width() ==> ((#[trigger] out@[p].cells@[j]).0@
                                == self.hview()[j] && *out@[p].cells@[j].1 == self.row_seq()[p][j])
                    },
            decreases self.spec_len() - i,
        {
            let k = self.key_at(i);
            let row_vec = self.row_at(i);
            let hs = self.headers();
            let mut cells: Vec<(String, &'a V)> = Vec::new();
            let mut j: usize = 0;
            while j < hs.len()
                invariant
                    j <= self.width(),
                    row_vec@ == self.row_seq()[i as int],
                    cells@.len() == j,
                    forall|q: int|
                        0 <= q < j ==> ((#[trigger] cells@[q]).0@ == self.hview()[q]
                            && *cells@[q].1 == self.row_seq()[i as int][q]),
                decreases self.width() - j,
            {
                let name = hs[j].clone();
                let cell = vstd::std_specs::vec::vec_index(row_vec, j);
                cells.push((name, cell));
                j += 1;
            }
            out.push(Row { index: k, cells });
            i += 1;
        }
        out
    }

    /// The columns, each with its name, its position, and its cells in
    /// key order.
    #[verifier::loop_isolation(false)]
    pub fn iter_columns<'a>(&'a self) -> (r: Vec<Column<'a, V>>)
        requires
            self.wf(),
        ensures
            r@.len() == self.width(),
            forall|j: int|
                0 <= j < r@.len() ==> {
                    &&& (#[trigger] r@[j]).header@ == self.hview()[j]
                    &&& r@[j].column_index == j
                    &&& r@[j].pairs@.len() == self.spec_len()
                    &&& forall|i: int|
                        0 <= i < self.spec_len() ==> ((#[trigger] r@[j].pairs@[i]).0
                            == self.key_seq()[i] && *r@[j].pairs@[i].1 == self.row_seq()[i][j])
                },
    {
        let mut out: Vec<Column<'a, V>> = Vec::new();
        let hs = self.headers();
        let mut j: usize = 0;
        while j < hs.len()
            invariant
                j <= self.width(),
                out@.len() == j,
                forall|q: int|
                    0 <= q < j ==> {
                        &&& (#[trigger] out@[q]).header@ == self.hview()[q]
                        &&& out@[q].column_index == q
                        &&& out@[q].pairs@.len() == self.spec_len()
                        &&& forall|i: int|
                            0 <= i < self.spec_len() ==> ((#[trigger] out@[q].pairs@[i]).0
                                == self.key_seq()[i] && *out@[q].pairs@[i].1
                                == self.row_seq()[i][q])
                    },
            decreases self.width() - j,
        {
            let name = hs[j].clone();
            let mut pairs: Vec<(u64, &'a V)> = Vec::new();
            let mut i: usize = 0;
            while i < self.len()
                invariant
                    i <= self.spec_len(),
                    j < self.width(),
                    pairs@.len() == i,
                    forall|p: int|
                        0 <= p < i ==> ((#[trigger] pairs@[p]).0 == self.key_seq()[p]
                            && *pairs@[p].1 == self.row_seq()[p][j as int]),
                decreases self.spec_len() - i,
            {
                let k = self.key_at(i);
                let row_vec = self.row_at(i);
                let cell = vstd::std_specs::vec::vec_index(row_vec, j);
                pairs.push((k, cell));
                i += 1;
            }
            out.push(Column { header: name, column_index: j, pairs });
            j += 1;
        }
        out
    }

    /// Fold every column independently with `f`, starting each column
    /// from a clone of `init`; each output carries its column's name.
    #[verifier::loop_isolation(false)]
    pub fn fold_columns<B, F: Fn(B, (u64, &V)) -> B + Copy>(&self, init: B, f: F) -> (r: Vec<
        (String, B),
    >) where B: Clone
        requires
            self.wf(),
            forall|b: B, kv: (u64, &V)| #[trigger] call_requires(f, (b, kv)),
        ensures
            r@.len() == self.width(),
            forall|j: int| 0 <= j < r@.len() ==> (#[trigger] r@[j]).0@ == self.hview()[j],
            forall|j: int|
                0 <= j < r@.len() ==> column_folded(f, init, *self, j, (#[trigger] r@[j]).1),
    {
        let mut out: Vec<(String, B)> = Vec::new();
        let hs = self.headers();
        let mut j: usize = 0;
        while j < hs.len()
            invariant
                j <= self.width(),
                out@.len() == j,
                forall|q: int| 0 <= q < j ==> (#[trigger] out@[q]).0@ == self.hview()[q],
                forall|q: int|
                    0 <= q < j ==> column_folded(f, init, *self, q, (#[trigger] out@[q]).1),
            decreases self.width() - j,
        {
            let name = hs[j].clone();
            let start = init.clone();
            let ghost b0: B = start;
            let acc = self.fold_column_range(j, 0, self.len(), start, f);
            proof {
                assert(self.key_seq().subrange(0, self.spec_len() as int) =~= self.key_seq());
                assert(column_seq(*self, j as int).subrange(0, self.spec_len() as int)
                    =~= column_seq(*self, j as int));
                assert(vstd::pervasive::cloned::<B>(init, b0));
                assert(folds_to(f, b0, self.key_seq(), column_seq(*self, j as int), acc));
            }
            out.push((name, acc));
            proof {
                assert((out@[j as int]).1 == acc);
                assert(column_folded(f, init, *self, j as int, acc));
            }
            j += 1;
        }
        proof {
            assert(str_views(hs@).len() == hs@.len());
            assert(out@.len() == self.width());
        }
        out
    }

    /// Fold `f` over one column's cells for the row positions
    /// `lo..hi`: the sequential unit a parallel fold is built from.
    #[verifier::loop_isolation(false)]
    pub fn fold_column_range<B, F: Fn(B, (u64, &V)) -> B + Copy>(
        &self,
        col: usize,
        lo: usize,
        hi: usize,
        init: B,
        f: F,
    ) -> (r: B)
        requires
            self.wf(),
            col < self.width(),
            lo <= hi <= self.spec_len(),
            forall|b: B, kv: (u64, &V)| #[trigger] call_requires(f, (b, kv)),
        ensures
            folds_to(
                f,
                init,
                self.key_seq().subrange(lo as int, hi as int),
                column_seq(*self, col as int).subrange(lo as int, hi as int),
                r,
            ),
    {
        let mut acc = init;
        let mut i: usize = lo;
        proof {
            assert(self.key_seq().subrange(lo as int, lo as int) =~= Seq::<u64>::empty());
            assert(column_seq(*self, col as int).subrange(lo as int, lo as int) =~= Seq::<
                V,
            >::empty());
        }
        while i < hi
            invariant
                lo <= i <= hi,
                folds_to(
                    f,
                    init,
                    self.key_seq().subrange(lo as int, i as int),
                    column_seq(*self, col as int).subrange(lo as int, i as int),
                    acc,
                ),
            decreases hi - i,
        {
            let k = self.key_at(i);
            let row_vec = self.row_at(i);
            let cell = vstd::std_specs::vec::vec_index(row_vec, col);
            let ghost mid_pre = acc;
            let next = f(acc, (k, cell));
            proof {
                let ks = self.key_seq().subrange(lo as int, i as int + 1);
                let cs = column_seq(*self, col as int).subrange(lo as int, i as int + 1);
                assert(ks.drop_last() =~= self.key_seq().subrange(lo as int, i as int));
                assert(cs.drop_last() =~= column_seq(*self, col as int).subrange(
                    lo as int,
                    i as int,
                ));
                assert(ks.last() == self.key_seq()[i as int]);
                assert(cs.last() == self.row_seq()[i as int][col as int]);
                assert(call_ensures(f, (mid_pre, (k, cell)), next));
                assert(folds_to(f, init, ks, cs, next));
            }
            acc = next;
            i += 1;
        }
        acc
    }
}

} // verus!
