//! Column arithmetic for integer tables: sums, truncating averages,
//! and population variance.

use vstd::prelude::*;

use crate::table::Table;

verus! {

/// The sum of the first `n` cells of column `j`.
pub open spec fn col_sum(t: Table<i64>, j: int, n: int) -> int
    decreases n,
{
    if n <= 0 {
        0
    } else {
        col_sum(t, j, n - 1) + t.row_seq()[n - 1][j]
    }
}

/// Division that truncates toward zero, as machine division does.
pub open spec fn tdiv(a: int, d: int) -> int {
    if a >= 0 {
        a / d
    } else {
        -((-a) / d)
    }
}

/// The column average an integer table reports: the truncated
/// quotient of sum and row count.
pub open spec fn col_avg(t: Table<i64>, j: int) -> int {
    tdiv(col_sum(t, j, t.spec_len() as int), t.spec_len() as int)
}

/// The sum of squared deviations from `avg` over the first `n` cells
/// of column `j`.
pub open spec fn dev_sq_sum(t: Table<i64>, j: int, avg: int, n: int) -> int
    decreases n,
{
    if n <= 0 {
        0
    } else {
        dev_sq_sum(t, j, avg, n - 1) + (t.row_seq()[n - 1][j] - avg) * (t.row_seq()[n - 1][j]
            - avg)
    }
}

/// Every prefix sum of every column fits a machine word.
pub open spec fn sums_fit(t: Table<i64>) -> bool {
    forall|j: int, n: int|
        0 <= j < t.width() && 0 <= n <= t.spec_len() ==> i64::MIN <= #[trigger] col_sum(t, j, n)
            <= i64::MAX
}

/// Every deviation, its square, and every prefix sum of squares fits
/// a machine word.
pub open spec fn devs_fit(t: Table<i64>) -> bool {
    &&& forall|j: int, i: int|
        0 <= j < t.width() && 0 <= i < t.spec_len() ==> {
            let d = (#[trigger] t.row_seq()[i][j]) - col_avg(t, j);
            i64::MIN <= d <= i64::MAX && d * d <= i64::MAX
        }
    &&& forall|j: int, n: int|
        0 <= j < t.width() && 0 <= n <= t.spec_len() ==> 0 <= #[trigger] dev_sq_sum(
            t,
            j,
            col_avg(t, j),
            n,
        ) <= i64::MAX
}

/// Divide, truncating toward zero.
fn div_trunc(a: i64, d: i64) -> (r: i64)
    requires
        d > 0,
    ensures
        r == tdiv(a as int, d as int),
{
    if a >= 0 {
        let q = (a as u64) / (d as u64);
        proof {
            assert(q <= a as u64) by (nonlinear_arith)
                requires
                    q == (a as u64) / (d as u64) && d as u64 >= 1,
            ;
            assert(q as int == (a as int) / (d as int));
        }
        q as i64
    } else if a == i64::MIN {
        if d == 1 {
            proof {
                let x = -(a as int);
                assert(x / (d as int) == x) by (nonlinear_arith)
                    requires
                        d as int == 1,
                ;
                assert(tdiv(a as int, d as int) == a as int);
            }
            a
        } else {
            let m: u64 = 9223372036854775808u64;
            let q = m / (d as u64);
            proof {
                assert(q < m) by (nonlinear_arith)
                    requires
                        q == m / (d as u64),
                        d as u64 >= 2,
                        m == 9223372036854775808u64,
                ;
                assert(q <= 9223372036854775807u64) by (nonlinear_arith)
                    requires
                        q == m / (d as u64),
                        d as u64 >= 2,
                        m == 9223372036854775808u64,
                ;
                assert(-(q as int) == tdiv(a as int, d as int));
            }
            -(q as i64)
        }
    } else {
        let q = ((-a) as u64) / (d as u64);
        proof {
            assert(q <= (-a) as u64) by (nonlinear_arith)
                requires
                    q == ((-a) as u64) / (d as u64) && d as u64 >= 1,
            ;
            assert(q as int == (-(a as int)) / (d as int));
            assert(-(q as int) == tdiv(a as int, d as int));
        }
        -(q as i64)
    }
}

impl Table<i64> {
    /// The sum of each column, under its column name.
    #[verifier::loop_isolation(false)]
    pub fn sum_columns(&self) -> (r: Vec<(String, i64)>)
        requires
            self.wf(),
            sums_fit(*self),
        ensures
            r@.len() == self.width(),
            forall|j: int| 0 <= j < r@.len() ==> (#[trigger] r@[j]).0@ == self.hview()[j],
            forall|j: int|
                0 <= j < r@.len() ==> (#[trigger] r@[j]).1 == col_sum(
                    *self,
                    j,
                    self.spec_len() as int,
                ),
    {
        let mut out: Vec<(String, i64)> = Vec::new();
        let hs = self.headers();
        let mut j: usize = 0;
        while j < hs.len()
            invariant
                j <= self.width(),
                out@.len() == j,
                forall|q: int| 0 <= q < j ==> (#[trigger] out@[q]).0@ == self.hview()[q],
                forall|q: int|
                    0 <= q < j ==> (#[trigger] out@[q]).1 == col_sum(
                        *self,
                        q,
                        self.spec_len() as int,
                    ),
            decreases self.width() - j,
        {
            let mut acc: i64 = 0;
            let mut i: usize = 0;
            while i < self.len()
                invariant
                    i <= self.spec_len(),
                    j < self.width(),
                    acc == col_sum(*self, j as int, i as int),
                decreases self.spec_len() - i,
            {
                let row = self.row_at(i);
                let cell = row[j];
                proof {
                    assert(col_sum(*self, j as int, i as int + 1) == col_sum(
                        *self,
                        j as int,
                        i as int,
                    ) + self.row_seq()[i as int][j as int]);
                }
                acc = acc + cell;
                i += 1;
            }
            out.push((hs[j].clone(), acc));
            j += 1;
        }
        proof {
            assert(crate::table::str_views(hs@).len() == hs@.len());
        }
        out
    }

    /// The truncated average of each column, under its column name.
    pub fn avg_columns(&self) -> (r: Vec<(String, i64)>)
        requires
            self.wf(),
            sums_fit(*self),
            0 < self.spec_len() <= i64::MAX,
        ensures
            r@.len() == self.width(),
            forall|j: int| 0 <= j < r@.len() ==> (#[trigger] r@[j]).0@ == self.hview()[j],
            forall|j: int| 0 <= j < r@.len() ==> (#[trigger] r@[j]).1 == col_avg(*self, j),
    {
        let sums = self.sum_columns();
        let n = self.len();
        let mut out: Vec<(String, i64)> = Vec::new();
        let mut j: usize = 0;
        while j < sums.len()
            invariant
                j <= sums@.len(),
                sums@.len() == self.width(),
                n == self.spec_len(),
                0 < n <= i64::MAX,
                forall|q: int| 0 <= q < sums@.len() ==> (#[trigger] sums@[q]).0@ == self.hview()[q],
                forall|q: int|
                    0 <= q < sums@.len() ==> (#[trigger] sums@[q]).1 == col_sum(
                        *self,
                        q,
                        self.spec_len() as int,
                    ),
                out@.len() == j,
                forall|q: int| 0 <= q < j ==> (#[trigger] out@[q]).0@ == self.hview()[q],
                forall|q: int| 0 <= q < j ==> (#[trigger] out@[q]).1 == col_avg(*self, q),
            decreases sums@.len() - j,
        {
            let name = sums[j].0.clone();
            let a = div_trunc(sums[j].1, n as i64);
            out.push((name, a));
            j += 1;
        }
        out
    }

    /// The population variance of each column, in the table's integer
    /// arithmetic: squared deviations from the truncated average,
    /// summed, then divided by the row count.
    #[verifier::loop_isolation(false)]
    pub fn var_columns(&self) -> (r: Vec<(String, i64)>)
        requires
            self.wf(),
            sums_fit(*self),
            devs_fit(*self),
            0 < self.spec_len() <= i64::MAX,
        ensures
            r@.len() == self.width(),
            forall|j: int| 0 <= j < r@.len() ==> (#[trigger] r@[j]).0@ == self.hview()[j],
            forall|j: int|
                0 <= j < r@.len() ==> (#[trigger] r@[j]).1 == tdiv(
                    dev_sq_sum(*self, j, col_avg(*self, j), self.spec_len() as int),
                    self.spec_len() as int,
                ),
    {
        let avgs = self.avg_columns();
        let n = self.len();
        let mut out: Vec<(String, i64)> = Vec::new();
        let mut j: usize = 0;
        while j < avgs.len()
            invariant
                j <= avgs@.len(),
                avgs@.len() == self.width(),
                n == self.spec_len(),
                0 < n <= i64::MAX,
                forall|q: int| 0 <= q < avgs@.len() ==> (#[trigger] avgs@[q]).0@ == self.hview()[q],
                forall|q: int| 0 <= q < avgs@.len() ==> (#[trigger] avgs@[q]).1 == col_avg(*self, q),
                out@.len() == j,
                forall|q: int| 0 <= q < j ==> (#[trigger] out@[q]).0@ == self.hview()[q],
                forall|q: int|
                    0 <= q < j ==> (#[trigger] out@[q]).1 == tdiv(
                        dev_sq_sum(*self, q, col_avg(*self, q), self.spec_len() as int),
                        self.spec_len() as int,
                    ),
            decreases avgs@.len() - j,
        {
            let avg = avgs[j].1;
            let mut acc: i64 = 0;
            let mut i: usize = 0;
            while i < self.len()
                invariant
                    i <= self.spec_len(),
                    j < self.width(),
                    avg == col_avg(*self, j as int),
                    acc == dev_sq_sum(*self, j as int, col_avg(*self, j as int), i as int),
                decreases self.spec_len() - i,
            {
                let row = self.row_at(i);
                let cell = row[j];
                proof {
                    assert(self.row_seq()[i as int][j as int] == cell);
                    assert({
                        let dd = self.row_seq()[i as int][j as int] - col_avg(*self, j as int);
                        i64::MIN <= dd <= i64::MAX && dd * dd <= i64::MAX
                    });
                }
                let d = cell - avg;
                proof {
                    assert(d * d >= 0) by (nonlinear_arith);
                }
                let sq = d * d;
                proof {
                    assert(dev_sq_sum(*self, j as int, col_avg(*self, j as int), i as int + 1)
                        == dev_sq_sum(*self, j as int, col_avg(*self, j as int), i as int) + (
                    self.row_seq()[i as int][j as int] - col_avg(*self, j as int)) * (
                    self.row_seq()[i as int][j as int] - col_avg(*self, j as int)));
                    assert(dev_sq_sum(*self, j as int, col_avg(*self, j as int), i as int) >= 0);
                    assert(dev_sq_sum(*self, j as int, col_avg(*self, j as int), i as int + 1)
                        <= i64::MAX);
                }
                acc = acc + sq;
                i += 1;
            }
            let name = avgs[j].0.clone();
            let v = div_trunc(acc, n as i64);
            out.push((name, v));
            j += 1;
        }
        out
    }
}

} // verus!
