//! Row- and column-wise reductions of a rank-2 tensor: sums, which start
//! from the additive identity, and products, which are seeded with the first
//! element of the reduced line instead of assuming a multiplicative identity.

use crate::tensor::{in_i64, lemma_prod2, Tensor, TensorView};
use vstd::arithmetic::mul::lemma_mul_inequality;
use vstd::prelude::*;

verus! {

/// Sum of a buffer of elements, as a mathematical integer.
pub open spec fn sum(s: Seq<i64>) -> int
    decreases s.len(),
{
    if s.len() == 0 {
        0
    } else {
        sum(s.drop_last()) + s.last()
    }
}

/// Product of a buffer of elements, as a mathematical integer.
pub open spec fn prod_elems(s: Seq<i64>) -> int
    decreases s.len(),
{
    if s.len() == 0 {
        1
    } else {
        prod_elems(s.drop_last()) * s.last()
    }
}

/// Every prefix sum of every row stays representable.  This is exactly what
/// the left-to-right accumulation of `matrix_col_sum` computes.
pub open spec fn row_sums_fit(t: TensorView) -> bool {
    forall|i: int, k: int|
        0 <= i < t.rows() && 0 <= k <= t.cols() ==> in_i64(sum(#[trigger] t.row_seq(i).take(k)))
}

/// Every prefix sum of every column stays representable.
pub open spec fn col_sums_fit(t: TensorView) -> bool {
    forall|j: int, k: int|
        0 <= j < t.cols() && 0 <= k <= t.rows() ==> in_i64(sum(#[trigger] t.col_seq(j).take(k)))
}

/// Every prefix product of every row stays representable.
pub open spec fn row_prods_fit(t: TensorView) -> bool {
    forall|i: int, k: int|
        0 <= i < t.rows() && 0 <= k <= t.cols() ==> in_i64(
            prod_elems(#[trigger] t.row_seq(i).take(k)),
        )
}

/// Every prefix product of every column stays representable.
pub open spec fn col_prods_fit(t: TensorView) -> bool {
    forall|j: int, k: int|
        0 <= j < t.cols() && 0 <= k <= t.rows() ==> in_i64(
            prod_elems(#[trigger] t.col_seq(j).take(k)),
        )
}

/// Extending a prefix by one element adds that element to its sum.
pub proof fn lemma_sum_take_step(s: Seq<i64>, k: int)
    requires
        0 <= k < s.len(),
    ensures
        sum(s.take(k + 1)) == sum(s.take(k)) + s[k],
{
    assert(s.take(k + 1).drop_last() =~= s.take(k));
    assert(s.take(k + 1).last() == s[k]);
}

/// Extending a prefix by one element multiplies its product by that element.
pub proof fn lemma_prod_elems_take_step(s: Seq<i64>, k: int)
    requires
        0 <= k < s.len(),
    ensures
        prod_elems(s.take(k + 1)) == prod_elems(s.take(k)) * s[k],
{
    assert(s.take(k + 1).drop_last() =~= s.take(k));
    assert(s.take(k + 1).last() == s[k]);
}

/// Sum of the first `m` row totals of a rank-2 tensor.
pub open spec fn row_totals_upto(t: TensorView, m: int) -> int
    decreases m,
{
    if m <= 0 {
        0
    } else {
        row_totals_upto(t, m - 1) + sum(t.row_seq(m - 1))
    }
}

/// Sum of the first `m` column totals of a rank-2 tensor.
pub open spec fn col_totals_upto(t: TensorView, m: int) -> int
    decreases m,
{
    if m <= 0 {
        0
    } else {
        col_totals_upto(t, m - 1) + sum(t.col_seq(m - 1))
    }
}

/// Concatenation splits a sum.
pub proof fn lemma_sum_concat(a: Seq<i64>, b: Seq<i64>)
    ensures
        sum(a + b) == sum(a) + sum(b),
    decreases b.len(),
{
    if b.len() == 0 {
        assert(a + b =~= a);
    } else {
        assert((a + b).drop_last() =~= a + b.drop_last());
        assert((a + b).last() == b.last());
        lemma_sum_concat(a, b.drop_last());
    }
}

/// The first `i` rows of the buffer sum to the first `i` row totals.
proof fn lemma_row_partial(t: TensorView, i: int)
    requires
        t.wf(),
        t.rank() == 2,
        0 <= i <= t.rows(),
    ensures
        sum(t.data.take(i * t.cols())) == row_totals_upto(t, i),
    decreases i,
{
    lemma_prod2(t.shape);
    if i == 0 {
        assert(t.data.take(0 * t.cols()) =~= Seq::<i64>::empty());
    } else {
        lemma_row_partial(t, i - 1);
        lemma_mul_inequality(i, t.rows(), t.cols());
        assert(i * t.cols() == (i - 1) * t.cols() + t.cols()) by (nonlinear_arith);
        assert((i - 1) * t.cols() >= 0) by (nonlinear_arith)
            requires
                i >= 1,
                t.cols() >= 0,
        ;
        assert(t.data.take(i * t.cols()) =~= t.data.take((i - 1) * t.cols()) + t.row_seq(i - 1));
        lemma_sum_concat(t.data.take((i - 1) * t.cols()), t.row_seq(i - 1));
    }
}

/// Dropping the last row moves its elements out of every column total.
proof fn lemma_cols_split(t: TensorView, sub: TensorView, j: int)
    requires
        t.wf(),
        t.rank() == 2,
        t.rows() >= 1,
        sub == (TensorView {
            shape: seq![(t.rows() - 1) as usize, t.shape[1]],
            data: t.data.take((t.rows() - 1) * t.cols()),
        }),
        0 <= j <= t.cols(),
    ensures
        col_totals_upto(t, j) == col_totals_upto(sub, j) + sum(t.row_seq(t.rows() - 1).take(j)),
    decreases j,
{
    let r = t.rows();
    let c = t.cols();
    lemma_prod2(t.shape);
    lemma_mul_inequality(r - 1, r, c);
    assert((r - 1) * c + c == r * c) by (nonlinear_arith);
    assert((r - 1) * c >= 0) by (nonlinear_arith)
        requires
            r >= 1,
            c >= 0,
    ;
    if j == 0 {
        assert(t.row_seq(r - 1).take(0) =~= Seq::<i64>::empty());
    } else {
        lemma_cols_split(t, sub, j - 1);
        assert forall|k: int| 0 <= k < r - 1 implies #[trigger] (sub.at2(k, j - 1)) == t.at2(
            k,
            j - 1,
        ) by {
            lemma_mul_inequality(k + 1, r - 1, c);
            assert(k * c + c == (k + 1) * c) by (nonlinear_arith);
            assert(k * c >= 0) by (nonlinear_arith)
                requires
                    k >= 0,
                    c >= 0,
            ;
        }
        assert(t.col_seq(j - 1) =~= sub.col_seq(j - 1).push(t.at2(r - 1, j - 1)));
        assert(t.col_seq(j - 1).drop_last() =~= sub.col_seq(j - 1));
        lemma_sum_take_step(t.row_seq(r - 1), j - 1);
        assert(t.row_seq(r - 1)[j - 1] == t.at2(r - 1, j - 1));
    }
}

/// With no rows every column total is zero.
proof fn lemma_cols_empty(t: TensorView, j: int)
    requires
        t.rank() == 2,
        t.rows() == 0,
        0 <= j,
    ensures
        col_totals_upto(t, j) == 0,
    decreases j,
{
    if j > 0 {
        lemma_cols_empty(t, j - 1);
        assert(t.col_seq(j - 1) =~= Seq::<i64>::empty());
    }
}

/// The whole buffer sums to the sum of all column totals.
proof fn lemma_col_grand(t: TensorView)
    requires
        t.wf(),
        t.rank() == 2,
    ensures
        col_totals_upto(t, t.cols()) == sum(t.data),
    decreases t.rows(),
{
    let r = t.rows();
    let c = t.cols();
    lemma_prod2(t.shape);
    if r == 0 {
        lemma_cols_empty(t, c);
        assert(0 * c == 0) by (nonlinear_arith);
        assert(t.data =~= Seq::<i64>::empty());
    } else {
        let sub = TensorView {
            shape: seq![(r - 1) as usize, t.shape[1]],
            data: t.data.take((r - 1) * c),
        };
        lemma_mul_inequality(r - 1, r, c);
        assert((r - 1) * c + c == r * c) by (nonlinear_arith);
        assert((r - 1) * c >= 0) by (nonlinear_arith)
            requires
                r >= 1,
                c >= 0,
        ;
        assert(sub.wf()) by {
            lemma_prod2(sub.shape);
        }
        assert(sub.rows() == r - 1 && sub.cols() == c);
        lemma_col_grand(sub);
        lemma_cols_split(t, sub, c);
        assert(t.row_seq(r - 1).take(c) =~= t.row_seq(r - 1));
        assert(t.data =~= sub.data + t.row_seq(r - 1));
        lemma_sum_concat(sub.data, t.row_seq(r - 1));
    }
}

/// Summing a buffer whose element i is the i-th row total gives the sum of
/// the first `i` row totals, prefix by prefix.
proof fn lemma_sum_of_row_totals(t: TensorView, by_rows: Seq<i64>, i: int)
    requires
        t.wf(),
        t.rank() == 2,
        by_rows.len() == t.rows(),
        forall|q: int| 0 <= q < by_rows.len() ==> #[trigger] (by_rows[q]) as int == sum(t.row_seq(q)),
        0 <= i <= by_rows.len(),
    ensures
        sum(by_rows.take(i)) == row_totals_upto(t, i),
    decreases i,
{
    if i > 0 {
        lemma_sum_of_row_totals(t, by_rows, i - 1);
        lemma_sum_take_step(by_rows, i - 1);
    }
}

/// Likewise for column totals.
proof fn lemma_sum_of_col_totals(t: TensorView, by_cols: Seq<i64>, j: int)
    requires
        t.wf(),
        t.rank() == 2,
        by_cols.len() == t.cols(),
        forall|q: int| 0 <= q < by_cols.len() ==> #[trigger] (by_cols[q]) as int == sum(t.col_seq(q)),
        0 <= j <= by_cols.len(),
    ensures
        sum(by_cols.take(j)) == col_totals_upto(t, j),
    decreases j,
{
    if j > 0 {
        lemma_sum_of_col_totals(t, by_cols, j - 1);
        lemma_sum_take_step(by_cols, j - 1);
    }
}

/// Summing the single column that `matrix_col_sum` produces and summing the
/// single row that `matrix_row_sum` produces give the same value: the grand
/// total of all elements of the tensor.
pub proof fn lemma_grand_total(t: TensorView, by_rows: Seq<i64>, by_cols: Seq<i64>)
    requires
        t.wf(),
        t.rank() == 2,
        by_rows.len() == t.rows(),
        forall|q: int| 0 <= q < by_rows.len() ==> #[trigger] (by_rows[q]) as int == sum(t.row_seq(q)),
        by_cols.len() == t.cols(),
        forall|q: int| 0 <= q < by_cols.len() ==> #[trigger] (by_cols[q]) as int == sum(t.col_seq(q)),
    ensures
        sum(by_rows) == sum(t.data),
        sum(by_cols) == sum(t.data),
{
    let r = t.rows();
    let c = t.cols();
    lemma_prod2(t.shape);
    lemma_sum_of_row_totals(t, by_rows, r);
    assert(by_rows.take(r) =~= by_rows);
    lemma_row_partial(t, r);
    assert(t.data.take(r * c) =~= t.data);
    lemma_sum_of_col_totals(t, by_cols, c);
    assert(by_cols.take(c) =~= by_cols);
    lemma_col_grand(t);
}

impl Tensor {
    /// Merges all columns of a rank-2 tensor into one by summing each row,
    /// giving a `[rows, 1]` tensor.  Applicable exactly when the rank is 2;
    /// element i of the result is the sum of row i.
    pub fn matrix_col_sum(&self) -> (r: Option<Tensor>)
        requires
            self@.rank() == 2 ==> row_sums_fit(self@),
        ensures
            r.is_some() <==> self@.rank() == 2,
            r.is_some() ==> r.unwrap()@.shape == seq![self@.shape[0], 1usize],
            r.is_some() ==> r.unwrap()@.data.len() == self@.rows(),
            r.is_some() ==> forall|i: int|
                0 <= i < self@.rows() ==> #[trigger] (r.unwrap()@.data[i]) as int == sum(
                    self@.row_seq(i),
                ),
    {
        proof {
            use_type_invariant(&*self);
        }
        let shape = self.get_shape();
        if shape.len() != 2 {
            return None;
        }
        let rows = shape[0];
        let cols = shape[1];
        let data = self.get_data();
        let dlen: usize = data.len();
        proof {
            lemma_prod2(self@.shape);
        }
        let mut out: Vec<i64> = Vec::new();
        for row in 0..rows
            invariant
                self@.wf(),
                self@.rank() == 2,
                rows == self@.shape[0],
                cols == self@.shape[1],
                data@ == self@.data,
                dlen == self@.data.len(),
                self@.data.len() == (rows as int) * (cols as int),
                row_sums_fit(self@),
                out@.len() == row,
                forall|i: int| 0 <= i < row ==> #[trigger] (out@[i]) as int == sum(self@.row_seq(i)),
        {
            let mut acc: i64 = 0;
            for col in 0..cols
                invariant
                    self@.wf(),
                    self@.rank() == 2,
                    rows == self@.shape[0],
                    cols == self@.shape[1],
                    row < rows,
                    data@ == self@.data,
                    dlen == self@.data.len(),
                    self@.data.len() == (rows as int) * (cols as int),
                    row_sums_fit(self@),
                    acc as int == sum(self@.row_seq(row as int).take(col as int)),
            {
                proof {
                    lemma_mul_inequality(row as int + 1, rows as int, cols as int);
                    assert((row as int + 1) * (cols as int) == row * cols + cols)
                        by (nonlinear_arith);
                    assert(row * cols >= 0) by (nonlinear_arith);
                    lemma_sum_take_step(self@.row_seq(row as int), col as int);
                    assert(self@.row_seq(row as int)[col as int] == self@.data[row * cols + col]);
                    assert(in_i64(sum(self@.row_seq(row as int).take(col + 1))));
                }
                acc = acc + data[row * cols + col];
            }
            proof {
                lemma_mul_inequality(row as int + 1, rows as int, cols as int);
                assert((row as int + 1) * (cols as int) == row * cols + cols) by (nonlinear_arith);
                assert(row * cols >= 0) by (nonlinear_arith);
                assert(self@.row_seq(row as int).take(cols as int) =~= self@.row_seq(row as int));
            }
            out.push(acc);
        }
        let mut newshape: Vec<usize> = Vec::new();
        newshape.push(rows);
        newshape.push(1);
        proof {
            assert(newshape@ =~= seq![self@.shape[0], 1usize]);
            lemma_prod2(newshape@);
            assert((rows as int) * 1 == rows as int) by (nonlinear_arith);
        }
        Some(Tensor::make(out, newshape))
    }

    /// Merges all rows of a rank-2 tensor into one by summing each column,
    /// giving a `[1, cols]` tensor.  Applicable exactly when the rank is 2;
    /// element j of the result is the sum of column j.
    pub fn matrix_row_sum(&self) -> (r: Option<Tensor>)
        requires
            self@.rank() == 2 ==> col_sums_fit(self@),
        ensures
            r.is_some() <==> self@.rank() == 2,
            r.is_some() ==> r.unwrap()@.shape == seq![1usize, self@.shape[1]],
            r.is_some() ==> r.unwrap()@.data.len() == self@.cols(),
            r.is_some() ==> forall|j: int|
                0 <= j < self@.cols() ==> #[trigger] (r.unwrap()@.data[j]) as int == sum(
                    self@.col_seq(j),
                ),
    {
        proof {
            use_type_invariant(&*self);
        }
        let shape = self.get_shape();
        if shape.len() != 2 {
            return None;
        }
        let rows = shape[0];
        let cols = shape[1];
        let data = self.get_data();
        let dlen: usize = data.len();
        proof {
            lemma_prod2(self@.shape);
        }
        let mut out: Vec<i64> = Vec::new();
        for col in 0..cols
            invariant
                self@.wf(),
                self@.rank() == 2,
                rows == self@.shape[0],
                cols == self@.shape[1],
                data@ == self@.data,
                dlen == self@.data.len(),
                self@.data.len() == (rows as int) * (cols as int),
                col_sums_fit(self@),
                out@.len() == col,
                forall|j: int| 0 <= j < col ==> #[trigger] (out@[j]) as int == sum(self@.col_seq(j)),
        {
            let mut acc: i64 = 0;
            for row in 0..rows
                invariant
                    self@.wf(),
                    self@.rank() == 2,
                    rows == self@.shape[0],
                    cols == self@.shape[1],
                    col < cols,
                    data@ == self@.data,
                    dlen == self@.data.len(),
                    self@.data.len() == (rows as int) * (cols as int),
                    col_sums_fit(self@),
                    acc as int == sum(self@.col_seq(col as int).take(row as int)),
            {
                proof {
                    lemma_mul_inequality(row as int + 1, rows as int, cols as int);
                    assert((row as int + 1) * (cols as int) == row * cols + cols)
                        by (nonlinear_arith);
                    assert(row * cols >= 0) by (nonlinear_arith);
                    lemma_sum_take_step(self@.col_seq(col as int), row as int);
                    assert(self@.col_seq(col as int)[row as int] == self@.data[row * cols + col]);
                    assert(in_i64(sum(self@.col_seq(col as int).take(row + 1))));
                }
                acc = acc + data[row * cols + col];
            }
            proof {
                assert(self@.col_seq(col as int).take(rows as int) =~= self@.col_seq(col as int));
            }
            out.push(acc);
        }
        let mut newshape: Vec<usize> = Vec::new();
        newshape.push(1);
        newshape.push(cols);
        proof {
            assert(newshape@ =~= seq![1usize, self@.shape[1]]);
            lemma_prod2(newshape@);
        }
        Some(Tensor::make(out, newshape))
    }

    /// Merges all columns of a rank-2 tensor into one by multiplying each
    /// row, giving a `[rows, 1]` tensor.  The accumulator is seeded with the
    /// row's first element rather than with a multiplicative identity, so
    /// every row must have at least one element.  Applicable exactly when
    /// the rank is 2; element i of the result is the product of row i.
    pub fn matrix_col_prod(&self) -> (r: Option<Tensor>)
        requires
            self@.rank() == 2 ==> self@.cols() >= 1,
            self@.rank() == 2 ==> row_prods_fit(self@),
        ensures
            r.is_some() <==> self@.rank() == 2,
            r.is_some() ==> r.unwrap()@.shape == seq![self@.shape[0], 1usize],
            r.is_some() ==> r.unwrap()@.data.len() == self@.rows(),
            r.is_some() ==> forall|i: int|
                0 <= i < self@.rows() ==> #[trigger] (r.unwrap()@.data[i]) as int == prod_elems(
                    self@.row_seq(i),
                ),
    {
        proof {
            use_type_invariant(&*self);
        }
        let shape = self.get_shape();
        if shape.len() != 2 {
            return None;
        }
        let rows = shape[0];
        let cols = shape[1];
        let data = self.get_data();
        let dlen: usize = data.len();
        proof {
            lemma_prod2(self@.shape);
        }
        let mut out: Vec<i64> = Vec::new();
        for row in 0..rows
            invariant
                self@.wf(),
                self@.rank() == 2,
                rows == self@.shape[0],
                cols == self@.shape[1],
                cols >= 1,
                data@ == self@.data,
                dlen == self@.data.len(),
                self@.data.len() == (rows as int) * (cols as int),
                row_prods_fit(self@),
                out@.len() == row,
                forall|i: int|
                    0 <= i < row ==> #[trigger] (out@[i]) as int == prod_elems(self@.row_seq(i)),
        {
            proof {
                lemma_mul_inequality(row as int + 1, rows as int, cols as int);
                assert((row as int + 1) * (cols as int) == row * cols + cols) by (nonlinear_arith);
                assert(row * cols >= 0) by (nonlinear_arith);
                assert(self@.row_seq(row as int).take(0) =~= Seq::<i64>::empty());
                lemma_prod_elems_take_step(self@.row_seq(row as int), 0);
                assert(self@.row_seq(row as int)[0] == self@.data[(row * cols) as int]);
            }
            let mut acc: i64 = data[row * cols];
            for col in 1..cols
                invariant
                    self@.wf(),
                    self@.rank() == 2,
                    rows == self@.shape[0],
                    cols == self@.shape[1],
                    row < rows,
                    1 <= col <= cols,
                    data@ == self@.data,
                    dlen == self@.data.len(),
                    self@.data.len() == (rows as int) * (cols as int),
                    row_prods_fit(self@),
                    acc as int == prod_elems(self@.row_seq(row as int).take(col as int)),
            {
                proof {
                    lemma_mul_inequality(row as int + 1, rows as int, cols as int);
                    assert((row as int + 1) * (cols as int) == row * cols + cols)
                        by (nonlinear_arith);
                    assert(row * cols >= 0) by (nonlinear_arith);
                    lemma_prod_elems_take_step(self@.row_seq(row as int), col as int);
                    assert(self@.row_seq(row as int)[col as int] == self@.data[row * cols + col]);
                    assert(in_i64(prod_elems(self@.row_seq(row as int).take(col + 1))));
                }
                acc = acc * data[row * cols + col];
            }
            proof {
                lemma_mul_inequality(row as int + 1, rows as int, cols as int);
                assert((row as int + 1) * (cols as int) == row * cols + cols) by (nonlinear_arith);
                assert(row * cols >= 0) by (nonlinear_arith);
                assert(self@.row_seq(row as int).take(cols as int) =~= self@.row_seq(row as int));
            }
            out.push(acc);
        }
        let mut newshape: Vec<usize> = Vec::new();
        newshape.push(rows);
        newshape.push(1);
        proof {
            assert(newshape@ =~= seq![self@.shape[0], 1usize]);
            lemma_prod2(newshape@);
            assert((rows as int) * 1 == rows as int) by (nonlinear_arith);
        }
        Some(Tensor::make(out, newshape))
    }

    /// Merges all rows of a rank-2 tensor into one by multiplying each
    /// column, giving a `[1, cols]` tensor.  The accumulator is seeded with
    /// the column's first element rather than with a multiplicative
    /// identity, so every column must have at least one element.  Applicable
    /// exactly when the rank is 2; element j of the result is the product of
    /// column j.
    pub fn matrix_row_prod(&self) -> (r: Option<Tensor>)
        requires
            self@.rank() == 2 ==> self@.rows() >= 1,
            self@.rank() == 2 ==> col_prods_fit(self@),
        ensures
            r.is_some() <==> self@.rank() == 2,
            r.is_some() ==> r.unwrap()@.shape == seq![1usize, self@.shape[1]],
            r.is_some() ==> r.unwrap()@.data.len() == self@.cols(),
            r.is_some() ==> forall|j: int|
                0 <= j < self@.cols() ==> #[trigger] (r.unwrap()@.data[j]) as int == prod_elems(
                    self@.col_seq(j),
                ),
    {
        proof {
            use_type_invariant(&*self);
        }
        let shape = self.get_shape();
        if shape.len() != 2 {
            return None;
        }
        let rows = shape[0];
        let cols = shape[1];
        let data = self.get_data();
        let dlen: usize = data.len();
        proof {
            lemma_prod2(self@.shape);
        }
        let mut out: Vec<i64> = Vec::new();
        for col in 0..cols
            invariant
                self@.wf(),
                self@.rank() == 2,
                rows == self@.shape[0],
                cols == self@.shape[1],
                rows >= 1,
                data@ == self@.data,
                dlen == self@.data.len(),
                self@.data.len() == (rows as int) * (cols as int),
                col_prods_fit(self@),
                out@.len() == col,
                forall|j: int|
                    0 <= j < col ==> #[trigger] (out@[j]) as int == prod_elems(self@.col_seq(j)),
        {
            proof {
                lemma_mul_inequality(1, rows as int, cols as int);
                assert(1 * (cols as int) == cols as int) by (nonlinear_arith);
                assert(self@.col_seq(col as int).take(0) =~= Seq::<i64>::empty());
                lemma_prod_elems_take_step(self@.col_seq(col as int), 0);
                assert(self@.col_seq(col as int)[0] == self@.data[(0 * (cols as int)) + col]);
                assert(0 * (cols as int) == 0) by (nonlinear_arith);
            }
            let mut acc: i64 = data[col];
            for row in 1..rows
                invariant
                    self@.wf(),
                    self@.rank() == 2,
                    rows == self@.shape[0],
                    cols == self@.shape[1],
                    col < cols,
                    1 <= row <= rows,
                    data@ == self@.data,
                    dlen == self@.data.len(),
                    self@.data.len() == (rows as int) * (cols as int),
                    col_prods_fit(self@),
                    acc as int == prod_elems(self@.col_seq(col as int).take(row as int)),
            {
                proof {
                    lemma_mul_inequality(row as int + 1, rows as int, cols as int);
                    assert((row as int + 1) * (cols as int) == row * cols + cols)
                        by (nonlinear_arith);
                    assert(row * cols >= 0) by (nonlinear_arith);
                    lemma_prod_elems_take_step(self@.col_seq(col as int), row as int);
                    assert(self@.col_seq(col as int)[row as int] == self@.data[row * cols + col]);
                    assert(in_i64(prod_elems(self@.col_seq(col as int).take(row + 1))));
                }
                acc = acc * data[row * cols + col];
            }
            proof {
                assert(self@.col_seq(col as int).take(rows as int) =~= self@.col_seq(col as int));
            }
            out.push(acc);
        }
        let mut newshape: Vec<usize> = Vec::new();
        newshape.push(1);
        newshape.push(cols);
        proof {
            assert(newshape@ =~= seq![1usize, self@.shape[1]]);
            lemma_prod2(newshape@);
        }
        Some(Tensor::make(out, newshape))
    }
}

} // verus!
