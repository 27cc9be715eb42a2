//! Rank-2 extraction: whole trailing matrices of a higher-rank tensor,
//! single rows and single columns, and matrix transposition.

use crate::tensor::{
    flat_index, flat_index_rec, lemma_flat_index_rec_bound, lemma_flat_index_rec_prefix,
    lemma_prod2, lemma_prod_nonneg, lemma_prod_pos, lemma_prod_split, shape_prod, Tensor,
    TensorView,
};
use vstd::arithmetic::div_mod::{lemma_fundamental_div_mod, lemma_fundamental_div_mod_converse};
use vstd::arithmetic::mul::{lemma_mul_inequality, lemma_mul_is_commutative};
use vstd::prelude::*;

verus! {

/// Whether the sub-tensor selector `pos` addresses a trailing matrix of `t`:
/// one index per leading dimension, each within its dimension.
pub open spec fn matrix_applicable(t: TensorView, pos: Seq<usize>) -> bool {
    t.rank() == pos.len() + 2 && forall|k: int| 0 <= k < pos.len() ==> pos[k] < t.shape[k]
}

/// Flat offset of the trailing matrix addressed by `pos`: the row-major
/// position of the selector, scaled by the size of one trailing matrix.
pub open spec fn slab_offset(shape: Seq<usize>, pos: Seq<usize>) -> int {
    flat_index_rec(shape, pos, pos.len() as int) * shape_prod(
        shape.skip(shape.len() as int - 2),
    )
}

/// The slab that `matrix` extracts is addressed row-major: position (i, j)
/// of the extracted matrix sits in the source buffer exactly where the full
/// multi-index `pos ++ [i, j]` points, the place `value` reads from.
pub proof fn lemma_slab_addresses_elements(shape: Seq<usize>, pos: Seq<usize>, i: usize, j: usize)
    requires
        shape.len() == pos.len() + 2,
    ensures
        flat_index(shape, pos.push(i).push(j)) == slab_offset(shape, pos) + (i as int) * (
        shape[shape.len() - 1] as int) + j,
{
    let m = pos.len() as int;
    let idx = pos.push(i).push(j);
    let d0 = shape[m] as int;
    let d1 = shape[m + 1] as int;
    let h = flat_index_rec(shape, pos, m);
    lemma_flat_index_rec_prefix(shape, idx, pos, m);
    assert(idx[m] == i && idx[m + 1] == j);
    assert(idx.len() == m + 2);
    assert(flat_index_rec(shape, idx, m + 1) == flat_index_rec(shape, idx, m) * d0 + i);
    assert(flat_index_rec(shape, idx, m + 2) == flat_index_rec(shape, idx, m + 1) * d1 + j);
    assert(flat_index(shape, idx) == (h * d0 + i) * d1 + j);
    assert(shape.skip(m) =~= seq![shape[m], shape[m + 1]]);
    lemma_prod2(shape.skip(m));
    assert((h * d0 + i) * d1 == h * (d0 * d1) + i * d1) by (nonlinear_arith);
}

/// The transpose of a rank-2 tensor: shape reversed, element (j, i) taken
/// from element (i, j) of the source.
pub open spec fn transpose_of(t: TensorView) -> TensorView {
    TensorView {
        shape: seq![t.shape[1], t.shape[0]],
        data: Seq::new(
            (t.rows() * t.cols()) as nat,
            |k: int| t.data[(k % t.rows()) * t.cols() + k / t.rows()],
        ),
    }
}

impl Tensor {
    /// Extracts the trailing matrix addressed by `pos` from a tensor of rank
    /// `pos.len() + 2`.  Applicable exactly when the selector carries one
    /// index per leading dimension and each index is within its dimension;
    /// the result has the trailing two dimensions as its shape and holds the
    /// contiguous slab of the buffer that the selector addresses.
    pub fn matrix(&self, pos: &[usize]) -> (r: Option<Tensor>)
        ensures
            r.is_some() <==> matrix_applicable(self@, pos@),
            r.is_some() ==> r.unwrap()@.shape == self@.shape.skip(self@.rank() as int - 2),
            r.is_some() ==> r.unwrap()@.data.len() == shape_prod(
                self@.shape.skip(self@.rank() as int - 2),
            ),
            r.is_some() ==> forall|q: int|
                0 <= q < r.unwrap()@.data.len() ==> r.unwrap()@.data[q] == self@.data[slab_offset(
                    self@.shape,
                    pos@,
                ) + q],
    {
        proof {
            use_type_invariant(&*self);
        }
        let shape = self.get_shape();
        let rr: usize = shape.len();
        let m: usize = pos.len();
        if rr < 2 || m != rr - 2 {
            return None;
        }
        for k in 0..m
            invariant
                m == pos@.len(),
                m + 2 == rr == self@.rank(),
                shape@ == self@.shape,
                forall|q: int| 0 <= q < k ==> pos@[q] < self@.shape[q],
        {
            if pos[k] >= shape[k] {
                return None;
            }
        }
        let d0 = shape[rr - 2];
        let d1 = shape[rr - 1];
        let data = self.get_data();
        let dlen: usize = data.len();
        proof {
            assert(self@.shape.skip(rr as int - 2) =~= seq![d0, d1]);
            lemma_prod2(self@.shape.skip(rr as int - 2));
            lemma_prod_split(self@.shape, rr as int - 2);
            assert forall|q: int| 0 <= q < self@.shape.take(rr as int - 2).len() implies #[trigger] (
            self@.shape.take(rr as int - 2)[q]) >= 1 by {
                assert(self@.shape.take(rr as int - 2)[q] == self@.shape[q]);
                assert(pos@[q] < self@.shape[q]);
            }
            lemma_prod_pos(self@.shape.take(rr as int - 2));
            lemma_prod_nonneg(self@.shape.skip(rr as int - 2));
            lemma_mul_inequality(
                1,
                shape_prod(self@.shape.take(rr as int - 2)),
                shape_prod(self@.shape.skip(rr as int - 2)),
            );
        }
        let p2: usize = d0 * d1;
        let mut newshape: Vec<usize> = Vec::new();
        newshape.push(d0);
        newshape.push(d1);
        proof {
            assert(newshape@ =~= self@.shape.skip(rr as int - 2));
        }
        if p2 == 0 {
            let empty: Vec<i64> = Vec::new();
            let t = Tensor::make(empty, newshape);
            return Some(t);
        }
        proof {
            assert(d0 >= 1 && d1 >= 1) by {
                if d0 == 0 || d1 == 0 {
                    assert((d0 as int) * (d1 as int) == 0) by (nonlinear_arith)
                        requires
                            d0 == 0 || d1 == 0,
                    ;
                }
            }
            assert forall|q: int| 0 <= q < self@.rank() implies #[trigger] (self@.shape[q]) >= 1 by {
                if q < m {
                    assert(pos@[q] < self@.shape[q]);
                } else {
                    assert(q == rr - 2 || q == rr - 1);
                }
            }
        }
        let mut h: usize = 0;
        for k in 0..m
            invariant
                m == pos@.len(),
                m + 2 == rr == self@.rank(),
                shape@ == self@.shape,
                self@.wf(),
                dlen == self@.data.len(),
                forall|q: int| 0 <= q < m ==> pos@[q] < self@.shape[q],
                forall|q: int| 0 <= q < self@.rank() ==> self@.shape[q] >= 1,
                h as int == flat_index_rec(self@.shape, pos@, k as int),
                (h as int) < shape_prod(self@.shape.take(k as int)),
        {
            proof {
                lemma_flat_index_rec_bound(self@.shape, pos@, k + 1);
                lemma_prod_split(self@.shape, k + 1);
                assert forall|q: int| 0 <= q < self@.shape.skip(k + 1).len() implies #[trigger] (
                self@.shape.skip(k + 1)[q]) >= 1 by {
                    assert(self@.shape.skip(k + 1)[q] == self@.shape[q + k + 1]);
                }
                lemma_prod_pos(self@.shape.skip(k + 1));
                lemma_prod_nonneg(self@.shape.take(k + 1));
                lemma_mul_inequality(
                    1,
                    shape_prod(self@.shape.skip(k + 1)),
                    shape_prod(self@.shape.take(k + 1)),
                );
                lemma_mul_is_commutative(
                    shape_prod(self@.shape.take(k + 1)),
                    shape_prod(self@.shape.skip(k + 1)),
                );
            }
            h = h * shape[k] + pos[k];
        }
        proof {
            lemma_prod_split(self@.shape, m as int);
            assert(self@.shape.skip(m as int) =~= self@.shape.skip(rr as int - 2));
            lemma_mul_inequality(
                h as int + 1,
                shape_prod(self@.shape.take(m as int)),
                p2 as int,
            );
            assert((h as int + 1) * (p2 as int) == (h as int) * (p2 as int) + p2) by (nonlinear_arith);
            assert((h as int) * (p2 as int) >= 0) by (nonlinear_arith);
        }
        let off: usize = h * p2;
        let mut out: Vec<i64> = Vec::new();
        for q in 0..p2
            invariant
                data@ == self@.data,
                dlen == self@.data.len(),
                off + p2 <= dlen,
                out@.len() == q,
                forall|w: int| 0 <= w < q ==> out@[w] == self@.data[off + w],
        {
            out.push(data[off + q]);
        }
        let t = Tensor::make(out, newshape);
        Some(t)
    }

    /// Extracts the row `row` of a rank-2 tensor as a `[1, cols]` tensor.
    /// Applicable exactly when the rank is 2 and the row index is in range;
    /// the result is the row's contiguous block of the buffer.
    pub fn matrix_row(&self, row: usize) -> (r: Option<Tensor>)
        ensures
            r.is_some() <==> (self@.rank() == 2 && (row as int) < self@.rows()),
            r.is_some() ==> r.unwrap()@.shape == seq![1usize, self@.shape[1]],
            r.is_some() ==> r.unwrap()@.data == self@.row_seq(row as int),
    {
        proof {
            use_type_invariant(&*self);
        }
        let shape = self.get_shape();
        if shape.len() != 2 {
            return None;
        }
        let rows = shape[0];
        let cols = shape[1];
        if row >= rows {
            return None;
        }
        let data = self.get_data();
        let dlen: usize = data.len();
        proof {
            lemma_prod2(self@.shape);
            lemma_mul_inequality(row as int + 1, rows as int, cols as int);
            assert((row as int + 1) * (cols as int) == row * cols + cols) by (nonlinear_arith);
            assert(row * cols >= 0) by (nonlinear_arith);
        }
        let begin: usize = row * cols;
        let mut out: Vec<i64> = Vec::new();
        for j in 0..cols
            invariant
                self@.wf(),
                self@.rank() == 2,
                rows == self@.shape[0],
                cols == self@.shape[1],
                data@ == self@.data,
                dlen == self@.data.len(),
                begin == row * cols,
                begin + cols <= self@.data.len(),
                out@ =~= self@.data.subrange(begin as int, begin + j),
        {
            out.push(data[begin + j]);
            proof {
                assert(out@ =~= self@.data.subrange(begin as int, begin + j + 1));
            }
        }
        let mut newshape: Vec<usize> = Vec::new();
        newshape.push(1);
        newshape.push(cols);
        proof {
            assert(newshape@ =~= seq![1usize, self@.shape[1]]);
            lemma_prod2(newshape@);
            assert(shape_prod(newshape@) == 1 * (cols as int));
        }
        Some(Tensor::make(out, newshape))
    }

    /// Extracts the column `col` of a rank-2 tensor as a `[rows, 1]` tensor.
    /// Applicable exactly when the rank is 2 and the column index is in
    /// range; element k of the result is the source element (k, col).
    pub fn matrix_col(&self, col: usize) -> (r: Option<Tensor>)
        ensures
            r.is_some() <==> (self@.rank() == 2 && (col as int) < self@.cols()),
            r.is_some() ==> r.unwrap()@.shape == seq![self@.shape[0], 1usize],
            r.is_some() ==> r.unwrap()@.data == self@.col_seq(col as int),
    {
        proof {
            use_type_invariant(&*self);
        }
        let shape = self.get_shape();
        if shape.len() != 2 {
            return None;
        }
        let rows = shape[0];
        let cols = shape[1];
        if col >= cols {
            return None;
        }
        proof {
            lemma_prod2(self@.shape);
        }
        let data = self.get_data();
        let dlen: usize = data.len();
        let mut out: Vec<i64> = Vec::new();
        for k in 0..rows
            invariant
                self@.wf(),
                self@.rank() == 2,
                rows == self@.shape[0],
                cols == self@.shape[1],
                col < cols,
                data@ == self@.data,
                dlen == self@.data.len(),
                self@.data.len() == (rows as int) * (cols as int),
                out@.len() == k,
                forall|q: int| 0 <= q < k ==> out@[q] == self@.at2(q, col as int),
        {
            proof {
                lemma_mul_inequality(k as int + 1, rows as int, cols as int);
                assert((k as int + 1) * (cols as int) == k * cols + cols) by (nonlinear_arith);
                assert(k * cols >= 0) by (nonlinear_arith);
            }
            out.push(data[k * cols + col]);
        }
        let mut newshape: Vec<usize> = Vec::new();
        newshape.push(rows);
        newshape.push(1);
        proof {
            assert(newshape@ =~= seq![self@.shape[0], 1usize]);
            lemma_prod2(newshape@);
            assert(shape_prod(newshape@) == (rows as int) * 1);
            assert((rows as int) * 1 == rows as int) by (nonlinear_arith);
            assert(out@ =~= self@.col_seq(col as int));
        }
        Some(Tensor::make(out, newshape))
    }

    /// Transposes a rank-2 tensor: the result has the reversed shape and its
    /// element (j, i) is the source element (i, j).  Applicable exactly when
    /// the rank is 2.
    pub fn matrix_transpose(&self) -> (r: Option<Tensor>)
        ensures
            r.is_some() <==> self@.rank() == 2,
            r.is_some() ==> r.unwrap()@ == transpose_of(self@),
    {
        proof {
            use_type_invariant(&*self);
        }
        let shape = self.get_shape();
        if shape.len() != 2 {
            return None;
        }
        let rows = shape[0];
        let cols = shape[1];
        let data = self.get_data();
        let dlen: usize = data.len();
        proof {
            lemma_prod2(self@.shape);
        }
        let mut out: Vec<i64> = Vec::new();
        proof {
            assert(0 * (rows as int) == 0) by (nonlinear_arith);
        }
        for j in 0..cols
            invariant
                self@.wf(),
                self@.rank() == 2,
                rows == self@.shape[0],
                cols == self@.shape[1],
                data@ == self@.data,
                dlen == self@.data.len(),
                self@.data.len() == (rows as int) * (cols as int),
                out@.len() == j * (rows as int),
                forall|p: int| 0 <= p < out@.len() ==> out@[p] == self@.data[(p % (
                rows as int)) * (cols as int) + p / (rows as int)],
        {
            for i in 0..rows
                invariant
                    self@.wf(),
                    self@.rank() == 2,
                    rows == self@.shape[0],
                    cols == self@.shape[1],
                    j < cols,
                    data@ == self@.data,
                    dlen == self@.data.len(),
                    self@.data.len() == (rows as int) * (cols as int),
                    out@.len() == j * (rows as int) + i,
                    forall|p: int| 0 <= p < out@.len() ==> out@[p] == self@.data[(p % (
                    rows as int)) * (cols as int) + p / (rows as int)],
            {
                proof {
                    lemma_mul_inequality(i as int + 1, rows as int, cols as int);
                    assert((i as int + 1) * (cols as int) == i * cols + cols) by (nonlinear_arith);
                    assert(i * cols >= 0) by (nonlinear_arith);
                    lemma_mul_inequality(j as int + 1, cols as int, rows as int);
                    assert((j as int + 1) * (rows as int) == j * rows + rows) by (nonlinear_arith);
                    assert((cols as int) * (rows as int) == (rows as int) * (cols as int))
                        by (nonlinear_arith);
                    lemma_fundamental_div_mod_converse(
                        j * (rows as int) + i,
                        rows as int,
                        j as int,
                        i as int,
                    )
                }
                out.push(data[i * cols + j]);
            }
            proof {
                assert(j * (rows as int) + (rows as int) == (j + 1) * (rows as int))
                    by (nonlinear_arith);
            }
        }
        let mut newshape: Vec<usize> = Vec::new();
        newshape.push(cols);
        newshape.push(rows);
        proof {
            assert(newshape@ =~= seq![self@.shape[1], self@.shape[0]]);
            lemma_prod2(newshape@);
            lemma_mul_is_commutative(cols as int, rows as int);
            assert(out@ =~= transpose_of(self@).data);
        }
        let t = Tensor::make(out, newshape);
        proof {
            assert(t@ =~= transpose_of(self@));
        }
        Some(t)
    }
}

/// Transposing twice gives back the original tensor: shape and data of
/// `transpose_of(transpose_of(t))` are those of `t`, for every well-formed
/// rank-2 tensor.
pub proof fn lemma_transpose_involutive(t: TensorView)
    requires
        t.wf(),
        t.rank() == 2,
    ensures
        transpose_of(transpose_of(t)) == t,
{
    let r = t.rows();
    let c = t.cols();
    let u = transpose_of(t);
    let v = transpose_of(u);
    lemma_prod2(t.shape);
    assert(u.rows() == c && u.cols() == r);
    assert(v.shape =~= t.shape);
    lemma_mul_is_commutative(c, r);
    assert(v.data.len() == t.data.len());
    assert forall|k: int| 0 <= k < v.data.len() implies v.data[k] == t.data[k] by {
        assert(c >= 1 && r >= 1) by {
            lemma_mul_is_commutative(c, r);
            assert(c * r > 0);
            if c <= 0 || r <= 0 {
                assert(c * r <= 0) by (nonlinear_arith)
                    requires
                        c <= 0 || r <= 0,
                        c >= 0,
                        r >= 0,
                ;
            }
        }
        let i = k / c;
        let j = k % c;
        lemma_fundamental_div_mod(k, c);
        assert(k == c * i + j);
        assert(0 <= j < c) by {
            vstd::arithmetic::div_mod::lemma_mod_bound(k, c);
        }
        assert(i < r) by {
            if i >= r {
                assert(c * i >= c * r) by (nonlinear_arith)
                    requires
                        i >= r,
                        c >= 1,
                ;
                lemma_mul_is_commutative(c, r);
            }
        }
        assert(v.data[k] == u.data[j * r + i]) by {
            assert(k % u.rows() == j && k / u.rows() == i);
        }
        assert(0 <= j * r + i < c * r) by (nonlinear_arith)
            requires
                0 <= j < c,
                0 <= i < r,
        ;
        assert(u.data[j * r + i] == t.data[i * c + j]) by {
            lemma_fundamental_div_mod_converse(j * r + i, r, j, i);
            assert((j * r + i) % r == i && (j * r + i) / r == j);
        }
        assert(i * c + j == k) by {
            lemma_mul_is_commutative(i, c);
        }
    }
    assert(v.data =~= t.data);
    assert(v =~= t);
}

} // verus!
