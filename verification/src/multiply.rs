//! Matrix multiplication, built on row and column extraction and a
//! defensive dot-product primitive.

use crate::tensor::{in_i64, lemma_prod2, Tensor, TensorView};
use vstd::arithmetic::div_mod::lemma_fundamental_div_mod_converse;
use vstd::arithmetic::mul::lemma_mul_inequality;
use vstd::prelude::*;

verus! {

/// Dot product of two equally long buffers, as a mathematical integer.
pub open spec fn dot(a: Seq<i64>, b: Seq<i64>) -> int
    decreases a.len(),
{
    if a.len() == 0 || b.len() == 0 {
        0
    } else {
        dot(a.drop_last(), b.drop_last()) + a.last() * b.last()
    }
}

/// Every elementwise product and every prefix of the dot product stays
/// representable.  This is exactly what the left-to-right accumulation of
/// `dot_product` computes.
pub open spec fn dot_fits(a: Seq<i64>, b: Seq<i64>) -> bool {
    &&& forall|k: int| 0 <= k < a.len() ==> in_i64((#[trigger] a[k]) * b[k])
    &&& forall|k: int| 0 <= k <= a.len() ==> in_i64(dot(#[trigger] a.take(k), b.take(k)))
}

/// Two tensors can be matrix-multiplied: both rank 2, and the left column
/// count equals the right row count.
pub open spec fn mul_compatible(a: TensorView, b: TensorView) -> bool {
    a.rank() == 2 && b.rank() == 2 && a.cols() == b.rows()
}

/// Every row-by-column dot product of the two operands fits.
pub open spec fn mul_fits(a: TensorView, b: TensorView) -> bool {
    forall|i: int, j: int|
        #![trigger a.row_seq(i), b.col_seq(j)]
        0 <= i < a.rows() && 0 <= j < b.cols() ==> dot_fits(a.row_seq(i), b.col_seq(j))
}

/// Extending both prefixes by one element adds their product to the dot
/// product.
pub proof fn lemma_dot_take_step(a: Seq<i64>, b: Seq<i64>, k: int)
    requires
        a.len() == b.len(),
        0 <= k < a.len(),
    ensures
        dot(a.take(k + 1), b.take(k + 1)) == dot(a.take(k), b.take(k)) + a[k] * b[k],
{
    assert(a.take(k + 1).drop_last() =~= a.take(k));
    assert(b.take(k + 1).drop_last() =~= b.take(k));
    assert(a.take(k + 1).last() == a[k]);
    assert(b.take(k + 1).last() == b[k]);
}

impl Tensor {
    /// Dot product of the two buffers.  Defensive contract: applicable
    /// exactly when the buffers have the same length, whatever the shapes;
    /// the result is the sum over k of `a[k] * b[k]`.
    pub fn dot_product(&self, other: &Tensor) -> (r: Option<i64>)
        requires
            self@.data.len() == other@.data.len() ==> dot_fits(self@.data, other@.data),
        ensures
            r.is_some() <==> self@.data.len() == other@.data.len(),
            r.is_some() ==> r.unwrap() as int == dot(self@.data, other@.data),
    {
        let a = self.get_data();
        let b = other.get_data();
        let n: usize = a.len();
        if n != b.len() {
            return None;
        }
        let mut acc: i64 = 0;
        for k in 0..n
            invariant
                n == a@.len() == b@.len(),
                a@ == self@.data,
                b@ == other@.data,
                dot_fits(self@.data, other@.data),
                acc as int == dot(a@.take(k as int), b@.take(k as int)),
        {
            proof {
                lemma_dot_take_step(a@, b@, k as int);
                assert(in_i64(a@[k as int] * b@[k as int]));
                assert(in_i64(dot(a@.take(k + 1), b@.take(k + 1))));
            }
            acc = acc + a[k] * b[k];
        }
        proof {
            assert(a@.take(n as int) =~= a@);
            assert(b@.take(n as int) =~= b@);
        }
        Some(acc)
    }

    /// Standard matrix product.  Applicable exactly when both operands have
    /// rank 2 and the left column count equals the right row count; the
    /// result has shape `[self.rows, tens2.cols]` and its element (i, j) is
    /// the dot product of row i of `self` with column j of `tens2`.
    pub fn matrix_mul(&self, tens2: &Tensor) -> (r: Option<Tensor>)
        requires
            mul_compatible(self@, tens2@) ==> mul_fits(self@, tens2@),
            mul_compatible(self@, tens2@) ==> self@.rows() * tens2@.cols() <= usize::MAX,
        ensures
            r.is_some() <==> mul_compatible(self@, tens2@),
            r.is_some() ==> r.unwrap()@.shape == seq![self@.shape[0], tens2@.shape[1]],
            r.is_some() ==> r.unwrap()@.data.len() == self@.rows() * tens2@.cols(),
            r.is_some() ==> forall|i: int, j: int|
                #![trigger r.unwrap()@.data[i * tens2@.cols() + j]]
                0 <= i < self@.rows() && 0 <= j < tens2@.cols() ==> r.unwrap()@.data[i
                    * tens2@.cols() + j] as int == dot(self@.row_seq(i), tens2@.col_seq(j)),
    {
        proof {
            use_type_invariant(&*self);
            use_type_invariant(&*tens2);
        }
        let ashape = self.get_shape();
        let bshape = tens2.get_shape();
        if ashape.len() != 2 {
            return None;
        }
        if ashape.len() != bshape.len() {
            return None;
        }
        if ashape[1] != bshape[0] {
            return None;
        }
        let r1 = ashape[0];
        let c1 = ashape[1];
        let c2 = bshape[1];
        let mut out: Vec<i64> = Vec::new();
        proof {
            assert(0 * (c2 as int) == 0) by (nonlinear_arith);
        }
        for i in 0..r1
            invariant
                self@.wf(),
                tens2@.wf(),
                mul_compatible(self@, tens2@),
                mul_fits(self@, tens2@),
                self@.rows() * tens2@.cols() <= usize::MAX,
                r1 == self@.shape[0],
                c1 == self@.shape[1],
                c1 == tens2@.shape[0],
                c2 == tens2@.shape[1],
                out@.len() == i * (c2 as int),
                forall|p: int|
                    0 <= p < out@.len() ==> #[trigger] (out@[p]) as int == dot(
                        self@.row_seq(p / (c2 as int)),
                        tens2@.col_seq(p % (c2 as int)),
                    ),
        {
            for j in 0..c2
                invariant
                    self@.wf(),
                    tens2@.wf(),
                    mul_compatible(self@, tens2@),
                    mul_fits(self@, tens2@),
                    self@.rows() * tens2@.cols() <= usize::MAX,
                    i < r1,
                    r1 == self@.shape[0],
                    c1 == self@.shape[1],
                    c1 == tens2@.shape[0],
                    c2 == tens2@.shape[1],
                    out@.len() == i * (c2 as int) + j,
                    forall|p: int|
                        0 <= p < out@.len() ==> #[trigger] (out@[p]) as int == dot(
                            self@.row_seq(p / (c2 as int)),
                            tens2@.col_seq(p % (c2 as int)),
                        ),
            {
                let row_t = self.matrix_row(i).unwrap();
                let col_t = tens2.matrix_col(j).unwrap();
                proof {
                    assert(row_t@.data == self@.row_seq(i as int));
                    assert(col_t@.data == tens2@.col_seq(j as int));
                    lemma_prod2(self@.shape);
                    lemma_mul_inequality(i as int + 1, r1 as int, c1 as int);
                    assert((i as int + 1) * (c1 as int) == i * c1 + c1) by (nonlinear_arith);
                    assert(i * c1 >= 0) by (nonlinear_arith);
                    assert(row_t@.data.len() == c1 as int);
                    assert(col_t@.data.len() == c1 as int);
                    assert(dot_fits(row_t@.data, col_t@.data));
                }
                let d = row_t.dot_product(&col_t).unwrap();
                proof {
                    lemma_mul_inequality(i as int + 1, r1 as int, c2 as int);
                    assert((i as int + 1) * (c2 as int) == i * c2 + c2) by (nonlinear_arith);
                    assert(i * c2 >= 0) by (nonlinear_arith);
                    lemma_fundamental_div_mod_converse(
                        i * (c2 as int) + j,
                        c2 as int,
                        i as int,
                        j as int,
                    );
                }
                out.push(d);
            }
            proof {
                assert(i * (c2 as int) + (c2 as int) == (i + 1) * (c2 as int)) by (nonlinear_arith);
            }
        }
        let mut newshape: Vec<usize> = Vec::new();
        newshape.push(r1);
        newshape.push(c2);
        proof {
            assert(newshape@ =~= seq![self@.shape[0], tens2@.shape[1]]);
            lemma_prod2(newshape@);
        }
        let t = Tensor::make(out, newshape);
        proof {
            assert forall|i: int, j: int|
                0 <= i < self@.rows() && 0 <= j < tens2@.cols() implies #[trigger] (t@.data[i * tens2@.cols()
                + j]) as int == dot(self@.row_seq(i), tens2@.col_seq(j)) by {
                lemma_mul_inequality(i + 1, self@.rows(), tens2@.cols());
                assert((i + 1) * tens2@.cols() == i * tens2@.cols() + tens2@.cols())
                    by (nonlinear_arith);
                assert(i * tens2@.cols() >= 0) by (nonlinear_arith)
                    requires
                        i >= 0,
                        tens2@.cols() >= 0,
                ;
                lemma_fundamental_div_mod_converse(i * tens2@.cols() + j, tens2@.cols(), i, j);
            }
        }
        Some(t)
    }
}

} // verus!
