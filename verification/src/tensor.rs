//! The tensor value itself: a flat row-major `i64` buffer plus a shape, with
//! the spec-level model (`TensorView`), the shape-product and flat-offset
//! arithmetic, construction, and raw element access.

use vstd::arithmetic::mul::{lemma_mul_inequality, lemma_mul_is_associative, lemma_mul_is_commutative};
use vstd::prelude::*;

verus! {

/// Mathematical model of a tensor: the shape (dimension sizes, outermost
/// first) and the flat row-major element buffer.
#[verifier::ext_equal]
pub struct TensorView {
    pub shape: Seq<usize>,
    pub data: Seq<i64>,
}

/// Product of all dimension sizes of a shape.
pub open spec fn shape_prod(s: Seq<usize>) -> int
    decreases s.len(),
{
    if s.len() == 0 {
        1
    } else {
        s[0] * shape_prod(s.drop_first())
    }
}

impl TensorView {
    /// A tensor is well formed when the buffer holds exactly one element per
    /// addressable position.
    pub open spec fn wf(self) -> bool {
        self.data.len() == shape_prod(self.shape)
    }

    /// Number of dimensions.
    pub open spec fn rank(self) -> nat {
        self.shape.len()
    }

    /// Row count of a rank-2 tensor.
    pub open spec fn rows(self) -> int {
        self.shape[0] as int
    }

    /// Column count of a rank-2 tensor.
    pub open spec fn cols(self) -> int {
        self.shape[1] as int
    }

    /// Element (i, j) of a rank-2 tensor.
    pub open spec fn at2(self, i: int, j: int) -> i64 {
        self.data[i * self.cols() + j]
    }

    /// The elements of row i of a rank-2 tensor, in order.
    pub open spec fn row_seq(self, i: int) -> Seq<i64> {
        self.data.subrange(i * self.cols(), i * self.cols() + self.cols())
    }

    /// The elements of column j of a rank-2 tensor, top to bottom.
    pub open spec fn col_seq(self, j: int) -> Seq<i64> {
        Seq::new(self.rows() as nat, |k: int| self.at2(k, j))
    }
}

/// Whether a mathematical integer is representable as an `i64`.
pub open spec fn in_i64(x: int) -> bool {
    i64::MIN <= x <= i64::MAX
}

pub proof fn lemma_prod_nonneg(s: Seq<usize>)
    ensures
        shape_prod(s) >= 0,
    decreases s.len(),
{
    if s.len() > 0 {
        lemma_prod_nonneg(s.drop_first());
        lemma_mul_inequality(0, shape_prod(s.drop_first()), s[0] as int);
        lemma_mul_is_commutative(s[0] as int, shape_prod(s.drop_first()));
    }
}

/// Appending one more dimension multiplies the product by its size.
pub proof fn lemma_prod_push(s: Seq<usize>, x: usize)
    ensures
        shape_prod(s.push(x)) == shape_prod(s) * x,
    decreases s.len(),
{
    if s.len() == 0 {
        assert(s.push(x).drop_first() =~= Seq::<usize>::empty());
        assert(s.push(x)[0] == x);
        assert(shape_prod(s.push(x)) == x * shape_prod(Seq::<usize>::empty()));
    } else {
        assert(s.push(x).drop_first() =~= s.drop_first().push(x));
        assert(s.push(x)[0] == s[0]);
        lemma_prod_push(s.drop_first(), x);
        lemma_mul_is_associative(s[0] as int, shape_prod(s.drop_first()), x as int);
        assert(shape_prod(s.push(x)) == s[0] * shape_prod(s.drop_first().push(x)));
    }
}

/// The shape product splits at any cut point.
pub proof fn lemma_prod_split(s: Seq<usize>, k: int)
    requires
        0 <= k <= s.len(),
    ensures
        shape_prod(s) == shape_prod(s.take(k)) * shape_prod(s.skip(k)),
    decreases k,
{
    if k == 0 {
        assert(s.take(0) =~= Seq::<usize>::empty());
        assert(s.skip(0) =~= s);
    } else {
        assert(s.take(k).drop_first() =~= s.drop_first().take(k - 1));
        assert(s.skip(k) =~= s.drop_first().skip(k - 1));
        lemma_prod_split(s.drop_first(), k - 1);
        lemma_mul_is_associative(
            s[0] as int,
            shape_prod(s.drop_first().take(k - 1)),
            shape_prod(s.drop_first().skip(k - 1)),
        );
    }
}

/// A shape with no zero entry has a positive product.
pub proof fn lemma_prod_pos(s: Seq<usize>)
    requires
        forall|k: int| 0 <= k < s.len() ==> s[k] >= 1,
    ensures
        shape_prod(s) >= 1,
    decreases s.len(),
{
    if s.len() > 0 {
        lemma_prod_pos(s.drop_first());
        lemma_mul_inequality(1, shape_prod(s.drop_first()), s[0] as int);
        lemma_mul_is_commutative(s[0] as int, shape_prod(s.drop_first()));
        lemma_mul_inequality(1, s[0] as int, shape_prod(s.drop_first()));
    }
}

/// A shape with a zero entry has product zero.
pub proof fn lemma_prod_zero(s: Seq<usize>, k: int)
    requires
        0 <= k < s.len(),
        s[k] == 0,
    ensures
        shape_prod(s) == 0,
    decreases s.len(),
{
    if k == 0 {
        lemma_mul_is_commutative(s[0] as int, shape_prod(s.drop_first()));
    } else {
        lemma_prod_zero(s.drop_first(), k - 1);
    }
}

/// A rank-2 shape's product is rows times columns.
pub proof fn lemma_prod2(s: Seq<usize>)
    requires
        s.len() == 2,
    ensures
        shape_prod(s) == s[0] * s[1],
{
    assert(s.drop_first().drop_first() =~= Seq::<usize>::empty());
    assert(shape_prod(Seq::<usize>::empty()) == 1);
    assert(shape_prod(s.drop_first()) == s[1] * 1);
    assert(s[1] * 1 == s[1]) by (nonlinear_arith);
}

/// Flat row-major offset of the multi-index `idx.take(k)` within a buffer of
/// shape `shape`, computed Horner style from the outermost dimension in.
pub open spec fn flat_index_rec(shape: Seq<usize>, idx: Seq<usize>, k: int) -> int
    decreases k,
{
    if k <= 0 {
        0
    } else {
        flat_index_rec(shape, idx, k - 1) * shape[k - 1] + idx[k - 1]
    }
}

/// Flat row-major offset of a full multi-index.
pub open spec fn flat_index(shape: Seq<usize>, idx: Seq<usize>) -> int {
    flat_index_rec(shape, idx, idx.len() as int)
}

/// The offset of a multi-index prefix depends only on the components the
/// prefix spans.
pub proof fn lemma_flat_index_rec_prefix(shape: Seq<usize>, a: Seq<usize>, b: Seq<usize>, k: int)
    requires
        0 <= k <= a.len(),
        k <= b.len(),
        forall|q: int| 0 <= q < k ==> a[q] == b[q],
    ensures
        flat_index_rec(shape, a, k) == flat_index_rec(shape, b, k),
    decreases k,
{
    if k > 0 {
        lemma_flat_index_rec_prefix(shape, a, b, k - 1);
    }
}

/// An in-bounds multi-index prefix addresses a position strictly below the
/// product of the dimensions it spans.
pub proof fn lemma_flat_index_rec_bound(shape: Seq<usize>, idx: Seq<usize>, k: int)
    requires
        0 <= k <= idx.len(),
        idx.len() <= shape.len(),
        forall|q: int| 0 <= q < k ==> idx[q] < shape[q],
    ensures
        0 <= flat_index_rec(shape, idx, k) < shape_prod(shape.take(k)),
    decreases k,
{
    if k == 0 {
        assert(shape.take(0) =~= Seq::<usize>::empty());
    } else {
        lemma_flat_index_rec_bound(shape, idx, k - 1);
        let p = shape_prod(shape.take(k - 1));
        let f = flat_index_rec(shape, idx, k - 1);
        let d = shape[k - 1] as int;
        assert(shape.take(k) =~= shape.take(k - 1).push(shape[k - 1]));
        lemma_prod_push(shape.take(k - 1), shape[k - 1]);
        assert(f * d + idx[k - 1] < p * d) by {
            lemma_mul_inequality(f + 1, p, d);
            assert((f + 1) * d == f * d + d) by (nonlinear_arith);
        }
        assert(f * d >= 0) by {
            lemma_mul_inequality(0, f, d);
            lemma_mul_is_commutative(f, d);
        }
    }
}

/// A tensor: an immutable-after-construction flat row-major buffer together
/// with the shape it is addressed by.  The buffer always holds exactly
/// `shape_prod(shape)` elements.
pub struct Tensor {
    data: Vec<i64>,
    shape: Vec<usize>,
}

impl View for Tensor {
    type V = TensorView;

    closed spec fn view(&self) -> TensorView {
        TensorView { shape: self.shape@, data: self.data@ }
    }
}

impl Tensor {
    /// Every tensor the crate hands out is well formed.
    #[verifier::type_invariant]
    pub open spec fn shape_matches_data(self) -> bool {
        self@.wf()
    }

    /// Crate-internal constructor for buffers already known to match.
    pub(crate) fn make(data: Vec<i64>, shape: Vec<usize>) -> (r: Tensor)
        requires
            data@.len() == shape_prod(shape@),
        ensures
            r@ == (TensorView { shape: shape@, data: data@ }),
    {
        Tensor { data, shape }
    }

    /// The flat row-major element buffer.
    pub fn get_data(&self) -> (r: &Vec<i64>)
        ensures
            r@ == self@.data,
    {
        &self.data
    }

    /// The shape, outermost dimension first.
    pub fn get_shape(&self) -> (r: &Vec<usize>)
        ensures
            r@ == self@.shape,
    {
        &self.shape
    }

    /// Builds a tensor from a buffer and a shape.  Succeeds exactly when the
    /// buffer holds one element per addressable position.
    pub fn from_data(data: &Vec<i64>, shape: &Vec<usize>) -> (r: Option<Tensor>)
        ensures
            r.is_some() <==> data@.len() == shape_prod(shape@),
            r.is_some() ==> r.unwrap()@ == (TensorView { shape: shape@, data: data@ }),
    {
        let n: usize = shape.len();
        let dlen: usize = data.len();
        for k in 0..n
            invariant
                n == shape@.len(),
                dlen == data@.len(),
                forall|q: int| 0 <= q < k ==> shape@[q] >= 1,
        {
            if shape[k] == 0 {
                proof {
                    lemma_prod_zero(shape@, k as int);
                }
                if data.len() == 0 {
                    let copied_shape = copy_usizes(shape);
                    let empty: Vec<i64> = Vec::new();
                    let t = Tensor::make(empty, copied_shape);
                    proof {
                        assert(t@ =~= (TensorView { shape: shape@, data: data@ }));
                    }
                    return Some(t);
                } else {
                    return None;
                }
            }
        }
        let mut acc: usize = 1;
        for k in 0..n
            invariant
                n == shape@.len(),
                dlen == data@.len(),
                forall|q: int| 0 <= q < n ==> shape@[q] >= 1,
                acc as int == shape_prod(shape@.take(k as int)),
        {
            proof {
                assert(shape@.take(k + 1) =~= shape@.take(k as int).push(shape@[k as int]));
                lemma_prod_push(shape@.take(k as int), shape@[k as int]);
            }
            match acc.checked_mul(shape[k]) {
                Some(v) => {
                    acc = v;
                }
                None => {
                    proof {
                        lemma_prod_split(shape@, k + 1);
                        assert forall|q: int| 0 <= q < shape@.skip(k + 1).len() implies #[trigger] (
                        shape@.skip(k + 1)[q]) >= 1 by {
                            assert(shape@.skip(k + 1)[q] == shape@[q + k + 1]);
                        }
                        lemma_prod_pos(shape@.skip(k + 1));
                        lemma_prod_nonneg(shape@.take(k + 1));
                        lemma_mul_inequality(
                            1,
                            shape_prod(shape@.skip(k + 1)),
                            shape_prod(shape@.take(k + 1)),
                        );
                        lemma_mul_is_commutative(
                            shape_prod(shape@.take(k + 1)),
                            shape_prod(shape@.skip(k + 1)),
                        );
                    }
                    return None;
                }
            }
        }
        proof {
            assert(shape@.take(n as int) =~= shape@);
        }
        if data.len() == acc {
            let copied_data = copy_i64s(data);
            let copied_shape = copy_usizes(shape);
            let t = Tensor::make(copied_data, copied_shape);
            proof {
                assert(t@ =~= (TensorView { shape: shape@, data: data@ }));
            }
            Some(t)
        } else {
            None
        }
    }

    /// Reads one element by its full multi-index.  Succeeds exactly when the
    /// index has one component per dimension and every component is within
    /// its dimension.
    pub fn value(&self, idx: &[usize]) -> (r: Option<i64>)
        ensures
            r.is_some() <==> (idx@.len() == self@.rank() && forall|k: int|
                0 <= k < idx@.len() ==> idx@[k] < self@.shape[k]),
            r.is_some() ==> r.unwrap() == self@.data[flat_index(self@.shape, idx@)],
    {
        proof {
            use_type_invariant(&*self);
        }
        let n: usize = idx.len();
        let dlen: usize = self.data.len();
        if n != self.shape.len() {
            return None;
        }
        for k in 0..n
            invariant
                n == idx@.len() == self@.shape.len(),
                forall|q: int| 0 <= q < k ==> idx@[q] < self@.shape[q],
        {
            if idx[k] >= self.shape[k] {
                return None;
            }
        }
        let mut acc: usize = 0;
        for k in 0..n
            invariant
                n == idx@.len() == self@.shape.len(),
                dlen == self@.data.len(),
                self@.wf(),
                forall|q: int| 0 <= q < n ==> idx@[q] < self@.shape[q],
                acc as int == flat_index_rec(self@.shape, idx@, k as int),
                (acc as int) < shape_prod(self@.shape.take(k as int)),
        {
            proof {
                lemma_flat_index_rec_bound(self@.shape, idx@, k + 1);
                lemma_prod_split(self@.shape, k + 1);
                assert forall|q: int| 0 <= q < self@.shape.skip(k + 1).len() implies #[trigger] (
                self@.shape.skip(k + 1)[q]) >= 1 by {
                    assert(self@.shape.skip(k + 1)[q] == self@.shape[q + k + 1]);
                    assert(idx@[q + k + 1] < self@.shape[q + k + 1]);
                }
                lemma_prod_pos(self@.shape.skip(k + 1));
                lemma_prod_nonneg(self@.shape.take(k + 1));
                lemma_mul_inequality(
                    1,
                    shape_prod(self@.shape.skip(k + 1)),
                    shape_prod(self@.shape.take(k + 1)),
                );
                lemma_mul_is_commutative(
                    shape_prod(self@.shape.take(k + 1)),
                    shape_prod(self@.shape.skip(k + 1)),
                );
            }
            acc = acc * self.shape[k] + idx[k];
        }
        proof {
            lemma_flat_index_rec_bound(self@.shape, idx@, n as int);
            assert(self@.shape.take(n as int) =~= self@.shape);
        }
        Some(self.data[acc])
    }
}

/// Copies a buffer of elements.
pub(crate) fn copy_i64s(v: &Vec<i64>) -> (r: Vec<i64>)
    ensures
        r@ == v@,
{
    let mut r: Vec<i64> = Vec::new();
    let n: usize = v.len();
    for k in 0..n
        invariant
            n == v@.len(),
            r@ =~= v@.take(k as int),
    {
        r.push(v[k]);
        proof {
            assert(r@ =~= v@.take(k + 1));
        }
    }
    proof {
        assert(v@.take(n as int) =~= v@);
    }
    r
}

/// Copies a shape vector.
pub(crate) fn copy_usizes(v: &Vec<usize>) -> (r: Vec<usize>)
    ensures
        r@ == v@,
{
    let mut r: Vec<usize> = Vec::new();
    let n: usize = v.len();
    for k in 0..n
        invariant
            n == v@.len(),
            r@ =~= v@.take(k as int),
    {
        r.push(v[k]);
        proof {
            assert(r@ =~= v@.take(k + 1));
        }
    }
    proof {
        assert(v@.take(n as int) =~= v@);
    }
    r
}

} // verus!
