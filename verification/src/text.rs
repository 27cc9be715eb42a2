//! Textual rendering of a rank-2 tensor: every row between vertical bars,
//! elements separated by comma and space, rows separated by a newline, with
//! no trailing separators.

use crate::tensor::{lemma_prod2, Tensor, TensorView};
use vstd::arithmetic::mul::lemma_mul_inequality;
use vstd::prelude::*;
use vstd::string::StringExecFns;

verus! {

/// The character of one decimal digit.
pub open spec fn digit_char(d: int) -> char {
    if d == 0 {
        '0'
    } else if d == 1 {
        '1'
    } else if d == 2 {
        '2'
    } else if d == 3 {
        '3'
    } else if d == 4 {
        '4'
    } else if d == 5 {
        '5'
    } else if d == 6 {
        '6'
    } else if d == 7 {
        '7'
    } else if d == 8 {
        '8'
    } else {
        '9'
    }
}

/// Decimal digits of a non-negative integer, most significant first, with
/// no leading zeros.
pub open spec fn dec_digits(n: int) -> Seq<char>
    decreases n,
{
    if n < 10 {
        seq![digit_char(n)]
    } else {
        dec_digits(n / 10).push(digit_char(n % 10))
    }
}

/// Decimal rendering of an integer: a minus sign and the digits of the
/// magnitude for negative values, the digits alone otherwise.
pub open spec fn dec_str(x: int) -> Seq<char> {
    if x < 0 {
        seq!['-'] + dec_digits(-x)
    } else {
        dec_digits(x)
    }
}

/// Text of the first `j` elements of row i: each element's decimal
/// rendering, followed by a comma and a space unless it is the last element
/// of the row.
pub open spec fn row_text_upto(t: TensorView, i: int, j: int) -> Seq<char>
    decreases j,
{
    if j <= 0 {
        Seq::empty()
    } else {
        row_text_upto(t, i, j - 1) + dec_str(t.at2(i, j - 1) as int) + (if j - 1 < t.cols() - 1 {
            seq![',', ' ']
        } else {
            Seq::empty()
        })
    }
}

/// Text of the first `i` rows: each row's text between vertical bars,
/// followed by a newline unless it is the last row.
pub open spec fn matrix_text_upto(t: TensorView, i: int) -> Seq<char>
    decreases i,
{
    if i <= 0 {
        Seq::empty()
    } else {
        matrix_text_upto(t, i - 1) + seq!['|'] + row_text_upto(t, i - 1, t.cols()) + seq!['|']
            + (if i - 1 < t.rows() - 1 {
            seq!['\n']
        } else {
            Seq::empty()
        })
    }
}

/// The full text of a rank-2 tensor.
pub open spec fn matrix_text(t: TensorView) -> Seq<char> {
    matrix_text_upto(t, t.rows())
}

/// Relies on std's `Display` for `i64`, through `to_string`: the rendering
/// is the value's decimal digits without leading zeros, preceded by a minus
/// sign when the value is negative.
#[verifier::external_body]
fn i64_to_string(x: i64) -> (r: String)
    ensures
        r@ == dec_str(x as int),
{
    x.to_string()
}

impl Tensor {
    /// Renders a rank-2 tensor as text, row by row.  Applicable exactly
    /// when the rank is 2.
    pub fn matrix_to_string(&self) -> (r: Option<String>)
        ensures
            r.is_some() <==> self@.rank() == 2,
            r.is_some() ==> r.unwrap()@ == matrix_text(self@),
    {
        proof {
            use_type_invariant(&*self);
        }
        let shape = self.get_shape();
        if shape.len() != 2 {
            return None;
        }
        let rows = shape[0];
        let cols = shape[1];
        let data = self.get_data();
        let dlen: usize = data.len();
        proof {
            lemma_prod2(self@.shape);
        }
        let mut s = String::new();
        for i in 0..rows
            invariant
                self@.wf(),
                self@.rank() == 2,
                rows == self@.shape[0],
                cols == self@.shape[1],
                data@ == self@.data,
                dlen == self@.data.len(),
                self@.data.len() == (rows as int) * (cols as int),
                s@ == matrix_text_upto(self@, i as int),
        {
            s.append("|");
            proof {
                reveal_strlit("|");
                assert("|"@ =~= seq!['|']);
            }
            for j in 0..cols
                invariant
                    self@.wf(),
                    self@.rank() == 2,
                    rows == self@.shape[0],
                    cols == self@.shape[1],
                    i < rows,
                    data@ == self@.data,
                    dlen == self@.data.len(),
                    self@.data.len() == (rows as int) * (cols as int),
                    s@ == matrix_text_upto(self@, i as int) + seq!['|'] + row_text_upto(
                        self@,
                        i as int,
                        j as int,
                    ),
            {
                proof {
                    lemma_mul_inequality(i as int + 1, rows as int, cols as int);
                    assert((i as int + 1) * (cols as int) == i * cols + cols) by (nonlinear_arith);
                    assert(i * cols >= 0) by (nonlinear_arith);
                }
                let rendered = i64_to_string(data[i * cols + j]);
                s.append(rendered.as_str());
                if j != cols - 1 {
                    s.append(", ");
                    proof {
                        reveal_strlit(", ");
                        assert(", "@ =~= seq![',', ' ']);
                    }
                }
                proof {
                    assert(self@.at2(i as int, j as int) == self@.data[i * cols + j]);
                    assert(s@ =~= matrix_text_upto(self@, i as int) + seq!['|'] + row_text_upto(
                        self@,
                        i as int,
                        j + 1,
                    ));
                }
            }
            s.append("|");
            if i != rows - 1 {
                s.append("\n");
                proof {
                    reveal_strlit("\n");
                    assert("\n"@ =~= seq!['\n']);
                }
            }
            proof {
                assert(s@ =~= matrix_text_upto(self@, i + 1));
            }
        }
        Some(s)
    }
}

} // verus!
