//! Dense row-major matrices of field elements: the carrier for evaluation
//! and coefficient data in the circle FFT.

use vstd::prelude::*;
use crate::field::{fadd, fmul, Mersenne31};

verus! {

/// The canonical values of a sequence of field elements.
pub open spec fn seq_vals(s: Seq<Mersenne31>) -> Seq<int> {
    s.map(|i: int, m: Mersenne31| m.val())
}

/// The dot product `sum_{j < rows} v[j * width + c] * b[j]` of column `c`
/// with the vector `b`, reduced modulo `P` at each step.
pub open spec fn col_dot(v: Seq<int>, width: nat, c: nat, b: Seq<int>, rows: nat) -> int
    decreases rows,
{
    if rows == 0 {
        0
    } else {
        fadd(
            col_dot(v, width, c, b, (rows - 1) as nat),
            fmul(v[((rows - 1) * width + c) as int], b[rows - 1]),
        )
    }
}

/// A flat row-major index stays inside the matrix.
pub proof fn lemma_row_index(i: int, c: int, w: int, h: int, len: int)
    requires
        0 <= i < h,
        0 <= c < w,
        h * w == len,
    ensures
        0 <= i * w + c < len,
        i * w <= len,
{
    assert(i * w + c < len && i * w <= len) by (nonlinear_arith)
        requires
            0 <= i < h,
            0 <= c < w,
            h * w == len,
    ;
}

/// A well-formed matrix's flat length is its height times its width.
pub proof fn lemma_mat_dims(m: RowMajorMat)
    requires
        m.wf(),
    ensures
        m.values@.len() == m.spec_height() * (m.width as nat),
        m.vals().len() == m.values@.len(),
{
    vstd::arithmetic::div_mod::lemma_fundamental_div_mod(m.values@.len() as int, m.width as int);
    assert((m.width as int) * (m.values@.len() as int / m.width as int) == (m.values@.len() as int
        / m.width as int) * (m.width as int)) by (nonlinear_arith);
}

/// A dense row-major matrix of field elements.
#[derive(Clone, Debug)]
pub struct RowMajorMat {
    pub values: Vec<Mersenne31>,
    pub width: usize,
}

impl RowMajorMat {
    /// The flat sequence of canonical values, row-major.
    pub open spec fn vals(self) -> Seq<int> {
        seq_vals(self.values@)
    }

    pub open spec fn wf(self) -> bool {
        self.width >= 1 && self.values@.len() % (self.width as nat) == 0
    }

    pub open spec fn spec_height(self) -> nat {
        self.values@.len() / (self.width as nat)
    }

    pub fn new(values: Vec<Mersenne31>, width: usize) -> (r: Self)
        requires
            width >= 1,
            values@.len() % (width as nat) == 0,
        ensures
            r.values == values,
            r.width == width,
            r.wf(),
    {
        RowMajorMat { values, width }
    }

    pub fn height(&self) -> (r: usize)
        requires
            self.wf(),
        ensures
            r == self.spec_height(),
    {
        self.values.len() / self.width
    }

    /// One row, copied out.
    pub fn row(&self, i: usize) -> (r: Vec<Mersenne31>)
        requires
            self.wf(),
            (i as nat) < self.spec_height(),
        ensures
            r@.len() == self.width,
            forall|c: int| 0 <= c < self.width ==> r@[c] == self.values@[i * self.width + c],
    {
        proof {
            assert(self.spec_height() * (self.width as nat) == self.values@.len()) by {
                vstd::arithmetic::div_mod::lemma_fundamental_div_mod(
                    self.values@.len() as int,
                    self.width as int,
                );
            };
        }
        let _total = self.values.len();
        let mut out: Vec<Mersenne31> = Vec::new();
        let mut c: usize = 0;
        while c < self.width
            invariant
                0 <= c <= self.width,
                self.wf(),
                (i as nat) < self.spec_height(),
                self.spec_height() * (self.width as nat) == self.values@.len(),
                self.values@.len() <= usize::MAX,
                out@.len() == c,
                forall|k: int| 0 <= k < c ==> out@[k] == self.values@[i * self.width + k],
            decreases self.width - c,
        {
            proof {
                lemma_row_index(
                    i as int,
                    c as int,
                    self.width as int,
                    self.spec_height() as int,
                    self.values@.len() as int,
                );
            }
            out.push(self.values[i * self.width + c]);
            c = c + 1;
        }
        out
    }

    /// The dot product of every column with `b`.
    pub fn columnwise_dot_product(&self, b: &Vec<Mersenne31>) -> (r: Vec<Mersenne31>)
        requires
            self.wf(),
            b@.len() == self.spec_height(),
        ensures
            r@.len() == self.width,
            forall|c: int| 0 <= c < self.width ==> r@[c].val() == col_dot(
                self.vals(),
                self.width as nat,
                c as nat,
                seq_vals(b@),
                self.spec_height(),
            ),
    {
        proof {
            assert(self.spec_height() * (self.width as nat) == self.values@.len()) by {
                vstd::arithmetic::div_mod::lemma_fundamental_div_mod(
                    self.values@.len() as int,
                    self.width as int,
                );
            };
        }
        let _total = self.values.len();
        let h = self.height();
        let mut out: Vec<Mersenne31> = Vec::new();
        let mut c: usize = 0;
        while c < self.width
            invariant
                0 <= c <= self.width,
                self.wf(),
                b@.len() == self.spec_height(),
                h == self.spec_height(),
                self.spec_height() * (self.width as nat) == self.values@.len(),
                self.values@.len() <= usize::MAX,
                out@.len() == c,
                forall|k: int| 0 <= k < c ==> out@[k].val() == col_dot(
                    self.vals(),
                    self.width as nat,
                    k as nat,
                    seq_vals(b@),
                    self.spec_height(),
                ),
            decreases self.width - c,
        {
            let mut acc = Mersenne31::zero();
            let mut j: usize = 0;
            while j < h
                invariant
                    0 <= j <= h,
                    0 <= c < self.width,
                    self.wf(),
                    b@.len() == self.spec_height(),
                    h == self.spec_height(),
                    self.spec_height() * (self.width as nat) == self.values@.len(),
                    self.values@.len() <= usize::MAX,
                    out@.len() == c,
                    forall|k: int| 0 <= k < c ==> out@[k].val() == col_dot(
                        self.vals(),
                        self.width as nat,
                        k as nat,
                        seq_vals(b@),
                        self.spec_height(),
                    ),
                    acc.val() == col_dot(
                        self.vals(),
                        self.width as nat,
                        c as nat,
                        seq_vals(b@),
                        j as nat,
                    ),
                decreases h - j,
            {
                proof {
                    lemma_row_index(
                        j as int,
                        c as int,
                        self.width as int,
                        self.spec_height() as int,
                        self.values@.len() as int,
                    );
                }
                acc = acc.add(self.values[j * self.width + c].mul(b[j]));
                j = j + 1;
            }
            out.push(acc);
            c = c + 1;
        }
        out
    }
}

} // verus!
