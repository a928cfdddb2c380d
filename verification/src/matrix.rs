//! Dense 2-D matrix of 32-bit signed integers, stored row-major.

use vstd::prelude::*;
use vstd::arithmetic::div_mod::{
    lemma_fundamental_div_mod, lemma_mod_multiples_vanish, lemma_small_mod,
};
use vstd::arithmetic::mul::lemma_mul_inequality;

verus! {

/// The value in `[-2^31, 2^31)` congruent to `n` modulo `2^32`: the result of
/// storing the mathematical integer `n` in a 32-bit two's-complement word.
pub open spec fn wrap_i32(n: int) -> int {
    let r = n % 0x1_0000_0000;
    if r >= 0x8000_0000 {
        r - 0x1_0000_0000
    } else {
        r
    }
}

/// `wrap_i32` is the identity on values that fit in an `i32`.
pub proof fn lemma_wrap_i32_in_range(n: int)
    requires
        i32::MIN <= n <= i32::MAX,
    ensures
        wrap_i32(n) == n,
{
    if n >= 0 {
        lemma_small_mod(n as nat, 0x1_0000_0000 as nat);
    } else {
        lemma_mod_multiples_vanish(1, n, 0x1_0000_0000);
        lemma_small_mod((n + 0x1_0000_0000) as nat, 0x1_0000_0000 as nat);
    }
}

/// Wrapping a sum is insensitive to wrapping one of its addends first.
pub proof fn lemma_wrap_i32_add(x: int, y: int)
    ensures
        wrap_i32(wrap_i32(x) + y) == wrap_i32(x + y),
{
    let m = 0x1_0000_0000 as int;
    lemma_fundamental_div_mod(x, m);
    // wrap_i32(x) == x - m * (x / m) - m * c for c in {0, 1}
    if x % m >= 0x8000_0000 {
        assert(wrap_i32(x) + y == m * (-(x / m) - 1) + (x + y)) by {
            assert(m * (-(x / m) - 1) == -(m * (x / m)) - m) by (nonlinear_arith);
        }
        lemma_mod_multiples_vanish(-(x / m) - 1, x + y, m);
    } else {
        assert(wrap_i32(x) + y == m * (-(x / m)) + (x + y)) by {
            assert(m * (-(x / m)) == -(m * (x / m))) by (nonlinear_arith);
        }
        lemma_mod_multiples_vanish(-(x / m), x + y, m);
    }
}

/// `i32::wrapping_add` computes `wrap_i32` of the exact sum.
pub proof fn lemma_wrapping_add_is_wrap(p: i32, q: i32)
    ensures
        vstd::wrapping::i32_specs::wrapping_add(p, q) == wrap_i32(p + q),
{
    if p + q > i32::MAX {
        lemma_small_mod((p + q) as nat, 0x1_0000_0000 as nat);
    } else if p + q < i32::MIN {
        lemma_mod_multiples_vanish(1, p + q, 0x1_0000_0000);
        lemma_small_mod((p + q + 0x1_0000_0000) as nat, 0x1_0000_0000 as nat);
    } else {
        lemma_wrap_i32_in_range(p + q);
    }
}

/// `i32::wrapping_mul` computes `wrap_i32` of the exact product.
pub proof fn lemma_wrapping_mul_is_wrap(p: i32, q: i32)
    ensures
        vstd::wrapping::i32_specs::wrapping_mul(p, q) == wrap_i32(p * q),
{
}

/// Errors of the matrix engine.
///
/// `Underflow`: a fill was asked to consume more values than its source holds.
/// `Range`: an element access lay outside the matrix shape.
/// `DimensionMismatch`: a multiplication was asked of shapes `(m, k)` and
/// `(k', n)` with `k != k'`.
#[derive(Clone, Copy, Debug, PartialEq, Eq, Structural)]
pub enum MatrixError {
    Underflow,
    Range,
    DimensionMismatch,
}

/// One row of a matrix, as a flat run of values.
#[derive(Debug)]
pub struct Row {
    values: Vec<i32>,
}

impl Row {
    /// The values of this row, in column order.
    pub closed spec fn view(self) -> Seq<i32> {
        self.values@
    }

    /// Number of entries in the row.
    pub fn len(&self) -> (n: usize)
        ensures
            n == self@.len(),
    {
        self.values.len()
    }

    /// The entry at column `j`; `Range` if `j` is out of range.
    pub fn get(&self, j: usize) -> (r: Result<i32, MatrixError>)
        ensures
            j < self@.len() ==> r == Ok::<i32, MatrixError>(self@[j as int]),
            j >= self@.len() ==> r == Err::<i32, MatrixError>(MatrixError::Range),
    {
        if j < self.values.len() {
            Ok(self.values[j])
        } else {
            Err(MatrixError::Range)
        }
    }
}

/// The mathematical content of a matrix: a shape and the row-major run of
/// its elements.
pub ghost struct MatSpec {
    pub rows: int,
    pub cols: int,
    pub data: Seq<i32>,
}

impl MatSpec {
    /// Shape invariant: the element count matches the declared shape, and
    /// both dimensions fit a 32-bit unsigned field.
    pub open spec fn wf(self) -> bool {
        &&& self.data.len() == self.rows * self.cols
        &&& 0 <= self.rows <= u32::MAX
        &&& 0 <= self.cols <= u32::MAX
    }

    /// The element at row `i`, column `j`, zero-based.
    pub open spec fn entry(self, i: int, j: int) -> int {
        self.data[i * self.cols + j] as int
    }
}

/// The exact dot product of the first `k` terms of row `i` of `a` and
/// column `j` of `b`: `Σ_{t < k} a[i][t] * b[t][j]` over the integers.
pub open spec fn dot(a: MatSpec, b: MatSpec, i: int, j: int, k: int) -> int
    decreases k,
{
    if k <= 0 {
        0
    } else {
        dot(a, b, i, j, k - 1) + a.entry(i, k - 1) * b.entry(k - 1, j)
    }
}

/// The product of two matrices of compatible shapes: entry `(i, j)` is the
/// dot product of row `i` of `a` and column `j` of `b`, stored as a 32-bit
/// two's-complement word.
pub open spec fn mat_mul(a: MatSpec, b: MatSpec) -> MatSpec {
    MatSpec {
        rows: a.rows,
        cols: b.cols,
        data: Seq::new(
            (a.rows * b.cols) as nat,
            |t: int| (wrap_i32(dot(a, b, t / b.cols, t % b.cols, a.cols)) as i32),
        ),
    }
}

/// Dense matrix: `rows * cols` values in row-major order.
pub struct Matrix {
    rows: u32,
    cols: u32,
    elems: Vec<i32>,
}

impl Matrix {
    /// Number of rows.
    pub closed spec fn spec_rows(self) -> int {
        self.rows as int
    }

    /// Number of columns.
    pub closed spec fn spec_cols(self) -> int {
        self.cols as int
    }

    /// The elements, row-major.
    pub closed spec fn view(self) -> Seq<i32> {
        self.elems@
    }

    /// Shape invariant: the element count matches the declared shape.
    pub open spec fn wf(self) -> bool {
        &&& self@.len() == self.spec_rows() * self.spec_cols()
        &&& 0 <= self.spec_rows() <= u32::MAX
        &&& 0 <= self.spec_cols() <= u32::MAX
    }

    /// The element at row `i`, column `j` (zero-based), as specification.
    pub open spec fn entry(self, i: int, j: int) -> int {
        self@[i * self.spec_cols() + j] as int
    }

    /// The mathematical content of this matrix.
    pub open spec fn abs(self) -> MatSpec {
        MatSpec { rows: self.spec_rows(), cols: self.spec_cols(), data: self@ }
    }

    /// A zero-filled matrix of the given shape.
    pub fn new(rows: u32, cols: u32) -> (m: Matrix)
        requires
            rows * cols <= usize::MAX,
        ensures
            m.wf(),
            m.spec_rows() == rows,
            m.spec_cols() == cols,
            forall|i: int, j: int|
                0 <= i < rows && 0 <= j < cols ==> m.entry(i, j) == 0,
    {
        let n: usize = (rows as usize) * (cols as usize);
        let elems: Vec<i32> = vec![0i32; n];
        let m = Matrix { rows, cols, elems };
        proof {
            assert forall|i: int, j: int|
                0 <= i < rows && 0 <= j < cols implies m.entry(i, j) == 0 by {
                lemma_row_major_index(rows as int, cols as int, i, j);
            }
        }
        m
    }

    /// The shape `(rows, cols)`.
    pub fn shape(&self) -> (s: (u32, u32))
        ensures
            s.0 == self.spec_rows(),
            s.1 == self.spec_cols(),
    {
        (self.rows, self.cols)
    }

    /// Overwrite the elements with exactly `rows * cols` values taken from
    /// `values`, starting at `start`, in row-major order. `Underflow` if
    /// fewer values are available; the matrix is then left unchanged.
    pub fn fill(&mut self, values: &Vec<i32>, start: usize) -> (r: Result<(), MatrixError>)
        requires
            old(self).wf(),
        ensures
            final(self).wf(),
            final(self).spec_rows() == old(self).spec_rows(),
            final(self).spec_cols() == old(self).spec_cols(),
            (if start + old(self).spec_rows() * old(self).spec_cols() <= values@.len() {
                r == Ok::<(), MatrixError>(()) && final(self)@ == values@.subrange(
                    start as int,
                    start + old(self).spec_rows() * old(self).spec_cols(),
                )
            } else {
                r == Err::<(), MatrixError>(MatrixError::Underflow) && final(self)@ == old(self)@
            }),
    {
        let need: usize = self.elems.len();
        if start > values.len() || values.len() - start < need {
            return Err(MatrixError::Underflow);
        }
        let mut fresh: Vec<i32> = Vec::new();
        let mut t: usize = 0;
        while t < need
            invariant
                t <= need,
                start + need <= values@.len(),
                values@.len() <= usize::MAX,
                need == self.elems.len(),
                fresh@ == values@.subrange(start as int, start + t),
            decreases need - t,
        {
            fresh.push(values[start + t]);
            proof {
                assert(fresh@ =~= values@.subrange(start as int, start + t + 1));
            }
            t = t + 1;
        }
        self.elems = fresh;
        Ok(())
    }

    /// The element at row `i`, column `j` (zero-based); `Range` if either
    /// index is outside the shape.
    pub fn get(&self, i: u32, j: u32) -> (r: Result<i32, MatrixError>)
        requires
            self.wf(),
        ensures
            (if i < self.spec_rows() && j < self.spec_cols() {
                r == Ok::<i32, MatrixError>(self@[i * self.spec_cols() + j])
            } else {
                r == Err::<i32, MatrixError>(MatrixError::Range)
            }),
    {
        if i < self.rows && j < self.cols {
            // the element count fits a usize, so an in-range index does too
            let _len: usize = self.elems.len();
            proof {
                lemma_row_major_index(self.spec_rows(), self.spec_cols(), i as int, j as int);
            }
            let idx: usize = (i as usize) * (self.cols as usize) + (j as usize);
            Ok(self.elems[idx])
        } else {
            Err(MatrixError::Range)
        }
    }

    /// Row `i` as a standalone run of values; `Range` if `i` is out of range.
    pub fn row(&self, i: u32) -> (r: Result<Row, MatrixError>)
        requires
            self.wf(),
        ensures
            (if i < self.spec_rows() {
                r is Ok && r->Ok_0@ == self@.subrange(
                    i * self.spec_cols(),
                    i * self.spec_cols() + self.spec_cols(),
                )
            } else {
                r == Err::<Row, MatrixError>(MatrixError::Range)
            }),
    {
        if i >= self.rows {
            return Err(MatrixError::Range);
        }
        // the element count fits a usize, so an in-range index does too
        let _len: usize = self.elems.len();
        let mut values: Vec<i32> = Vec::new();
        let mut j: u32 = 0;
        proof {
            lemma_mul_inequality(i as int + 1, self.spec_rows(), self.spec_cols());
            assert((i + 1) * self.spec_cols() == i * self.spec_cols() + self.spec_cols())
                by (nonlinear_arith);
        }
        while j < self.cols
            invariant
                j <= self.spec_cols(),
                i < self.spec_rows(),
                self.wf(),
                self@.len() <= usize::MAX,
                i * self.spec_cols() + self.spec_cols() <= self@.len(),
                values@ == self@.subrange(
                    i * self.spec_cols(),
                    i * self.spec_cols() + j,
                ),
            decreases self.spec_cols() - j,
        {
            let idx: usize = (i as usize) * (self.cols as usize) + (j as usize);
            values.push(self.elems[idx]);
            proof {
                assert(values@ =~= self@.subrange(
                    i * self.spec_cols(),
                    i * self.spec_cols() + j + 1,
                ));
            }
            j = j + 1;
        }
        Ok(Row { values })
    }

    /// The row-major flattening of all elements.
    pub fn to_sequence(&self) -> (r: Vec<i32>)
        ensures
            r@ == self@,
    {
        let mut out: Vec<i32> = Vec::new();
        let mut t: usize = 0;
        while t < self.elems.len()
            invariant
                t <= self.elems.len(),
                out@ == self@.subrange(0, t as int),
            decreases self.elems.len() - t,
        {
            out.push(self.elems[t]);
            proof {
                assert(out@ =~= self@.subrange(0, t + 1));
            }
            t = t + 1;
        }
        proof {
            assert(out@ =~= self@);
        }
        out
    }

    /// The product of `a` and `b`: `DimensionMismatch` exactly when the inner
    /// dimensions disagree, else the matrix of shape `(a.rows, b.cols)` whose
    /// entry `(i, j)` is the dot product of row `i` of `a` and column `j` of
    /// `b`, reduced into a 32-bit word by `wrap_i32`.
    pub fn multiply(a: &Matrix, b: &Matrix) -> (r: Result<Matrix, MatrixError>)
        requires
            a.wf(),
            b.wf(),
            a.spec_rows() * b.spec_cols() <= usize::MAX,
        ensures
            a.spec_cols() != b.spec_rows() ==> r == Err::<Matrix, MatrixError>(
                MatrixError::DimensionMismatch,
            ),
            a.spec_cols() == b.spec_rows() ==> r is Ok && (r->Ok_0).wf()
                && (r->Ok_0).spec_rows() == a.spec_rows()
                && (r->Ok_0).spec_cols() == b.spec_cols()
                && (forall|i: int, j: int|
                    0 <= i < a.spec_rows() && 0 <= j < b.spec_cols()
                        ==> (r->Ok_0).entry(i, j) == wrap_i32(
                            dot(a.abs(), b.abs(), i, j, a.spec_cols()),
                        ))
                && (r->Ok_0).abs() == mat_mul(a.abs(), b.abs()),
    {
        if a.cols != b.rows {
            return Err(MatrixError::DimensionMismatch);
        }
        let rows: u32 = a.rows;
        let cols: u32 = b.cols;
        let inner: u32 = a.cols;
        // both element counts fit a usize, so in-range indices do too
        let _alen: usize = a.elems.len();
        let _blen: usize = b.elems.len();
        let mut elems: Vec<i32> = Vec::new();
        let mut i: u32 = 0;
        while i < rows
            invariant
                i <= rows,
                a.wf(),
                b.wf(),
                rows == a.spec_rows(),
                cols == b.spec_cols(),
                inner == a.spec_cols() && inner == b.spec_rows(),
                rows * cols <= usize::MAX,
                a@.len() <= usize::MAX,
                b@.len() <= usize::MAX,
                elems@.len() == i * cols,
                forall|p: int, q: int|
                    0 <= p < i && 0 <= q < cols ==> elems@[p * cols + q] == wrap_i32(
                        dot(a.abs(), b.abs(), p, q, inner as int),
                    ),
            decreases rows - i,
        {
            proof {
                lemma_mul_inequality(i as int, rows as int, cols as int);
            }
            let mut j: u32 = 0;
            while j < cols
                invariant
                    i < rows,
                    j <= cols,
                    a.wf(),
                    b.wf(),
                    rows == a.spec_rows(),
                    cols == b.spec_cols(),
                    inner == a.spec_cols() && inner == b.spec_rows(),
                    rows * cols <= usize::MAX,
                    a@.len() <= usize::MAX,
                    b@.len() <= usize::MAX,
                    elems@.len() == i * cols + j,
                    i * cols + j <= rows * cols,
                    forall|p: int, q: int|
                        0 <= p < i && 0 <= q < cols ==> elems@[p * cols + q] == wrap_i32(
                            dot(a.abs(), b.abs(), p, q, inner as int),
                        ),
                    forall|q: int|
                        0 <= q < j ==> elems@[i * cols + q] == wrap_i32(
                            dot(a.abs(), b.abs(), i as int, q, inner as int),
                        ),
                decreases cols - j,
            {
                let mut acc: i32 = 0;
                let mut k: u32 = 0;
                proof {
                    lemma_small_mod(0 as nat, 0x1_0000_0000 as nat);
                }
                while k < inner
                    invariant
                        i < rows,
                        j < cols,
                        k <= inner,
                        a.wf(),
                        b.wf(),
                        rows == a.spec_rows(),
                        cols == b.spec_cols(),
                        inner == a.spec_cols() && inner == b.spec_rows(),
                        a@.len() <= usize::MAX,
                        b@.len() <= usize::MAX,
                        acc as int == wrap_i32(dot(a.abs(), b.abs(), i as int, j as int, k as int)),
                    decreases inner - k,
                {
                    proof {
                        lemma_row_major_index(a.spec_rows(), a.spec_cols(), i as int, k as int);
                        lemma_row_major_index(b.spec_rows(), b.spec_cols(), k as int, j as int);
                    }
                    let x: i32 = a.elems[(i as usize) * (a.cols as usize) + (k as usize)];
                    let y: i32 = b.elems[(k as usize) * (b.cols as usize) + (j as usize)];
                    let p: i32 = x.wrapping_mul(y);
                    proof {
                        let s = dot(a.abs(), b.abs(), i as int, j as int, k as int);
                        lemma_wrapping_mul_is_wrap(x, y);
                        lemma_wrapping_add_is_wrap(acc, p);
                        // acc + p collapses to the wrap of the extended sum
                        lemma_wrap_i32_add(s, p as int);
                        lemma_wrap_i32_add((x * y) as int, s);
                        assert(s + x * y == dot(a.abs(), b.abs(), i as int, j as int, k + 1));
                    }
                    acc = acc.wrapping_add(p);
                    k = k + 1;
                }
                proof {
                    lemma_row_major_index(rows as int, cols as int, i as int, j as int);
                }
                elems.push(acc);
                proof {
                    assert forall|p: int, q: int|
                        0 <= p < i && 0 <= q < cols implies elems@[p * cols + q] == wrap_i32(
                            dot(a.abs(), b.abs(), p, q, inner as int),
                        ) by {
                        assert((p + 1) * (cols as int) == p * cols + cols) by (nonlinear_arith);
                        lemma_mul_inequality(p + 1, i as int, cols as int);
                    }
                    assert(elems@[i * cols + j] == acc);
                }
                j = j + 1;
            }
            proof {
                assert((i + 1) * (cols as int) == i * cols + cols) by (nonlinear_arith);
            }
            i = i + 1;
        }
        let m = Matrix { rows, cols, elems };
        proof {
            assert(m.wf()) by (nonlinear_arith)
                requires
                    m.elems@.len() == (m.rows as int) * (m.cols as int),
                    m.rows <= u32::MAX,
                    m.cols <= u32::MAX,
            ;
            assert forall|i2: int, j2: int|
                0 <= i2 < a.spec_rows() && 0 <= j2 < b.spec_cols() implies m.entry(i2, j2)
                == wrap_i32(dot(a.abs(), b.abs(), i2, j2, a.spec_cols())) by {
                lemma_row_major_index(rows as int, cols as int, i2, j2);
            }
            let prod = mat_mul(a.abs(), b.abs());
            assert forall|t: int| 0 <= t < m.abs().data.len() implies m.abs().data[t]
                == prod.data[t] by {
                assert(cols > 0) by (nonlinear_arith)
                    requires
                        0 <= t < (rows as int) * (cols as int),
                        cols >= 0,
                ;
                let i2 = t / (cols as int);
                let j2 = t % (cols as int);
                lemma_fundamental_div_mod(t, cols as int);
                assert((rows as int) * (cols as int) == (cols as int) * (rows as int))
                    by (nonlinear_arith);
                vstd::arithmetic::div_mod::lemma_multiply_divide_lt(t, cols as int, rows as int);
                assert(i2 * (cols as int) == (cols as int) * i2) by (nonlinear_arith);
                assert(m.entry(i2, j2) == wrap_i32(dot(a.abs(), b.abs(), i2, j2, inner as int)));
            }
            assert(m.abs().data =~= prod.data);
        }
        Ok(m)
    }
}

/// Law: wherever the exact dot product `Σ_t A[i][t]·B[t][j]` fits in an
/// `i32`, the corresponding entry of the product matrix is exactly that sum,
/// since `multiply` ensures the entry equals `wrap_i32` of the sum.
pub proof fn lemma_multiply_entry_exact(a: MatSpec, b: MatSpec, i: int, j: int)
    requires
        i32::MIN <= dot(a, b, i, j, a.cols) <= i32::MAX,
    ensures
        wrap_i32(dot(a, b, i, j, a.cols)) == dot(a, b, i, j, a.cols),
{
    lemma_wrap_i32_in_range(dot(a, b, i, j, a.cols));
}

/// A row-major index `i * cols + j` is in range whenever `i` and `j` are.
pub proof fn lemma_row_major_index(rows: int, cols: int, i: int, j: int)
    requires
        0 <= i < rows,
        0 <= j < cols,
    ensures
        0 <= i * cols + j < rows * cols,
        i * cols + j < rows * cols,
{
    assert(0 <= i * cols + j < rows * cols) by (nonlinear_arith)
        requires
            0 <= i < rows,
            0 <= j < cols,
    ;
}

} // verus!
