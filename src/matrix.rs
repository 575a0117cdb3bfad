//! Dense row-major matrices. The entry type is a parameter, and a product
//! is computed with a multiply-accumulate step that the caller supplies, so
//! the same verified code serves any numeric representation.

use vstd::arithmetic::div_mod::lemma_fundamental_div_mod;
use vstd::prelude::*;

use crate::error::MatrixError;

verus! {

/// `0 <= i * cols + j < rows * cols` for every coordinate inside the shape.
pub proof fn lemma_flat_index(i: int, j: int, rows: int, cols: int)
    requires
        0 <= i < rows,
        0 <= j < cols,
    ensures
        0 <= i * cols + j < rows * cols,
        i * cols + cols <= rows * cols,
{
    lemma_row_span(i, rows, cols);
}

/// Entry `(i, j)` of a row-major buffer with `cols` columns.
pub open spec fn flat_entry<T>(s: Seq<T>, cols: int, i: int, j: int) -> T {
    s[i * cols + j]
}

/// Distinct coordinates inside a row width have distinct flat indices.
pub proof fn lemma_flat_index_injective(i1: int, j1: int, i2: int, j2: int, cols: int)
    requires
        0 <= j1 < cols,
        0 <= j2 < cols,
        i1 * cols + j1 == i2 * cols + j2,
    ensures
        i1 == i2,
        j1 == j2,
{
    if i1 < i2 {
        assert(i1 * cols + cols <= i2 * cols) by (nonlinear_arith)
            requires i1 + 1 <= i2, cols >= 0;
    } else if i2 < i1 {
        assert(i2 * cols + cols <= i1 * cols) by (nonlinear_arith)
            requires i2 + 1 <= i1, cols >= 0;
    }
}

/// Row `i` of a `rows × cols` buffer lies inside it.
pub proof fn lemma_row_span(i: int, rows: int, cols: int)
    requires
        0 <= i < rows,
        0 <= cols,
    ensures
        0 <= i * cols,
        i * cols + cols <= rows * cols,
{
    assert(0 <= i * cols) by (nonlinear_arith)
        requires 0 <= i, 0 <= cols;
    assert(i * cols + cols <= rows * cols) by (nonlinear_arith)
        requires i + 1 <= rows, 0 <= cols;
}

/// `(i + 1) * cols == i * cols + cols`.
pub proof fn lemma_next_row(i: int, cols: int)
    ensures
        (i + 1) * cols == i * cols + cols,
{
    assert((i + 1) * cols == i * cols + cols) by (nonlinear_arith);
}

/// The multiply-accumulate step `f(acc, x, y)` of a product can be called on
/// any arguments and gives one result for each of them.
pub open spec fn is_kernel<T, F: Fn(T, T, T) -> T>(f: F) -> bool {
    &&& forall|acc: T, x: T, y: T| #[trigger] call_requires(f, (acc, x, y))
    &&& forall|acc: T, x: T, y: T, r1: T, r2: T|
        #[trigger] call_ensures(f, (acc, x, y), r1) && #[trigger] call_ensures(f, (acc, x, y), r2)
            ==> r1 == r2
}

/// The value of the step `f(acc, x, y)`.
pub open spec fn step<T, F: Fn(T, T, T) -> T>(f: F, acc: T, x: T, y: T) -> T {
    choose|r: T| call_ensures(f, (acc, x, y), r)
}

/// A result of the step is its value.
pub proof fn lemma_step<T, F: Fn(T, T, T) -> T>(f: F, acc: T, x: T, y: T, r: T)
    requires
        is_kernel(f),
        call_ensures(f, (acc, x, y), r),
    ensures
        r == step(f, acc, x, y),
{
    let c = step(f, acc, x, y);
    assert(call_ensures(f, (acc, x, y), c));
}

/// `zero` followed by one step for each pair `(u[k], v[k])`, in increasing `k`.
pub open spec fn dot<T, F: Fn(T, T, T) -> T>(f: F, zero: T, u: Seq<T>, v: Seq<T>) -> T
    decreases u.len(),
{
    if u.len() == 0 {
        zero
    } else {
        step(f, dot(f, zero, u.drop_last(), v.drop_last()), u.last(), v.last())
    }
}

/// `m` has the shape of `a · b` and holds its entries, each accumulated from
/// `zero` with `f`.
pub open spec fn is_product<T, F: Fn(T, T, T) -> T>(m: Matrix<T>, a: Matrix<T>, b: Matrix<T>, zero: T, f: F) -> bool {
    &&& m.wf()
    &&& m.rows == a.rows
    &&& m.cols == b.cols
    &&& forall|i: int, j: int|
        0 <= i < m.rows && 0 <= j < m.cols ==> #[trigger] m.entry(i, j) == dot(
            f,
            zero,
            a.row_seq(i),
            b.col_seq(j),
        )
}

/// A dense matrix stored row by row: entry `(r, c)` sits at `r * cols + c`.
#[derive(Debug, Clone)]
pub struct Matrix<T> {
    pub data: Vec<T>,
    pub rows: usize,
    pub cols: usize,
}

impl<T> Matrix<T> {
    /// The buffer holds exactly `rows * cols` entries.
    pub open spec fn wf(&self) -> bool {
        self.data@.len() == self.rows * self.cols
    }

    pub open spec fn entry(&self, i: int, j: int) -> T {
        flat_entry(self.data@, self.cols as int, i, j)
    }

    /// Row `i` as a sequence of `cols` entries.
    pub open spec fn row_seq(&self, i: int) -> Seq<T> {
        Seq::new(self.cols as nat, |k: int| self.entry(i, k))
    }

    /// Column `j` as a sequence of `rows` entries.
    pub open spec fn col_seq(&self, j: int) -> Seq<T> {
        Seq::new(self.rows as nat, |k: int| self.entry(k, j))
    }

    pub open spec fn in_bounds(&self, i: int, j: int) -> bool {
        0 <= i < self.rows && 0 <= j < self.cols
    }
}

impl<T: Copy + Default> Matrix<T> {
    /// A `rows × cols` matrix whose entries all hold the element type's
    /// default value (zero for numbers).
    pub fn new(rows: usize, cols: usize) -> (r: Self)
        requires
            rows * cols <= usize::MAX,
        ensures
            r.wf(),
            r.rows == rows,
            r.cols == cols,
            forall|k: int| 0 <= k < r.data@.len() ==> call_ensures(T::default, (), #[trigger] r.data@[k]),
    {
        let zero = T::default();
        Self::filled(rows, cols, zero)
    }
}

impl<T: Copy> Matrix<T> {
    /// A `rows × cols` matrix whose every entry is `value`.
    pub fn filled(rows: usize, cols: usize, value: T) -> (r: Self)
        requires
            rows * cols <= usize::MAX,
        ensures
            r.wf(),
            r.rows == rows,
            r.cols == cols,
            forall|k: int| 0 <= k < r.data@.len() ==> r.data@[k] == value,
    {
        let n: usize = rows * cols;
        let mut data: Vec<T> = Vec::with_capacity(n);
        let mut k: usize = 0;
        while k < n
            invariant
                k <= n,
                data@.len() == k,
                forall|m: int| 0 <= m < k ==> data@[m] == value,
            decreases n - k,
        {
            data.push(value);
            k += 1;
        }
        Matrix { data, rows, cols }
    }

    /// Wraps a row-major buffer; fails unless it holds `rows * cols` entries.
    pub fn from_vec(data: Vec<T>, rows: usize, cols: usize) -> (r: Result<Self, MatrixError>)
        ensures
            data@.len() == rows * cols <==> r is Ok,
            r is Err ==> r == Err::<Self, MatrixError>(MatrixError::InconsistentShape),
            r matches Ok(m) ==> m.data@ == data@ && m.rows == rows && m.cols == cols && m.wf(),
    {
        let len = data.len();
        match rows.checked_mul(cols) {
            Some(n) if n == len => Ok(Matrix { data, rows, cols }),
            _ => Err(MatrixError::InconsistentShape),
        }
    }

    /// The entry at an in-bounds coordinate.
    pub(crate) fn at(&self, row: usize, col: usize) -> (v: T)
        requires
            self.wf(),
            self.in_bounds(row as int, col as int),
        ensures
            v == self.entry(row as int, col as int),
    {
        proof {
            lemma_flat_index(row as int, col as int, self.rows as int, self.cols as int);
        }
        proof {
            assert(self.data@.len() == self.data.len());
        }
        self.data[row * self.cols + col]
    }

    /// The entry at `(row, col)`.
    pub fn get(&self, row: usize, col: usize) -> (r: Result<T, MatrixError>)
        requires
            self.wf(),
        ensures
            self.in_bounds(row as int, col as int) <==> r is Ok,
            r is Err ==> r == Err::<T, MatrixError>(MatrixError::IndexOutOfBounds),
            r matches Ok(v) ==> v == self.entry(row as int, col as int),
    {
        if row >= self.rows || col >= self.cols {
            return Err(MatrixError::IndexOutOfBounds);
        }
        Ok(self.at(row, col))
    }

    /// Overwrites the entry at `(row, col)`.
    pub fn set(&mut self, row: usize, col: usize, value: T) -> (r: Result<(), MatrixError>)
        requires
            old(self).wf(),
        ensures
            final(self).rows == old(self).rows,
            final(self).cols == old(self).cols,
            final(self).wf(),
            old(self).in_bounds(row as int, col as int) <==> r is Ok,
            r is Err ==> r == Err::<(), MatrixError>(MatrixError::IndexOutOfBounds)
                && final(self).data@ == old(self).data@,
            r is Ok ==> final(self).data@ == old(self).data@.update(
                row * old(self).cols + col,
                value,
            ),
            r is Ok ==> forall|i: int, j: int|
                old(self).in_bounds(i, j) ==> #[trigger] final(self).entry(i, j) == if i == row && j == col {
                    value
                } else {
                    old(self).entry(i, j)
                },
    {
        if row >= self.rows || col >= self.cols {
            return Err(MatrixError::IndexOutOfBounds);
        }
        proof {
            lemma_flat_index(row as int, col as int, self.rows as int, self.cols as int);
        }
        proof {
            assert(self.data@.len() == self.data.len());
        }
        let idx = row * self.cols + col;
        self.data[idx] = value;
        proof {
            assert forall|i: int, j: int| old(self).in_bounds(i, j) implies #[trigger] self.entry(i, j) == if i == row && j == col {
                value
            } else {
                old(self).entry(i, j)
            } by {
                lemma_flat_index(i, j, self.rows as int, self.cols as int);
                if i * self.cols + j == idx {
                    lemma_flat_index_injective(i, j, row as int, col as int, self.cols as int);
                }
            }
        }
        Ok(())
    }

    /// The `nr × nc` block whose top-left corner is `(r0, c0)`, copied.
    fn block(&self, r0: usize, nr: usize, c0: usize, nc: usize) -> (m: Matrix<T>)
        requires
            self.wf(),
            r0 + nr <= self.rows,
            c0 + nc <= self.cols,
        ensures
            m.wf(),
            m.rows == nr,
            m.cols == nc,
            forall|i: int, j: int|
                0 <= i < nr && 0 <= j < nc ==> #[trigger] m.entry(i, j) == self.entry(
                    r0 + i,
                    c0 + j,
                ),
    {
        let mut data: Vec<T> = Vec::new();
        let mut i: usize = 0;
        while i < nr
            invariant
                self.wf(),
                r0 + nr <= self.rows,
                c0 + nc <= self.cols,
                i <= nr,
                data@.len() == i * nc,
                forall|ii: int, jj: int|
                    0 <= ii < i && 0 <= jj < nc ==> #[trigger] flat_entry(data@, nc as int, ii, jj)
                        == self.entry(r0 + ii, c0 + jj),
            decreases nr - i,
        {
            let mut j: usize = 0;
            while j < nc
                invariant
                    self.wf(),
                    r0 + nr <= self.rows,
                    c0 + nc <= self.cols,
                    i < nr,
                    j <= nc,
                    data@.len() == i * nc + j,
                    forall|ii: int, jj: int|
                        0 <= ii < i && 0 <= jj < nc ==> #[trigger] flat_entry(
                            data@,
                            nc as int,
                            ii,
                            jj,
                        ) == self.entry(r0 + ii, c0 + jj),
                    forall|jj: int|
                        0 <= jj < j ==> #[trigger] flat_entry(data@, nc as int, i as int, jj)
                            == self.entry(r0 + i, c0 + jj),
                decreases nc - j,
            {
                let v = self.at(r0 + i, c0 + j);
                let ghost prev = data@;
                data.push(v);
                proof {
                    assert forall|ii: int, jj: int| 0 <= ii < i && 0 <= jj < nc implies #[trigger] flat_entry(
                        data@,
                        nc as int,
                        ii,
                        jj,
                    ) == self.entry(r0 + ii, c0 + jj) by {
                        lemma_flat_index(ii, jj, i as int, nc as int);
                        assert(flat_entry(data@, nc as int, ii, jj) == flat_entry(prev, nc as int, ii, jj));
                    }
                    assert forall|jj: int| 0 <= jj < j + 1 implies #[trigger] flat_entry(
                        data@,
                        nc as int,
                        i as int,
                        jj,
                    ) == self.entry(r0 + i, c0 + jj) by {
                        if jj < j {
                            assert(flat_entry(data@, nc as int, i as int, jj) == flat_entry(prev, nc as int, i as int, jj));
                        }
                    }
                }
                j += 1;
            }
            proof {
                lemma_next_row(i as int, nc as int);
                assert forall|ii: int, jj: int| 0 <= ii < i + 1 && 0 <= jj < nc implies #[trigger] flat_entry(
                    data@,
                    nc as int,
                    ii,
                    jj,
                ) == self.entry(r0 + ii, c0 + jj) by {
                    if ii == i {
                    }
                }
            }
            i += 1;
        }
        Matrix { data, rows: nr, cols: nc }
    }

    /// Row `row`, read in place.
    pub fn get_row(&self, row: usize) -> (r: Result<&[T], MatrixError>)
        requires
            self.wf(),
        ensures
            row < self.rows <==> r is Ok,
            r is Err ==> r == Err::<&[T], MatrixError>(MatrixError::IndexOutOfBounds),
            r matches Ok(s) ==> s@ == self.row_seq(row as int),
    {
        if row >= self.rows {
            return Err(MatrixError::IndexOutOfBounds);
        }
        proof {
            lemma_row_span(row as int, self.rows as int, self.cols as int);
        }
        proof {
            assert(self.data@.len() == self.data.len());
        }
        let start = row * self.cols;
        let end = start + self.cols;
        let s = self.data.as_slice();
        let r = &s[start..end];
        assert(r@ =~= self.row_seq(row as int));
        Ok(r)
    }

    /// Column `col`, copied top to bottom.
    pub fn get_col(&self, col: usize) -> (r: Result<Vec<T>, MatrixError>)
        requires
            self.wf(),
        ensures
            col < self.cols <==> r is Ok,
            r is Err ==> r == Err::<Vec<T>, MatrixError>(MatrixError::IndexOutOfBounds),
            r matches Ok(v) ==> v@ == self.col_seq(col as int),
    {
        if col >= self.cols {
            return Err(MatrixError::IndexOutOfBounds);
        }
        let mut v: Vec<T> = Vec::new();
        let mut k: usize = 0;
        while k < self.rows
            invariant
                self.wf(),
                col < self.cols,
                k <= self.rows,
                v@ =~= self.col_seq(col as int).take(k as int),
            decreases self.rows - k,
        {
            let x = self.at(k, col);
            v.push(x);
            k += 1;
            assert(v@ =~= self.col_seq(col as int).take(k as int));
        }
        assert(v@ =~= self.col_seq(col as int));
        Ok(v)
    }

    /// Rows `start_row .. start_row + num_rows`, copied.
    pub fn get_row_chunk(&self, start_row: usize, num_rows: usize) -> (r: Result<Matrix<T>, MatrixError>)
        requires
            self.wf(),
        ensures
            start_row + num_rows <= self.rows <==> r is Ok,
            r is Err ==> r == Err::<Matrix<T>, MatrixError>(MatrixError::IndexOutOfBounds),
            r matches Ok(m) ==> {
                &&& m.wf()
                &&& m.rows == num_rows
                &&& m.cols == self.cols
                &&& forall|i: int, j: int|
                    0 <= i < num_rows && 0 <= j < self.cols ==> #[trigger] m.entry(i, j)
                        == self.entry(start_row + i, j)
            },
    {
        if start_row > self.rows || num_rows > self.rows - start_row {
            return Err(MatrixError::IndexOutOfBounds);
        }
        Ok(self.block(start_row, num_rows, 0, self.cols))
    }

    /// Columns `start_col .. start_col + num_cols` of every row, copied.
    pub fn get_col_chunk(&self, start_col: usize, num_cols: usize) -> (r: Result<Matrix<T>, MatrixError>)
        requires
            self.wf(),
        ensures
            start_col + num_cols <= self.cols <==> r is Ok,
            r is Err ==> r == Err::<Matrix<T>, MatrixError>(MatrixError::IndexOutOfBounds),
            r matches Ok(m) ==> {
                &&& m.wf()
                &&& m.rows == self.rows
                &&& m.cols == num_cols
                &&& forall|i: int, j: int|
                    0 <= i < self.rows && 0 <= j < num_cols ==> #[trigger] m.entry(i, j)
                        == self.entry(i, start_col + j)
            },
    {
        if start_col > self.cols || num_cols > self.cols - start_col {
            return Err(MatrixError::IndexOutOfBounds);
        }
        Ok(self.block(0, self.rows, start_col, num_cols))
    }

    /// `zero` accumulated with `mul_add` over row `i` of `self` and column `j`
    /// of `other`.
    fn dot_at<F: Fn(T, T, T) -> T>(&self, other: &Matrix<T>, i: usize, j: usize, zero: T, mul_add: &F) -> (r: T)
        requires
            self.wf(),
            other.wf(),
            self.cols == other.rows,
            i < self.rows,
            j < other.cols,
            is_kernel(*mul_add),
        ensures
            r == dot(*mul_add, zero, self.row_seq(i as int), other.col_seq(j as int)),
    {
        let ghost u = self.row_seq(i as int);
        let ghost v = other.col_seq(j as int);
        let mut acc = zero;
        let mut k: usize = 0;
        while k < self.cols
            invariant
                self.wf(),
                other.wf(),
                self.cols == other.rows,
                i < self.rows,
                j < other.cols,
                is_kernel(*mul_add),
                u == self.row_seq(i as int),
                v == other.col_seq(j as int),
                k <= self.cols,
                acc == dot(*mul_add, zero, u.take(k as int), v.take(k as int)),
            decreases self.cols - k,
        {
            let x = self.at(i, k);
            let y = other.at(k, j);
            let next = mul_add(acc, x, y);
            proof {
                lemma_step(*mul_add, acc, x, y, next);
                let (u1, v1) = (u.take(k + 1), v.take(k + 1));
                assert(u1.drop_last() =~= u.take(k as int));
                assert(v1.drop_last() =~= v.take(k as int));
            }
            acc = next;
            k += 1;
        }
        assert(u.take(self.cols as int) =~= u);
        assert(v.take(self.cols as int) =~= v);
        acc
    }

    /// The product `self · other`: entry `(i, j)` is `zero` accumulated with
    /// `mul_add(acc, self[i][k], other[k][j])` for `k` from `0` upwards.
    pub fn multiply<F: Fn(T, T, T) -> T>(&self, other: &Matrix<T>, zero: T, mul_add: &F) -> (r: Result<Matrix<T>, MatrixError>)
        requires
            self.wf(),
            other.wf(),
            is_kernel(*mul_add),
        ensures
            self.cols == other.rows <==> r is Ok,
            r is Err ==> r == Err::<Matrix<T>, MatrixError>(MatrixError::DimensionMismatch),
            r matches Ok(m) ==> is_product(m, *self, *other, zero, *mul_add),
    {
        if self.cols != other.rows {
            return Err(MatrixError::DimensionMismatch);
        }
        let nr = self.rows;
        let nc = other.cols;
        let mut data: Vec<T> = Vec::new();
        let mut i: usize = 0;
        while i < nr
            invariant
                self.wf(),
                other.wf(),
                self.cols == other.rows,
                is_kernel(*mul_add),
                nr == self.rows,
                nc == other.cols,
                i <= nr,
                data@.len() == i * nc,
                forall|ii: int, jj: int|
                    0 <= ii < i && 0 <= jj < nc ==> #[trigger] flat_entry(data@, nc as int, ii, jj)
                        == dot(*mul_add, zero, self.row_seq(ii), other.col_seq(jj)),
            decreases nr - i,
        {
            let mut j: usize = 0;
            while j < nc
                invariant
                    self.wf(),
                    other.wf(),
                    self.cols == other.rows,
                    is_kernel(*mul_add),
                    nr == self.rows,
                    nc == other.cols,
                    i < nr,
                    j <= nc,
                    data@.len() == i * nc + j,
                    forall|ii: int, jj: int|
                        0 <= ii < i && 0 <= jj < nc ==> #[trigger] flat_entry(
                            data@,
                            nc as int,
                            ii,
                            jj,
                        ) == dot(*mul_add, zero, self.row_seq(ii), other.col_seq(jj)),
                    forall|jj: int|
                        0 <= jj < j ==> #[trigger] flat_entry(data@, nc as int, i as int, jj)
                            == dot(*mul_add, zero, self.row_seq(i as int), other.col_seq(jj)),
                decreases nc - j,
            {
                let v = self.dot_at(other, i, j, zero, mul_add);
                let ghost prev = data@;
                data.push(v);
                proof {
                    assert forall|ii: int, jj: int| 0 <= ii < i && 0 <= jj < nc implies #[trigger] flat_entry(
                        data@,
                        nc as int,
                        ii,
                        jj,
                    ) == dot(*mul_add, zero, self.row_seq(ii), other.col_seq(jj)) by {
                        lemma_flat_index(ii, jj, i as int, nc as int);
                        assert(flat_entry(data@, nc as int, ii, jj) == flat_entry(prev, nc as int, ii, jj));
                    }
                    assert forall|jj: int| 0 <= jj < j + 1 implies #[trigger] flat_entry(
                        data@,
                        nc as int,
                        i as int,
                        jj,
                    ) == dot(*mul_add, zero, self.row_seq(i as int), other.col_seq(jj)) by {
                        if jj < j {
                            assert(flat_entry(data@, nc as int, i as int, jj) == flat_entry(prev, nc as int, i as int, jj));
                        }
                    }
                }
                j += 1;
            }
            proof {
                lemma_next_row(i as int, nc as int);
                assert forall|ii: int, jj: int| 0 <= ii < i + 1 && 0 <= jj < nc implies #[trigger] flat_entry(
                    data@,
                    nc as int,
                    ii,
                    jj,
                ) == dot(*mul_add, zero, self.row_seq(ii), other.col_seq(jj)) by {
                    if ii == i {
                    }
                }
            }
            i += 1;
        }
        Ok(Matrix { data, rows: nr, cols: nc })
    }

    /// The product of a band of rows and a block of columns; the same
    /// computation as [`Matrix::multiply`].
    pub fn multiply_chunks<F: Fn(T, T, T) -> T>(
        row_chunk: &Matrix<T>,
        col_chunk: &Matrix<T>,
        zero: T,
        mul_add: &F,
    ) -> (r: Result<Matrix<T>, MatrixError>)
        requires
            row_chunk.wf(),
            col_chunk.wf(),
            is_kernel(*mul_add),
        ensures
            row_chunk.cols == col_chunk.rows <==> r is Ok,
            r is Err ==> r == Err::<Matrix<T>, MatrixError>(MatrixError::DimensionMismatch),
            r matches Ok(m) ==> is_product(m, *row_chunk, *col_chunk, zero, *mul_add),
    {
        row_chunk.multiply(col_chunk, zero, mul_add)
    }
}

/// Two well-formed matrices of one shape with the same entries hold the
/// same buffer.
pub proof fn lemma_same_entries<T>(p: Matrix<T>, q: Matrix<T>)
    requires
        p.wf(),
        q.wf(),
        p.rows == q.rows,
        p.cols == q.cols,
        forall|i: int, j: int| p.in_bounds(i, j) ==> #[trigger] p.entry(i, j) == q.entry(i, j),
    ensures
        p.data@ == q.data@,
{
    assert forall|k: int| 0 <= k < p.data@.len() implies p.data@[k] == q.data@[k] by {
        let c = p.cols as int;
        if c > 0 {
            lemma_fundamental_div_mod(k, c);
            let i = k / c;
            let j = k % c;
            assert(i * c == c * i) by (nonlinear_arith);
            assert(0 <= i) by (nonlinear_arith)
                requires k == c * i + j, 0 <= j < c, k >= 0;
            assert(i < p.rows) by (nonlinear_arith)
                requires k == c * i + j, 0 <= j < c, k < p.rows * c, c > 0;
            assert(p.entry(i, j) == q.entry(i, j));
        } else {
            assert(p.rows * c == 0) by (nonlinear_arith)
                requires c == 0;
        }
    }
    assert(p.data@ =~= q.data@);
}

/// `id` is the `n × n` identity matrix written with `zero` and `one`.
pub open spec fn is_identity<T>(id: Matrix<T>, n: int, zero: T, one: T) -> bool {
    &&& id.wf()
    &&& id.rows == n
    &&& id.cols == n
    &&& forall|i: int, j: int|
        0 <= i < n && 0 <= j < n ==> #[trigger] id.entry(i, j) == if i == j {
            one
        } else {
            zero
        }
}

/// Accumulating against a unit vector that has `one` at position `j` picks
/// entry `j`, once the prefix reaches past it.
proof fn lemma_dot_unit<T, F: Fn(T, T, T) -> T>(f: F, zero: T, one: T, u: Seq<T>, v: Seq<T>, j: int, k: int)
    requires
        forall|acc: T, x: T| #[trigger] step(f, acc, x, zero) == acc,
        forall|x: T| #[trigger] step(f, zero, x, one) == x,
        u.len() == v.len(),
        0 <= j < v.len(),
        forall|t: int| 0 <= t < v.len() ==> #[trigger] v[t] == if t == j {
            one
        } else {
            zero
        },
        0 <= k <= u.len(),
    ensures
        dot(f, zero, u.take(k), v.take(k)) == if k > j {
            u[j]
        } else {
            zero
        },
    decreases k,
{
    if k > 0 {
        lemma_dot_unit(f, zero, one, u, v, j, k - 1);
        assert(u.take(k).drop_last() =~= u.take(k - 1));
        assert(v.take(k).drop_last() =~= v.take(k - 1));
        assert(v.take(k).last() == v[k - 1]);
    }
}

/// Identity law: for a square `m` and the identity of its size, `m · id`
/// holds the buffer of `m`, for a step that leaves the accumulator alone
/// when multiplying by `zero` and gives `x` for `zero + x · one`.
pub proof fn lemma_identity_law<T, F: Fn(T, T, T) -> T>(m: Matrix<T>, id: Matrix<T>, p: Matrix<T>, zero: T, one: T, f: F)
    requires
        m.wf(),
        m.rows == m.cols,
        is_identity(id, m.rows as int, zero, one),
        forall|acc: T, x: T| #[trigger] step(f, acc, x, zero) == acc,
        forall|x: T| #[trigger] step(f, zero, x, one) == x,
        is_product(p, m, id, zero, f),
    ensures
        p.rows == m.rows,
        p.cols == m.cols,
        p.data@ == m.data@,
{
    assert forall|i: int, j: int| p.in_bounds(i, j) implies #[trigger] p.entry(i, j) == m.entry(i, j) by {
        let u = m.row_seq(i);
        let v = id.col_seq(j);
        lemma_dot_unit(f, zero, one, u, v, j, u.len() as int);
        assert(u.take(u.len() as int) =~= u);
        assert(v.take(v.len() as int) =~= v);
    }
    lemma_same_entries(p, m);
}

} // verus!
