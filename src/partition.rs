//! The row partition: contiguous bands of `ceil(rows / workers)` rows,
//! given to the workers in rank order.

use vstd::arithmetic::div_mod::lemma_fundamental_div_mod;
use vstd::prelude::*;

verus! {

/// The region of the global result that one worker computes: rows
/// `row_start .. row_end` and columns `col_start .. col_end`, both half open.
#[derive(Debug, Clone, Copy, PartialEq, Eq, Structural)]
pub struct WorkAssignment {
    pub row_start: usize,
    pub row_end: usize,
    pub col_start: usize,
    pub col_end: usize,
}

impl WorkAssignment {
    /// An empty region, or one that is empty in either direction, means
    /// that the worker has nothing to do.
    pub open spec fn has_work_spec(&self) -> bool {
        self.row_start < self.row_end && self.col_start < self.col_end
    }

    /// The assignment `(0, 0, 0, 0)`, sent to workers left without rows.
    pub fn idle() -> (r: Self)
        ensures
            r == idle_assignment(),
    {
        WorkAssignment { row_start: 0, row_end: 0, col_start: 0, col_end: 0 }
    }

    pub fn has_work(&self) -> (r: bool)
        ensures
            r == self.has_work_spec(),
    {
        self.row_start < self.row_end && self.col_start < self.col_end
    }
}

pub open spec fn idle_assignment() -> WorkAssignment {
    WorkAssignment { row_start: 0, row_end: 0, col_start: 0, col_end: 0 }
}

/// `ceil(rows / workers)`: the height of every band but possibly the last.
pub open spec fn band_height(rows: int, workers: int) -> int {
    rows / workers + if rows % workers == 0 { 0int } else { 1int }
}

/// Bands are at least one row high when there are rows, and `workers` of
/// them reach past the last row.
pub proof fn lemma_band_height(rows: int, workers: int)
    requires
        rows >= 0,
        workers >= 1,
    ensures
        band_height(rows, workers) >= 0,
        rows >= 1 ==> band_height(rows, workers) >= 1,
        workers * band_height(rows, workers) >= rows,
        rows <= workers ==> band_height(rows, workers) <= 1,
{
    let q = rows / workers;
    let r = rows % workers;
    lemma_fundamental_div_mod(rows, workers);
    assert(0 <= r < workers);
    assert(q >= 0) by (nonlinear_arith)
        requires rows == workers * q + r, workers >= 1, 0 <= r < workers, rows >= 0;
    let h = band_height(rows, workers);
    if r == 0 {
        assert(workers * h == rows);
        if rows >= 1 {
            assert(q >= 1) by (nonlinear_arith)
                requires rows == workers * q, rows >= 1, workers >= 1, q >= 0;
        }
        if rows <= workers {
            assert(q <= 1) by (nonlinear_arith)
                requires rows == workers * q, rows <= workers, workers >= 1;
        }
    } else {
        assert(h == q + 1);
        assert(workers * h == workers * q + workers) by (nonlinear_arith)
            requires h == q + 1;
        if rows <= workers {
            assert(q == 0) by (nonlinear_arith)
                requires rows == workers * q + r, rows <= workers, 0 < r, q >= 0, workers >= 1;
        }
    }
}

/// Row `i` lies in the band of the worker at position `i / h`.
pub proof fn lemma_band_of_row(rows: int, workers: int, i: int)
    requires
        0 <= i < rows,
        workers >= 1,
    ensures
        0 <= i / band_height(rows, workers) < workers,
        (i / band_height(rows, workers)) * band_height(rows, workers) <= i,
        i < (i / band_height(rows, workers)) * band_height(rows, workers) + band_height(rows, workers),
{
    lemma_band_height(rows, workers);
    let h = band_height(rows, workers);
    let k = i / h;
    lemma_fundamental_div_mod(i, h);
    assert(0 <= i % h < h);
    assert(k * h == h * k) by (nonlinear_arith);
    assert(k >= 0) by (nonlinear_arith)
        requires i == h * k + i % h, h >= 1, 0 <= i % h < h, i >= 0;
    assert(k < workers) by (nonlinear_arith)
        requires i == h * k + i % h, h >= 1, 0 <= i % h, i < rows, workers * h >= rows;
}

/// The assignment of the worker at position `k` (rank `k + 1`) when `rows`
/// rows of the left operand are split between `workers` workers and the
/// right operand has `cols` columns.
pub open spec fn assignment_spec(k: int, rows: int, cols: int, workers: int) -> WorkAssignment {
    let h = band_height(rows, workers);
    let start = k * h;
    if start >= rows {
        idle_assignment()
    } else {
        WorkAssignment {
            row_start: start as usize,
            row_end: (if start + h <= rows { start + h } else { rows }) as usize,
            col_start: 0,
            col_end: cols as usize,
        }
    }
}

/// The number of rows given to each worker but possibly the last:
/// `ceil(rows / worker_count)`.
pub fn rows_per_worker(rows: usize, worker_count: usize) -> (r: usize)
    requires
        worker_count >= 1,
    ensures
        r == band_height(rows as int, worker_count as int),
{
    let whole = rows / worker_count;
    if rows % worker_count == 0 {
        whole
    } else {
        proof {
            lemma_fundamental_div_mod(rows as int, worker_count as int);
            assert(whole < rows) by (nonlinear_arith)
                requires
                    rows == worker_count * whole + rows % worker_count,
                    worker_count >= 1,
                    whole >= 0,
                    rows % worker_count > 0;
        }
        whole + 1
    }
}

/// The assignment of the worker at position `worker_index` (rank
/// `worker_index + 1`): the band `[k·h, min(k·h + h, rows))` with `h` from
/// [`rows_per_worker`] and every column, or the idle assignment once the
/// band would start past the last row.
pub fn assignment_for(worker_index: usize, rows: usize, cols: usize, worker_count: usize) -> (r: WorkAssignment)
    requires
        worker_count >= 1,
    ensures
        r == assignment_spec(worker_index as int, rows as int, cols as int, worker_count as int),
{
    let h = rows_per_worker(rows, worker_count);
    match worker_index.checked_mul(h) {
        None => WorkAssignment::idle(),
        Some(start) => {
            if start >= rows {
                WorkAssignment::idle()
            } else {
                let end = if h <= rows - start { start + h } else { rows };
                WorkAssignment { row_start: start, row_end: end, col_start: 0, col_end: cols }
            }
        },
    }
}

} // verus!
