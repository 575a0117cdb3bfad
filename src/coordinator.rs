//! The coordinator's decisions: validating the operands, planning what each
//! worker receives, and assembling the workers' results.

use vstd::prelude::*;

use crate::error::MatrixError;
use crate::matrix::{dot, is_product, Matrix};
use crate::partition::{
    assignment_for, assignment_spec, band_height, idle_assignment, lemma_band_height,
    lemma_band_of_row, WorkAssignment,
};

verus! {

/// The number of workers in a group of `group_size` processes: every rank
/// but the coordinator's.
pub open spec fn workers_in_group(group_size: int) -> int {
    if group_size > 1 {
        group_size - 1
    } else {
        0
    }
}

/// What the coordinator sends to one worker: the worker's rank, its
/// assignment and, when it has rows to compute, its band of the left operand.
/// A worker with a band also receives the whole right operand.
#[derive(Debug)]
pub struct Dispatch<T> {
    pub dest: usize,
    pub assignment: WorkAssignment,
    pub band: Option<Matrix<T>>,
}

/// `d` is what the worker at position `k` receives when `a · b` is split
/// between `workers` workers: its assignment and, when that starts inside
/// `a`, the rows of `a` that it covers.
pub open spec fn is_dispatch_for<T>(d: Dispatch<T>, k: int, a: Matrix<T>, b: Matrix<T>, workers: int) -> bool {
    let asg = assignment_spec(k, a.rows as int, b.cols as int, workers);
    &&& d.dest == k + 1
    &&& d.assignment == asg
    &&& (d.band is Some <==> k * band_height(a.rows as int, workers) < a.rows)
    &&& d.band matches Some(m) ==> {
        &&& m.wf()
        &&& m.rows == asg.row_end - asg.row_start
        &&& m.cols == a.cols
        &&& forall|i: int, j: int|
            0 <= i < m.rows && 0 <= j < m.cols ==> #[trigger] m.entry(i, j) == a.entry(
                asg.row_start + i,
                j,
            )
    }
}

/// `plan` sends every worker of the group, in rank order, its share of
/// `a · b`.
pub open spec fn is_plan<T>(plan: Seq<Dispatch<T>>, a: Matrix<T>, b: Matrix<T>, workers: int) -> bool {
    &&& plan.len() == workers
    &&& forall|k: int| 0 <= k < workers ==> is_dispatch_for(#[trigger] plan[k], k, a, b, workers)
}

/// Whether the result `res` of the part dispatched as `d` writes entry
/// `(i, j)` of the global result.
pub open spec fn writes<T>(d: Dispatch<T>, res: Option<Matrix<T>>, i: int, j: int) -> bool {
    res matches Some(c) && d.assignment.row_start <= i < d.assignment.row_start + c.rows && 0 <= j
        < c.cols
}

/// Entry `(i, j)` of `base` once `chunk` was copied over it with its top
/// row at `row_start`, as far as it fits.
pub open spec fn placed_entry<T>(base: Matrix<T>, row_start: int, chunk: Matrix<T>, i: int, j: int) -> T {
    if row_start <= i < row_start + chunk.rows && 0 <= j < chunk.cols {
        chunk.entry(i - row_start, j)
    } else {
        base.entry(i, j)
    }
}

/// Entry `(i, j)` of the global result once the first `n` results were
/// copied over it in rank order: the value of the last result that writes
/// it, or `None` when none does.
pub open spec fn collected<T>(plan: Seq<Dispatch<T>>, results: Seq<Option<Matrix<T>>>, n: int, i: int, j: int) -> Option<T>
    decreases n,
{
    if n <= 0 {
        None
    } else if writes(plan[n - 1], results[n - 1], i, j) {
        Some(results[n - 1]->Some_0.entry(i - plan[n - 1].assignment.row_start, j))
    } else {
        collected(plan, results, n - 1, i, j)
    }
}

/// Copies `chunk` into `result` with its top row at `row_start`; whatever
/// falls outside `result` is left out.
pub fn place_result<T: Copy>(result: &mut Matrix<T>, row_start: usize, chunk: &Matrix<T>)
    requires
        old(result).wf(),
        chunk.wf(),
    ensures
        final(result).wf(),
        final(result).rows == old(result).rows,
        final(result).cols == old(result).cols,
        forall|i: int, j: int|
            old(result).in_bounds(i, j) ==> #[trigger] final(result).entry(i, j) == placed_entry(
                *old(result),
                row_start as int,
                *chunk,
                i,
                j,
            ),
{
    if row_start >= result.rows {
        return;
    }
    let ghost base = *result;
    let ni = if chunk.rows <= result.rows - row_start { chunk.rows } else { result.rows - row_start };
    let nj = if chunk.cols <= result.cols { chunk.cols } else { result.cols };
    let mut i: usize = 0;
    while i < ni
        invariant
            result.wf(),
            chunk.wf(),
            result.rows == base.rows,
            result.cols == base.cols,
            row_start < result.rows,
            ni <= chunk.rows,
            ni <= result.rows - row_start,
            nj <= chunk.cols,
            nj <= result.cols,
            i <= ni,
            forall|a: int, b: int|
                base.in_bounds(a, b) ==> #[trigger] result.entry(a, b) == if row_start <= a < row_start + i
                    && b < nj {
                    chunk.entry(a - row_start, b)
                } else {
                    base.entry(a, b)
                },
        decreases ni - i,
    {
        let mut j: usize = 0;
        while j < nj
            invariant
                result.wf(),
                chunk.wf(),
                result.rows == base.rows,
                result.cols == base.cols,
                row_start < result.rows,
                ni <= chunk.rows,
                ni <= result.rows - row_start,
                nj <= chunk.cols,
                nj <= result.cols,
                i < ni,
                j <= nj,
                forall|a: int, b: int|
                    base.in_bounds(a, b) ==> #[trigger] result.entry(a, b) == if (row_start <= a
                        < row_start + i && b < nj) || (a == row_start + i && b < j) {
                        chunk.entry(a - row_start, b)
                    } else {
                        base.entry(a, b)
                    },
            decreases nj - j,
        {
            let v = chunk.at(i, j);
            let _ = result.set(row_start + i, j, v);
            j += 1;
        }
        i += 1;
    }
    proof {
        assert forall|a: int, b: int| base.in_bounds(a, b) implies #[trigger] result.entry(a, b) == placed_entry(
            base,
            row_start as int,
            *chunk,
            a,
            b,
        ) by {
            if row_start <= a < row_start + chunk.rows && 0 <= b < chunk.cols {
                assert(a < row_start + ni);
                assert(b < nj);
            }
        }
    }
}

/// The global `rows × cols` result: a matrix of default values over which
/// each present result is copied, in rank order, at the first row of its
/// part's assignment.
pub fn assemble<T: Copy + Default>(
    rows: usize,
    cols: usize,
    plan: &Vec<Dispatch<T>>,
    results: &Vec<Option<Matrix<T>>>,
) -> (r: Matrix<T>)
    requires
        rows * cols <= usize::MAX,
        results@.len() == plan@.len(),
        forall|k: int| 0 <= k < results@.len() ==> (#[trigger] results@[k] matches Some(c) ==> c.wf()),
    ensures
        r.wf(),
        r.rows == rows,
        r.cols == cols,
        forall|i: int, j: int|
            r.in_bounds(i, j) ==> match collected(plan@, results@, plan@.len() as int, i, j) {
                Some(v) => #[trigger] r.entry(i, j) == v,
                None => call_ensures(T::default, (), r.entry(i, j)),
            },
{
    let mut result: Matrix<T> = Matrix::new(rows, cols);
    proof {
        assert forall|i: int, j: int| result.in_bounds(i, j) implies call_ensures(T::default, (), #[trigger] result.entry(i, j)) by {
            crate::matrix::lemma_flat_index(i, j, rows as int, cols as int);
        }
    }
    let mut k: usize = 0;
    while k < plan.len()
        invariant
            results@.len() == plan@.len(),
            forall|m: int| 0 <= m < results@.len() ==> (#[trigger] results@[m] matches Some(c) ==> c.wf()),
            result.wf(),
            result.rows == rows,
            result.cols == cols,
            k <= plan@.len(),
            forall|i: int, j: int|
                result.in_bounds(i, j) ==> match collected(plan@, results@, k as int, i, j) {
                    Some(v) => #[trigger] result.entry(i, j) == v,
                    None => call_ensures(T::default, (), result.entry(i, j)),
                },
        decreases plan@.len() - k,
    {
        let ghost before = result;
        match &results[k] {
            Some(c) => {
                place_result(&mut result, plan[k].assignment.row_start, c);
            },
            None => {},
        }
        proof {
            assert forall|i: int, j: int| result.in_bounds(i, j) implies match collected(plan@, results@, k + 1, i, j) {
                Some(v) => #[trigger] result.entry(i, j) == v,
                None => call_ensures(T::default, (), result.entry(i, j)),
            } by {
                assert(before.in_bounds(i, j));
                assert(collected(plan@, results@, k + 1, i, j) == if writes(plan@[k as int], results@[k as int], i, j) {
                    Some(results@[k as int]->Some_0.entry(i - plan@[k as int].assignment.row_start, j))
                } else {
                    collected(plan@, results@, k as int, i, j)
                });
            }
        }
        k += 1;
    }
    result
}

/// The coordinator of a process group of fixed size: it validates the
/// operands, splits the rows of the left one into bands and assembles the
/// workers' results.
pub struct Coordinator {
    group_size: usize,
}

impl Coordinator {
    pub closed spec fn group_size_spec(&self) -> int {
        self.group_size as int
    }

    pub open spec fn workers(&self) -> int {
        workers_in_group(self.group_size_spec())
    }

    /// The coordinator of a group of `group_size` processes.
    pub fn new(group_size: usize) -> (r: Self)
        ensures
            r.group_size_spec() == group_size,
    {
        Coordinator { group_size }
    }

    /// Every rank but the coordinator's: `max(group_size - 1, 0)`.
    pub fn worker_count(&self) -> (r: usize)
        ensures
            r == self.workers(),
    {
        if self.group_size > 1 {
            self.group_size - 1
        } else {
            0
        }
    }

    /// Checks that `a · b` is defined and that the group has a worker, then
    /// splits the rows of `a` into bands: one dispatch per worker, in rank
    /// order.
    pub fn multiply_matrices<T: Copy>(&self, a: &Matrix<T>, b: &Matrix<T>) -> (r: Result<Vec<Dispatch<T>>, MatrixError>)
        requires
            a.wf(),
            b.wf(),
        ensures
            a.cols != b.rows ==> r == Err::<Vec<Dispatch<T>>, MatrixError>(MatrixError::DimensionMismatch),
            a.cols == b.rows && self.workers() == 0 ==> r == Err::<Vec<Dispatch<T>>, MatrixError>(
                MatrixError::NoWorkers,
            ),
            a.cols == b.rows && self.workers() > 0 ==> (r matches Ok(plan) && is_plan(
                plan@,
                *a,
                *b,
                self.workers(),
            )),
    {
        if a.cols != b.rows {
            return Err(MatrixError::DimensionMismatch);
        }
        let workers = self.worker_count();
        if workers == 0 {
            return Err(MatrixError::NoWorkers);
        }
        let mut plan: Vec<Dispatch<T>> = Vec::new();
        let mut k: usize = 0;
        while k < workers
            invariant
                a.wf(),
                b.wf(),
                a.cols == b.rows,
                workers == self.workers(),
                workers >= 1,
                k <= workers,
                plan@.len() == k,
                forall|m: int| 0 <= m < k ==> is_dispatch_for(#[trigger] plan@[m], m, *a, *b, workers as int),
            decreases workers - k,
        {
            let assignment = assignment_for(k, a.rows, b.cols, workers);
            let band = if assignment.row_start < assignment.row_end {
                match a.get_row_chunk(assignment.row_start, assignment.row_end - assignment.row_start) {
                    Ok(m) => Some(m),
                    Err(_) => None,
                }
            } else {
                None
            };
            proof {
                let hs = band_height(a.rows as int, workers as int);
                lemma_band_height(a.rows as int, workers as int);
                if k * hs < a.rows {
                    assert(band is Some);
                } else {
                    assert(band is None);
                }
            }
            plan.push(Dispatch { dest: k + 1, assignment, band });
            k += 1;
        }
        Ok(plan)
    }
}

/// Each worker returns the product of its band with `b`, and only workers
/// with a band return anything.
pub open spec fn band_results<T, F: Fn(T, T, T) -> T>(
    plan: Seq<Dispatch<T>>,
    results: Seq<Option<Matrix<T>>>,
    b: Matrix<T>,
    zero: T,
    f: F,
) -> bool {
    &&& results.len() == plan.len()
    &&& forall|k: int|
        0 <= k < plan.len() ==> (#[trigger] results[k] is Some <==> plan[k].band is Some)
    &&& forall|k: int|
        0 <= k < plan.len() ==> (#[trigger] results[k] matches Some(c) ==> is_product(
            c,
            plan[k].band->Some_0,
            b,
            zero,
            f,
        ))
}

/// The parts after the one that holds row `i` do not write that row.
proof fn lemma_collected_from<T, F: Fn(T, T, T) -> T>(
    a: Matrix<T>,
    b: Matrix<T>,
    workers: int,
    plan: Seq<Dispatch<T>>,
    results: Seq<Option<Matrix<T>>>,
    zero: T,
    f: F,
    n: int,
    k0: int,
    i: int,
    j: int,
)
    requires
        a.wf(),
        workers >= 1,
        is_plan(plan, a, b, workers),
        band_results(plan, results, b, zero, f),
        0 <= k0 < n <= workers,
        0 <= i < (k0 + 1) * band_height(a.rows as int, workers),
    ensures
        collected(plan, results, n, i, j) == collected(plan, results, k0 + 1, i, j),
    decreases n,
{
    if n > k0 + 1 {
        let k = n - 1;
        let h = band_height(a.rows as int, workers);
        lemma_band_height(a.rows as int, workers);
        assert(is_dispatch_for(plan[k], k, a, b, workers));
        if results[k] is Some {
            assert(plan[k].band is Some);
            assert(k * h >= (k0 + 1) * h) by (nonlinear_arith)
                requires k >= k0 + 1, h >= 0;
            assert(plan[k].assignment.row_start == k * h);
        }
        assert(!writes(plan[k], results[k], i, j));
        lemma_collected_from(a, b, workers, plan, results, zero, f, n - 1, k0, i, j);
    }
}

/// Partition consistency: when `a`'s rows are split between any number of
/// workers, each worker with a band returns that band times `b`, and the
/// results are assembled in rank order, every entry of the result is the
/// entry of `a · b`.
pub proof fn lemma_partition_consistency<T, F: Fn(T, T, T) -> T>(
    a: Matrix<T>,
    b: Matrix<T>,
    workers: int,
    plan: Seq<Dispatch<T>>,
    results: Seq<Option<Matrix<T>>>,
    zero: T,
    f: F,
)
    requires
        a.wf(),
        b.wf(),
        a.cols == b.rows,
        workers >= 1,
        is_plan(plan, a, b, workers),
        band_results(plan, results, b, zero, f),
    ensures
        forall|i: int, j: int|
            0 <= i < a.rows && 0 <= j < b.cols ==> #[trigger] collected(plan, results, workers, i, j)
                == Some(dot(f, zero, a.row_seq(i), b.col_seq(j))),
{
    assert forall|i: int, j: int| 0 <= i < a.rows && 0 <= j < b.cols implies #[trigger] collected(
        plan,
        results,
        workers,
        i,
        j,
    ) == Some(dot(f, zero, a.row_seq(i), b.col_seq(j))) by {
        let h = band_height(a.rows as int, workers);
        lemma_band_height(a.rows as int, workers);
        lemma_band_of_row(a.rows as int, workers, i);
        let k0 = i / h;
        assert((k0 + 1) * h == k0 * h + h) by (nonlinear_arith);
        lemma_collected_from(a, b, workers, plan, results, zero, f, workers, k0, i, j);
        assert(is_dispatch_for(plan[k0], k0, a, b, workers));
        let band = plan[k0].band->Some_0;
        let start = plan[k0].assignment.row_start as int;
        assert(start == k0 * h);
        let c = results[k0]->Some_0;
        assert(is_product(c, band, b, zero, f));
        assert(writes(plan[k0], results[k0], i, j));
        assert(band.row_seq(i - start) =~= a.row_seq(i)) by {
            assert forall|m: int| 0 <= m < a.cols implies band.row_seq(i - start)[m] == a.row_seq(i)[m] by {
                assert(band.entry(i - start, m) == a.entry(start + (i - start), m));
            }
        }
        assert(c.entry(i - start, j) == dot(f, zero, band.row_seq(i - start), b.col_seq(j)));
    }
}

/// With at least as many workers as rows, every worker from position `rows`
/// on receives the idle assignment and no band.
pub proof fn lemma_degenerate_partition(rows: int, cols: int, workers: int, k: int)
    requires
        0 <= rows <= workers,
        workers >= 1,
        rows <= k < workers,
    ensures
        k * band_height(rows, workers) >= rows,
        assignment_spec(k, rows, cols, workers) == idle_assignment(),
{
    lemma_band_height(rows, workers);
    let h = band_height(rows, workers);
    if rows >= 1 {
        assert(h == 1);
    }
    assert(k * h >= rows) by (nonlinear_arith)
        requires rows >= 1 ==> h == 1, k >= rows, rows >= 0, h >= 0, k >= 0;
}

/// The assembled product does not depend on the number of workers: two
/// splits of `a · b`, each assembled from its bands' products, agree on every
/// entry.
pub proof fn lemma_worker_count_irrelevant<T, F: Fn(T, T, T) -> T>(
    a: Matrix<T>,
    b: Matrix<T>,
    w1: int,
    plan1: Seq<Dispatch<T>>,
    results1: Seq<Option<Matrix<T>>>,
    w2: int,
    plan2: Seq<Dispatch<T>>,
    results2: Seq<Option<Matrix<T>>>,
    zero: T,
    f: F,
)
    requires
        a.wf(),
        b.wf(),
        a.cols == b.rows,
        w1 >= 1,
        w2 >= 1,
        is_plan(plan1, a, b, w1),
        band_results(plan1, results1, b, zero, f),
        is_plan(plan2, a, b, w2),
        band_results(plan2, results2, b, zero, f),
    ensures
        forall|i: int, j: int|
            0 <= i < a.rows && 0 <= j < b.cols ==> #[trigger] collected(plan1, results1, w1, i, j)
                == collected(plan2, results2, w2, i, j),
{
    lemma_partition_consistency(a, b, w1, plan1, results1, zero, f);
    lemma_partition_consistency(a, b, w2, plan2, results2, zero, f);
}

} // verus!
