use vstd::prelude::*;

verus! {

use crate::csc::{
    ds_post, lemma_col_ptr_monotone, spmv_post, Accum, ColMajorMat, CscMatrix, Par,
};
use crate::ring::crop;

/// The per-thread split of a matrix's non-zeros.
///
/// `thread_cols[t] ..= thread_cols[t + 1]` is the inclusive column range
/// thread `t` works on, and `thread_indptrs[t] .. thread_indptrs[t + 1]` is
/// the exact non-zero index range it owns; a boundary column's run of
/// non-zeros may be split between two adjacent threads at such an index.
pub struct SpMvStrategy {
    pub thread_cols: Vec<usize>,
    pub thread_indptrs: Vec<usize>,
}

/// The partition invariant: both arrays have `n_threads + 1` entries, the
/// index bounds climb strictly from `0` to `nnz` — so the per-thread index
/// ranges cover `[0, nnz)` exactly once, with no gap and no overlap — each
/// of the first `n_threads` bounds is exactly its multiple of the even
/// share `nnz / n_threads` (so every thread's share is within
/// `nnz % n_threads` of the even share, the last taking the remainder, and
/// the whole partition is a function of the inputs) — the column bounds
/// never decrease, run from column `0` to the last column, and every
/// interior bound names exactly the column whose non-zero run contains it.
/// The exact lower index bound of thread `t`'s slice: `t` even shares of
/// the non-zeros. Opaque so the product stays out of quantifier matching.
#[verifier::opaque]
pub open spec fn share_bound(m: CscMatrix, n_threads: int, t: int) -> int {
    t * (m.nnz() / n_threads)
}

pub open spec fn partition_ok(
    m: CscMatrix,
    n_threads: int,
    cols: Seq<usize>,
    ptrs: Seq<usize>,
) -> bool {
    &&& n_threads >= 1
    &&& m.ncols >= 1
    &&& cols.len() == n_threads + 1
    &&& ptrs.len() == n_threads + 1
    &&& ptrs[0] == 0
    &&& ptrs[n_threads] == m.nnz()
    &&& forall|t: int|
        0 <= t < n_threads ==> ptrs[t] == #[trigger] share_bound(m, n_threads, t)
    &&& forall|t: int| 0 <= t < n_threads ==> #[trigger] ptrs[t] < ptrs[t + 1]
    &&& cols[0] == 0
    &&& cols[n_threads] == m.ncols - 1
    &&& forall|t: int| 0 <= t < n_threads ==> #[trigger] cols[t] <= cols[t + 1]
    &&& forall|t: int| 0 <= t <= n_threads ==> #[trigger] cols[t] < m.ncols
    &&& forall|t: int|
        0 <= t <= n_threads ==> #[trigger] m.col_ptr@[cols[t] as int] <= ptrs[t] <= m.col_ptr@[
            cols[t] as int + 1]
    &&& forall|t: int|
        1 <= t < n_threads ==> ptrs[t] < m.col_ptr@[(#[trigger] cols[t]) as int + 1]
}

impl SpMvStrategy {
    /// The partition fits matrix `m` split across `n_threads` workers.
    pub open spec fn valid_for(self, m: CscMatrix, n_threads: int) -> bool {
        partition_ok(m, n_threads, self.thread_cols@, self.thread_indptrs@)
    }

    /// Build the partition for `mat` under the requested execution mode.
    ///
    /// The sequential mode needs no partition and gets empty arrays. The
    /// threaded mode requires more non-zeros than threads — there is no
    /// sensible finer-grained split otherwise — a caller error that
    /// `try_new` reports as a failure instead.
    pub fn new(mat: &CscMatrix, par: Par) -> (s: Self)
        requires
            mat.wf(),
            match par {
                Par::Sequential => true,
                Par::Threads(n) => 1 <= n && n < mat.nnz(),
            },
        ensures
            match par {
                Par::Sequential => s.thread_cols@.len() == 0 && s.thread_indptrs@.len() == 0,
                Par::Threads(n) => s.valid_for(*mat, n as int),
            },
    {
        match par {
            Par::Sequential => SpMvStrategy { thread_cols: Vec::new(), thread_indptrs: Vec::new() },
            Par::Threads(n_threads) => {
                proof {
                    // a matrix with a non-zero has at least one column
                    if mat.ncols == 0 {
                        assert(mat.col_ptr@[0] == mat.nnz());
                    }
                }
                let (thread_cols, thread_indptrs) = build_partition(mat, n_threads);
                SpMvStrategy { thread_cols, thread_indptrs }
            },
        }
    }

    /// Checked partition construction: fails fast — returning `None` — when
    /// the matrix has no more non-zeros than there are threads, instead of
    /// degrading silently.
    pub fn try_new(mat: &CscMatrix, par: Par) -> (s: Option<Self>)
        requires
            mat.wf(),
        ensures
            match par {
                Par::Sequential => s is Some,
                Par::Threads(n) => (s is Some <==> (1 <= n && n < mat.nnz())),
            },
            match s {
                Option::None => true,
                Option::Some(st) => match par {
                    Par::Sequential => st.thread_cols@.len() == 0 && st.thread_indptrs@.len()
                        == 0,
                    Par::Threads(n) => st.valid_for(*mat, n as int),
                },
            },
    {
        match par {
            Par::Sequential => Some(
                SpMvStrategy { thread_cols: Vec::new(), thread_indptrs: Vec::new() },
            ),
            Par::Threads(n_threads) => {
                if n_threads >= 1 && n_threads < mat.compute_nnz() {
                    Some(Self::new(mat, par))
                } else {
                    None
                }
            },
        }
    }
}

/// Scan the column pointers and split the non-zeros into `n_threads` spans
/// of `nnz / n_threads` entries each (the last span takes the remainder),
/// recording for every span the column its first index falls in.
pub(crate) fn build_partition(mat: &CscMatrix, n_threads: usize) -> (out: (Vec<usize>, Vec<usize>))
    requires
        mat.wf(),
        mat.ncols >= 1,
        1 <= n_threads < mat.nnz(),
    ensures
        partition_ok(*mat, n_threads as int, out.0@, out.1@),
{
    let thread_indptrs: Vec<usize> = build_indptrs(mat.compute_nnz(), n_threads);
    let thread_cols: Vec<usize> = build_cols(mat, &thread_indptrs, n_threads);
    proof {
        reveal(share_bound);
        assert forall|t: int| 0 <= t < n_threads implies thread_indptrs@[t] == #[trigger]
            share_bound(*mat, n_threads as int, t) by {
            assert(thread_indptrs@[t] == t * (mat.nnz() / n_threads as int));
        }
    }
    (thread_cols, thread_indptrs)
}

/// Split `[0, nnz)` into `n_threads` spans of `nnz / n_threads` entries
/// each; the last span absorbs the remainder.
fn build_indptrs(nnz: usize, n_threads: usize) -> (ptrs: Vec<usize>)
    requires
        1 <= n_threads < nnz,
    ensures
        ptrs@.len() == n_threads + 1,
        ptrs@[0] == 0,
        ptrs@[n_threads as int] == nnz,
        forall|t: int| 0 <= t < n_threads ==> #[trigger] ptrs@[t] < ptrs@[t + 1],
        forall|t: int| 0 <= t < n_threads ==> #[trigger] ptrs@[t] == t * (nnz / n_threads),
{
    let per_thread: usize = nnz / n_threads;
    proof {
        assert(nnz == n_threads * per_thread + nnz % n_threads && 0 <= nnz % n_threads
            < n_threads) by {
            vstd::arithmetic::div_mod::lemma_fundamental_div_mod(nnz as int, n_threads as int);
        }
        assert(per_thread >= 1) by {
            if per_thread == 0 {
                assert(n_threads * 0 == 0) by (nonlinear_arith);
            }
        }
    }

    let mut thread_indptrs: Vec<usize> = Vec::new();
    let mut thread_id: usize = 0;
    while thread_id < n_threads
        invariant
            1 <= per_thread,
            n_threads * per_thread <= nnz,
            thread_id <= n_threads,
            thread_indptrs@.len() == thread_id,
            forall|t: int|
                0 <= t < thread_id ==> #[trigger] thread_indptrs@[t] == t * per_thread,
        decreases n_threads - thread_id,
    {
        proof {
            assert(thread_id * per_thread <= n_threads * per_thread) by (nonlinear_arith)
                requires
                    thread_id <= n_threads,
                    per_thread >= 0,
            ;
        }
        thread_indptrs.push(thread_id * per_thread);
        thread_id += 1;
    }
    thread_indptrs.push(nnz);

    proof {
        assert forall|t: int| 0 <= t < n_threads implies #[trigger] thread_indptrs@[t]
            < thread_indptrs@[t + 1] by {
            if t + 1 < n_threads {
                assert((t + 1) * per_thread == t * per_thread + per_thread) by (nonlinear_arith);
            } else {
                assert((n_threads - 1) * per_thread + per_thread == n_threads * per_thread)
                    by (nonlinear_arith);
            }
        }
    }
    thread_indptrs
}

/// Scan the columns and record, for each span bound, the column whose
/// non-zero run the bound falls in.
#[verifier::rlimit(100)]
#[verifier::spinoff_prover]
fn build_cols(mat: &CscMatrix, thread_indptrs: &Vec<usize>, n_threads: usize) -> (cols: Vec<
    usize,
>)
    requires
        mat.wf(),
        mat.ncols >= 1,
        1 <= n_threads,
        thread_indptrs@.len() == n_threads + 1,
        thread_indptrs@[0] == 0,
        thread_indptrs@[n_threads as int] == mat.nnz(),
        forall|t: int|
            0 <= t < n_threads ==> #[trigger] thread_indptrs@[t] < thread_indptrs@[t + 1],
    ensures
        cols@.len() == n_threads + 1,
        cols@[0] == 0,
        cols@[n_threads as int] == mat.ncols - 1,
        forall|t: int| 0 <= t < n_threads ==> #[trigger] cols@[t] <= cols@[t + 1],
        forall|t: int| 0 <= t <= n_threads ==> #[trigger] cols@[t] < mat.ncols,
        forall|t: int|
            0 <= t <= n_threads ==> #[trigger] mat.col_ptr@[cols@[t] as int]
                <= thread_indptrs@[t] <= mat.col_ptr@[cols@[t] as int + 1],
        forall|t: int|
            1 <= t < n_threads ==> thread_indptrs@[t] < mat.col_ptr@[(#[trigger] cols@[
                t]) as int + 1],
{
    let ghost ptrs: Seq<usize> = thread_indptrs@;

    let mut thread_cols: Vec<usize> = Vec::new();
    thread_cols.push(0);

    let ncols: usize = mat.ncols;
    let mut nnz_counter: usize = 0;
    let mut thread_id: usize = 1;
    let mut col: usize = 0;
    while col < ncols
        invariant
            mat.wf(),
            mat.ncols == ncols,
            thread_indptrs@ == ptrs,
            ptrs.len() == n_threads + 1,
            ptrs[n_threads as int] == mat.nnz(),
            forall|t: int| 0 <= t < n_threads ==> #[trigger] ptrs[t] < ptrs[t + 1],
            ptrs[0] == 0,
            col <= ncols,
            nnz_counter == mat.col_ptr@[col as int],
            1 <= thread_id <= n_threads,
            thread_cols@.len() == thread_id,
            thread_cols@[0] == 0,
            forall|t: int| 0 <= t < thread_id ==> #[trigger] thread_cols@[t] < ncols,
            forall|t: int| 0 <= t < thread_id ==> #[trigger] thread_cols@[t] <= col,
            forall|t: int|
                0 <= t < thread_id - 1 ==> #[trigger] thread_cols@[t] <= thread_cols@[t + 1],
            forall|t: int|
                1 <= t < thread_id ==> #[trigger] mat.col_ptr@[thread_cols@[t] as int] <= ptrs[t]
                    < mat.col_ptr@[thread_cols@[t] as int + 1],
            thread_id < n_threads ==> nnz_counter <= ptrs[thread_id as int],
        decreases ncols - col,
    {
        let col_end: usize = mat.col_ptr[col + 1];
        proof {
            lemma_col_ptr_monotone(*mat, col + 1, ncols as int);
        }
        while thread_id < n_threads && col_end > thread_indptrs[thread_id]
            invariant
                mat.wf(),
                mat.ncols == ncols,
                0 <= col < ncols,
                col_end == mat.col_ptr@[col as int + 1],
                ptrs.len() == n_threads + 1,
                thread_indptrs@ == ptrs,
                forall|t: int| 0 <= t < n_threads ==> #[trigger] ptrs[t] < ptrs[t + 1],
                1 <= thread_id <= n_threads,
                thread_cols@.len() == thread_id,
                thread_cols@[0] == 0,
                forall|t: int| 0 <= t < thread_id ==> #[trigger] thread_cols@[t] < ncols,
                forall|t: int| 0 <= t < thread_id ==> #[trigger] thread_cols@[t] <= col,
                forall|t: int|
                    0 <= t < thread_id - 1 ==> #[trigger] thread_cols@[t] <= thread_cols@[t + 1],
                forall|t: int|
                    1 <= t < thread_id ==> #[trigger] mat.col_ptr@[thread_cols@[t] as int]
                        <= ptrs[t] < mat.col_ptr@[thread_cols@[t] as int + 1],
                thread_id < n_threads ==> mat.col_ptr@[col as int] <= ptrs[thread_id as int],
            decreases n_threads - thread_id,
        {
            thread_cols.push(col);
            thread_id += 1;
        }
        nnz_counter = col_end;
        col += 1;
    }

    proof {
        if thread_id < n_threads {
            ptrs_increasing_implies(ptrs, thread_id as int, n_threads as int - 1);
            assert(ptrs[n_threads as int - 1] < ptrs[n_threads as int]);
            assert(false);
        }
    }
    assert(thread_id == n_threads);
    thread_cols.push(ncols - 1);

    proof {
        assert forall|t: int|
            0 <= t <= n_threads implies #[trigger] mat.col_ptr@[thread_cols@[t] as int]
            <= thread_indptrs@[t] <= mat.col_ptr@[thread_cols@[t] as int + 1] by {
            if t == 0 {
                lemma_col_ptr_monotone(*mat, 0, 1);
            } else if t == n_threads {
                lemma_col_ptr_monotone(*mat, ncols as int - 1, ncols as int);
            } else {
                assert(mat.col_ptr@[thread_cols@[t] as int] <= ptrs[t] < mat.col_ptr@[
                    thread_cols@[t] as int + 1]);
            }
        }
        assert forall|t: int| 0 <= t < n_threads implies #[trigger] thread_cols@[t]
            <= thread_cols@[t + 1] by {
            if t + 1 == n_threads {
                assert(thread_cols@[t] < ncols);
            }
        }
        assert forall|t: int|
            1 <= t < n_threads implies thread_indptrs@[t] < mat.col_ptr@[(
        #[trigger] thread_cols@[t]) as int + 1] by {
            assert(mat.col_ptr@[thread_cols@[t] as int] <= ptrs[t] < mat.col_ptr@[
                thread_cols@[t] as int + 1]);
        }
    }

    thread_cols
}

/// The partition is a function of the matrix's symbolic structure and the
/// thread count: any two partitions valid for the same pair are identical,
/// array for array — so construction is deterministic and a partition built
/// once can stand for every later multiply.
pub proof fn lemma_partition_deterministic(
    m: CscMatrix,
    n_threads: int,
    cols1: Seq<usize>,
    ptrs1: Seq<usize>,
    cols2: Seq<usize>,
    ptrs2: Seq<usize>,
)
    requires
        m.wf(),
        partition_ok(m, n_threads, cols1, ptrs1),
        partition_ok(m, n_threads, cols2, ptrs2),
    ensures
        cols1 == cols2,
        ptrs1 == ptrs2,
{
    assert forall|t: int| 0 <= t <= n_threads implies ptrs1[t] == ptrs2[t] by {
        if t < n_threads {
            assert(ptrs1[t] == share_bound(m, n_threads, t));
            assert(ptrs2[t] == share_bound(m, n_threads, t));
        }
    }
    assert(ptrs1 =~= ptrs2);
    assert forall|t: int| 0 <= t <= n_threads implies cols1[t] == cols2[t] by {
        if 1 <= t < n_threads {
            crate::csc::lemma_col_containing(m, cols1[t] as int, ptrs1[t] as int);
            crate::csc::lemma_col_containing(m, cols2[t] as int, ptrs2[t] as int);
        }
    }
    assert(cols1 =~= cols2);
}

/// Strictly climbing index bounds keep climbing across any distance.
proof fn ptrs_increasing_implies(ptrs: Seq<usize>, t1: int, t2: int)
    requires
        0 <= t1 <= t2 < ptrs.len(),
        forall|t: int| 0 <= t < ptrs.len() - 1 ==> #[trigger] ptrs[t] < ptrs[t + 1],
    ensures
        ptrs[t1] <= ptrs[t2],
    decreases t2 - t1,
{
    if t1 < t2 {
        ptrs_increasing_implies(ptrs, t1, t2 - 1);
    }
}

/// Which parallel sparse-times-dense routine a caller selects; callers pick
/// one per multiply and may reuse the partition across calls.
#[derive(Clone, Copy, PartialEq, Eq, Structural)]
pub enum SparseDenseImpl {
    Simple,
    MergeHeap,
    MergeTree,
    BufferForeign,
}

/// The one failure the drivers report: the output is wide enough for
/// column-parallel work, which no strategy here implements — an explicitly
/// unsupported configuration rather than a guess.
#[derive(Clone, Copy, PartialEq, Eq, Structural)]
pub enum MatmulError {
    UnsupportedWide,
}

/// Copy output column `j` out of the column-major buffer.
fn get_col(mat: &ColMajorMat, j: usize) -> (v: Vec<i64>)
    requires
        mat.wf(),
        j < mat.ncols,
        mat.nrows * mat.ncols <= usize::MAX,
    ensures
        v@ == mat.col(j as int),
{
    let mut v: Vec<i64> = Vec::new();
    let mut r: usize = 0;
    proof {
        assert(j * mat.nrows + mat.nrows == (j + 1) * mat.nrows && (j + 1) * mat.nrows
            <= mat.ncols * mat.nrows && mat.ncols * mat.nrows == mat.nrows * mat.ncols)
            by (nonlinear_arith)
            requires
                j < mat.ncols,
                mat.nrows >= 0,
        ;
    }
    while r < mat.nrows
        invariant
            mat.wf(),
            j < mat.ncols,
            r <= mat.nrows,
            j * mat.nrows + mat.nrows <= mat.data@.len(),
            j * mat.nrows + mat.nrows <= usize::MAX,
            v@.len() == r,
            forall|i: int| (0 <= i < r) ==> (#[trigger] v@[i]) == mat.data@[j * mat.nrows
                + i],
            r <= mat.nrows,
        decreases mat.nrows - r,
    {
        v.push(mat.data[j * mat.nrows + r]);
        r += 1;
    }
    proof {
        assert(v@ =~= mat.col(j as int));
    }
    v
}

/// Write output column `j` back into the column-major buffer; every other
/// column keeps its contents.
fn set_col(mat: &mut ColMajorMat, j: usize, v: &Vec<i64>)
    requires
        old(mat).wf(),
        j < old(mat).ncols,
        v@.len() == old(mat).nrows,
        old(mat).nrows * old(mat).ncols <= usize::MAX,
    ensures
        final(mat).wf(),
        final(mat).nrows == old(mat).nrows,
        final(mat).ncols == old(mat).ncols,
        final(mat).col(j as int) == v@,
        forall|j2: int|
            0 <= j2 < old(mat).ncols && j2 != j ==> #[trigger] final(mat).col(j2) == old(
                mat,
            ).col(j2),
{
    let nrows: usize = mat.nrows;
    let mut r: usize = 0;
    proof {
        assert(j * nrows + nrows == (j + 1) * nrows && (j + 1) * nrows <= mat.ncols * nrows
            && mat.ncols * nrows == nrows * mat.ncols) by (nonlinear_arith)
            requires
                j < mat.ncols,
                nrows >= 0,
        ;
    }
    while r < nrows
        invariant
            mat.nrows == nrows,
            mat.ncols == old(mat).ncols,
            mat.data@.len() == old(mat).data@.len(),
            old(mat).wf(),
            j < mat.ncols,
            r <= nrows,
            v@.len() == nrows,
            j * nrows + nrows <= mat.data@.len(),
            j * nrows + nrows <= usize::MAX,
            forall|i: int| 0 <= i < r ==> #[trigger] mat.data@[j * nrows + i] == v@[i],
            forall|k: int|
                0 <= k < mat.data@.len() && !(j * nrows <= k < j * nrows + r)
                    ==> #[trigger] mat.data@[k] == old(mat).data@[k],
        decreases nrows - r,
    {
        mat.data[j * nrows + r] = v[r];
        r += 1;
    }
    proof {
        assert((j as int + 1) * nrows == j * nrows + nrows && (j as int + 1) * nrows
            <= mat.ncols * nrows && mat.ncols * nrows == nrows * mat.ncols && 0 <= j
            * nrows) by (nonlinear_arith)
            requires
                0 <= (j as int) < mat.ncols,
                nrows >= 0,
        ;
        assert(mat.col(j as int) =~= v@) by {
            assert(mat.col(j as int).len() == v@.len());
            assert forall|i: int| 0 <= i < nrows implies mat.col(j as int)[i] == v@[i] by {
                assert(mat.col(j as int)[i] == mat.data@[j * nrows + i]);
            }
        }
        assert forall|j2: int|
            0 <= j2 < old(mat).ncols && j2 != j implies #[trigger] mat.col(j2) == old(
            mat,
        ).col(j2) by {
            assert((j2 + 1) * nrows == j2 * nrows + nrows && (j2 + 1) * nrows <= mat.ncols
                * nrows && 0 <= j2 * nrows && ((j2 + 1) * nrows <= j * nrows || (j as int
                + 1) * nrows <= j2 * nrows)) by (nonlinear_arith)
                requires
                    j2 != (j as int),
                    0 <= j2 < mat.ncols,
                    0 <= (j as int) < mat.ncols,
                    nrows >= 0,
            ;
            assert forall|i: int|
                0 <= i < nrows implies #[trigger] mat.data@[j2 * nrows + i] == old(
                mat,
            ).data@[j2 * nrows + i] by {}
            assert(mat.col(j2) =~= old(mat).col(j2));
        }
    }
}

/// What the parallel strategies jointly require of a multiply's inputs,
/// beyond well-formedness: the merge variants need sorted rows and room for
/// their windows and trees, the simple variant a large enough arena.
pub open spec fn par_requires(
    lhs: CscMatrix,
    strategy: SpMvStrategy,
    n: int,
    sel: SparseDenseImpl,
    stack: Seq<i64>,
) -> bool {
    match sel {
        SparseDenseImpl::Simple => lhs.nrows * n <= stack.len(),
        SparseDenseImpl::MergeHeap => lhs.rows_sorted(),
        SparseDenseImpl::MergeTree => {
            &&& lhs.rows_sorted()
            &&& lhs.nrows >= 1
            &&& lhs.ncols < usize::MAX / 2
            &&& lhs.nrows + n <= usize::MAX
            &&& (n - 1) * ((lhs.nrows + n - 1) / n) < lhs.nrows
        },
        SparseDenseImpl::BufferForeign => {
            &&& lhs.nrows >= 1
            &&& lhs.nrows + crate::buffer_foreign::B_ROWS <= usize::MAX
            &&& (lhs.nrows + crate::buffer_foreign::B_ROWS - 1)
                / crate::buffer_foreign::B_ROWS as int + n <= usize::MAX
            &&& ((lhs.nrows + crate::buffer_foreign::B_ROWS - 1)
                / crate::buffer_foreign::B_ROWS as int + n - 1) / n * n
                * crate::buffer_foreign::B_ROWS <= usize::MAX
        },
    }
}

/// The sparse-times-dense multiply `dst = beta(dst) + alpha * A * x`:
/// sequential reference when no parallelism is asked for; otherwise, when
/// the output is not wide, one destination column at a time through the
/// selected per-column strategy. A wide output would want column-parallel
/// work that no strategy here implements, and is reported as unsupported.
#[verifier::rlimit(100)]
#[verifier::spinoff_prover]
pub fn sparse_dense_matmul(
    dst: &mut ColMajorMat,
    beta: Accum,
    lhs: &CscMatrix,
    rhs: &ColMajorMat,
    alpha: i64,
    par: Par,
    strategy: &SpMvStrategy,
    stack: &mut Vec<i64>,
    par_impl: Option<SparseDenseImpl>,
) -> (res: Result<(), MatmulError>)
    requires
        lhs.wf(),
        rhs.wf(),
        old(dst).wf(),
        rhs.nrows == lhs.ncols,
        old(dst).nrows == lhs.nrows,
        old(dst).ncols == rhs.ncols,
        old(dst).nrows * old(dst).ncols <= usize::MAX,
        rhs.nrows * rhs.ncols <= usize::MAX,
        match par {
            Par::Sequential => true,
            Par::Threads(n) => {
                &&& strategy.valid_for(*lhs, n as int)
                &&& n * 4 <= usize::MAX
                &&& par_impl is Some
                &&& (rhs.ncols < n * 4 ==> par_requires(*lhs, *strategy, n as int,
                    par_impl->Some_0, old(stack)@))
            },
        },
    ensures
        final(dst).nrows == old(dst).nrows,
        final(dst).ncols == old(dst).ncols,
        final(dst).wf(),
        final(stack)@.len() == old(stack)@.len(),
        res is Err <==> (par is Threads && rhs.ncols >= par->Threads_0 * 4),
        res is Err ==> final(dst).data@ == old(dst).data@,
        res is Ok ==> forall|j: int|
            0 <= j < old(dst).ncols ==> spmv_post(
                *lhs,
                rhs.col(j),
                alpha,
                old(dst).col(j),
                beta,
                #[trigger] final(dst).col(j),
            ),
{
    match par {
        Par::Sequential => {
            multiply_columns(dst, beta, lhs, rhs, alpha, 1, strategy, stack, None);
            Ok(())
        },
        Par::Threads(n_threads) => {
            if rhs.ncols >= n_threads * 4 {
                Err(MatmulError::UnsupportedWide)
            } else {
                multiply_columns(dst, beta, lhs, rhs, alpha, n_threads, strategy, stack,
                    par_impl);
                Ok(())
            }
        },
    }
}

/// Run the selected per-column routine over every output column.
#[verifier::rlimit(100)]
#[verifier::spinoff_prover]
fn multiply_columns(
    dst: &mut ColMajorMat,
    beta: Accum,
    lhs: &CscMatrix,
    rhs: &ColMajorMat,
    alpha: i64,
    n_threads: usize,
    strategy: &SpMvStrategy,
    stack: &mut Vec<i64>,
    par_impl: Option<SparseDenseImpl>,
)
    requires
        lhs.wf(),
        rhs.wf(),
        old(dst).wf(),
        rhs.nrows == lhs.ncols,
        old(dst).nrows == lhs.nrows,
        old(dst).ncols == rhs.ncols,
        old(dst).nrows * old(dst).ncols <= usize::MAX,
        rhs.nrows * rhs.ncols <= usize::MAX,
        match par_impl {
            Option::None => true,
            Option::Some(sel) => strategy.valid_for(*lhs, n_threads as int) && par_requires(
                *lhs,
                *strategy,
                n_threads as int,
                sel,
                old(stack)@,
            ),
        },
    ensures
        final(dst).nrows == old(dst).nrows,
        final(dst).ncols == old(dst).ncols,
        final(dst).wf(),
        final(stack)@.len() == old(stack)@.len(),
        forall|j: int|
            0 <= j < old(dst).ncols ==> spmv_post(
                *lhs,
                rhs.col(j),
                alpha,
                old(dst).col(j),
                beta,
                #[trigger] final(dst).col(j),
            ),
{
    let ncols: usize = dst.ncols;
    let mut j: usize = 0;
    while j < ncols
        invariant
            lhs.wf(),
            rhs.wf(),
            dst.wf(),
            rhs.nrows == lhs.ncols,
            dst.nrows == old(dst).nrows == lhs.nrows,
            dst.ncols == old(dst).ncols == ncols == rhs.ncols,
            dst.nrows * dst.ncols <= usize::MAX,
            rhs.nrows * rhs.ncols <= usize::MAX,
            stack@.len() == old(stack)@.len(),
            match par_impl {
                Option::None => true,
                Option::Some(sel) => strategy.valid_for(*lhs, n_threads as int)
                    && par_requires(*lhs, *strategy, n_threads as int, sel, stack@),
            },
            j <= ncols,
            forall|j2: int|
                0 <= j2 < j ==> spmv_post(
                    *lhs,
                    rhs.col(j2),
                    alpha,
                    old(dst).col(j2),
                    beta,
                    #[trigger] dst.col(j2),
                ),
            forall|j2: int| j <= j2 < ncols ==> #[trigger] dst.col(j2) == old(dst).col(j2),
        decreases ncols - j,
    {
        let mut dcol: Vec<i64> = get_col(dst, j);
        let rcol: Vec<i64> = get_col(rhs, j);
        proof {
            assert((j as int + 1) * dst.nrows - j * dst.nrows == dst.nrows && (j as int + 1)
                * dst.nrows <= dst.ncols * dst.nrows && dst.ncols * dst.nrows == dst.nrows
                * dst.ncols && 0 <= j * dst.nrows) by (nonlinear_arith)
                requires
                    0 <= (j as int) < dst.ncols,
                    dst.nrows >= 0,
            ;
            assert((j as int + 1) * rhs.nrows - j * rhs.nrows == rhs.nrows && (j as int + 1)
                * rhs.nrows <= rhs.ncols * rhs.nrows && rhs.ncols * rhs.nrows == rhs.nrows
                * rhs.ncols && 0 <= j * rhs.nrows) by (nonlinear_arith)
                requires
                    0 <= (j as int) < rhs.ncols,
                    rhs.nrows >= 0,
            ;
            assert(dcol@.len() == dst.nrows);
            assert(rcol@.len() == rhs.nrows);
        }
        match par_impl {
            Option::None => {
                crate::csc::seq_sparse_dense(&mut dcol, beta, lhs, &rcol, alpha);
            },
            Option::Some(sel) => {
                match sel {
                    SparseDenseImpl::Simple => {
                        crate::simple::par_sparse_dense(&mut dcol, beta, lhs, &rcol, alpha,
                            n_threads, strategy, stack);
                    },
                    SparseDenseImpl::MergeHeap => {
                        crate::merge_impl::par_sparse_dense(&mut dcol, beta, lhs, &rcol,
                            alpha, n_threads, strategy, stack);
                    },
                    SparseDenseImpl::MergeTree => {
                        crate::merge::par_sparse_dense(&mut dcol, beta, lhs, &rcol, alpha,
                            n_threads, strategy, stack);
                    },
                    SparseDenseImpl::BufferForeign => {
                        crate::buffer_foreign::par_sparse_dense(&mut dcol, beta, lhs, &rcol,
                            alpha, n_threads, strategy, stack);
                    },
                }
            },
        }
        set_col(dst, j, &dcol);
        j += 1;
    }
}

/// The dense-times-sparse multiply `dst = beta(dst) + alpha * x * B`:
/// sequential reference, or the boundary-stitch strategy one destination
/// row at a time; as above, a wide output is reported as unsupported.
#[verifier::rlimit(100)]
#[verifier::spinoff_prover]
pub fn dense_sparse_matmul(
    dst: &mut Vec<i64>,
    beta: Accum,
    lhs: &Vec<i64>,
    rhs: &CscMatrix,
    alpha: i64,
    par: Par,
    strategy: &SpMvStrategy,
    stack: &mut Vec<i64>,
) -> (res: Result<(), MatmulError>)
    requires
        rhs.wf(),
        lhs@.len() == rhs.nrows,
        old(dst)@.len() == rhs.ncols,
        match par {
            Par::Sequential => true,
            Par::Threads(n) => strategy.valid_for(*rhs, n as int) && n * 4 <= usize::MAX,
        },
    ensures
        final(dst)@.len() == old(dst)@.len(),
        final(stack)@ == old(stack)@,
        res is Err <==> (par is Threads && lhs@.len() >= par->Threads_0 * 4),
        res is Err ==> final(dst)@ == old(dst)@,
        res is Ok ==> ds_post(*rhs, lhs@, alpha, old(dst)@, beta, final(dst)@),
{
    match par {
        Par::Sequential => {
            seq_dense_sparse(dst, beta, lhs, rhs, alpha);
            Ok(())
        },
        Par::Threads(n_threads) => {
            if lhs.len() >= n_threads * 4 {
                Err(MatmulError::UnsupportedWide)
            } else {
                crate::dense_sparse_impl::par_dense_sparse(dst, beta, lhs, rhs, alpha,
                    n_threads, strategy, stack);
                Ok(())
            }
        },
    }
}

/// Sequential reference for the dense-times-sparse direction.
pub fn seq_dense_sparse(
    dst: &mut Vec<i64>,
    beta: Accum,
    lhs: &Vec<i64>,
    rhs: &CscMatrix,
    alpha: i64,
)
    requires
        rhs.wf(),
        lhs@.len() == rhs.nrows,
        old(dst)@.len() == rhs.ncols,
    ensures
        final(dst)@.len() == old(dst)@.len(),
        ds_post(*rhs, lhs@, alpha, old(dst)@, beta, final(dst)@),
{
    let ghost dst0: Seq<i64> = dst@;
    let ncols: usize = rhs.ncols;
    if matches!(beta, Accum::Replace) {
        let mut j: usize = 0;
        while j < ncols
            invariant
                dst@.len() == dst0.len() == ncols,
                j <= ncols,
                forall|i: int| 0 <= i < j ==> dst@[i] == 0,
                forall|i: int| j <= i < ncols ==> dst@[i] == dst0[i],
            decreases ncols - j,
        {
            dst[j] = 0i64;
            j += 1;
        }
    }
    let mut j: usize = 0;
    while j < ncols
        invariant
            rhs.wf(),
            lhs@.len() == rhs.nrows,
            dst@.len() == dst0.len() == ncols == rhs.ncols,
            j <= ncols,
            forall|j2: int|
                0 <= j2 < j ==> #[trigger] dst@[j2] == crop(
                    crate::csc::accum_base(beta, dst0[j2]) + crate::csc::ds_sum(*rhs, lhs@,
                        alpha, rhs.col_ptr@[j2] as int, rhs.col_ptr@[j2 + 1] as int),
                ),
            forall|j2: int|
                j <= j2 < ncols ==> #[trigger] dst@[j2] == crate::csc::accum_base(beta,
                    dst0[j2]),
        decreases ncols - j,
    {
        proof {
            lemma_col_ptr_monotone(*rhs, j + 1, rhs.ncols as int);
        }
        let lo: usize = rhs.col_ptr[j];
        let hi: usize = rhs.col_ptr[j + 1];
        let ghost pre: i64 = dst@[j as int];
        let base: i64 = dst[j];
        let updated: i64 = crate::dense_sparse_impl::accumulate_column_range(lhs, rhs, alpha, lo,
            hi, base);
        dst[j] = updated;
        j += 1;
    }
}

} // verus!
