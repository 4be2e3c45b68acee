//! Parallel sparse-matrix-times-dense multiply, organized around one
//! question: how the non-zero work is split evenly across a fixed pool of
//! workers, and how partial contributions that land outside a worker's own
//! output region are merged back. The partition strategy cuts the non-zeros
//! by scanning column pointers; three competing strategies cover the
//! sparse-times-dense direction and a boundary-stitch strategy the
//! transposed one. Scalars are `i64` ring elements under wrapping
//! arithmetic, standing in for a generic complex-field scalar,
//! which lets every contract pin each destination cell to an exact sum with
//! a fixed summation order.
pub mod buffer_foreign;
pub mod csc;
pub mod dense_sparse_impl;
pub mod merge;
pub mod merge_impl;
pub mod ring;
pub mod simple;
pub mod spmv_drivers;
pub mod test_utils;

use vstd::prelude::*;

verus! {

use crate::csc::{ds_post, spmv_post, Accum, ColMajorMat, CscMatrix, Par};
use crate::spmv_drivers::{MatmulError, SparseDenseImpl, SpMvStrategy};

/// The per-thread split of a matrix's non-zeros, as the simple-reduction
/// front end builds it; the partition itself is the same strategy the
/// drivers use, kept behind a private field.
pub struct SparseDenseStrategy {
    inner: SpMvStrategy,
}

impl SparseDenseStrategy {
    /// The partition's column bounds.
    pub closed spec fn thread_cols_view(self) -> Seq<usize> {
        self.inner.thread_cols@
    }

    /// The partition's non-zero index bounds.
    pub closed spec fn thread_indptrs_view(self) -> Seq<usize> {
        self.inner.thread_indptrs@
    }

    /// The partition fits matrix `m` split across `n_threads` workers: the
    /// same invariant the drivers' own strategy type carries, index bounds
    /// pinned to their exact multiples of the even share.
    pub open spec fn valid_for(self, m: CscMatrix, n_threads: int) -> bool {
        crate::spmv_drivers::partition_ok(
            m,
            n_threads,
            self.thread_cols_view(),
            self.thread_indptrs_view(),
        )
    }

    /// The sequential mode carries no partition.
    pub open spec fn is_empty_partition(self) -> bool {
        self.thread_cols_view().len() == 0 && self.thread_indptrs_view().len() == 0
    }

    /// Build the partition for `mat` under the requested execution mode;
    /// the threaded mode requires more non-zeros than threads.
    pub fn new(mat: &CscMatrix, par: Par) -> (s: Self)
        requires
            mat.wf(),
            match par {
                Par::Sequential => true,
                Par::Threads(n) => 1 <= n && n < mat.nnz(),
            },
        ensures
            match par {
                Par::Sequential => s.is_empty_partition(),
                Par::Threads(n) => s.valid_for(*mat, n as int),
            },
    {
        SparseDenseStrategy { inner: SpMvStrategy::new(mat, par) }
    }

    /// Checked construction: fails fast — returning `None` — exactly when
    /// the matrix has no more non-zeros than there are threads, instead of
    /// degrading silently.
    pub fn try_new(mat: &CscMatrix, par: Par) -> (s: Option<Self>)
        requires
            mat.wf(),
        ensures
            match par {
                Par::Sequential => s is Some,
                Par::Threads(n) => (s is Some <==> (1 <= n && n < mat.nnz())),
            },
            match s {
                Option::None => true,
                Option::Some(st) => match par {
                    Par::Sequential => st.is_empty_partition(),
                    Par::Threads(n) => st.valid_for(*mat, n as int),
                },
            },
    {
        match SpMvStrategy::try_new(mat, par) {
            Option::Some(inner) => Some(SparseDenseStrategy { inner }),
            Option::None => None,
        }
    }
}

/// Partition construction is deterministic for this front end too: two
/// strategies valid for the same matrix and thread count carry identical
/// arrays.
pub proof fn lemma_strategy_deterministic(
    m: CscMatrix,
    n_threads: int,
    s1: SparseDenseStrategy,
    s2: SparseDenseStrategy,
)
    requires
        m.wf(),
        s1.valid_for(m, n_threads),
        s2.valid_for(m, n_threads),
    ensures
        s1.thread_cols_view() == s2.thread_cols_view(),
        s1.thread_indptrs_view() == s2.thread_indptrs_view(),
{
    crate::spmv_drivers::lemma_partition_deterministic(
        m,
        n_threads,
        s1.thread_cols_view(),
        s1.thread_indptrs_view(),
        s2.thread_cols_view(),
        s2.thread_indptrs_view(),
    );
}

/// Scratch the simple-reduction strategy needs: one destination-length
/// workspace column per thread, unless the problem is sequential or wide.
pub fn sparse_dense_scratch(
    lhs: &CscMatrix,
    rhs: &ColMajorMat,
    strategy: &SparseDenseStrategy,
    par: Par,
) -> (req: usize)
    requires
        match par {
            Par::Sequential => true,
            Par::Threads(n) => n * 4 <= usize::MAX && (rhs.ncols < n * 4 ==> lhs.nrows * n
                <= usize::MAX),
        },
    ensures
        req == match par {
            Par::Sequential => 0int,
            Par::Threads(n) => if rhs.ncols >= n * 4 {
                0int
            } else {
                lhs.nrows * n
            },
        },
{
    crate::simple::sparse_dense_scratch(lhs, rhs, &strategy.inner, par)
}

/// Scratch the boundary-stitch strategy needs: two boundary scalars per
/// thread, unless the problem is sequential or wide.
pub fn dense_sparse_scratch(
    lhs: &ColMajorMat,
    rhs: &CscMatrix,
    strategy: &SparseDenseStrategy,
    par: Par,
) -> (req: usize)
    requires
        match par {
            Par::Sequential => true,
            Par::Threads(n) => n * 4 <= usize::MAX && n * 2 <= usize::MAX,
        },
    ensures
        req == match par {
            Par::Sequential => 0int,
            Par::Threads(n) => if lhs.nrows >= n * 4 {
                0int
            } else {
                n * 2
            },
        },
{
    crate::dense_sparse_impl::dense_sparse_scratch(lhs, rhs, &strategy.inner, par)
}

/// Sparse-times-dense multiply through the simple-reduction strategy: the
/// sequential reference when no parallelism is asked for, per-column
/// workspace accumulation and reduction otherwise; a wide output is an
/// explicitly unsupported configuration.
pub fn sparse_dense_matmul(
    dst: &mut ColMajorMat,
    beta: Accum,
    lhs: &CscMatrix,
    rhs: &ColMajorMat,
    alpha: i64,
    par: Par,
    strategy: &SparseDenseStrategy,
    stack: &mut Vec<i64>,
) -> (res: Result<(), MatmulError>)
    requires
        lhs.wf(),
        rhs.wf(),
        old(dst).wf(),
        rhs.nrows == lhs.ncols,
        old(dst).nrows == lhs.nrows,
        old(dst).ncols == rhs.ncols,
        old(dst).nrows * old(dst).ncols <= usize::MAX,
        rhs.nrows * rhs.ncols <= usize::MAX,
        match par {
            Par::Sequential => true,
            Par::Threads(n) => {
                &&& strategy.valid_for(*lhs, n as int)
                &&& n * 4 <= usize::MAX
                &&& (rhs.ncols < n * 4 ==> lhs.nrows * n <= old(stack)@.len())
            },
        },
    ensures
        final(dst).nrows == old(dst).nrows,
        final(dst).ncols == old(dst).ncols,
        final(dst).wf(),
        final(stack)@.len() == old(stack)@.len(),
        res is Err <==> (par is Threads && rhs.ncols >= par->Threads_0 * 4),
        res is Err ==> final(dst).data@ == old(dst).data@,
        res is Ok ==> forall|j: int|
            0 <= j < old(dst).ncols ==> spmv_post(
                *lhs,
                rhs.col(j),
                alpha,
                old(dst).col(j),
                beta,
                #[trigger] final(dst).col(j),
            ),
{
    crate::spmv_drivers::sparse_dense_matmul(dst, beta, lhs, rhs, alpha, par,
        &strategy.inner, stack, Some(SparseDenseImpl::Simple))
}

/// Dense-times-sparse multiply through the boundary-stitch strategy, with
/// the same sequential and unsupported-wide behaviour.
pub fn dense_sparse_matmul(
    dst: &mut Vec<i64>,
    beta: Accum,
    lhs: &Vec<i64>,
    rhs: &CscMatrix,
    alpha: i64,
    par: Par,
    strategy: &SparseDenseStrategy,
    stack: &mut Vec<i64>,
) -> (res: Result<(), MatmulError>)
    requires
        rhs.wf(),
        lhs@.len() == rhs.nrows,
        old(dst)@.len() == rhs.ncols,
        match par {
            Par::Sequential => true,
            Par::Threads(n) => strategy.valid_for(*rhs, n as int) && n * 4 <= usize::MAX,
        },
    ensures
        final(dst)@.len() == old(dst)@.len(),
        final(stack)@ == old(stack)@,
        res is Err <==> (par is Threads && lhs@.len() >= par->Threads_0 * 4),
        res is Err ==> final(dst)@ == old(dst)@,
        res is Ok ==> ds_post(*rhs, lhs@, alpha, old(dst)@, beta, final(dst)@),
{
    crate::spmv_drivers::dense_sparse_matmul(dst, beta, lhs, rhs, alpha, par,
        &strategy.inner, stack)
}

/// Every execution path of the sparse-times-dense multiply lands on the
/// same destination contents: any two results that meet the shared
/// postcondition — the sequential reference and each parallel strategy do —
/// are equal, cell for cell.
pub proof fn lemma_parallel_matches_sequential(
    m: CscMatrix,
    x: Seq<i64>,
    alpha: i64,
    dst0: Seq<i64>,
    beta: Accum,
    d1: Seq<i64>,
    d2: Seq<i64>,
)
    requires
        spmv_post(m, x, alpha, dst0, beta, d1),
        spmv_post(m, x, alpha, dst0, beta, d2),
    ensures
        d1 == d2,
{
    assert(d1 =~= d2);
}

/// The two merge variants — the priority-queue merge and the loser-tree
/// merge — produce identical destination contents for the same input: both
/// are held to the shared postcondition above.
pub proof fn lemma_merge_variants_agree(
    m: CscMatrix,
    x: Seq<i64>,
    alpha: i64,
    dst0: Seq<i64>,
    beta: Accum,
    d_heap: Seq<i64>,
    d_tree: Seq<i64>,
)
    requires
        spmv_post(m, x, alpha, dst0, beta, d_heap),
        spmv_post(m, x, alpha, dst0, beta, d_tree),
    ensures
        d_heap == d_tree,
{
    assert(d_heap =~= d_tree);
}

/// Replace mode is idempotent: running the same multiply again over its own
/// output yields identical destination contents, because the replaced base
/// contributes nothing.
pub proof fn lemma_replace_idempotent(
    m: CscMatrix,
    x: Seq<i64>,
    alpha: i64,
    dst0: Seq<i64>,
    d1: Seq<i64>,
    d2: Seq<i64>,
)
    requires
        spmv_post(m, x, alpha, dst0, Accum::Replace, d1),
        spmv_post(m, x, alpha, d1, Accum::Replace, d2),
    ensures
        d1 == d2,
{
    assert(d1 =~= d2);
}

/// The dense-times-sparse counterpart: any two results meeting the shared
/// postcondition are equal, so the stitched parallel result matches the
/// sequential reference.
pub proof fn lemma_stitch_matches_sequential(
    m: CscMatrix,
    x: Seq<i64>,
    alpha: i64,
    dst0: Seq<i64>,
    beta: Accum,
    d1: Seq<i64>,
    d2: Seq<i64>,
)
    requires
        ds_post(m, x, alpha, dst0, beta, d1),
        ds_post(m, x, alpha, dst0, beta, d2),
    ensures
        d1 == d2,
{
    assert(d1 =~= d2);
}

} // verus!
