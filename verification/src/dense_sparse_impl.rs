//! Boundary-stitch strategy for the transposed, dense-times-sparse
//! direction: each thread owns a range of output columns; interior columns
//! are written directly, and only the two boundary columns — whose non-zero
//! runs a neighbouring thread may share — are accumulated into two
//! thread-local scalars that the coordinating thread adds in afterwards,
//! bounding cross-thread synchronization to two scalars per thread.
use vstd::prelude::*;

verus! {

use crate::csc::{
    accum_base, ds_post, ds_prod_at, ds_sum, lemma_col_ptr_monotone, lemma_ds_sum_split, Accum,
    ColMajorMat, CscMatrix, Par,
};
use crate::ring::{
    crop, eqm, lemma_crop_chain, lemma_crop_eqm, lemma_crop_id, lemma_eqm_crop,
    lemma_eqm_mul_left, lemma_wrapping_add_crop, lemma_wrapping_mul_crop,
};
use crate::spmv_drivers::SpMvStrategy;

/// Scalar slots of scratch this strategy budgets: the two boundary scalars
/// per thread.
pub fn dense_sparse_scratch(
    lhs: &ColMajorMat,
    rhs: &CscMatrix,
    strategy: &SpMvStrategy,
    par: Par,
) -> (req: usize)
    requires
        match par {
            Par::Sequential => true,
            Par::Threads(n) => n * 4 <= usize::MAX && n * 2 <= usize::MAX,
        },
    ensures
        req == match par {
            Par::Sequential => 0int,
            Par::Threads(n) => if lhs.nrows >= n * 4 {
                0int
            } else {
                n * 2
            },
        },
{
    match par {
        Par::Sequential => 0,
        Par::Threads(n_threads) => {
            let dim: usize = lhs.nrows;
            if dim >= n_threads * 4 {
                0
            } else {
                n_threads * 2
            }
        },
    }
}

/// One scaled contribution in this direction is the crop of the exact
/// triple product.
proof fn lemma_ds_term(m: CscMatrix, x: Seq<i64>, alpha: i64, idx: int)
    requires
        0 <= idx < m.nnz(),
        m.wf(),
        x.len() == m.nrows,
        0 <= m.row_idx@[idx] < x.len(),
    ensures
        crop(
            crop(x[m.row_idx@[idx] as int] as int * alpha as int) as int
                * m.values@[idx] as int,
        ) == crop(ds_prod_at(m, x, alpha, idx)),
{
    let p = x[m.row_idx@[idx] as int] as int * alpha as int;
    let v = m.values@[idx] as int;
    lemma_crop_eqm(p);
    lemma_eqm_mul_left(crop(p) as int, p, v);
    lemma_eqm_crop(crop(p) as int * v, p * v);
}

/// Accumulate the contributions of slots `[lo, hi)` onto `acc`.
pub fn accumulate_column_range(
    lhs: &Vec<i64>,
    rhs: &CscMatrix,
    alpha: i64,
    lo: usize,
    hi: usize,
    acc: i64,
) -> (r: i64)
    requires
        rhs.wf(),
        lhs@.len() == rhs.nrows,
        lo <= hi <= rhs.nnz(),
    ensures
        r == crop(acc + ds_sum(*rhs, lhs@, alpha, lo as int, hi as int)),
{
    ds_accumulate(lhs, rhs, alpha, lo, hi, acc)
}

/// Accumulate the contributions of slots `[lo, hi)` onto `acc`.
fn ds_accumulate(
    lhs: &Vec<i64>,
    rhs: &CscMatrix,
    alpha: i64,
    lo: usize,
    hi: usize,
    acc: i64,
) -> (r: i64)
    requires
        rhs.wf(),
        lhs@.len() == rhs.nrows,
        lo <= hi <= rhs.nnz(),
    ensures
        r == crop(acc + ds_sum(*rhs, lhs@, alpha, lo as int, hi as int)),
{
    let mut out: i64 = acc;
    let mut idx: usize = lo;
    proof {
        lemma_crop_id(acc as int);
    }
    while idx < hi
        invariant
            rhs.wf(),
            lhs@.len() == rhs.nrows,
            lo <= idx <= hi <= rhs.nnz(),
            out == crop(acc + ds_sum(*rhs, lhs@, alpha, lo as int, idx as int)),
        decreases hi - idx,
    {
        let k: usize = rhs.row_idx[idx];
        proof {
            assert(rhs.row_idx@[idx as int] < rhs.nrows);
        }
        let lhs_k: i64 = lhs[k].wrapping_mul(alpha);
        let term: i64 = lhs_k.wrapping_mul(rhs.values[idx]);
        let ghost pre: i64 = out;
        out = out.wrapping_add(term);
        proof {
            lemma_wrapping_mul_crop(lhs@[k as int], alpha);
            lemma_wrapping_mul_crop(lhs_k, rhs.values@[idx as int]);
            lemma_ds_term(*rhs, lhs@, alpha, idx as int);
            lemma_wrapping_add_crop(pre, term);
            lemma_crop_eqm(ds_prod_at(*rhs, lhs@, alpha, idx as int));
            lemma_crop_chain(
                pre,
                acc as int,
                ds_sum(*rhs, lhs@, alpha, lo as int, idx as int),
                term as int,
                ds_prod_at(*rhs, lhs@, alpha, idx as int),
            );
        }
        idx += 1;
    }
    out
}

/// One worker of the boundary-stitch strategy: write the interior columns
/// of its range directly, and return the two boundary sums for the
/// coordinating thread to stitch in.
#[verifier::rlimit(100)]
#[verifier::spinoff_prover]
pub fn stitch_worker(
    dst: &mut Vec<i64>,
    lhs: &Vec<i64>,
    rhs: &CscMatrix,
    alpha: i64,
    n_threads: usize,
    strategy: &SpMvStrategy,
    tid: usize,
) -> (lr: (i64, i64))
    requires
        rhs.wf(),
        strategy.valid_for(*rhs, n_threads as int),
        tid < n_threads,
        lhs@.len() == rhs.nrows,
        old(dst)@.len() == rhs.ncols,
    ensures
        final(dst)@.len() == old(dst)@.len(),
        forall|j: int|
            strategy.thread_cols@[tid as int] < j < strategy.thread_cols@[tid as int + 1]
                ==> final(dst)@[j] == crop(
                old(dst)@[j] + ds_sum(*rhs, lhs@, alpha, rhs.col_ptr@[j] as int,
                    rhs.col_ptr@[j + 1] as int),
            ),
        forall|j: int|
            0 <= j < old(dst)@.len() && !(strategy.thread_cols@[tid as int] < j
                < strategy.thread_cols@[tid as int + 1]) ==> final(dst)@[j] == old(dst)@[j],
        lr.0 == crop(
            ds_sum(
                *rhs,
                lhs@,
                alpha,
                strategy.thread_indptrs@[tid as int] as int,
                if strategy.thread_cols@[tid as int] == strategy.thread_cols@[tid as int + 1] {
                    strategy.thread_indptrs@[tid as int + 1] as int
                } else {
                    rhs.col_ptr@[strategy.thread_cols@[tid as int] as int + 1] as int
                },
            ),
        ),
        lr.1 == crop(
            ds_sum(
                *rhs,
                lhs@,
                alpha,
                if strategy.thread_cols@[tid as int] == strategy.thread_cols@[tid as int + 1] {
                    strategy.thread_indptrs@[tid as int + 1] as int
                } else {
                    rhs.col_ptr@[strategy.thread_cols@[tid as int + 1] as int] as int
                },
                strategy.thread_indptrs@[tid as int + 1] as int,
            ),
        ),
{
    let col_start: usize = strategy.thread_cols[tid];
    let col_end: usize = strategy.thread_cols[tid + 1];
    let idx_start: usize = strategy.thread_indptrs[tid];
    let idx_end: usize = strategy.thread_indptrs[tid + 1];
    proof {
        assert(strategy.thread_cols@[tid as int] <= strategy.thread_cols@[tid as int + 1]
            < rhs.ncols);
        assert(strategy.thread_indptrs@[tid as int] < strategy.thread_indptrs@[tid as int
            + 1]);
        assert(rhs.col_ptr@[strategy.thread_cols@[tid as int] as int] <= idx_start
            <= rhs.col_ptr@[strategy.thread_cols@[tid as int] as int + 1]);
        assert(rhs.col_ptr@[strategy.thread_cols@[tid as int + 1] as int] <= idx_end
            <= rhs.col_ptr@[strategy.thread_cols@[tid as int + 1] as int + 1]);
        lemma_col_ptr_monotone(*rhs, strategy.thread_cols@[tid as int + 1] as int + 1,
            rhs.ncols as int);
    }
    if col_start == col_end {
        // the whole slice lies in one shared boundary column
        let left: i64 = ds_accumulate(lhs, rhs, alpha, idx_start, idx_end, 0);
        proof {
            lemma_crop_id(0);
        }
        (left, 0)
    } else {
        stitch_worker_wide(dst, lhs, rhs, alpha, col_start, col_end, idx_start, idx_end)
    }
}

/// The multi-column case of a stitch worker: left part, full interior
/// columns, right part.
#[verifier::rlimit(100)]
#[verifier::spinoff_prover]
fn stitch_worker_wide(
    dst: &mut Vec<i64>,
    lhs: &Vec<i64>,
    rhs: &CscMatrix,
    alpha: i64,
    col_start: usize,
    col_end: usize,
    idx_start: usize,
    idx_end: usize,
) -> (lr: (i64, i64))
    requires
        rhs.wf(),
        lhs@.len() == rhs.nrows,
        old(dst)@.len() == rhs.ncols,
        col_start < col_end < rhs.ncols,
        rhs.col_ptr@[col_start as int] <= idx_start <= rhs.col_ptr@[col_start as int + 1],
        rhs.col_ptr@[col_end as int] <= idx_end <= rhs.col_ptr@[col_end as int + 1],
        idx_end <= rhs.nnz(),
    ensures
        final(dst)@.len() == old(dst)@.len(),
        forall|j: int|
            col_start < j < col_end ==> final(dst)@[j] == crop(
                old(dst)@[j] + ds_sum(*rhs, lhs@, alpha, rhs.col_ptr@[j] as int,
                    rhs.col_ptr@[j + 1] as int),
            ),
        forall|j: int|
            0 <= j < old(dst)@.len() && !(col_start < j < col_end) ==> final(dst)@[j] == old(
                dst,
            )@[j],
        lr.0 == crop(
            ds_sum(*rhs, lhs@, alpha, idx_start as int, rhs.col_ptr@[col_start as int
                + 1] as int),
        ),
        lr.1 == crop(
            ds_sum(*rhs, lhs@, alpha, rhs.col_ptr@[col_end as int] as int, idx_end as int),
        ),
{
    proof {
        lemma_col_ptr_monotone(*rhs, col_start + 1, col_end as int);
        lemma_col_ptr_monotone(*rhs, col_end as int, rhs.ncols as int);
    }
    let left: i64 = ds_accumulate(lhs, rhs, alpha, idx_start, rhs.col_ptr[col_start + 1], 0);
    let mut j: usize = col_start + 1;
    while j < col_end
        invariant
            rhs.wf(),
            lhs@.len() == rhs.nrows,
            col_start < j <= col_end < rhs.ncols,
            dst@.len() == old(dst)@.len() == rhs.ncols,
            forall|j2: int|
                col_start < j2 < j ==> dst@[j2] == crop(
                    old(dst)@[j2] + ds_sum(*rhs, lhs@, alpha, rhs.col_ptr@[j2] as int,
                        rhs.col_ptr@[j2 + 1] as int),
                ),
            forall|j2: int|
                0 <= j2 < dst@.len() && !(col_start < j2 < j) ==> dst@[j2] == old(
                    dst,
                )@[j2],
        decreases col_end - j,
    {
        proof {
            lemma_col_ptr_monotone(*rhs, j + 1, rhs.ncols as int);
        }
        let colsum: i64 = ds_accumulate(lhs, rhs, alpha, rhs.col_ptr[j], rhs.col_ptr[j + 1],
            0);
        let ghost pre: Seq<i64> = dst@;
        dst[j] = dst[j].wrapping_add(colsum);
        proof {
            lemma_wrapping_add_crop(pre[j as int], colsum);
            lemma_crop_eqm(ds_sum(*rhs, lhs@, alpha, rhs.col_ptr@[j as int] as int,
                rhs.col_ptr@[j as int + 1] as int));
            lemma_crop_chain(
                pre[j as int],
                old(dst)@[j as int] as int,
                0,
                colsum as int,
                ds_sum(*rhs, lhs@, alpha, rhs.col_ptr@[j as int] as int, rhs.col_ptr@[
                    j as int + 1] as int),
            );
            lemma_crop_id(old(dst)@[j as int] as int);
        }
        j += 1;
    }
    let right: i64 = ds_accumulate(lhs, rhs, alpha, rhs.col_ptr[col_end], idx_end, 0);
    (left, right)
}

/// The clamp of an index bound into output column `j`'s non-zero run: how
/// far the first `t` thread slices reach into that column.
pub open spec fn ds_clamp(m: CscMatrix, j: int, v: int) -> int {
    if v <= m.col_ptr@[j] as int {
        m.col_ptr@[j] as int
    } else if v >= m.col_ptr@[j + 1] as int {
        m.col_ptr@[j + 1] as int
    } else {
        v
    }
}

/// The boundary-stitch strategy for one destination row: each worker writes
/// its interior columns and hands back two boundary sums, which are
/// stitched into the shared destination — two scalar additions per thread.
#[verifier::rlimit(100)]
#[verifier::spinoff_prover]
pub fn par_dense_sparse(
    dst: &mut Vec<i64>,
    beta: Accum,
    lhs: &Vec<i64>,
    rhs: &CscMatrix,
    alpha: i64,
    n_threads: usize,
    strategy: &SpMvStrategy,
    stack: &mut Vec<i64>,
)
    requires
        rhs.wf(),
        strategy.valid_for(*rhs, n_threads as int),
        lhs@.len() == rhs.nrows,
        old(dst)@.len() == rhs.ncols,
    ensures
        final(dst)@.len() == old(dst)@.len(),
        final(stack)@ == old(stack)@,
        ds_post(*rhs, lhs@, alpha, old(dst)@, beta, final(dst)@),
{
    let ghost dst0: Seq<i64> = dst@;
    let ncols: usize = rhs.ncols;
    if matches!(beta, Accum::Replace) {
        let mut j: usize = 0;
        while j < ncols
            invariant
                dst@.len() == dst0.len() == ncols,
                j <= ncols,
                forall|i: int| 0 <= i < j ==> dst@[i] == 0,
                forall|i: int| j <= i < ncols ==> dst@[i] == dst0[i],
            decreases ncols - j,
        {
            dst[j] = 0i64;
            j += 1;
        }
    }
    let ghost dstb: Seq<i64> = dst@;
    let ghost ptrs: Seq<usize> = strategy.thread_indptrs@;
    let ghost cols: Seq<usize> = strategy.thread_cols@;

    proof {
        assert forall|j: int| 0 <= j < ncols implies dst@[j] == crop(
            accum_base(beta, dst0[j]) + ds_sum(*rhs, lhs@, alpha, rhs.col_ptr@[j] as int,
                ds_clamp(*rhs, j, ptrs[0] as int)),
        ) by {
            assert(ds_clamp(*rhs, j, 0) == rhs.col_ptr@[j] as int);
            lemma_crop_id(accum_base(beta, dst0[j]));
        }
    }

    let mut tid: usize = 0;
    while tid < n_threads
        invariant
            rhs.wf(),
            strategy.valid_for(*rhs, n_threads as int),
            lhs@.len() == rhs.nrows,
            ncols == rhs.ncols,
            dst@.len() == dst0.len() == ncols,
            ptrs == strategy.thread_indptrs@,
            cols == strategy.thread_cols@,
            tid <= n_threads,
            forall|j: int|
                0 <= j < ncols ==> #[trigger] dst@[j] == crop(
                    accum_base(beta, dst0[j]) + ds_sum(*rhs, lhs@, alpha, rhs.col_ptr@[
                        j] as int, ds_clamp(*rhs, j, ptrs[tid as int] as int)),
                ),
        decreases n_threads - tid,
    {
        let ghost pre: Seq<i64> = dst@;
        let (left, right): (i64, i64) = stitch_worker(dst, lhs, rhs, alpha, n_threads,
            strategy, tid);
        let ghost mid: Seq<i64> = dst@;
        let cs: usize = strategy.thread_cols[tid];
        let ce: usize = strategy.thread_cols[tid + 1];
        let ghost pl: Seq<i64> = dst@;
        dst[cs] = dst[cs].wrapping_add(left);
        let ghost pr: Seq<i64> = dst@;
        dst[ce] = dst[ce].wrapping_add(right);
        proof {
            lemma_stitch_step(*rhs, lhs@, alpha, beta, dst0, *strategy, n_threads as int,
                tid as int, pre, mid, pl, pr, dst@, left, right);
        }
        tid += 1;
    }
    proof {
        assert forall|j: int| 0 <= j < ncols implies dst@[j] == crop(
            accum_base(beta, dst0[j]) + ds_sum(*rhs, lhs@, alpha, rhs.col_ptr@[j] as int,
                rhs.col_ptr@[j + 1] as int),
        ) by {
            assert(ptrs[n_threads as int] == rhs.nnz());
            lemma_col_ptr_monotone(*rhs, j + 1, rhs.ncols as int);
            assert(ds_clamp(*rhs, j, ptrs[n_threads as int] as int) == rhs.col_ptr@[j
                + 1] as int);
        }
    }
}

/// One worker's writes and its two stitched boundary scalars advance every
/// column's applied range from one slice bound to the next.
#[verifier::rlimit(100)]
#[verifier::spinoff_prover]
proof fn lemma_stitch_step(
    m: CscMatrix,
    x: Seq<i64>,
    alpha: i64,
    beta: Accum,
    dst0: Seq<i64>,
    strategy: SpMvStrategy,
    n_threads: int,
    tid: int,
    pre: Seq<i64>,
    mid: Seq<i64>,
    pl: Seq<i64>,
    pr: Seq<i64>,
    fin: Seq<i64>,
    left: i64,
    right: i64,
)
    requires
        m.wf(),
        strategy.valid_for(m, n_threads),
        0 <= tid < n_threads,
        pre.len() == mid.len() == pl.len() == pr.len() == fin.len() == m.ncols,
        dst0.len() == m.ncols,
        forall|j: int|
            0 <= j < m.ncols ==> #[trigger] pre[j] == crop(
                accum_base(beta, dst0[j]) + ds_sum(m, x, alpha, m.col_ptr@[j] as int,
                    ds_clamp(m, j, strategy.thread_indptrs@[tid] as int)),
            ),
        forall|j: int|
            strategy.thread_cols@[tid] < j < strategy.thread_cols@[tid + 1] ==> mid[j]
                == crop(
                pre[j] + ds_sum(m, x, alpha, m.col_ptr@[j] as int, m.col_ptr@[j + 1] as int),
            ),
        forall|j: int|
            0 <= j < m.ncols && !(strategy.thread_cols@[tid] < j < strategy.thread_cols@[tid
                + 1]) ==> mid[j] == pre[j],
        left == crop(
            ds_sum(
                m,
                x,
                alpha,
                strategy.thread_indptrs@[tid] as int,
                if strategy.thread_cols@[tid] == strategy.thread_cols@[tid + 1] {
                    strategy.thread_indptrs@[tid + 1] as int
                } else {
                    m.col_ptr@[strategy.thread_cols@[tid] as int + 1] as int
                },
            ),
        ),
        right == crop(
            ds_sum(
                m,
                x,
                alpha,
                if strategy.thread_cols@[tid] == strategy.thread_cols@[tid + 1] {
                    strategy.thread_indptrs@[tid + 1] as int
                } else {
                    m.col_ptr@[strategy.thread_cols@[tid + 1] as int] as int
                },
                strategy.thread_indptrs@[tid + 1] as int,
            ),
        ),
        pl == mid,
        pr == pl.update(
            strategy.thread_cols@[tid] as int,
            crop(pl[strategy.thread_cols@[tid] as int] + left),
        ),
        fin == pr.update(
            strategy.thread_cols@[tid + 1] as int,
            crop(pr[strategy.thread_cols@[tid + 1] as int] + right),
        ),
    ensures
        forall|j: int|
            0 <= j < m.ncols ==> #[trigger] fin[j] == crop(
                accum_base(beta, dst0[j]) + ds_sum(m, x, alpha, m.col_ptr@[j] as int,
                    ds_clamp(m, j, strategy.thread_indptrs@[tid + 1] as int)),
            ),
{
    let cs = strategy.thread_cols@[tid] as int;
    let ce = strategy.thread_cols@[tid + 1] as int;
    let lo = strategy.thread_indptrs@[tid] as int;
    let hi = strategy.thread_indptrs@[tid + 1] as int;
    let cp = m.col_ptr@;
    assert(cp[cs] <= lo <= cp[cs + 1] && cp[ce] <= hi <= cp[ce + 1]);
    assert(cs <= ce < m.ncols);
    assert(lo < hi);
    assert forall|j: int| 0 <= j < m.ncols implies #[trigger] fin[j] == crop(
        accum_base(beta, dst0[j]) + ds_sum(m, x, alpha, cp[j] as int, ds_clamp(m, j, hi)),
    ) by {
        let base = accum_base(beta, dst0[j]);
        let c0 = ds_clamp(m, j, lo);
        let c1 = ds_clamp(m, j, hi);
        lemma_col_ptr_monotone(m, j + 1, m.ncols as int);
        if j < cs {
            // fully to this worker's left: applied range already complete
            lemma_col_ptr_monotone(m, j + 1, cs);
            assert(cp[j + 1] <= cp[cs] <= lo && cp[j + 1] <= hi);
            assert(c0 == cp[j + 1] as int && c1 == cp[j + 1] as int);
            assert(fin[j] == pre[j]);
        } else if j > ce {
            // fully to its right: untouched, nothing applied yet
            lemma_col_ptr_monotone(m, ce + 1, j);
            assert(lo <= hi <= cp[ce + 1] <= cp[j]);
            assert(c0 == cp[j] as int && c1 == cp[j] as int);
            assert(fin[j] == pre[j]);
        } else if cs < j && j < ce {
            // interior: the worker wrote the whole column
            lemma_col_ptr_monotone(m, cs + 1, j);
            lemma_col_ptr_monotone(m, j + 1, ce);
            assert(lo <= cp[cs + 1] <= cp[j] && cp[j + 1] <= cp[ce] <= hi);
            assert(c0 == cp[j] as int && c1 == cp[j + 1] as int);
            assert(fin[j] == mid[j]);
            lemma_crop_chain(
                pre[j],
                base,
                0,
                ds_sum(m, x, alpha, cp[j] as int, cp[j + 1] as int),
                ds_sum(m, x, alpha, cp[j] as int, cp[j + 1] as int),
            );
        } else if j == cs && cs == ce {
            // one shared column: both stitched scalars land here
            assert(c0 == lo && c1 == hi);
            assert(pr[j] == crop(mid[j] + left));
            assert(fin[j] == crop(pr[j] + right));
            lemma_crop_eqm(ds_sum(m, x, alpha, lo, hi));
            lemma_crop_chain(
                pre[j],
                base,
                ds_sum(m, x, alpha, cp[j] as int, lo),
                left as int,
                ds_sum(m, x, alpha, lo, hi),
            );
            lemma_ds_sum_split(m, x, alpha, cp[j] as int, lo, hi);
            lemma_crop_eqm(ds_sum(m, x, alpha, hi, hi));
            lemma_crop_chain(
                pr[j],
                base,
                ds_sum(m, x, alpha, cp[j] as int, hi),
                right as int,
                ds_sum(m, x, alpha, hi, hi),
            );
        } else if j == cs {
            // left boundary of a multi-column range
            lemma_col_ptr_monotone(m, cs + 1, ce);
            assert(cp[cs + 1] <= cp[ce] <= hi);
            assert(c0 == lo && c1 == cp[j + 1] as int);
            assert(j != ce);
            assert(fin[j] == pr[j] && pr[j] == crop(mid[j] + left) && mid[j] == pre[j]);
            lemma_crop_eqm(ds_sum(m, x, alpha, lo, cp[j + 1] as int));
            lemma_crop_chain(
                pre[j],
                base,
                ds_sum(m, x, alpha, cp[j] as int, lo),
                left as int,
                ds_sum(m, x, alpha, lo, cp[j + 1] as int),
            );
            lemma_ds_sum_split(m, x, alpha, cp[j] as int, lo, cp[j + 1] as int);
        } else {
            // right boundary of a multi-column range
            assert(j == ce && cs < ce);
            lemma_col_ptr_monotone(m, cs + 1, ce);
            assert(lo <= cp[cs + 1] <= cp[ce]);
            assert(c0 == cp[j] as int && c1 == hi);
            assert(fin[j] == crop(pr[j] + right) && pr[j] == mid[j] && mid[j] == pre[j]);
            lemma_crop_eqm(ds_sum(m, x, alpha, cp[ce] as int, hi));
            lemma_crop_chain(
                pre[j],
                base,
                ds_sum(m, x, alpha, cp[j] as int, cp[j] as int),
                right as int,
                ds_sum(m, x, alpha, cp[ce] as int, hi),
            );
        }
    }
}

} // verus!
