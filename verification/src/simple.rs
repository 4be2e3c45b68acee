//! The simplest parallel strategy: every thread accumulates its column
//! range's contributions into a private dense workspace the size of the
//! destination, and a final row-chunked reduction sums the per-thread
//! workspaces into the destination in thread-ascending order.
use vstd::prelude::*;

verus! {

use crate::csc::{
    accum_base, lemma_seg_sum_eqm, row_sum, lemma_row_sum_split, seg_sum, spmv_post, Accum,
    ColMajorMat, CscMatrix, Par,
};
use crate::ring::{
    crop, eqm, lemma_crop_absorb, lemma_crop_chain, lemma_crop_eqm, lemma_crop_id, lemma_eqm_add,
    lemma_eqm_crop, lemma_wrapping_add_crop, lemma_wrapping_mul_crop,
};
use crate::spmv_drivers::SpMvStrategy;

/// Scalar slots of scratch this strategy needs: one destination-length
/// column per thread, unless the problem is sequential or wide enough for
/// column-parallel work (which needs none).
pub fn sparse_dense_scratch(
    lhs: &CscMatrix,
    rhs: &ColMajorMat,
    strategy: &SpMvStrategy,
    par: Par,
) -> (req: usize)
    requires
        match par {
            Par::Sequential => true,
            Par::Threads(n) => n * 4 <= usize::MAX && (rhs.ncols < n * 4 ==> lhs.nrows * n
                <= usize::MAX),
        },
    ensures
        req == match par {
            Par::Sequential => 0int,
            Par::Threads(n) => if rhs.ncols >= n * 4 {
                0int
            } else {
                lhs.nrows * n
            },
        },
{
    match par {
        Par::Sequential => 0,
        Par::Threads(n_threads) => {
            let dim: usize = rhs.ncols;
            if dim >= n_threads * 4 {
                0
            } else {
                lhs.nrows * n_threads
            }
        },
    }
}

/// The hot inner loop: add every contribution of the non-zero slots in
/// `[lo, hi)`, scaled by the fixed multiplier `rhs_k`, into the workspace
/// column that starts at `off`.
pub fn hot_loop(lhs: &CscMatrix, lo: usize, hi: usize, rhs_k: i64, work: &mut Vec<i64>, off: usize)
    requires
        lhs.wf(),
        lo <= hi <= lhs.nnz(),
        off + lhs.nrows <= old(work).len(),
    ensures
        final(work)@.len() == old(work)@.len(),
        forall|r: int|
            0 <= r < lhs.nrows ==> final(work)@[off + r] == crop(
                old(work)@[off + r] + seg_sum(*lhs, rhs_k, r, lo as int, hi as int),
            ),
        forall|k: int|
            0 <= k < old(work)@.len() && !(off <= k < off + lhs.nrows) ==> final(work)@[k] == old(
                work,
            )@[k],
{
    let ghost work0: Seq<i64> = work@;
    let mut idx: usize = lo;
    while idx < hi
        invariant
            lhs.wf(),
            lo <= idx <= hi <= lhs.nnz(),
            off + lhs.nrows <= work0.len(),
            off + lhs.nrows <= usize::MAX,
            work@.len() == work0.len(),
            forall|r: int|
                0 <= r < lhs.nrows ==> work@[off + r] == crop(
                    work0[off + r] + seg_sum(*lhs, rhs_k, r, lo as int, idx as int),
                ),
            forall|k: int|
                0 <= k < work0.len() && !(off <= k < off + lhs.nrows) ==> work@[k] == work0[k],
        decreases hi - idx,
    {
        let i: usize = lhs.row_idx[idx];
        proof {
            assert(lhs.row_idx@[idx as int] < lhs.nrows);
        }
        let term: i64 = lhs.values[idx].wrapping_mul(rhs_k);
        let ghost pre: Seq<i64> = work@;
        work[off + i] = work[off + i].wrapping_add(term);
        proof {
            lemma_wrapping_mul_crop(lhs.values@[idx as int], rhs_k);
            lemma_wrapping_add_crop(pre[off + i], term);
            lemma_crop_eqm(lhs.values@[idx as int] as int * rhs_k as int);
            lemma_crop_chain(
                pre[off + i],
                work0[off + i as int] as int,
                seg_sum(*lhs, rhs_k, i as int, lo as int, idx as int),
                term as int,
                lhs.values@[idx as int] as int * rhs_k as int,
            );
            assert(seg_sum(*lhs, rhs_k, i as int, lo as int, idx as int + 1) == seg_sum(
                *lhs,
                rhs_k,
                i as int,
                lo as int,
                idx as int,
            ) + lhs.values@[idx as int] as int * rhs_k as int);
            assert forall|r: int|
                0 <= r < lhs.nrows && r != i implies work@[off + r] == crop(
                work0[off + r] + #[trigger] seg_sum(*lhs, rhs_k, r, lo as int, idx as int + 1),
            ) by {
                assert(work@[off + r] == pre[off + r]);
                assert(seg_sum(*lhs, rhs_k, r, lo as int, idx as int + 1) == seg_sum(
                    *lhs,
                    rhs_k,
                    r,
                    lo as int,
                    idx as int,
                ));
            }
        }
        idx += 1;
    }
}

/// One worker's share of the compute phase: accumulate the contributions of
/// the thread's owned non-zero range, column by column, into its private
/// workspace column at `off`.
pub fn accumulate_columns(
    lhs: &CscMatrix,
    rhs: &Vec<i64>,
    alpha: i64,
    n_threads: usize,
    strategy: &SpMvStrategy,
    tid: usize,
    work: &mut Vec<i64>,
    off: usize,
)
    requires
        lhs.wf(),
        strategy.valid_for(*lhs, n_threads as int),
        tid < n_threads,
        rhs@.len() == lhs.ncols,
        off + lhs.nrows <= old(work).len(),
    ensures
        final(work)@.len() == old(work)@.len(),
        forall|r: int|
            0 <= r < lhs.nrows ==> final(work)@[off + r] == crop(
                old(work)@[off + r] + #[trigger] row_sum(
                    *lhs,
                    rhs@,
                    alpha,
                    r,
                    strategy.thread_indptrs@[tid as int] as int,
                    strategy.thread_indptrs@[tid as int + 1] as int,
                ),
            ),
        forall|k: int|
            0 <= k < old(work)@.len() && !(off <= k < off + lhs.nrows) ==> final(work)@[k] == old(
                work,
            )@[k],
{
    let ghost work0: Seq<i64> = work@;
    let ghost ptrs: Seq<usize> = strategy.thread_indptrs@;
    let col_start: usize = strategy.thread_cols[tid];
    let col_end: usize = strategy.thread_cols[tid + 1];
    let idx_start: usize = strategy.thread_indptrs[tid];
    let idx_end: usize = strategy.thread_indptrs[tid + 1];

    let mut depth: usize = col_start;
    let mut covered: usize = idx_start;
    proof {
        assert(lhs.col_ptr@[strategy.thread_cols@[tid as int] as int] <= idx_start
            <= lhs.col_ptr@[strategy.thread_cols@[tid as int] as int + 1]);
        assert(lhs.col_ptr@[strategy.thread_cols@[tid as int + 1] as int] <= idx_end
            <= lhs.col_ptr@[strategy.thread_cols@[tid as int + 1] as int + 1]);
        crate::csc::lemma_col_ptr_monotone(
            *lhs,
            strategy.thread_cols@[tid as int] as int + 1,
            lhs.ncols as int,
        );
        crate::csc::lemma_col_ptr_monotone(
            *lhs,
            strategy.thread_cols@[tid as int + 1] as int + 1,
            lhs.ncols as int,
        );
    }
    proof {
        assert forall|r: int| 0 <= r < lhs.nrows implies work@[off + r] == crop(
            work0[off + r] + row_sum(*lhs, rhs@, alpha, r, idx_start as int, covered as int),
        ) by {
            lemma_crop_id(work0[off + r] as int);
        }
    }
    while depth <= col_end
        invariant
            lhs.wf(),
            strategy.valid_for(*lhs, n_threads as int),
            tid < n_threads,
            rhs@.len() == lhs.ncols,
            off + lhs.nrows <= work0.len(),
            off + lhs.nrows <= usize::MAX,
            work@.len() == work0.len(),
            col_start == strategy.thread_cols@[tid as int],
            col_end == strategy.thread_cols@[tid as int + 1],
            idx_start == strategy.thread_indptrs@[tid as int],
            idx_end == strategy.thread_indptrs@[tid as int + 1],
            col_start <= depth <= col_end + 1,
            depth == col_start ==> covered == idx_start,
            depth > col_start ==> covered as int == if depth <= col_end {
                lhs.col_ptr@[depth as int] as int
            } else {
                idx_end as int
            },
            idx_start <= covered,
            covered as int <= lhs.nnz(),
            forall|r: int|
                0 <= r < lhs.nrows ==> work@[off + r] == crop(
                    work0[off + r] + row_sum(
                        *lhs,
                        rhs@,
                        alpha,
                        r,
                        idx_start as int,
                        covered as int,
                    ),
                ),
            forall|k: int|
                0 <= k < work0.len() && !(off <= k < off + lhs.nrows) ==> work@[k] == work0[k],
        decreases col_end + 1 - depth,
    {
        let rhs_k: i64 = rhs[depth].wrapping_mul(alpha);
        proof {
            lemma_wrapping_mul_crop(rhs@[depth as int], alpha);
        }
        let lo: usize = if depth == col_start {
            idx_start
        } else {
            lhs.col_ptr[depth]
        };
        let hi: usize = if depth == col_end {
            idx_end
        } else {
            lhs.col_ptr[depth + 1]
        };
        proof {
            assert(strategy.thread_cols@[tid as int] <= strategy.thread_cols@[tid as int + 1]);
            assert(strategy.thread_indptrs@[tid as int] < strategy.thread_indptrs@[tid as int
                + 1]);
            assert(lhs.col_ptr@[strategy.thread_cols@[tid as int] as int] <= idx_start
                <= lhs.col_ptr@[strategy.thread_cols@[tid as int] as int + 1]);
            assert(lhs.col_ptr@[strategy.thread_cols@[tid as int + 1] as int] <= idx_end
                <= lhs.col_ptr@[strategy.thread_cols@[tid as int + 1] as int + 1]);
            crate::csc::lemma_col_ptr_monotone(*lhs, depth + 1, lhs.ncols as int);
            if depth < col_end {
                crate::csc::lemma_col_ptr_monotone(*lhs, depth + 1, col_end as int);
            }
            assert(lhs.col_ptr@[depth as int] <= lo as int <= hi as int <= lhs.col_ptr@[
                depth as int + 1]);
            assert(lo == covered);
        }
        let ghost pre: Seq<i64> = work@;
        hot_loop(lhs, lo, hi, rhs_k, work, off);
        proof {
            assert forall|r: int| 0 <= r < lhs.nrows implies work@[off + r] == crop(
                work0[off + r] + row_sum(*lhs, rhs@, alpha, r, idx_start as int, hi as int),
            ) by {
                lemma_seg_sum_eqm(*lhs, rhs@, alpha, depth as int, r, lo as int, hi as int);
                lemma_crop_chain(
                    pre[off + r],
                    work0[off + r] as int,
                    row_sum(*lhs, rhs@, alpha, r, idx_start as int, lo as int),
                    seg_sum(*lhs, rhs_k, r, lo as int, hi as int),
                    row_sum(*lhs, rhs@, alpha, r, lo as int, hi as int),
                );
                lemma_row_sum_split(*lhs, rhs@, alpha, r, idx_start as int, lo as int, hi as int);
            }
        }
        covered = hi;
        depth += 1;
    }
}

/// Sum of the workspace cells for destination row `r` across the first `t`
/// thread columns, in thread-ascending order.
pub open spec fn wsum(work: Seq<i64>, nrows: int, r: int, t: int) -> int
    decreases t,
{
    if t <= 0 {
        0
    } else {
        wsum(work, nrows, r, t - 1) + work[(t - 1) * nrows + r]
    }
}

/// The reduction phase: add, for every destination row, the per-thread
/// workspace cells for that row — thread-ascending — into the destination.
/// A threaded front end chunks the rows across reducing workers; the
/// row-by-row order below is exactly the order each destination cell sees.
pub fn reduce_workspaces(n_threads: usize, nrows: usize, work: &Vec<i64>, dst: &mut Vec<i64>)
    requires
        n_threads * nrows <= work.len(),
        old(dst)@.len() == nrows,
    ensures
        final(dst)@.len() == nrows,
        forall|r: int|
            0 <= r < nrows ==> final(dst)@[r] == crop(
                old(dst)@[r] + wsum(work@, nrows as int, r, n_threads as int),
            ),
{
    let ghost dst0: Seq<i64> = dst@;
    let mut r: usize = 0;
    while r < nrows
        invariant
            n_threads * nrows <= work@.len(),
            n_threads * nrows <= usize::MAX,
            dst@.len() == dst0.len() == nrows,
            r <= nrows,
            forall|i: int|
                0 <= i < r ==> dst@[i] == crop(
                    dst0[i] + wsum(work@, nrows as int, i, n_threads as int),
                ),
            forall|i: int| r <= i < nrows ==> dst@[i] == dst0[i],
        decreases nrows - r,
    {
        let mut s: i64 = 0;
        let mut t: usize = 0;
        proof {
            lemma_crop_id(0);
        }
        while t < n_threads
            invariant
                n_threads * nrows <= work@.len(),
                n_threads * nrows <= usize::MAX,
                r < nrows,
                t <= n_threads,
                s == crop(wsum(work@, nrows as int, r as int, t as int)),
            decreases n_threads - t,
        {
            proof {
                assert((t + 1) * nrows <= n_threads * nrows) by (nonlinear_arith)
                    requires
                        t < n_threads,
                        nrows >= 0,
                ;
                assert(t * nrows + nrows == (t + 1) * nrows) by (nonlinear_arith);
            }
            let cell: i64 = work[t * nrows + r];
            let ghost spre: i64 = s;
            s = s.wrapping_add(cell);
            proof {
                lemma_wrapping_add_crop(spre, cell);
                lemma_crop_chain(
                    spre,
                    0,
                    wsum(work@, nrows as int, r as int, t as int),
                    cell as int,
                    cell as int,
                );
            }
            t += 1;
        }
        let ghost dpre: i64 = dst@[r as int];
        dst[r] = dst[r].wrapping_add(s);
        proof {
            lemma_wrapping_add_crop(dpre, s);
            lemma_crop_absorb(dpre as int, wsum(work@, nrows as int, r as int, n_threads as int));
        }
        r += 1;
    }
}

/// Workspace columns that each hold their thread's cropped contribution sum
/// add up — thread-ascending — to the whole matrix's contribution sum, as
/// ring elements.
proof fn lemma_wsum_total(
    work: Seq<i64>,
    m: CscMatrix,
    x: Seq<i64>,
    alpha: i64,
    ptrs: Seq<usize>,
    r: int,
    t: int,
)
    requires
        0 <= r < m.nrows,
        0 <= t <= ptrs.len() - 1,
        ptrs[0] == 0,
        forall|t2: int| 0 <= t2 < ptrs.len() - 1 ==> #[trigger] ptrs[t2] <= ptrs[t2 + 1],
        forall|t2: int|
            0 <= t2 < ptrs.len() - 1 ==> work[t2 * m.nrows + r] == crop(
                row_sum(m, x, alpha, r, #[trigger] ptrs[t2] as int, ptrs[t2 + 1] as int),
            ),
    ensures
        eqm(wsum(work, m.nrows as int, r, t), row_sum(m, x, alpha, r, 0, ptrs[t] as int)),
    decreases t,
{
    if t <= 0 {
    } else {
        lemma_wsum_total(work, m, x, alpha, ptrs, r, t - 1);
        lemma_crop_eqm(row_sum(m, x, alpha, r, ptrs[t - 1] as int, ptrs[t] as int));
        lemma_eqm_add(
            wsum(work, m.nrows as int, r, t - 1),
            row_sum(m, x, alpha, r, 0, ptrs[t - 1] as int),
            work[(t - 1) * m.nrows + r] as int,
            row_sum(m, x, alpha, r, ptrs[t - 1] as int, ptrs[t] as int),
        );
        lemma_row_sum_split(m, x, alpha, r, 0, ptrs[t - 1] as int, ptrs[t] as int);
    }
}

/// The simple reduction strategy for one destination column: each thread
/// fills a private dense workspace from its owned non-zero range, and the
/// reduction sums the workspaces into the destination in thread order.
///
/// `stack` is the caller-supplied scratch arena; it must hold at least the
/// slots `sparse_dense_scratch` reported for this shape and thread count.
pub fn par_sparse_dense(
    dst: &mut Vec<i64>,
    beta: Accum,
    lhs: &CscMatrix,
    rhs: &Vec<i64>,
    alpha: i64,
    n_threads: usize,
    strategy: &SpMvStrategy,
    stack: &mut Vec<i64>,
)
    requires
        lhs.wf(),
        strategy.valid_for(*lhs, n_threads as int),
        rhs@.len() == lhs.ncols,
        old(dst)@.len() == lhs.nrows,
        lhs.nrows * n_threads <= old(stack).len(),
    ensures
        final(dst)@.len() == old(dst)@.len(),
        final(stack)@.len() == old(stack)@.len(),
        spmv_post(*lhs, rhs@, alpha, old(dst)@, beta, final(dst)@),
{
    let ghost dst0: Seq<i64> = dst@;
    let nrows: usize = lhs.nrows;
    proof {
        assert(nrows * n_threads == n_threads * nrows) by (nonlinear_arith);
    }

    // Zero the workspace region: the workers expect zeroed scratch.
    let total: usize = nrows * n_threads;
    let mut k: usize = 0;
    while k < total
        invariant
            stack@.len() == old(stack)@.len(),
            total <= stack@.len(),
            k <= total,
            forall|i: int| 0 <= i < k ==> stack@[i] == 0,
        decreases total - k,
    {
        stack[k] = 0i64;
        k += 1;
    }

    // Compute phase: one workspace column per thread.
    let mut tid: usize = 0;
    while tid < n_threads
        invariant
            lhs.wf(),
            strategy.valid_for(*lhs, n_threads as int),
            rhs@.len() == lhs.ncols,
            nrows == lhs.nrows,
            tid <= n_threads,
            stack@.len() == old(stack)@.len(),
            dst@.len() == dst0.len(),
            n_threads * nrows <= stack@.len(),
            n_threads * nrows <= usize::MAX,
            forall|t: int, r: int|
                0 <= t < tid && 0 <= r < nrows ==> #[trigger] stack@[t * nrows + r] == crop(
                    row_sum(
                        *lhs,
                        rhs@,
                        alpha,
                        r,
                        strategy.thread_indptrs@[t] as int,
                        strategy.thread_indptrs@[t + 1] as int,
                    ),
                ),
            forall|i: int| tid * nrows <= i < n_threads * nrows ==> stack@[i] == 0,
        decreases n_threads - tid,
    {
        proof {
            assert((tid + 1) * nrows <= n_threads * nrows && tid * nrows + nrows == (tid + 1)
                * nrows) by (nonlinear_arith)
                requires
                    tid < n_threads,
                    nrows >= 0,
            ;
        }
        let ghost pre: Seq<i64> = stack@;
        accumulate_columns(lhs, rhs, alpha, n_threads, strategy, tid, stack, tid * nrows);
        proof {
            assert forall|t: int, r: int| 0 <= t < tid + 1 && 0 <= r < nrows implies #[trigger] stack@[t
                * nrows + r] == crop(
                row_sum(
                    *lhs,
                    rhs@,
                    alpha,
                    r,
                    strategy.thread_indptrs@[t] as int,
                    strategy.thread_indptrs@[t + 1] as int,
                ),
            ) by {
                assert(t * nrows + r < (t + 1) * nrows <= (tid + 1) * nrows && t * nrows + nrows
                    == (t + 1) * nrows && t * nrows >= 0) by (nonlinear_arith)
                    requires
                        0 <= t <= tid,
                        0 <= r < nrows,
                ;
                if t < tid {
                    assert((t + 1) * nrows <= tid * nrows) by (nonlinear_arith)
                        requires
                            t < tid,
                            nrows >= 0,
                    ;
                } else {
                    assert(pre[tid * nrows + r] == 0);
                }
            }
            assert forall|i: int| (tid + 1) * nrows <= i < n_threads * nrows implies stack@[i]
                == 0 by {
                assert(tid * nrows <= (tid + 1) * nrows) by (nonlinear_arith);
            }
        }
        tid += 1;
    }

    // Replace mode: the coordinating side zeroes the destination while the
    // workers fill their workspaces.
    if matches!(beta, Accum::Replace) {
        let mut r: usize = 0;
        while r < nrows
            invariant
                stack@.len() == old(stack)@.len(),
                dst@.len() == dst0.len() == nrows,
                r <= nrows,
                forall|i: int| 0 <= i < r ==> dst@[i] == 0,
                forall|i: int| r <= i < nrows ==> dst@[i] == dst0[i],
            decreases nrows - r,
        {
            dst[r] = 0i64;
            r += 1;
        }
    }
    let ghost dmid: Seq<i64> = dst@;

    // Reduction phase.
    proof {
        assert(n_threads * nrows <= stack@.len());
    }
    reduce_workspaces(n_threads, nrows, stack, dst);

    proof {
        let ptrs = strategy.thread_indptrs@;
        assert forall|r: int| 0 <= r < nrows implies dst@[r] == crop(
            accum_base(beta, dst0[r]) + row_sum(*lhs, rhs@, alpha, r, 0, lhs.nnz()),
        ) by {
            lemma_wsum_total(stack@, *lhs, rhs@, alpha, ptrs, r, n_threads as int);
            assert(dst@[r] == crop(dmid[r] + wsum(stack@, nrows as int, r, n_threads as int)));
            assert(dmid[r] as int == accum_base(beta, dst0[r]));
            lemma_eqm_add(
                dmid[r] as int,
                dmid[r] as int,
                wsum(stack@, nrows as int, r, n_threads as int),
                row_sum(*lhs, rhs@, alpha, r, 0, lhs.nnz()),
            );
            lemma_eqm_crop(
                dmid[r] + wsum(stack@, nrows as int, r, n_threads as int),
                dmid[r] + row_sum(*lhs, rhs@, alpha, r, 0, lhs.nnz()),
            );
        }
    }
}

} // verus!
