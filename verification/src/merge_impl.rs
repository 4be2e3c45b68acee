//! Merge-based strategy, priority-queue variant: each thread k-way merges
//! its owned columns' row-sorted non-zero runs into one sorted, summed-by-row
//! sparse list, and the lists are added into the destination after all
//! threads join, in thread-ascending order.
//!
//! Requires row indices to be sorted ascending within each column — the soft
//! invariant `CscMatrix::rows_sorted` — and here that requirement is an
//! explicit precondition rather than a silent assumption.
use vstd::prelude::*;

verus! {

use crate::csc::{
    accum_base, lemma_col_ptr_monotone, lemma_row_sum_split, lemma_seg_sum_eqm, row_sum, seg_sum,
    spmv_post, Accum, CscMatrix,
};
use crate::ring::{
    crop, eqm, lemma_crop_absorb, lemma_crop_chain, lemma_crop_eqm, lemma_crop_id, lemma_eqm_add,
    lemma_eqm_crop, lemma_wrapping_add_crop, lemma_wrapping_mul_crop,
};
use crate::spmv_drivers::SpMvStrategy;

/// A pending merge entry: `(destination row, raw matrix value, local column)`.
pub type MergeEntry = (usize, i64, usize);

/// A minimum queue keyed on the destination row — the priority queue of
/// this merge variant: `pop` hands out an entry with the smallest row among
/// those pending.
pub struct MinQueue {
    pub data: Vec<MergeEntry>,
}

impl MinQueue {
    pub fn new() -> (q: Self)
        ensures
            q.data@.len() == 0,
    {
        MinQueue { data: Vec::new() }
    }

    pub fn push(&mut self, e: MergeEntry)
        ensures
            final(self).data@ == old(self).data@.push(e),
    {
        self.data.push(e);
    }

    /// Remove and return an entry whose row is minimal, or `None` when the
    /// queue is empty.
    pub fn pop(&mut self) -> (r: Option<MergeEntry>)
        ensures
            (r is None <==> old(self).data@.len() == 0),
            r is None ==> final(self).data@ == old(self).data@,
            match r {
                Option::None => true,
                Option::Some(e) => {
                    &&& exists|i: int|
                        0 <= i < old(self).data@.len() && old(self).data@[i] == e
                            && final(self).data@ == old(self).data@.remove(i)
                    &&& forall|p: int|
                        0 <= p < old(self).data@.len() ==> e.0
                            <= (#[trigger] old(self).data@[p]).0
                },
            },
    {
        if self.data.len() == 0 {
            return None;
        }
        let n: usize = self.data.len();
        let mut best: usize = 0;
        let mut p: usize = 1;
        while p < n
            invariant
                n == self.data@.len(),
                0 <= best < p <= n,
                forall|q: int| 0 <= q < p ==> self.data@[best as int].0 <= #[trigger] self.data@[q].0,
            decreases n - p,
        {
            if self.data[p].0 < self.data[best].0 {
                best = p;
            }
            p += 1;
        }
        let e: MergeEntry = self.data.remove(best);
        proof {
            assert(0 <= best < old(self).data@.len() && old(self).data@[best as int] == e
                && self.data@ == old(self).data@.remove(best as int));
        }
        Some(e)
    }
}

/// The slice `[lo, hi)` lies inside matrix column `j`'s non-zero run.
/// Opaque so the column-pointer terms stay out of quantifier matching.
#[verifier::opaque]
pub open spec fn in_col(m: CscMatrix, j: int, lo: usize, hi: usize) -> bool {
    m.col_ptr@[j] <= lo && hi <= m.col_ptr@[j + 1]
}

/// Per-thread slice description: for local column `c` of thread `tid`, the
/// owned non-zero range is `los[c] .. his[c]`, lying inside matrix column
/// `thread_cols[tid] + c`, and `rhs_ks[c]` is that column's fixed multiplier
/// `x[j] * alpha`.
pub open spec fn slices_ok(
    m: CscMatrix,
    x: Seq<i64>,
    alpha: i64,
    strategy: SpMvStrategy,
    n_threads: int,
    tid: int,
    los: Seq<usize>,
    his: Seq<usize>,
    rhs_ks: Seq<i64>,
) -> bool {
    let cs = strategy.thread_cols@[tid] as int;
    let k = strategy.thread_cols@[tid + 1] as int - cs + 1;
    &&& los.len() == k
    &&& his.len() == k
    &&& rhs_ks.len() == k
    &&& los[0] == strategy.thread_indptrs@[tid]
    &&& his[k - 1] == strategy.thread_indptrs@[tid + 1]
    &&& forall|c: int| 0 <= c < k ==> #[trigger] los[c] <= his[c]
    &&& forall|c: int| 0 <= c < k - 1 ==> #[trigger] his[c] == los[c + 1]
    &&& forall|c: int| 0 <= c < k ==> in_col(m, cs + c, #[trigger] los[c], his[c])
    &&& forall|c: int| 0 <= c < k ==> #[trigger] his[c] <= m.nnz()
    &&& cs + k <= m.ncols
    &&& forall|c: int|
        0 <= c < k ==> #[trigger] rhs_ks[c] == crop(x[cs + c] as int * alpha as int)
}

/// Cut thread `tid`'s owned non-zero range into per-column slices and fix
/// each column's multiplier, as every merge worker does on entry.
#[verifier::rlimit(100)]
pub fn build_slices(
    lhs: &CscMatrix,
    rhs: &Vec<i64>,
    alpha: i64,
    n_threads: usize,
    strategy: &SpMvStrategy,
    tid: usize,
) -> (out: (Vec<usize>, Vec<usize>, Vec<i64>))
    requires
        lhs.wf(),
        strategy.valid_for(*lhs, n_threads as int),
        tid < n_threads,
        rhs@.len() == lhs.ncols,
    ensures
        slices_ok(
            *lhs,
            rhs@,
            alpha,
            *strategy,
            n_threads as int,
            tid as int,
            out.0@,
            out.1@,
            out.2@,
        ),
{
    let col_start: usize = strategy.thread_cols[tid];
    let col_end: usize = strategy.thread_cols[tid + 1];
    let idx_start: usize = strategy.thread_indptrs[tid];
    let idx_end: usize = strategy.thread_indptrs[tid + 1];
    proof {
        assert(lhs.col_ptr@[strategy.thread_cols@[tid as int] as int] <= idx_start
            <= lhs.col_ptr@[strategy.thread_cols@[tid as int] as int + 1]);
        assert(lhs.col_ptr@[strategy.thread_cols@[tid as int + 1] as int] <= idx_end
            <= lhs.col_ptr@[strategy.thread_cols@[tid as int + 1] as int + 1]);
        lemma_col_ptr_monotone(*lhs, strategy.thread_cols@[tid as int + 1] as int + 1,
            lhs.ncols as int);
    }
    proof {
        assert(strategy.thread_cols@[tid as int] <= strategy.thread_cols@[tid as int + 1]);
        assert(strategy.thread_cols@[tid as int + 1] < lhs.ncols);
        assert(strategy.thread_indptrs@[tid as int] < strategy.thread_indptrs@[tid as int + 1]);
    }
    let mut los: Vec<usize> = Vec::new();
    let mut his: Vec<usize> = Vec::new();
    let mut rhs_ks: Vec<i64> = Vec::new();
    let mut depth: usize = col_start;
    while depth <= col_end
        invariant
            lhs.wf(),
            rhs@.len() == lhs.ncols,
            col_start <= col_end < lhs.ncols,
            lhs.col_ptr@[col_start as int] <= idx_start <= lhs.col_ptr@[col_start as int + 1],
            lhs.col_ptr@[col_end as int] <= idx_end <= lhs.col_ptr@[col_end as int + 1],
            idx_start <= idx_end,
            idx_end <= lhs.nnz(),
            col_start <= depth <= col_end + 1,
            los@.len() == depth - col_start,
            his@.len() == depth - col_start,
            rhs_ks@.len() == depth - col_start,
            los@.len() > 0 ==> los@[0] == idx_start,
            forall|c: int| 0 <= c < los@.len() ==> #[trigger] los@[c] <= his@[c],
            forall|c: int|
                0 <= c < los@.len() - 1 ==> #[trigger] his@[c] == los@[c + 1],
            forall|c: int|
                0 <= c < los@.len() ==> #[trigger] in_col(*lhs, col_start + c, los@[c], his@[c]),
            forall|c: int| 0 <= c < los@.len() ==> #[trigger] his@[c] <= lhs.nnz(),
            forall|c: int|
                0 <= c < los@.len() ==> #[trigger] rhs_ks@[c] == crop(
                    rhs@[col_start + c] as int * alpha as int,
                ),
            depth <= col_end ==> (his@.len() > 0 ==> his@[his@.len() - 1] as int == if depth
                == col_start {
                idx_start as int
            } else {
                lhs.col_ptr@[depth as int] as int
            }),
            depth > col_end ==> his@[his@.len() - 1] == idx_end,
        decreases col_end + 1 - depth,
    {
        let rhs_k: i64 = rhs[depth].wrapping_mul(alpha);
        proof {
            lemma_wrapping_mul_crop(rhs@[depth as int], alpha);
        }
        let lo: usize = if depth == col_start {
            idx_start
        } else {
            lhs.col_ptr[depth]
        };
        let hi: usize = if depth == col_end {
            idx_end
        } else {
            lhs.col_ptr[depth + 1]
        };
        proof {
            lemma_col_ptr_monotone(*lhs, depth + 1, lhs.ncols as int);
            if depth < col_end {
                lemma_col_ptr_monotone(*lhs, depth + 1, col_end as int);
            }
            assert(lhs.col_ptr@[depth as int] <= lo as int && hi as int <= lhs.col_ptr@[
                depth as int + 1]);
            assert(lo <= hi);
            reveal(in_col);
            assert(in_col(*lhs, depth as int, lo, hi));
        }
        los.push(lo);
        his.push(hi);
        rhs_ks.push(rhs_k);
        depth += 1;
    }
    proof {
        assert(strategy.thread_cols@[tid as int + 1] < lhs.ncols);
    }
    (los, his, rhs_ks)
}

/// Sum, over the first `c` local columns, of each column's consumed
/// contributions to row `r`: column `c2`'s consumed slots are
/// `los[c2] .. fr[c2]`.
pub open spec fn fr_sum(
    m: CscMatrix,
    rhs_ks: Seq<i64>,
    los: Seq<usize>,
    fr: Seq<usize>,
    r: int,
    c: int,
) -> int
    decreases c,
{
    if c <= 0 {
        0
    } else {
        fr_sum(m, rhs_ks, los, fr, r, c - 1) + seg_sum(
            m,
            rhs_ks[c - 1],
            r,
            los[c - 1] as int,
            fr[c - 1] as int,
        )
    }
}

/// Changing the frontier of one column changes the consumed sum by exactly
/// that column's segment difference.
pub proof fn lemma_fr_sum_update(
    m: CscMatrix,
    rhs_ks: Seq<i64>,
    los: Seq<usize>,
    fr: Seq<usize>,
    fr2: Seq<usize>,
    r: int,
    c: int,
    c0: int,
)
    requires
        forall|c2: int| 0 <= c2 < c && c2 != c0 ==> #[trigger] fr2[c2] == fr[c2],
    ensures
        fr_sum(m, rhs_ks, los, fr2, r, c) == fr_sum(m, rhs_ks, los, fr, r, c) + if 0 <= c0 < c {
            seg_sum(m, rhs_ks[c0], r, los[c0] as int, fr2[c0] as int) - seg_sum(
                m,
                rhs_ks[c0],
                r,
                los[c0] as int,
                fr[c0] as int,
            )
        } else {
            0
        },
    decreases c,
{
    if c > 0 {
        lemma_fr_sum_update(m, rhs_ks, los, fr, fr2, r, c - 1, c0);
    }
}

/// A frontier that has consumed nothing sums to nothing.
pub proof fn lemma_fr_sum_empty(
    m: CscMatrix,
    rhs_ks: Seq<i64>,
    los: Seq<usize>,
    fr: Seq<usize>,
    r: int,
    c: int,
)
    requires
        forall|c2: int| 0 <= c2 < c ==> #[trigger] fr[c2] == los[c2],
    ensures
        fr_sum(m, rhs_ks, los, fr, r, c) == 0,
    decreases c,
{
    if c > 0 {
        lemma_fr_sum_empty(m, rhs_ks, los, fr, r, c - 1);
    }
}

/// The slice lower bounds never decrease across columns.
proof fn lemma_slice_lo_le(los: Seq<usize>, his: Seq<usize>, c: int)
    requires
        0 <= c < los.len(),
        los.len() == his.len(),
        forall|c2: int| 0 <= c2 <= c ==> #[trigger] los[c2] <= his[c2],
        forall|c2: int| 0 <= c2 < c ==> #[trigger] his[c2] == los[c2 + 1],
    ensures
        los[0] <= los[c],
    decreases c,
{
    if c > 0 {
        lemma_slice_lo_le(los, his, c - 1);
    }
}

/// Once every column is fully consumed, the per-column sums concatenate into
/// the thread's whole contribution sum — as ring elements, since each
/// column's fixed multiplier is the cropped product.
#[verifier::rlimit(100)]
pub proof fn lemma_fr_sum_total(
    m: CscMatrix,
    x: Seq<i64>,
    alpha: i64,
    cs: int,
    rhs_ks: Seq<i64>,
    los: Seq<usize>,
    his: Seq<usize>,
    fr: Seq<usize>,
    r: int,
    c: int,
)
    requires
        m.wf(),
        c <= los.len() == his.len() == rhs_ks.len() == fr.len(),
        forall|c2: int| 0 <= c2 < c ==> #[trigger] fr[c2] == his[c2],
        forall|c2: int| 0 <= c2 < c ==> #[trigger] los[c2] <= his[c2],
        forall|c2: int| 0 <= c2 < c - 1 ==> #[trigger] his[c2] == los[c2 + 1],
        forall|c2: int| 0 <= c2 < c ==> in_col(m, cs + c2, #[trigger] los[c2], his[c2]),
        forall|c2: int|
            0 <= c2 < c ==> #[trigger] rhs_ks[c2] == crop(x[cs + c2] as int * alpha as int),
        0 <= cs,
        c >= 1 ==> cs + c <= m.ncols,
    ensures
        c >= 1 ==> eqm(
            fr_sum(m, rhs_ks, los, fr, r, c),
            row_sum(m, x, alpha, r, los[0] as int, his[c - 1] as int),
        ),
    decreases c,
{
    if c == 1 {
        assert(in_col(m, cs, los[0], his[0]));
        reveal(in_col);
        lemma_seg_sum_eqm(m, x, alpha, cs, r, los[0] as int, his[0] as int);
    } else if c > 1 {
        lemma_fr_sum_total(m, x, alpha, cs, rhs_ks, los, his, fr, r, c - 1);
        lemma_slice_lo_le(los, his, c - 1);
        assert(in_col(m, cs + c - 1, los[c - 1], his[c - 1]));
        reveal(in_col);
        lemma_seg_sum_eqm(m, x, alpha, cs + c - 1, r, los[c - 1] as int, his[c - 1] as int);
        lemma_eqm_add(
            fr_sum(m, rhs_ks, los, fr, r, c - 1),
            row_sum(m, x, alpha, r, los[0] as int, his[c - 2] as int),
            seg_sum(m, rhs_ks[c - 1], r, los[c - 1] as int, his[c - 1] as int),
            row_sum(m, x, alpha, r, los[c - 1] as int, his[c - 1] as int),
        );
        lemma_row_sum_split(
            m,
            x,
            alpha,
            r,
            los[0] as int,
            los[c - 1] as int,
            his[c - 1] as int,
        );
    }
}

/// What a per-thread merge produces: a strictly row-sorted list holding, for
/// every row its slice contributes to, the cropped sum of those
/// contributions — and nothing else.
pub open spec fn merged_ok(
    m: CscMatrix,
    x: Seq<i64>,
    alpha: i64,
    lo: int,
    hi: int,
    merged: Seq<(usize, i64)>,
) -> bool {
    &&& forall|i1: int, i2: int|
        0 <= i1 < i2 < merged.len() ==> (#[trigger] merged[i1]).0 < (#[trigger] merged[i2]).0
    &&& forall|i: int|
        0 <= i < merged.len() ==> (#[trigger] merged[i]).1 == crop(
            row_sum(m, x, alpha, merged[i].0 as int, lo, hi),
        )
    &&& forall|i: int| 0 <= i < merged.len() ==> (#[trigger] merged[i]).0 < m.nrows
    &&& forall|r: int|
        0 <= r < m.nrows && (forall|i: int| 0 <= i < merged.len() ==> (#[trigger] merged[i]).0
            != r) ==> eqm(row_sum(m, x, alpha, r, lo, hi), 0)
}

/// Non-zero slots not yet merged, summed over the first `c` columns; the
/// merge loop's termination measure.
pub open spec fn rem_sum(his: Seq<usize>, fr: Seq<usize>, c: int) -> int
    decreases c,
{
    if c <= 0 {
        0
    } else {
        rem_sum(his, fr, c - 1) + (his[c - 1] - fr[c - 1])
    }
}

proof fn lemma_rem_sum_update(his: Seq<usize>, fr: Seq<usize>, fr2: Seq<usize>, c: int, c0: int)
    requires
        forall|c2: int| 0 <= c2 < c && c2 != c0 ==> #[trigger] fr2[c2] == fr[c2],
    ensures
        rem_sum(his, fr2, c) == rem_sum(his, fr, c) + if 0 <= c0 < c {
            fr[c0] - fr2[c0]
        } else {
            0
        },
    decreases c,
{
    if c > 0 {
        lemma_rem_sum_update(his, fr, fr2, c - 1, c0);
    }
}

proof fn lemma_rem_sum_nonneg(his: Seq<usize>, fr: Seq<usize>, c: int)
    requires
        c <= his.len() == fr.len(),
        forall|c2: int| 0 <= c2 < c ==> #[trigger] fr[c2] <= his[c2],
    ensures
        rem_sum(his, fr, c) >= 0,
    decreases c,
{
    if c > 0 {
        lemma_rem_sum_nonneg(his, fr, c - 1);
    }
}

/// The queue holds exactly the heads of the unfinished columns: every entry
/// is the frontier slot of a live column, no column appears twice, and every
/// live column is represented.
pub open spec fn q_content_ok(
    m: CscMatrix,
    los: Seq<usize>,
    his: Seq<usize>,
    fr: Seq<usize>,
    q: Seq<MergeEntry>,
) -> bool {
    let k = los.len() as int;
    &&& forall|p: int|
        0 <= p < q.len() ==> {
            let e = #[trigger] q[p];
            &&& e.2 < k
            &&& fr[e.2 as int] < his[e.2 as int]
            &&& e.0 == m.row_idx@[fr[e.2 as int] as int]
            &&& e.1 == m.values@[fr[e.2 as int] as int]
        }
    &&& forall|p1: int, p2: int|
        0 <= p1 < p2 < q.len() ==> (#[trigger] q[p1]).2 != (#[trigger] q[p2]).2
    &&& forall|c: int|
        0 <= c < k && #[trigger] fr[c] < his[c] ==> exists|p: int|
            0 <= p < q.len() && (#[trigger] q[p]).2 == c
}

/// The merged list built so far: strictly row-sorted, each value the cropped
/// consumed sum for its row, and rows absent from it have consumed nothing.
pub open spec fn merged_state_ok(
    m: CscMatrix,
    rhs_ks: Seq<i64>,
    los: Seq<usize>,
    fr: Seq<usize>,
    merged: Seq<(usize, i64)>,
) -> bool {
    let k = los.len() as int;
    &&& forall|i1: int, i2: int|
        0 <= i1 < i2 < merged.len() ==> (#[trigger] merged[i1]).0 < (#[trigger] merged[i2]).0
    &&& forall|i: int|
        0 <= i < merged.len() ==> (#[trigger] merged[i]).1 == crop(
            fr_sum(m, rhs_ks, los, fr, merged[i].0 as int, k),
        )
    &&& forall|i: int| 0 <= i < merged.len() ==> (#[trigger] merged[i]).0 < m.nrows
    &&& forall|r: int|
        (forall|i: int| 0 <= i < merged.len() ==> (#[trigger] merged[i]).0 != r) ==> #[trigger]
            fr_sum(m, rhs_ks, los, fr, r, k) == 0
}

/// One worker's k-way merge: drain the heads of the thread's column slices
/// in row order, summing values that land on the same row, producing one
/// sorted sparse list of the slice's contributions.
#[verifier::rlimit(100)]
pub fn thread_merge(
    lhs: &CscMatrix,
    rhs: &Vec<i64>,
    alpha: i64,
    n_threads: usize,
    strategy: &SpMvStrategy,
    tid: usize,
) -> (merged: Vec<(usize, i64)>)
    requires
        lhs.wf(),
        lhs.rows_sorted(),
        strategy.valid_for(*lhs, n_threads as int),
        tid < n_threads,
        rhs@.len() == lhs.ncols,
    ensures
        merged_ok(
            *lhs,
            rhs@,
            alpha,
            strategy.thread_indptrs@[tid as int] as int,
            strategy.thread_indptrs@[tid as int + 1] as int,
            merged@,
        ),
{
    let (los, his, rhs_ks) = build_slices(lhs, rhs, alpha, n_threads, strategy, tid);
    let ghost cs: int = strategy.thread_cols@[tid as int] as int;
    let k: usize = los.len();

    let mut q: MinQueue = MinQueue::new();
    let mut merge_ptrs: Vec<usize> = Vec::new();
    let mut c: usize = 0;
    while c < k
        invariant
            lhs.wf(),
            slices_ok(*lhs, rhs@, alpha, *strategy, n_threads as int, tid as int, los@, his@,
                rhs_ks@),
            k == los@.len(),
            c <= k,
            merge_ptrs@.len() == c,
            forall|c2: int| 0 <= c2 < c ==> #[trigger] merge_ptrs@[c2] == los@[c2],
            forall|p: int|
                0 <= p < q.data@.len() ==> {
                    let e = #[trigger] q.data@[p];
                    &&& e.2 < c
                    &&& los@[e.2 as int] < his@[e.2 as int]
                    &&& e.0 == lhs.row_idx@[los@[e.2 as int] as int]
                    &&& e.1 == lhs.values@[los@[e.2 as int] as int]
                },
            forall|p1: int, p2: int|
                0 <= p1 < p2 < q.data@.len() ==> (#[trigger] q.data@[p1]).2 != (
                #[trigger] q.data@[p2]).2,
            forall|c2: int|
                0 <= c2 < c && #[trigger] los@[c2] < his@[c2] ==> exists|p: int|
                    0 <= p < q.data@.len() && (#[trigger] q.data@[p]).2 == c2,
        decreases k - c,
    {
        let ghost q_prev: Seq<MergeEntry> = q.data@;
        if los[c] < his[c] {
            let pos: usize = los[c];
            proof {
                assert(his@[c as int] <= lhs.nnz());
            }
            q.push((lhs.row_idx[pos], lhs.values[pos], c));
        }
        merge_ptrs.push(los[c]);
        proof {
            assert forall|c2: int|
                0 <= c2 < c + 1 && #[trigger] los@[c2] < his@[c2] implies exists|p: int|
                0 <= p < q.data@.len() && (#[trigger] q.data@[p]).2 == c2 by {
                if c2 == c {
                    assert((q.data@[q.data@.len() - 1]).2 == c2);
                } else {
                    let p2 = choose|p2: int|
                        0 <= p2 < q_prev.len() && (#[trigger] q_prev[p2]).2 == c2;
                    assert((q.data@[p2]).2 == c2);
                }
            }
        }
        c += 1;
    }

    let mut merged: Vec<(usize, i64)> = Vec::new();
    proof {
        assert forall|r: int| true implies #[trigger] fr_sum(
            *lhs,
            rhs_ks@,
            los@,
            merge_ptrs@,
            r,
            k as int,
        ) == 0 by {
            lemma_fr_sum_empty(*lhs, rhs_ks@, los@, merge_ptrs@, r, k as int);
        }
    }

    while q.data.len() > 0
        invariant
            lhs.wf(),
            lhs.rows_sorted(),
            slices_ok(*lhs, rhs@, alpha, *strategy, n_threads as int, tid as int, los@, his@,
                rhs_ks@),
            cs == strategy.thread_cols@[tid as int] as int,
            k == los@.len(),
            merge_ptrs@.len() == k,
            forall|c2: int|
                0 <= c2 < k ==> los@[c2] <= #[trigger] merge_ptrs@[c2] <= his@[c2],
            q_content_ok(*lhs, los@, his@, merge_ptrs@, q.data@),
            merged_state_ok(*lhs, rhs_ks@, los@, merge_ptrs@, merged@),
            merged@.len() > 0 ==> forall|p: int|
                0 <= p < q.data@.len() ==> (#[trigger] q.data@[p]).0 >= merged@[merged@.len()
                    - 1].0,
        decreases rem_sum(his@, merge_ptrs@, k as int),
    {
        let ghost q_pre: Seq<MergeEntry> = q.data@;
        let ghost fr_pre: Seq<usize> = merge_ptrs@;
        let ghost merged_pre: Seq<(usize, i64)> = merged@;
        let popped: Option<MergeEntry> = q.pop();
        match popped {
            Option::None => {
                proof {
                    assert(false);
                }
            },
            Option::Some(e) => {
                let ghost q_mid: Seq<MergeEntry> = q.data@;
                let ghost rem_i: int = choose|i: int|
                    0 <= i < q_pre.len() && q_pre[i] == e && q_mid == q_pre.remove(i);
                proof {
                    assert(0 <= rem_i < q_pre.len() && q_pre[rem_i] == e && q_mid
                        == q_pre.remove(rem_i));
                }
                let col: usize = e.2;
                let pos: usize = merge_ptrs[col];
                proof {
                    assert(pos == fr_pre[col as int] && pos < his@[col as int]);
                    assert(his@[col as int] <= lhs.nnz());
                    assert(e.0 == lhs.row_idx@[pos as int] && e.1 == lhs.values@[pos as int]);
                    assert(lhs.row_idx@[pos as int] < lhs.nrows);
                }
                let val: i64 = e.1.wrapping_mul(rhs_ks[col]);
                let npos: usize = pos + 1;
                merge_ptrs[col] = npos;
                let ghost fr2: Seq<usize> = merge_ptrs@;
                let ghost term: int = lhs.values@[pos as int] as int * rhs_ks@[col as int] as int;
                proof {
                    lemma_wrapping_mul_crop(e.1, rhs_ks@[col as int]);
                    // the master frontier-advance fact
                    assert forall|r: int| true implies #[trigger] fr_sum(
                        *lhs,
                        rhs_ks@,
                        los@,
                        fr2,
                        r,
                        k as int,
                    ) == fr_sum(*lhs, rhs_ks@, los@, fr_pre, r, k as int) + if e.0 == r {
                        term
                    } else {
                        0int
                    } by {
                        lemma_fr_sum_update(*lhs, rhs_ks@, los@, fr_pre, fr2, r, k as int,
                            col as int);
                        assert(seg_sum(*lhs, rhs_ks@[col as int], r, los@[col as int] as int,
                            npos as int) == seg_sum(*lhs, rhs_ks@[col as int], r,
                            los@[col as int] as int, pos as int) + if lhs.row_idx@[pos as int]
                            == r {
                            term
                        } else {
                            0int
                        });
                    }
                }
                if npos < his[col] {
                    proof {
                        assert(npos < lhs.nnz());
                        assert(lhs.row_idx@[npos as int] < lhs.nrows);
                        assert(cs + col < lhs.ncols);
                        assert(in_col(*lhs, cs + col, los@[col as int], his@[col as int]));
                        reveal(in_col);
                        assert(lhs.col_ptr@[cs + col] <= los@[col as int] <= pos);
                        assert(npos < his@[col as int] && his@[col as int] <= lhs.col_ptr@[cs
                            + col + 1]);
                        assert(lhs.row_idx@[pos as int] <= lhs.row_idx@[npos as int]);
                    }
                    q.push((lhs.row_idx[npos], lhs.values[npos], col));
                }
                proof {
                    // queue content, distinctness, presence under the new frontier
                    assert forall|c2: int|
                        0 <= c2 < k && #[trigger] fr2[c2] < his@[c2] implies exists|p: int|
                        0 <= p < q.data@.len() && (#[trigger] q.data@[p]).2 == c2 by {
                        if c2 == col {
                            assert(npos < his@[col as int]);
                            assert((q.data@[q.data@.len() - 1]).2 == col as int);
                        } else {
                            assert(fr_pre[c2] < his@[c2]);
                            let p2 = choose|p2: int|
                                0 <= p2 < q_pre.len() && (#[trigger] q_pre[p2]).2 == c2;
                            assert(q_pre[rem_i].2 == col as int);
                            assert(p2 != rem_i);
                            let p3: int = if p2 < rem_i {
                                p2
                            } else {
                                p2 - 1
                            };
                            assert(q_mid[p3] == q_pre[p2]);
                            assert((q.data@[p3]).2 == c2);
                        }
                    }
                }
                let li: usize = merged.len();
                if li > 0 && merged[li - 1].0 == e.0 {
                    let prev: i64 = merged[li - 1].1;
                    merged[li - 1] = (e.0, prev.wrapping_add(val));
                    proof {
                        lemma_wrapping_add_crop(prev, val);
                        lemma_crop_chain(
                            prev,
                            0,
                            fr_sum(*lhs, rhs_ks@, los@, fr_pre, e.0 as int, k as int),
                            val as int,
                            term,
                        );
                        assert forall|i2: int|
                            0 <= i2 < merged@.len() implies (#[trigger] merged@[i2]).1 == crop(
                            fr_sum(*lhs, rhs_ks@, los@, fr2, merged@[i2].0 as int, k as int),
                        ) by {
                            if i2 < li - 1 {
                                assert(merged_pre[i2].0 < merged_pre[li - 1].0);
                                assert(merged@[i2] == merged_pre[i2]);
                            }
                        }
                    }
                } else {
                    proof {
                        if li > 0 {
                            assert forall|j: int|
                                0 <= j < merged_pre.len() implies (#[trigger] merged_pre[j]).0
                                != e.0 by {
                                if j < merged_pre.len() - 1 {
                                    assert(merged_pre[j].0 < merged_pre[merged_pre.len()
                                        - 1].0);
                                }
                            }
                        }
                        assert(fr_sum(*lhs, rhs_ks@, los@, fr_pre, e.0 as int, k as int) == 0);
                        assert(val == crop(term));
                    }
                    merged.push((e.0, val));
                    proof {
                        assert(val == crop(term));
                        assert forall|i2: int|
                            0 <= i2 < merged@.len() implies (#[trigger] merged@[i2]).1 == crop(
                            fr_sum(*lhs, rhs_ks@, los@, fr2, merged@[i2].0 as int, k as int),
                        ) by {
                            if i2 < li {
                                assert(merged@[i2] == merged_pre[i2]);
                                if i2 < li - 1 {
                                    assert(merged_pre[i2].0 < merged_pre[li - 1].0);
                                }
                                assert(merged_pre[i2].0 != e.0);
                            } else {
                                assert(merged@[i2] == (e.0, val));
                            }
                        }
                    }
                }
                proof {
                    // every queue entry still pending is at least the new last row
                    assert((merged@[merged@.len() - 1]).0 == e.0);
                    assert forall|p: int|
                        0 <= p < q.data@.len() implies (#[trigger] q.data@[p]).0 >= e.0 by {
                        if npos < his@[col as int] && p == q.data@.len() - 1 {
                            assert(q.data@[p].0 == lhs.row_idx@[npos as int]);
                        } else {
                            assert(q_mid[p] == if p < rem_i {
                                q_pre[p]
                            } else {
                                q_pre[p + 1]
                            });
                        }
                    }
                    // rows absent from the merged list have consumed nothing
                    assert forall|r: int|
                        (forall|i2: int|
                            0 <= i2 < merged@.len() ==> (#[trigger] merged@[i2]).0 != r)
                        implies #[trigger] fr_sum(*lhs, rhs_ks@, los@, fr2, r, k as int)
                        == 0 by {
                        assert(merged@[merged@.len() - 1].0 != r);
                        assert forall|i2: int|
                            0 <= i2 < merged_pre.len() implies (#[trigger] merged_pre[i2]).0
                            != r by {
                            if li > 0 && merged_pre[li - 1].0 == e.0 && i2 == li - 1 {
                                assert(merged@[li - 1].0 == e.0);
                            } else {
                                assert(merged@[i2] == merged_pre[i2]);
                            }
                        }
                        assert(fr_sum(*lhs, rhs_ks@, los@, fr_pre, r, k as int) == 0);
                    }
                    // queue contents remain exactly the live column heads
                    assert forall|p: int|
                        0 <= p < q.data@.len() implies {
                        let e2 = #[trigger] q.data@[p];
                        &&& e2.2 < k
                        &&& fr2[e2.2 as int] < his@[e2.2 as int]
                        &&& e2.0 == lhs.row_idx@[fr2[e2.2 as int] as int]
                        &&& e2.1 == lhs.values@[fr2[e2.2 as int] as int]
                    } by {
                        if npos < his@[col as int] && p == q.data@.len() - 1 {
                            assert(q.data@[p] == (lhs.row_idx@[npos as int],
                                lhs.values@[npos as int], col));
                        } else {
                            let pp: int = if p < rem_i {
                                p
                            } else {
                                p + 1
                            };
                            assert(q_mid[p] == q_pre[pp]);
                            if q_pre[pp].2 == col {
                                assert(pp != rem_i);
                                assert(false);
                            }
                        }
                    }
                    assert forall|p1: int, p2: int|
                        0 <= p1 < p2 < q.data@.len() implies (#[trigger] q.data@[p1]).2 != (
                    #[trigger] q.data@[p2]).2 by {
                        let pushed = npos < his@[col as int];
                        if pushed && p2 == q.data@.len() - 1 {
                            let pp1: int = if p1 < rem_i {
                                p1
                            } else {
                                p1 + 1
                            };
                            assert(q_mid[p1] == q_pre[pp1]);
                            if q_pre[pp1].2 == col {
                                assert(pp1 != rem_i);
                                assert(false);
                            }
                        } else {
                            let pp1: int = if p1 < rem_i {
                                p1
                            } else {
                                p1 + 1
                            };
                            let pp2: int = if p2 < rem_i {
                                p2
                            } else {
                                p2 + 1
                            };
                            assert(q_mid[p1] == q_pre[pp1] && q_mid[p2] == q_pre[pp2]);
                            assert(pp1 < pp2);
                        }
                    }
                    lemma_rem_sum_update(his@, fr_pre, fr2, k as int, col as int);
                    lemma_rem_sum_nonneg(his@, fr2, k as int);
                }
            },
        }
    }

    proof {
        assert forall|c2: int| 0 <= c2 < k implies #[trigger] merge_ptrs@[c2] == his@[c2] by {
            if merge_ptrs@[c2] < his@[c2] {
                let p = choose|p: int|
                    0 <= p < q.data@.len() && (#[trigger] q.data@[p]).2 == c2;
                assert(false);
            }
        }
        assert(merge_ptrs@ =~= his@);
        let lo = strategy.thread_indptrs@[tid as int] as int;
        let hi = strategy.thread_indptrs@[tid as int + 1] as int;
        assert(cs + k <= lhs.ncols && k >= 1);
        assert forall|i: int| 0 <= i < merged@.len() implies (#[trigger] merged@[i]).1 == crop(
            row_sum(*lhs, rhs@, alpha, merged@[i].0 as int, lo, hi),
        ) by {
            lemma_fr_sum_total(*lhs, rhs@, alpha, cs, rhs_ks@, los@, his@, his@,
                merged@[i].0 as int, k as int);
            lemma_eqm_crop(
                fr_sum(*lhs, rhs_ks@, los@, his@, merged@[i].0 as int, k as int),
                row_sum(*lhs, rhs@, alpha, merged@[i].0 as int, lo, hi),
            );
        }
        assert forall|r: int|
            0 <= r < lhs.nrows && (forall|i: int|
                0 <= i < merged@.len() ==> (#[trigger] merged@[i]).0 != r) implies eqm(
            row_sum(*lhs, rhs@, alpha, r, lo, hi),
            0,
        ) by {
            lemma_fr_sum_total(*lhs, rhs@, alpha, cs, rhs_ks@, los@, his@, his@, r, k as int);
            assert(fr_sum(*lhs, rhs_ks@, los@, his@, r, k as int) == 0);
        }
    }

    merged
}

/// Add one thread's merged list into the destination: each listed row gains
/// its cropped slice sum, every other row keeps — exactly — the value it
/// had, because its slice sum is the zero ring element.
pub fn add_merged(
    dst: &mut Vec<i64>,
    merged: &Vec<(usize, i64)>,
    lhs: &CscMatrix,
    rhs: &Vec<i64>,
    alpha: i64,
    lo: Ghost<int>,
    hi: Ghost<int>,
)
    requires
        merged_ok(*lhs, rhs@, alpha, lo@, hi@, merged@),
        old(dst)@.len() == lhs.nrows,
    ensures
        final(dst)@.len() == old(dst)@.len(),
        forall|r: int|
            0 <= r < lhs.nrows ==> final(dst)@[r] == crop(
                old(dst)@[r] + row_sum(*lhs, rhs@, alpha, r, lo@, hi@),
            ),
{
    let ghost dst0: Seq<i64> = dst@;
    let n: usize = merged.len();
    let mut i: usize = 0;
    while i < n
        invariant
            merged_ok(*lhs, rhs@, alpha, lo@, hi@, merged@),
            n == merged@.len(),
            i <= n,
            dst@.len() == dst0.len() == lhs.nrows,
            forall|j: int|
                0 <= j < i ==> dst@[(#[trigger] merged@[j]).0 as int] == crop(
                    dst0[merged@[j].0 as int] + row_sum(*lhs, rhs@, alpha, merged@[j].0 as int,
                        lo@, hi@),
                ),
            forall|r: int|
                0 <= r < dst@.len() && (forall|j: int|
                    0 <= j < i ==> (#[trigger] merged@[j]).0 != r) ==> dst@[r] == dst0[r],
        decreases n - i,
    {
        let (row, val): (usize, i64) = merged[i];
        let ghost pre: Seq<i64> = dst@;
        dst[row] = dst[row].wrapping_add(val);
        proof {
            lemma_wrapping_add_crop(pre[row as int], val);
            assert(pre[row as int] == dst0[row as int]) by {
                assert forall|j: int| 0 <= j < i implies (#[trigger] merged@[j]).0 != row
                    as int by {
                    assert(merged@[j].0 < merged@[i as int].0);
                }
            }
            lemma_crop_absorb(
                dst0[row as int] as int,
                row_sum(*lhs, rhs@, alpha, row as int, lo@, hi@),
            );
        }
        i += 1;
    }
    proof {
        assert forall|r: int| 0 <= r < lhs.nrows implies dst@[r] == crop(
            dst0[r] + row_sum(*lhs, rhs@, alpha, r, lo@, hi@),
        ) by {
            if forall|j: int| 0 <= j < merged@.len() ==> (#[trigger] merged@[j]).0 != r {
                assert(dst@[r] == dst0[r]);
                assert(eqm(row_sum(*lhs, rhs@, alpha, r, lo@, hi@), 0));
                lemma_eqm_add(dst0[r] as int, dst0[r] as int,
                    row_sum(*lhs, rhs@, alpha, r, lo@, hi@), 0);
                lemma_eqm_crop(dst0[r] + row_sum(*lhs, rhs@, alpha, r, lo@, hi@),
                    dst0[r] as int + 0);
                lemma_crop_id(dst0[r] as int);
            } else {
                let j = choose|j: int|
                    0 <= j < merged@.len() && (#[trigger] merged@[j]).0 == r;
            }
        }
    }
}

/// The merge strategy for one destination column: every thread k-way merges
/// its slice into a sorted list, and the lists are folded into the
/// destination in thread-ascending order.
pub fn par_sparse_dense(
    dst: &mut Vec<i64>,
    beta: Accum,
    lhs: &CscMatrix,
    rhs: &Vec<i64>,
    alpha: i64,
    n_threads: usize,
    strategy: &SpMvStrategy,
    stack: &mut Vec<i64>,
)
    requires
        lhs.wf(),
        lhs.rows_sorted(),
        strategy.valid_for(*lhs, n_threads as int),
        rhs@.len() == lhs.ncols,
        old(dst)@.len() == lhs.nrows,
    ensures
        final(dst)@.len() == old(dst)@.len(),
        final(stack)@ == old(stack)@,
        spmv_post(*lhs, rhs@, alpha, old(dst)@, beta, final(dst)@),
{
    let ghost dst0: Seq<i64> = dst@;
    let nrows: usize = lhs.nrows;
    if matches!(beta, Accum::Replace) {
        let mut r: usize = 0;
        while r < nrows
            invariant
                dst@.len() == dst0.len() == nrows,
                r <= nrows,
                forall|i: int| 0 <= i < r ==> dst@[i] == 0,
                forall|i: int| r <= i < nrows ==> dst@[i] == dst0[i],
            decreases nrows - r,
        {
            dst[r] = 0i64;
            r += 1;
        }
    }
    proof {
        assert forall|i: int| 0 <= i < nrows implies dst@[i] == crop(
            accum_base(beta, dst0[i]) + row_sum(*lhs, rhs@, alpha, i, 0,
                strategy.thread_indptrs@[0] as int),
        ) by {
            lemma_crop_id(accum_base(beta, dst0[i]));
        }
    }
    let mut tid: usize = 0;
    while tid < n_threads
        invariant
            lhs.wf(),
            lhs.rows_sorted(),
            strategy.valid_for(*lhs, n_threads as int),
            rhs@.len() == lhs.ncols,
            nrows == lhs.nrows,
            tid <= n_threads,
            dst@.len() == dst0.len() == nrows,
            forall|i: int|
                0 <= i < nrows ==> dst@[i] == crop(
                    accum_base(beta, dst0[i]) + row_sum(*lhs, rhs@, alpha, i, 0,
                        strategy.thread_indptrs@[tid as int] as int),
                ),
        decreases n_threads - tid,
    {
        let merged: Vec<(usize, i64)> = thread_merge(lhs, rhs, alpha, n_threads, strategy, tid);
        let ghost pre: Seq<i64> = dst@;
        let ghost lo: int = strategy.thread_indptrs@[tid as int] as int;
        let ghost hi: int = strategy.thread_indptrs@[tid as int + 1] as int;
        add_merged(dst, &merged, lhs, rhs, alpha, Ghost(lo), Ghost(hi));
        proof {
            assert forall|i: int| 0 <= i < nrows implies dst@[i] == crop(
                accum_base(beta, dst0[i]) + row_sum(*lhs, rhs@, alpha, i, 0, hi),
            ) by {
                lemma_crop_chain(
                    pre[i],
                    accum_base(beta, dst0[i]),
                    row_sum(*lhs, rhs@, alpha, i, 0, lo),
                    row_sum(*lhs, rhs@, alpha, i, lo, hi),
                    row_sum(*lhs, rhs@, alpha, i, lo, hi),
                );
                lemma_row_sum_split(*lhs, rhs@, alpha, i, 0, lo, hi);
            }
        }
        tid += 1;
    }
    proof {
        assert(strategy.thread_indptrs@[n_threads as int] == lhs.nnz());
    }
}

} // verus!
