use vstd::prelude::*;

verus! {

use crate::ring::{
    crop, eqm, lemma_crop_absorb, lemma_crop_eqm, lemma_crop_id, lemma_eqm_add, lemma_eqm_crop,
    lemma_eqm_mul_left, lemma_wrapping_add_crop, lemma_wrapping_mul_crop,
};

/// How a multiply treats the existing destination contents: overwrite it, or
/// add the product on top of it.
#[derive(Clone, Copy, PartialEq, Eq, Structural)]
pub enum Accum {
    Replace,
    Add,
}

/// Requested execution mode: the sequential reference path, or a fixed pool
/// of worker threads.
#[derive(Clone, Copy, PartialEq, Eq, Structural)]
pub enum Par {
    Sequential,
    Threads(usize),
}

/// A sparse matrix in compressed-column form. `col_ptr` has one entry per
/// column plus a final sentinel equal to `nnz`; the non-zeros of column `j`
/// occupy `row_idx[col_ptr[j] .. col_ptr[j + 1]]` and the parallel slice of
/// `values`.
///
/// Values are `i64` ring elements combined by wrapping arithmetic, standing
/// in for the generic scalar of the multiply; all contracts below pin results
/// exactly in that ring.
pub struct CscMatrix {
    pub nrows: usize,
    pub ncols: usize,
    pub col_ptr: Vec<usize>,
    pub row_idx: Vec<usize>,
    pub values: Vec<i64>,
}

impl CscMatrix {
    /// Number of stored non-zero entries.
    pub open spec fn nnz(self) -> int {
        self.row_idx@.len() as int
    }

    /// Structural well-formedness of the compressed-column arrays.
    pub open spec fn wf(self) -> bool {
        &&& self.col_ptr@.len() == self.ncols + 1
        &&& self.col_ptr@[0] == 0
        &&& self.col_ptr@[self.ncols as int] == self.nnz()
        &&& forall|j: int|
            0 <= j < self.ncols ==> #[trigger] self.col_ptr@[j] <= self.col_ptr@[j + 1]
        &&& self.values@.len() == self.nnz()
        &&& forall|k: int| 0 <= k < self.nnz() ==> #[trigger] self.row_idx@[k] < self.nrows
    }

    /// Row indices never decrease within a column: the soft invariant the
    /// merge-based strategies rely on.
    pub open spec fn rows_sorted(self) -> bool {
        forall|j: int, p: int, q: int|
            #![trigger self.col_ptr@[j], self.row_idx@[p], self.row_idx@[q]]
            0 <= j < self.ncols && self.col_ptr@[j] <= p < q < self.col_ptr@[j + 1]
                ==> self.row_idx@[p] <= self.row_idx@[q]
    }

    /// Number of non-zeros, as an executable query.
    pub fn compute_nnz(&self) -> (n: usize)
        ensures
            n == self.nnz(),
    {
        self.row_idx.len()
    }
}

/// Column pointers never decrease across any distance.
pub proof fn lemma_col_ptr_monotone(m: CscMatrix, j1: int, j2: int)
    requires
        m.wf(),
        0 <= j1 <= j2 <= m.ncols,
    ensures
        m.col_ptr@[j1] <= m.col_ptr@[j2],
    decreases j2 - j1,
{
    if j1 < j2 {
        lemma_col_ptr_monotone(m, j1, j2 - 1);
    }
}

/// The column whose index range holds non-zero slot `idx`.
pub open spec fn col_containing(m: CscMatrix, idx: int) -> int {
    choose|j: int| 0 <= j < m.ncols && #[trigger] m.col_ptr@[j] <= idx < m.col_ptr@[j + 1]
}

proof fn lemma_col_exists_from(m: CscMatrix, j0: int, idx: int)
    requires
        m.wf(),
        0 <= j0 < m.ncols,
        m.col_ptr@[j0] <= idx < m.nnz(),
    ensures
        exists|j: int| 0 <= j < m.ncols && #[trigger] m.col_ptr@[j] <= idx < m.col_ptr@[j + 1],
    decreases m.ncols - j0,
{
    if idx < m.col_ptr@[j0 + 1] {
        assert(0 <= j0 < m.ncols && m.col_ptr@[j0] <= idx < m.col_ptr@[j0 + 1]);
    } else {
        assert(j0 + 1 < m.ncols) by {
            if j0 + 1 == m.ncols {
                assert(m.col_ptr@[j0 + 1] == m.nnz());
            }
        }
        lemma_col_exists_from(m, j0 + 1, idx);
    }
}

/// Every non-zero slot lies in exactly the column `col_containing` names.
pub proof fn lemma_col_containing(m: CscMatrix, j: int, idx: int)
    requires
        m.wf(),
        0 <= j < m.ncols,
        m.col_ptr@[j] <= idx < m.col_ptr@[j + 1],
    ensures
        col_containing(m, idx) == j,
{
    assert(idx < m.nnz()) by {
        lemma_col_ptr_monotone(m, j + 1, m.ncols as int);
    }
    lemma_col_exists_from(m, 0, idx);
    let j2 = col_containing(m, idx);
    if j2 < j {
        lemma_col_ptr_monotone(m, j2 + 1, j);
        assert(false);
    }
    if j2 > j {
        lemma_col_ptr_monotone(m, j + 1, j2);
        assert(false);
    }
}

/// Exact contribution of non-zero slot `idx` to its destination row in the
/// sparse-times-dense direction: `A[i, j] * x[j] * alpha`, as an unbounded
/// integer.
pub open spec fn prod_at(m: CscMatrix, x: Seq<i64>, alpha: i64, idx: int) -> int {
    m.values@[idx] as int * x[col_containing(m, idx)] as int * alpha as int
}

/// Sum of the contributions to row `r` made by the non-zero slots in
/// `[lo, hi)`, as an unbounded integer.
pub open spec fn row_sum(m: CscMatrix, x: Seq<i64>, alpha: i64, r: int, lo: int, hi: int) -> int
    decreases hi - lo,
{
    if lo >= hi {
        0
    } else {
        row_sum(m, x, alpha, r, lo, hi - 1) + if m.row_idx@[hi - 1] == r {
            prod_at(m, x, alpha, hi - 1)
        } else {
            0
        }
    }
}

/// Contribution sums over adjacent index ranges concatenate.
pub proof fn lemma_row_sum_split(
    m: CscMatrix,
    x: Seq<i64>,
    alpha: i64,
    r: int,
    lo: int,
    mid: int,
    hi: int,
)
    requires
        lo <= mid <= hi,
    ensures
        row_sum(m, x, alpha, r, lo, hi) == row_sum(m, x, alpha, r, lo, mid) + row_sum(
            m,
            x,
            alpha,
            r,
            mid,
            hi,
        ),
    decreases hi - mid,
{
    if mid < hi {
        lemma_row_sum_split(m, x, alpha, r, lo, mid, hi - 1);
    }
}

/// What the destination owes before contributions are added: nothing when
/// replacing, the previous contents when accumulating.
pub open spec fn accum_base(beta: Accum, prev: i64) -> int {
    match beta {
        Accum::Replace => 0,
        Accum::Add => prev as int,
    }
}

/// The common postcondition of every sparse-times-dense execution path, for
/// one destination column: each destination row holds exactly the cropped
/// sum of the old contents (under `beta`) and every contribution of the
/// matrix.
pub open spec fn spmv_post(
    m: CscMatrix,
    x: Seq<i64>,
    alpha: i64,
    dst0: Seq<i64>,
    beta: Accum,
    dst: Seq<i64>,
) -> bool {
    &&& dst.len() == dst0.len()
    &&& forall|r: int|
        0 <= r < dst.len() ==> dst[r] == crop(
            accum_base(beta, dst0[r]) + row_sum(m, x, alpha, r, 0, m.nnz()),
        )
}

/// Exact contribution of non-zero slot `idx` in the dense-times-sparse
/// direction: `x[k] * alpha * B[k, j]`, destined for output column `j`.
pub open spec fn ds_prod_at(m: CscMatrix, x: Seq<i64>, alpha: i64, idx: int) -> int {
    x[m.row_idx@[idx] as int] as int * alpha as int * m.values@[idx] as int
}

/// Sum of the dense-times-sparse contributions of the slots in `[lo, hi)`.
pub open spec fn ds_sum(m: CscMatrix, x: Seq<i64>, alpha: i64, lo: int, hi: int) -> int
    decreases hi - lo,
{
    if lo >= hi {
        0
    } else {
        ds_sum(m, x, alpha, lo, hi - 1) + ds_prod_at(m, x, alpha, hi - 1)
    }
}

/// Dense-times-sparse sums over adjacent ranges concatenate.
pub proof fn lemma_ds_sum_split(
    m: CscMatrix,
    x: Seq<i64>,
    alpha: i64,
    lo: int,
    mid: int,
    hi: int,
)
    requires
        lo <= mid <= hi,
    ensures
        ds_sum(m, x, alpha, lo, hi) == ds_sum(m, x, alpha, lo, mid) + ds_sum(
            m,
            x,
            alpha,
            mid,
            hi,
        ),
    decreases hi - mid,
{
    if mid < hi {
        lemma_ds_sum_split(m, x, alpha, lo, mid, hi - 1);
    }
}

/// The common postcondition of every dense-times-sparse execution path, for
/// one destination row: each output column holds the cropped sum of the old
/// contents (under `beta`) and the contributions of that column's non-zeros.
pub open spec fn ds_post(
    m: CscMatrix,
    x: Seq<i64>,
    alpha: i64,
    dst0: Seq<i64>,
    beta: Accum,
    dst: Seq<i64>,
) -> bool {
    &&& dst.len() == dst0.len()
    &&& forall|j: int|
        0 <= j < dst.len() ==> dst[j] == crop(
            accum_base(beta, dst0[j]) + ds_sum(m, x, alpha, m.col_ptr@[j] as int, m.col_ptr@[j + 1] as int),
        )
}

/// A scaled contribution computed by two wrapping multiplications is the
/// crop of the exact triple product.
pub proof fn lemma_term_crop(v: i64, xj: i64, alpha: i64)
    ensures
        crop(v as int * crop(xj as int * alpha as int) as int) == crop(
            v as int * xj as int * alpha as int,
        ),
{
    let p = xj as int * alpha as int;
    lemma_crop_eqm(p);
    lemma_eqm_mul_left(crop(p) as int, p, v as int);
    assert(crop(p) as int * v as int == v as int * crop(p) as int) by (nonlinear_arith);
    assert((xj as int * alpha as int) * v as int == v as int * xj as int * alpha as int)
        by (nonlinear_arith);
    lemma_eqm_crop(v as int * crop(p) as int, v as int * xj as int * alpha as int);
}

/// Folding one more cropped contribution into a running cropped sum extends
/// the sum by that contribution.
pub proof fn lemma_acc_step(d: i64, base: int, s: int, c: int)
    requires
        d == crop(base + s),
    ensures
        crop(d as int + crop(c) as int) == crop(base + (s + c)),
{
    lemma_crop_absorb(d as int, c);
    lemma_crop_eqm(base + s);
    lemma_eqm_add(d as int, base + s, c, c);
    lemma_eqm_crop(d as int + c, base + s + c);
}

/// Sequential reference multiply for one destination column:
/// `dst = beta(dst) + alpha * A * x` over the scalar ring. The parallel
/// strategies are all held to this routine's result.
pub fn seq_sparse_dense(
    dst: &mut Vec<i64>,
    beta: Accum,
    lhs: &CscMatrix,
    rhs: &Vec<i64>,
    alpha: i64,
)
    requires
        lhs.wf(),
        rhs@.len() == lhs.ncols,
        old(dst)@.len() == lhs.nrows,
    ensures
        spmv_post(*lhs, rhs@, alpha, old(dst)@, beta, final(dst)@),
{
    let ghost dst0: Seq<i64> = dst@;
    let nrows: usize = lhs.nrows;
    if matches!(beta, Accum::Replace) {
        let mut r: usize = 0;
        while r < nrows
            invariant
                dst@.len() == dst0.len() == nrows,
                forall|i: int| 0 <= i < r ==> dst@[i] == 0,
                forall|i: int| r <= i < nrows ==> dst@[i] == dst0[i],
            decreases nrows - r,
        {
            dst[r] = 0i64;
            r += 1;
        }
    }
    assert forall|i: int| 0 <= i < nrows implies dst@[i] == crop(
        accum_base(beta, dst0[i]) + row_sum(*lhs, rhs@, alpha, i, 0, 0),
    ) by {
        lemma_crop_id(accum_base(beta, dst0[i]));
    }
    let ncols: usize = lhs.ncols;
    let mut j: usize = 0;
    while j < ncols
        invariant
            lhs.wf(),
            rhs@.len() == lhs.ncols,
            dst@.len() == dst0.len() == lhs.nrows,
            ncols == lhs.ncols,
            j <= ncols,
            forall|i: int|
                0 <= i < dst@.len() ==> dst@[i] == crop(
                    accum_base(beta, dst0[i]) + row_sum(
                        *lhs,
                        rhs@,
                        alpha,
                        i,
                        0,
                        lhs.col_ptr@[j as int] as int,
                    ),
                ),
        decreases ncols - j,
    {
        let rhs_k: i64 = rhs[j].wrapping_mul(alpha);
        proof {
            lemma_wrapping_mul_crop(rhs@[j as int], alpha);
        }
        let col_end: usize = lhs.col_ptr[j + 1];
        let mut idx: usize = lhs.col_ptr[j];
        proof {
            lemma_col_ptr_monotone(*lhs, j + 1, lhs.ncols as int);
        }
        while idx < col_end
            invariant
                lhs.wf(),
                rhs@.len() == lhs.ncols,
                dst@.len() == dst0.len() == lhs.nrows,
                0 <= (j as int) < lhs.ncols,
                rhs_k == crop(rhs@[j as int] as int * alpha as int),
                col_end == lhs.col_ptr@[j + 1],
                lhs.col_ptr@[j as int] <= idx <= col_end,
                col_end <= lhs.nnz(),
                forall|i: int|
                    0 <= i < dst@.len() ==> dst@[i] == crop(
                        accum_base(beta, dst0[i]) + row_sum(*lhs, rhs@, alpha, i, 0, idx as int),
                    ),
            decreases col_end - idx,
        {
            let i: usize = lhs.row_idx[idx];
            let term: i64 = lhs.values[idx].wrapping_mul(rhs_k);
            let ghost pre: Seq<i64> = dst@;
            dst[i] = dst[i].wrapping_add(term);
            proof {
                let v = lhs.values@[idx as int];
                let xj = rhs@[j as int];
                lemma_col_containing(*lhs, j as int, idx as int);
                lemma_wrapping_mul_crop(v, rhs_k);
                lemma_term_crop(v, xj, alpha);
                lemma_wrapping_add_crop(pre[i as int], term);
                lemma_acc_step(
                    pre[i as int],
                    accum_base(beta, dst0[i as int]),
                    row_sum(*lhs, rhs@, alpha, i as int, 0, idx as int),
                    prod_at(*lhs, rhs@, alpha, idx as int),
                );
                assert forall|i2: int| 0 <= i2 < dst@.len() implies dst@[i2] == crop(
                    accum_base(beta, dst0[i2]) + row_sum(*lhs, rhs@, alpha, i2, 0, idx + 1),
                ) by {
                    assert(row_sum(*lhs, rhs@, alpha, i2, 0, idx + 1) == row_sum(
                        *lhs,
                        rhs@,
                        alpha,
                        i2,
                        0,
                        idx as int,
                    ) + if lhs.row_idx@[idx as int] == i2 {
                        prod_at(*lhs, rhs@, alpha, idx as int)
                    } else {
                        0
                    });
                }
            }
            idx += 1;
        }
        j += 1;
        assert(lhs.col_ptr@[j as int] == col_end);
    }
    assert(lhs.col_ptr@[ncols as int] == lhs.nnz());
}

/// A dense matrix (or vector, when `ncols == 1`) stored column-major:
/// column `j` occupies `data[j * nrows .. (j + 1) * nrows]`.
pub struct ColMajorMat {
    pub nrows: usize,
    pub ncols: usize,
    pub data: Vec<i64>,
}

impl ColMajorMat {
    /// The backing buffer holds exactly `nrows * ncols` scalars.
    pub open spec fn wf(self) -> bool {
        self.data@.len() == self.nrows * self.ncols
    }

    /// The contents of column `j`.
    pub open spec fn col(self, j: int) -> Seq<i64> {
        self.data@.subrange(j * self.nrows, (j + 1) * self.nrows)
    }

    /// The contents of row `i` (one scalar per column).
    pub open spec fn row(self, i: int) -> Seq<i64> {
        Seq::new(self.ncols as nat, |j: int| self.data@[j * self.nrows + i])
    }
}

/// Exact contribution of slot `idx` once the column's scaled multiplier
/// `rhs_k` has been fixed: `A[i, j] * rhs_k`.
pub open spec fn seg_term(m: CscMatrix, rhs_k: i64, idx: int) -> int {
    m.values@[idx] as int * rhs_k as int
}

/// Sum of the fixed-multiplier contributions to row `r` over slots in
/// `[lo, hi)`.
pub open spec fn seg_sum(m: CscMatrix, rhs_k: i64, r: int, lo: int, hi: int) -> int
    decreases hi - lo,
{
    if lo >= hi {
        0
    } else {
        seg_sum(m, rhs_k, r, lo, hi - 1) + if m.row_idx@[hi - 1] == r {
            seg_term(m, rhs_k, hi - 1)
        } else {
            0
        }
    }
}

/// When `rhs_k` is the cropped product `x[j] * alpha` and the slot range
/// stays inside column `j`, the fixed-multiplier sum and the exact
/// contribution sum agree as ring elements.
pub proof fn lemma_seg_sum_eqm(
    m: CscMatrix,
    x: Seq<i64>,
    alpha: i64,
    j: int,
    r: int,
    lo: int,
    hi: int,
)
    requires
        m.wf(),
        0 <= j < m.ncols,
        m.col_ptr@[j] <= lo <= hi <= m.col_ptr@[j + 1],
    ensures
        eqm(
            seg_sum(m, crop(x[j] as int * alpha as int), r, lo, hi),
            row_sum(m, x, alpha, r, lo, hi),
        ),
    decreases hi - lo,
{
    let rhs_k = crop(x[j] as int * alpha as int);
    if lo >= hi {
    } else {
        lemma_seg_sum_eqm(m, x, alpha, j, r, lo, hi - 1);
        let idx = hi - 1;
        if m.row_idx@[idx] == r {
            lemma_col_containing(m, j, idx);
            let v = m.values@[idx] as int;
            let xj = x[j] as int;
            let a = alpha as int;
            lemma_crop_eqm(xj * a);
            lemma_eqm_mul_left(rhs_k as int, xj * a, v);
            assert(rhs_k as int * v == v * rhs_k as int) by (nonlinear_arith);
            assert((xj * a) * v == v * xj * a) by (nonlinear_arith);
            lemma_eqm_add(
                seg_sum(m, rhs_k, r, lo, idx),
                row_sum(m, x, alpha, r, lo, idx),
                seg_term(m, rhs_k, idx),
                prod_at(m, x, alpha, idx),
            );
        } else {
            lemma_eqm_add(
                seg_sum(m, rhs_k, r, lo, idx),
                row_sum(m, x, alpha, r, lo, idx),
                0,
                0,
            );
        }
    }
}

/// Fixed-multiplier sums over adjacent ranges concatenate.
pub proof fn lemma_seg_sum_split(m: CscMatrix, rhs_k: i64, r: int, lo: int, mid: int, hi: int)
    requires
        lo <= mid <= hi,
    ensures
        seg_sum(m, rhs_k, r, lo, hi) == seg_sum(m, rhs_k, r, lo, mid) + seg_sum(
            m,
            rhs_k,
            r,
            mid,
            hi,
        ),
    decreases hi - mid,
{
    if mid < hi {
        lemma_seg_sum_split(m, rhs_k, r, lo, mid, hi - 1);
    }
}

} // verus!
