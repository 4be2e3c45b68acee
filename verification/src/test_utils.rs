//! Helpers the test suites share: size-classifying matrix files that were
//! scanned from disk — the scanning itself stays outside this library, and
//! these functions take the scanned `(path, nnz)` listing as plain values —
//! and a deterministic synthetic matrix generator.
use vstd::prelude::*;

verus! {

use crate::csc::CscMatrix;

/// Matrix files below this non-zero count are small.
pub const SMALL_NNZ_THRESHOLD: usize = 100000;

/// Matrix files below this non-zero count — and not small — are medium.
pub const MEDIUM_NNZ_THRESHOLD: usize = 1000000;

/// The paths whose non-zero counts fall inside `[min_nnz, max_nnz)`, in
/// listing order.
pub open spec fn paths_in_range(
    entries: Seq<(String, usize)>,
    min_nnz: int,
    max_nnz: int,
) -> Seq<String>
    decreases entries.len(),
{
    if entries.len() == 0 {
        Seq::empty()
    } else {
        paths_in_range(entries.drop_last(), min_nnz, max_nnz) + if min_nnz
            <= entries.last().1 < max_nnz {
            seq![entries.last().0]
        } else {
            Seq::empty()
        }
    }
}

/// Select the paths of the listed matrix files whose non-zero counts fall
/// inside `[min_nnz, max_nnz)`.
pub fn matrix_paths_in_range(
    entries: &Vec<(String, usize)>,
    min_nnz: usize,
    max_nnz: usize,
) -> (out: Vec<String>)
    ensures
        out@ == paths_in_range(entries@, min_nnz as int, max_nnz as int),
{
    let mut out: Vec<String> = Vec::new();
    let n: usize = entries.len();
    let mut i: usize = 0;
    proof {
        assert(entries@.subrange(0, 0) =~= Seq::<(String, usize)>::empty());
    }
    while i < n
        invariant
            n == entries@.len(),
            i <= n,
            out@ == paths_in_range(entries@.subrange(0, i as int), min_nnz as int,
                max_nnz as int),
        decreases n - i,
    {
        let nnz: usize = entries[i].1;
        proof {
            assert(entries@.subrange(0, i as int + 1).drop_last() =~= entries@.subrange(
                0,
                i as int,
            ));
            assert(entries@.subrange(0, i as int + 1).last() == entries@[i as int]);
        }
        if nnz >= min_nnz && nnz < max_nnz {
            out.push(entries[i].0.clone());
        }
        i += 1;
    }
    proof {
        assert(entries@.subrange(0, n as int) =~= entries@);
    }
    out
}

/// The small matrix files of a scanned listing.
pub fn small_matrix_paths(entries: &Vec<(String, usize)>) -> (out: Vec<String>)
    ensures
        out@ == paths_in_range(entries@, 0, SMALL_NNZ_THRESHOLD as int),
{
    matrix_paths_in_range(entries, 0, SMALL_NNZ_THRESHOLD)
}

/// The medium matrix files of a scanned listing.
pub fn medium_matrix_paths(entries: &Vec<(String, usize)>) -> (out: Vec<String>)
    ensures
        out@ == paths_in_range(entries@, SMALL_NNZ_THRESHOLD as int,
            MEDIUM_NNZ_THRESHOLD as int),
{
    matrix_paths_in_range(entries, SMALL_NNZ_THRESHOLD, MEDIUM_NNZ_THRESHOLD)
}

/// The large matrix files of a scanned listing.
pub fn large_matrix_paths(entries: &Vec<(String, usize)>) -> (out: Vec<String>)
    ensures
        out@ == paths_in_range(entries@, MEDIUM_NNZ_THRESHOLD as int, usize::MAX as int),
{
    matrix_paths_in_range(entries, MEDIUM_NNZ_THRESHOLD, usize::MAX)
}

/// Pairwise non-decreasing column pointers climb across any distance.
proof fn lemma_chain_le(cp: Seq<usize>, upto: int, a: int, b: int)
    requires
        0 <= a <= b <= upto,
        upto < cp.len(),
        forall|t: int| 0 <= t < upto ==> #[trigger] cp[t] <= cp[t + 1],
    ensures
        cp[a] <= cp[b],
    decreases b - a,
{
    if a < b {
        lemma_chain_le(cp, upto, a, b - 1);
    }
}

/// The fixed modulo pattern: slot `(i, j)` of a synthetic matrix is
/// present exactly when this holds of its coordinates and the density
/// given in percent.
pub open spec fn synth_present(i: int, j: int, density_pct: int) -> bool {
    (i * 7 + j * 11) % 100 < density_pct
}

/// The value a present synthetic slot carries: derived from its
/// coordinates, never zero.
pub open spec fn synth_value(i: int, j: int) -> i64 {
    (((i * 7 + j * 11) % 97) + 1) as i64
}

/// The deterministic right-hand side entry at position `r`.
pub open spec fn synth_rhs_at(r: int) -> i64 {
    ((r * 11) % 89 + 1) as i64
}

/// Column `j` of the compressed arrays holds exactly the present slots of
/// the pattern, in strictly ascending row order, each with its derived
/// value: nothing extra (every stored slot is present, with the right
/// value), nothing missing (every present row is stored), no duplicates.
pub open spec fn synth_col_ok(
    cp: Seq<usize>,
    ri: Seq<usize>,
    va: Seq<i64>,
    nrows: int,
    j: int,
    density_pct: int,
) -> bool {
    &&& forall|k: int|
        cp[j] <= k < cp[j + 1] ==> synth_present((#[trigger] ri[k]) as int, j, density_pct)
            && va[k] == synth_value(ri[k] as int, j)
    &&& forall|i: int|
        0 <= i < nrows && #[trigger] synth_present(i, j, density_pct) ==> exists|k: int|
            cp[j] <= k < cp[j + 1] && (#[trigger] ri[k]) == i
    &&& forall|p: int, q: int|
        cp[j] <= p < q < cp[j + 1] ==> (#[trigger] ri[p]) < (#[trigger] ri[q])
}

/// A synthetic test matrix in compressed-column form together with a
/// deterministic right-hand side.
pub struct TestMatrices {
    pub matrix: CscMatrix,
    pub rhs_vector: Vec<i64>,
    pub nrows: usize,
    pub ncols: usize,
    pub nnz: usize,
}

impl TestMatrices {
    /// Build a deterministic synthetic matrix: the slot `(i, j)` is present
    /// exactly when `(i * 7 + j * 11) % 100` falls below the density given
    /// in percent, with a value derived from its coordinates, and a
    /// deterministic right-hand side vector.
    pub fn create_synthetic(nrows: usize, ncols: usize, density_pct: usize) -> (t: Self)
        requires
            nrows * 7 + ncols * 11 <= usize::MAX,
        ensures
            t.matrix.wf(),
            t.matrix.rows_sorted(),
            t.matrix.nrows == nrows,
            t.matrix.ncols == ncols,
            t.nrows == nrows,
            t.ncols == ncols,
            t.nnz == t.matrix.nnz(),
            t.rhs_vector@.len() == ncols,
            forall|j: int|
                0 <= j < ncols ==> #[trigger] synth_col_ok(
                    t.matrix.col_ptr@,
                    t.matrix.row_idx@,
                    t.matrix.values@,
                    nrows as int,
                    j,
                    density_pct as int,
                ),
            forall|r: int| 0 <= r < ncols ==> #[trigger] t.rhs_vector@[r] == synth_rhs_at(r),
    {
        let mut col_ptr: Vec<usize> = Vec::new();
        let mut row_idx: Vec<usize> = Vec::new();
        let mut values: Vec<i64> = Vec::new();
        col_ptr.push(0);
        let mut j: usize = 0;
        while j < ncols
            invariant
                nrows * 7 + ncols * 11 <= usize::MAX,
                j <= ncols,
                col_ptr@.len() == j + 1,
                col_ptr@[0] == 0,
                col_ptr@[j as int] == row_idx@.len(),
                values@.len() == row_idx@.len(),
                forall|j2: int|
                    0 <= j2 < j ==> #[trigger] col_ptr@[j2] <= col_ptr@[j2 + 1],
                forall|k: int| 0 <= k < row_idx@.len() ==> #[trigger] row_idx@[k] < nrows,
                forall|j2: int, p: int, q: int|
                    #![trigger col_ptr@[j2], row_idx@[p], row_idx@[q]]
                    0 <= j2 < j && col_ptr@[j2] <= p < q < col_ptr@[j2 + 1] ==> row_idx@[p]
                        <= row_idx@[q],
                forall|j2: int|
                    0 <= j2 < j ==> #[trigger] synth_col_ok(col_ptr@, row_idx@, values@,
                        nrows as int, j2, density_pct as int),
            decreases ncols - j,
        {
            let mut i: usize = 0;
            let ghost base: int = row_idx@.len() as int;
            let ghost rows_snap: Seq<usize> = row_idx@;
            let ghost vals_snap: Seq<i64> = values@;
            while i < nrows
                invariant
                    nrows * 7 + ncols * 11 <= usize::MAX,
                    j < ncols,
                    i <= nrows,
                    values@.len() == row_idx@.len(),
                    base == rows_snap.len() == vals_snap.len(),
                    base <= row_idx@.len(),
                    row_idx@.subrange(0, base) == rows_snap,
                    values@.subrange(0, base) == vals_snap,
                    forall|k: int|
                        0 <= k < row_idx@.len() ==> #[trigger] row_idx@[k] < nrows,
                    forall|k: int| base <= k < row_idx@.len() ==> #[trigger] row_idx@[k] < i,
                    forall|p: int, q: int|
                        base <= p < q < row_idx@.len() ==> #[trigger] row_idx@[p]
                            < #[trigger] row_idx@[q],
                    forall|k: int|
                        base <= k < row_idx@.len() ==> synth_present((
                        #[trigger] row_idx@[k]) as int, j as int, density_pct as int)
                            && values@[k] == synth_value(row_idx@[k] as int, j as int),
                    forall|i2: int|
                        0 <= i2 < i && #[trigger] synth_present(i2, j as int,
                            density_pct as int) ==> exists|k: int|
                            base <= k < row_idx@.len() && (#[trigger] row_idx@[k]) == i2,
                decreases nrows - i,
            {
                proof {
                    assert(i * 7 <= nrows * 7 && j * 11 <= ncols * 11) by (nonlinear_arith)
                        requires
                            i < nrows,
                            j < ncols,
                    ;
                }
                let ghost rows_pre: Seq<usize> = row_idx@;
                if (i * 7 + j * 11) % 100 < density_pct {
                    row_idx.push(i);
                    let v: i64 = (((i * 7 + j * 11) % 97) + 1) as i64;
                    values.push(v);
                    proof {
                        assert(row_idx@.subrange(0, base) =~= rows_snap);
                        assert(values@.subrange(0, base) =~= vals_snap);
                        assert(synth_present(i as int, j as int, density_pct as int));
                        assert(v == synth_value(i as int, j as int));
                    }
                } else {
                    proof {
                        assert(!synth_present(i as int, j as int, density_pct as int));
                    }
                }
                proof {
                    assert forall|i2: int|
                        0 <= i2 < i + 1 && #[trigger] synth_present(i2, j as int,
                        density_pct as int) implies exists|k: int|
                        base <= k < row_idx@.len() && (#[trigger] row_idx@[k]) == i2 by {
                        if i2 == i {
                            assert(row_idx@[row_idx@.len() - 1] == i);
                        } else {
                            let k = choose|k: int|
                                base <= k < rows_pre.len() && (#[trigger] rows_pre[k]) == i2;
                            assert(row_idx@[k] == i2);
                        }
                    }
                }
                i += 1;
            }
            let ghost cp_pre: Seq<usize> = col_ptr@;
            col_ptr.push(row_idx.len());
            proof {
                assert forall|j2: int, p: int, q: int|
                    #![trigger col_ptr@[j2], row_idx@[p], row_idx@[q]]
                    0 <= j2 < j + 1 && col_ptr@[j2] <= p < q < col_ptr@[j2 + 1] implies
                    row_idx@[p] <= row_idx@[q] by {
                    if j2 < j {
                        assert(col_ptr@[j2 + 1] <= base) by {
                            lemma_chain_le(col_ptr@, j as int, j2 + 1, j as int);
                        }
                        assert(row_idx@[p] == rows_snap[p] && row_idx@[q] == rows_snap[q]);
                    } else {
                        assert(base <= p < q < row_idx@.len());
                    }
                }
                assert forall|j2: int|
                    0 <= j2 < j + 1 implies #[trigger] synth_col_ok(col_ptr@, row_idx@,
                    values@, nrows as int, j2, density_pct as int) by {
                    if j2 < j {
                        assert(synth_col_ok(cp_pre, rows_snap, vals_snap, nrows as int, j2,
                            density_pct as int));
                        assert(col_ptr@[j2] == cp_pre[j2] && col_ptr@[j2 + 1] == cp_pre[j2
                            + 1]);
                        assert(cp_pre[j2 + 1] <= base) by {
                            lemma_chain_le(cp_pre, j as int, j2 + 1, j as int);
                        }
                        assert forall|k: int|
                            col_ptr@[j2] <= k < col_ptr@[j2 + 1] implies synth_present((
                            #[trigger] row_idx@[k]) as int, j2, density_pct as int)
                            && values@[k] == synth_value(row_idx@[k] as int, j2) by {
                            assert(row_idx@[k] == rows_snap[k] && values@[k] == vals_snap[
                                k]);
                        }
                        assert forall|i2: int|
                            0 <= i2 < nrows && #[trigger] synth_present(i2, j2,
                            density_pct as int) implies exists|k: int|
                            col_ptr@[j2] <= k < col_ptr@[j2 + 1] && (#[trigger] row_idx@[
                            k]) == i2 by {
                            let k = choose|k: int|
                                cp_pre[j2] <= k < cp_pre[j2 + 1] && (#[trigger] rows_snap[
                                k]) == i2;
                            assert(row_idx@[k] == rows_snap[k]);
                        }
                        assert forall|p: int, q: int|
                            col_ptr@[j2] <= p < q < col_ptr@[j2 + 1] implies (
                            #[trigger] row_idx@[p]) < (#[trigger] row_idx@[q]) by {
                            assert(row_idx@[p] == rows_snap[p] && row_idx@[q] == rows_snap[
                                q]);
                        }
                    } else {
                        assert(col_ptr@[j2] == base && col_ptr@[j2 + 1] == row_idx@.len());
                    }
                }
            }
            j += 1;
        }
        let nnz: usize = row_idx.len();
        let mut rhs_vector: Vec<i64> = Vec::new();
        let mut r: usize = 0;
        while r < ncols
            invariant
                ncols * 11 + nrows * 7 <= usize::MAX,
                r <= ncols,
                rhs_vector@.len() == r,
                forall|r2: int| 0 <= r2 < r ==> #[trigger] rhs_vector@[r2] == synth_rhs_at(
                    r2),
            decreases ncols - r,
        {
            proof {
                assert(r * 11 <= ncols * 11) by (nonlinear_arith)
                    requires
                        r < ncols,
                ;
            }
            rhs_vector.push(((r * 11) % 89) as i64 + 1);
            proof {
                assert(rhs_vector@[r as int] == synth_rhs_at(r as int));
            }
            r += 1;
        }
        let matrix = CscMatrix { nrows, ncols, col_ptr, row_idx, values };
        TestMatrices { matrix, rhs_vector, nrows, ncols, nnz }
    }
}

} // verus!
