use par_matvec::buffer_foreign;
use par_matvec::buffer_foreign::{assign_blocks, B_ROWS};
use par_matvec::merge::LoserTree;
use par_matvec::merge_impl::MinQueue;
use par_matvec::csc::{seq_sparse_dense, Accum, ColMajorMat, CscMatrix, Par};
use par_matvec::merge;
use par_matvec::merge_impl;
use par_matvec::simple;
use par_matvec::spmv_drivers::{
    dense_sparse_matmul, seq_dense_sparse, sparse_dense_matmul, MatmulError, SparseDenseImpl,
    SpMvStrategy,
};
use par_matvec::buffer_foreign::{BlockScratch, Chunk};
use par_matvec::SparseDenseStrategy;
use par_matvec::test_utils::{
    large_matrix_paths, medium_matrix_paths, small_matrix_paths, TestMatrices,
};

/// Dense reference: y[i] = base(y[i]) + sum_j A[i][j] * x[j] * alpha, in the
/// same wrapping ring the library computes in.
fn dense_reference(t: &TestMatrices, x: &Vec<i64>, alpha: i64, y0: &Vec<i64>, beta: Accum) -> Vec<i64> {
    let m = &t.matrix;
    let mut acc: Vec<i128> = vec![0i128; m.nrows];
    for j in 0..m.ncols {
        for idx in m.col_ptr[j]..m.col_ptr[j + 1] {
            let i = m.row_idx[idx];
            acc[i] += (m.values[idx] as i128) * (x[j] as i128) * (alpha as i128);
        }
    }
    let mut out: Vec<i64> = Vec::new();
    for i in 0..m.nrows {
        let base = match beta {
            Accum::Replace => 0i128,
            Accum::Add => y0[i] as i128,
        };
        out.push((base + acc[i]) as i64);
    }
    out
}

fn run_strategy(
    t: &TestMatrices,
    x: &Vec<i64>,
    alpha: i64,
    y0: &Vec<i64>,
    beta: Accum,
    n_threads: usize,
    sel: SparseDenseImpl,
) -> Vec<i64> {
    let strategy = SpMvStrategy::new(&t.matrix, Par::Threads(n_threads));
    let mut dst = y0.clone();
    let mut stack: Vec<i64> = vec![0i64; t.matrix.nrows * n_threads];
    match sel {
        SparseDenseImpl::Simple => {
            simple::par_sparse_dense(&mut dst, beta, &t.matrix, x, alpha, n_threads, &strategy, &mut stack)
        }
        SparseDenseImpl::MergeHeap => {
            merge_impl::par_sparse_dense(&mut dst, beta, &t.matrix, x, alpha, n_threads, &strategy, &mut stack)
        }
        SparseDenseImpl::MergeTree => {
            merge::par_sparse_dense(&mut dst, beta, &t.matrix, x, alpha, n_threads, &strategy, &mut stack)
        }
        SparseDenseImpl::BufferForeign => {
            buffer_foreign::par_sparse_dense(&mut dst, beta, &t.matrix, x, alpha, n_threads, &strategy, &mut stack)
        }
    }
    dst
}

fn check_all_strategies(t: &TestMatrices, threads: &[usize]) {
    let x = t.rhs_vector.clone();
    let alpha = 3i64;
    let y0: Vec<i64> = (0..t.nrows).map(|i| (i as i64 % 13) - 6).collect();
    for &beta in &[Accum::Replace, Accum::Add] {
        let expect = dense_reference(t, &x, alpha, &y0, beta);
        let mut seq = y0.clone();
        seq_sparse_dense(&mut seq, beta, &t.matrix, &x, alpha);
        assert_eq!(seq, expect);
        for &n in threads {
            if n >= 1 && n < t.nnz {
                let rpt = (t.nrows + n - 1) / n;
                let tree_ok = (n - 1) * rpt < t.nrows;
                for sel in [
                    SparseDenseImpl::Simple,
                    SparseDenseImpl::MergeHeap,
                    SparseDenseImpl::MergeTree,
                    SparseDenseImpl::BufferForeign,
                ] {
                    if matches!(sel, SparseDenseImpl::MergeTree) && !tree_ok {
                        continue;
                    }
                    let got = run_strategy(t, &x, alpha, &y0, beta, n, sel);
                    assert_eq!(got, expect);
                }
            }
        }
    }
}

#[test]
fn test_synthetic_matrices() {
    for &(nr, nc, pct) in &[(10usize, 10usize, 30usize), (50, 50, 10), (100, 100, 5), (40, 100, 20)] {
        let t = TestMatrices::create_synthetic(nr, nc, pct);
        assert!(t.nnz > 0, "synthetic matrix generated no entries");
        check_all_strategies(&t, &[1, 2, 3, 8]);
    }
}

#[test]
fn test_edge_cases() {
    // a fully dense matrix drives every boundary-heavy path
    let t = TestMatrices::create_synthetic(20, 20, 100);
    assert_eq!(t.nnz, 400);
    check_all_strategies(&t, &[1, 3, 7, 8]);

    // and the dense-times-sparse direction with the stitch strategy
    let x: Vec<i64> = (0..t.matrix.nrows).map(|i| (i as i64 * 5 % 17) - 8).collect();
    let y0: Vec<i64> = (0..t.matrix.ncols).map(|j| j as i64 - 10).collect();
    for &beta in &[Accum::Replace, Accum::Add] {
        let mut seq = y0.clone();
        seq_dense_sparse(&mut seq, beta, &x, &t.matrix, 2);
        for n in [1usize, 3, 8] {
            let strategy = SpMvStrategy::new(&t.matrix, Par::Threads(n));
            let mut par = y0.clone();
            let mut stack: Vec<i64> = Vec::new();
            par_matvec::dense_sparse_impl::par_dense_sparse(
                &mut par, beta, &x, &t.matrix, 2, n, &strategy, &mut stack,
            );
            assert_eq!(par, seq);
        }
    }
}

#[test]
fn test_synthetic_sequential_only() {
    for &(nr, nc, pct) in &[(10usize, 10usize, 50usize), (50, 50, 8), (100, 100, 5)] {
        let t = TestMatrices::create_synthetic(nr, nc, pct);
        let x = t.rhs_vector.clone();
        let y0 = vec![7i64; nr];
        let expect = dense_reference(&t, &x, 1, &y0, Accum::Replace);
        let mut seq = y0.clone();
        seq_sparse_dense(&mut seq, Accum::Replace, &t.matrix, &x, 1);
        assert_eq!(seq, expect);
    }
}

#[test]
fn test_partition_covers_exactly() {
    // thread counts dividing both evenly and unevenly into nnz
    for &(nr, nc, pct) in &[(30usize, 30usize, 25usize), (64, 64, 50)] {
        let t = TestMatrices::create_synthetic(nr, nc, pct);
        for n in [2usize, 3, 5, 8, 13] {
            if n < t.nnz {
                let s = SpMvStrategy::new(&t.matrix, Par::Threads(n));
                assert_eq!(s.thread_cols.len(), n + 1);
                assert_eq!(s.thread_indptrs.len(), n + 1);
                assert_eq!(s.thread_indptrs[0], 0);
                assert_eq!(s.thread_indptrs[n], t.nnz);
                for tid in 0..n {
                    assert!(s.thread_indptrs[tid] < s.thread_indptrs[tid + 1]);
                    assert!(s.thread_cols[tid] <= s.thread_cols[tid + 1]);
                }
                assert_eq!(s.thread_cols[0], 0);
                assert_eq!(s.thread_cols[n], t.matrix.ncols - 1);
            }
        }
    }
}

#[test]
fn test_partition_fails_fast_on_tiny_matrices() {
    // fewer non-zeros than threads: construction must refuse, not degrade
    let t = TestMatrices::create_synthetic(4, 4, 20);
    assert!(t.nnz <= 16);
    let too_many = t.nnz + 1;
    assert!(SpMvStrategy::try_new(&t.matrix, Par::Threads(too_many)).is_none());
    assert!(SpMvStrategy::try_new(&t.matrix, Par::Threads(t.nnz)).is_none());
    assert!(SpMvStrategy::try_new(&t.matrix, Par::Threads(0)).is_none());
    if t.nnz > 1 {
        assert!(SpMvStrategy::try_new(&t.matrix, Par::Threads(t.nnz - 1)).is_some());
    }
    assert!(SpMvStrategy::try_new(&t.matrix, Par::Sequential).is_some());
}

#[test]
fn test_merge_variants_identical() {
    let t = TestMatrices::create_synthetic(60, 45, 15);
    let x = t.rhs_vector.clone();
    let y0 = vec![0i64; 60];
    for n in [2usize, 5, 9] {
        if n < t.nnz {
            let heap = run_strategy(&t, &x, 2, &y0, Accum::Replace, n, SparseDenseImpl::MergeHeap);
            let tree = run_strategy(&t, &x, 2, &y0, Accum::Replace, n, SparseDenseImpl::MergeTree);
            assert_eq!(heap, tree);
        }
    }
}

#[test]
fn test_replace_mode_idempotent() {
    let t = TestMatrices::create_synthetic(33, 28, 22);
    let x = t.rhs_vector.clone();
    let y0: Vec<i64> = (0..33).map(|i| i as i64 * 1000).collect();
    let first = run_strategy(&t, &x, 5, &y0, Accum::Replace, 4, SparseDenseImpl::Simple);
    let second = run_strategy(&t, &x, 5, &first, Accum::Replace, 4, SparseDenseImpl::Simple);
    assert_eq!(first, second);
}

#[test]
fn test_hundred_by_hundred_scenario() {
    // the fixed modulo pattern at density 5 percent, single worker and
    // eight workers, against the direct dense computation
    let t = TestMatrices::create_synthetic(100, 100, 5);
    let x = t.rhs_vector.clone();
    let y0 = vec![0i64; 100];
    let expect = dense_reference(&t, &x, 1, &y0, Accum::Replace);
    for n in [1usize, 8] {
        for sel in [
            SparseDenseImpl::Simple,
            SparseDenseImpl::MergeHeap,
            SparseDenseImpl::MergeTree,
            SparseDenseImpl::BufferForeign,
        ] {
            let got = run_strategy(&t, &x, 1, &y0, Accum::Replace, n, sel);
            assert_eq!(got, expect);
        }
    }
}

#[test]
fn test_foreign_contributions_cross_blocks() {
    // more rows than one block holds, so the chunked strategy must spill
    // foreign contributions between owners
    let nrows = 3 * B_ROWS + 17;
    let ncols = 6usize;
    let mut col_ptr = vec![0usize];
    let mut row_idx: Vec<usize> = Vec::new();
    let mut values: Vec<i64> = Vec::new();
    for j in 0..ncols {
        for k in 0..5 {
            row_idx.push((j * 9901 + k * B_ROWS / 2 + k) % nrows);
            values.push((j * 7 + k) as i64 + 1);
        }
        let start = col_ptr[j];
        row_idx[start..start + 5].sort_unstable();
        col_ptr.push(row_idx.len());
    }
    let matrix = CscMatrix { nrows, ncols, col_ptr, row_idx, values };
    let x: Vec<i64> = (0..ncols).map(|j| j as i64 + 1).collect();
    let y0 = vec![0i64; nrows];
    let mut seq = y0.clone();
    seq_sparse_dense(&mut seq, Accum::Replace, &matrix, &x, 1);
    for n in [2usize, 4] {
        let strategy = SpMvStrategy::new(&matrix, Par::Threads(n));
        let mut par = y0.clone();
        let mut stack: Vec<i64> = Vec::new();
        buffer_foreign::par_sparse_dense(&mut par, Accum::Replace, &matrix, &x, 1, n, &strategy, &mut stack);
        assert_eq!(par, seq);
    }
}

#[test]
fn test_matmul_drivers() {
    let t = TestMatrices::create_synthetic(24, 18, 35);
    let rhs_cols = 3usize;
    let mut rhs_data: Vec<i64> = Vec::new();
    for j in 0..rhs_cols {
        for i in 0..t.matrix.ncols {
            rhs_data.push(((i + j * 1000) % 21) as i64 - 10);
        }
    }
    let rhs = ColMajorMat { nrows: t.matrix.ncols, ncols: rhs_cols, data: rhs_data };
    let dst0: Vec<i64> = (0..t.matrix.nrows * rhs_cols).map(|k| k as i64 % 5).collect();

    // sequential driver
    let strategy = SpMvStrategy::new(&t.matrix, Par::Sequential);
    let mut seq_dst = ColMajorMat { nrows: t.matrix.nrows, ncols: rhs_cols, data: dst0.clone() };
    let mut stack: Vec<i64> = Vec::new();
    let r = sparse_dense_matmul(
        &mut seq_dst, Accum::Add, &t.matrix, &rhs, 2, Par::Sequential, &strategy, &mut stack, None,
    );
    assert!(r.is_ok());

    // parallel driver, column by column, must agree
    let n = 4usize;
    let strategy_p = SpMvStrategy::new(&t.matrix, Par::Threads(n));
    let mut par_dst = ColMajorMat { nrows: t.matrix.nrows, ncols: rhs_cols, data: dst0.clone() };
    let mut stack_p: Vec<i64> = vec![0i64; t.matrix.nrows * n];
    let r2 = sparse_dense_matmul(
        &mut par_dst, Accum::Add, &t.matrix, &rhs, 2, Par::Threads(n), &strategy_p, &mut stack_p,
        Some(SparseDenseImpl::Simple),
    );
    assert!(r2.is_ok());
    assert_eq!(par_dst.data, seq_dst.data);

    // a wide output is an explicitly unsupported configuration
    let wide_cols = 4 * n + 1;
    let wide_rhs = ColMajorMat {
        nrows: t.matrix.ncols,
        ncols: wide_cols,
        data: vec![1i64; t.matrix.ncols * wide_cols],
    };
    let mut wide_dst = ColMajorMat {
        nrows: t.matrix.nrows,
        ncols: wide_cols,
        data: vec![0i64; t.matrix.nrows * wide_cols],
    };
    let r3 = sparse_dense_matmul(
        &mut wide_dst, Accum::Add, &t.matrix, &wide_rhs, 2, Par::Threads(n), &strategy_p,
        &mut stack_p, Some(SparseDenseImpl::Simple),
    );
    assert!(matches!(r3, Err(MatmulError::UnsupportedWide)));
}

#[test]
fn test_dense_sparse_driver() {
    let t = TestMatrices::create_synthetic(16, 20, 40);
    let x: Vec<i64> = (0..16).map(|i| i as i64 - 8).collect();
    let y0: Vec<i64> = (0..20).map(|j| j as i64).collect();
    let mut seq = y0.clone();
    let s0 = SpMvStrategy::new(&t.matrix, Par::Sequential);
    let mut stack: Vec<i64> = Vec::new();
    assert!(dense_sparse_matmul(&mut seq, Accum::Add, &x, &t.matrix, 3, Par::Sequential, &s0, &mut stack).is_ok());
    let n = 5usize;
    let sp = SpMvStrategy::new(&t.matrix, Par::Threads(n));
    let mut par = y0.clone();
    assert!(dense_sparse_matmul(&mut par, Accum::Add, &x, &t.matrix, 3, Par::Threads(n), &sp, &mut stack).is_ok());
    assert_eq!(par, seq);
    // wide: x longer than four times the worker count
    let s2 = SpMvStrategy::new(&t.matrix, Par::Threads(2));
    let mut wide = y0.clone();
    let r = dense_sparse_matmul(&mut wide, Accum::Add, &x, &t.matrix, 3, Par::Threads(2), &s2, &mut stack);
    assert!(matches!(r, Err(MatmulError::UnsupportedWide)));
}

#[test]
fn test_block_scratch_and_chunks() {
    let mut s = BlockScratch::new(8);
    s.start_block();
    s.add(3, 10);
    s.add(3, -4);
    s.add(5, 7);
    let mut y = vec![100i64; 10];
    s.flush_into(&mut y, 1, 8);
    assert_eq!(y[4], 106);
    assert_eq!(y[6], 107);
    assert_eq!(y[3], 100);
    // a new epoch forgets everything without clearing the array
    s.start_block();
    s.add(5, 1);
    let mut y2 = vec![0i64; 8];
    s.flush_into(&mut y2, 0, 8);
    assert_eq!(y2[5], 1);
    assert_eq!(y2[3], 0);

    let mut c = Chunk::new(2);
    assert_eq!(c.chunk_len(), 0);
    assert!(!c.push(40000, 5));
    assert_eq!(c.chunk_len(), 1);
    assert_eq!(c.block_id, 2);
    c.clear_reuse(7);
    assert_eq!(c.chunk_len(), 0);
    assert_eq!(c.block_id, 7);
}

#[test]
fn test_path_filters() {
    let entries: Vec<(String, usize)> = vec![
        ("a.mtx".to_string(), 10),
        ("b.mtx".to_string(), 100000),
        ("c.mtx".to_string(), 99999),
        ("d.mtx".to_string(), 2000000),
    ];
    assert_eq!(small_matrix_paths(&entries), vec!["a.mtx".to_string(), "c.mtx".to_string()]);
    assert_eq!(medium_matrix_paths(&entries), vec!["b.mtx".to_string()]);
    assert_eq!(large_matrix_paths(&entries), vec!["d.mtx".to_string()]);
}

#[test]
fn test_loser_tree_drains_in_row_order() {
    // four leaves: three live entries and one empty slot
    let base = vec![
        Some((9usize, 90i64, 0usize)),
        Some((2, 20, 1)),
        Some((5, 50, 2)),
        None,
    ];
    let losers = vec![0usize; 4];
    let mut tree = LoserTree::new(base, losers);
    let mut drained: Vec<(usize, i64, usize)> = Vec::new();
    loop {
        match tree.winner() {
            None => break,
            Some(e) => {
                drained.push(e);
                tree.push(None);
            }
        }
    }
    assert_eq!(drained, vec![(2, 20, 1), (5, 50, 2), (9, 90, 0)]);

    // replaying a leaf with a replacement keeps the order
    let base2 = vec![Some((4usize, 1i64, 0usize)), Some((7, 2, 1))];
    let mut tree2 = LoserTree::new(base2, vec![0usize; 2]);
    let first = tree2.winner().unwrap();
    assert_eq!(first.0, 4);
    tree2.push(Some((6, 3, 0)));
    let second = tree2.winner().unwrap();
    assert_eq!(second.0, 6);
    tree2.push(None);
    let third = tree2.winner().unwrap();
    assert_eq!(third.0, 7);
}

#[test]
fn test_min_queue_pops_minimum() {
    let mut q = MinQueue::new();
    q.push((8, 1, 0));
    q.push((3, 2, 1));
    q.push((11, 3, 2));
    q.push((3, 4, 3));
    let mut rows = Vec::new();
    while let Some(e) = q.pop() {
        rows.push(e.0);
    }
    assert_eq!(rows, vec![3, 3, 8, 11]);
    assert!(q.pop().is_none());
}

#[test]
fn test_assign_blocks_partitions_rows() {
    let nrows = 2 * B_ROWS + 100;
    let (owners, ranges) = assign_blocks(nrows, B_ROWS, 2);
    assert_eq!(owners.len(), 3);
    assert_eq!(owners, vec![0, 0, 1]);
    assert_eq!(ranges.len(), 2);
    assert_eq!(ranges[0], (0, 2 * B_ROWS));
    assert_eq!(ranges[1], (2 * B_ROWS, nrows));
}

#[test]
fn test_partition_deterministic() {
    let t = TestMatrices::create_synthetic(48, 37, 18);
    for n in [2usize, 5, 7] {
        if n < t.nnz {
            let a = SpMvStrategy::new(&t.matrix, Par::Threads(n));
            let b = SpMvStrategy::new(&t.matrix, Par::Threads(n));
            assert_eq!(a.thread_cols, b.thread_cols);
            assert_eq!(a.thread_indptrs, b.thread_indptrs);
            // shares are as even as column granularity allows
            let per = t.nnz / n;
            for tid in 0..n - 1 {
                assert_eq!(a.thread_indptrs[tid + 1] - a.thread_indptrs[tid], per);
            }
            assert_eq!(a.thread_indptrs[n] - a.thread_indptrs[n - 1], per + t.nnz % n);
        }
    }
}

#[test]
fn test_front_end_strategy_fails_fast() {
    let t = TestMatrices::create_synthetic(4, 4, 20);
    assert!(SparseDenseStrategy::try_new(&t.matrix, Par::Threads(t.nnz)).is_none());
    assert!(SparseDenseStrategy::try_new(&t.matrix, Par::Threads(t.nnz + 3)).is_none());
    assert!(SparseDenseStrategy::try_new(&t.matrix, Par::Sequential).is_some());
    if t.nnz > 1 {
        assert!(SparseDenseStrategy::try_new(&t.matrix, Par::Threads(1)).is_some());
    }
}

#[test]
fn test_synthetic_pattern_pinned() {
    // the generator's contract names the pattern; check it at runtime too
    let t = TestMatrices::create_synthetic(9, 7, 40);
    let m = &t.matrix;
    for j in 0..7usize {
        let mut expected: Vec<usize> = Vec::new();
        for i in 0..9usize {
            if (i * 7 + j * 11) % 100 < 40 {
                expected.push(i);
            }
        }
        let got: Vec<usize> = m.row_idx[m.col_ptr[j]..m.col_ptr[j + 1]].to_vec();
        assert_eq!(got, expected);
        for k in m.col_ptr[j]..m.col_ptr[j + 1] {
            let i = m.row_idx[k];
            assert_eq!(m.values[k], ((i * 7 + j * 11) % 97) as i64 + 1);
        }
    }
    for r in 0..7usize {
        assert_eq!(t.rhs_vector[r], ((r * 11) % 89) as i64 + 1);
    }
}
