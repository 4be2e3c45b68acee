//! Chunked-spill strategy: the destination is cut into fixed-size row
//! blocks, consecutive blocks assigned evenly to owning threads. Each worker
//! adds locally owned contributions straight into its own destination range
//! and batches every foreign contribution into fixed-capacity chunks tagged
//! with the destination block; the owners then drain the chunks through an
//! epoch-tagged block accumulator, so no backing array is cleared between
//! blocks.
use vstd::prelude::*;

verus! {

use crate::csc::{
    accum_base, lemma_row_sum_split, row_sum, seg_sum, spmv_post, Accum, ColMajorMat,
    CscMatrix, Par,
};
use crate::merge_impl::{
    build_slices, fr_sum, in_col, lemma_fr_sum_empty, lemma_fr_sum_total, lemma_fr_sum_update,
    slices_ok,
};
use crate::ring::{
    crop, eqm, lemma_crop_chain, lemma_crop_eqm, lemma_crop_id, lemma_eqm_add, lemma_eqm_crop,
    lemma_wrapping_add_crop, lemma_wrapping_mul_crop,
};
use crate::merge::{own_slice_sum, phase1_done, phase2_at};
use crate::spmv_drivers::SpMvStrategy;

/// Rows per destination block.
pub const B_ROWS: usize = 16384;

/// Pairs a spill chunk can hold.
pub const K_CAP: usize = 1024;

/// Chunks the shared pool is budgeted with, per thread.
pub const WS_CHUNKS_PER_THREAD: usize = 1000;

/// A spill chunk: a fixed-capacity batch of `(row, value)` contributions
/// destined for a single row block.
pub struct Chunk {
    pub block_id: usize,
    pub storage: Vec<(usize, i64)>,
    pub len: usize,
}

impl Chunk {
    /// The pairs actually written so far.
    pub open spec fn pairs(self) -> Seq<(usize, i64)> {
        self.storage@.subrange(0, self.len as int)
    }

    /// Backing storage pre-sized to the fixed capacity.
    pub open spec fn wf(self) -> bool {
        self.storage@.len() == K_CAP && self.len <= K_CAP
    }

    /// A fresh, empty chunk for `block_id`.
    pub fn new(block_id: usize) -> (c: Self)
        ensures
            c.wf(),
            c.block_id == block_id,
            c.pairs() == Seq::<(usize, i64)>::empty(),
    {
        let mut storage: Vec<(usize, i64)> = Vec::new();
        let mut i: usize = 0;
        while i < K_CAP
            invariant
                storage@.len() == i,
                i <= K_CAP,
            decreases K_CAP - i,
        {
            storage.push((0, 0));
            i += 1;
        }
        let c = Chunk { block_id, storage, len: 0 };
        proof {
            assert(c.pairs() =~= Seq::<(usize, i64)>::empty());
        }
        c
    }

    /// Append one contribution; reports whether the chunk is now full.
    pub fn push(&mut self, row: usize, v: i64) -> (full: bool)
        requires
            old(self).wf(),
            old(self).len < K_CAP,
        ensures
            final(self).wf(),
            final(self).block_id == old(self).block_id,
            final(self).pairs() == old(self).pairs().push((row, v)),
            final(self).len == old(self).len + 1,
            full == (final(self).len == K_CAP),
    {
        self.storage[self.len] = (row, v);
        self.len = self.len + 1;
        proof {
            assert(self.pairs() =~= old(self).pairs().push((row, v)));
        }
        self.len == K_CAP
    }

    /// How many contributions are pending.
    pub fn chunk_len(&self) -> (n: usize)
        ensures
            n == self.len,
    {
        self.len
    }

    /// Reuse the backing storage for a new block.
    pub fn clear_reuse(&mut self, new_block: usize)
        requires
            old(self).wf(),
        ensures
            final(self).wf(),
            final(self).block_id == new_block,
            final(self).pairs() == Seq::<(usize, i64)>::empty(),
    {
        self.block_id = new_block;
        self.len = 0;
        proof {
            assert(self.pairs() =~= Seq::<(usize, i64)>::empty());
        }
    }
}

/// Assign contiguous blocks to owners as evenly as possible: block `b`
/// belongs to thread `b / blocks_per_owner`, and thread `t` owns the row
/// range its blocks cover, clamped to the matrix height.
pub fn assign_blocks(nrows: usize, block_rows: usize, threads: usize) -> (out: (Vec<usize>, Vec<
    (usize, usize),
>))
    requires
        block_rows >= 1,
        threads >= 1,
        nrows + block_rows <= usize::MAX,
        (nrows + block_rows - 1) / block_rows as int + threads <= usize::MAX,
        ((nrows + block_rows - 1) / block_rows as int + threads - 1) / threads as int * threads
            * block_rows <= usize::MAX,
    ensures
        out.0@.len() == (nrows + block_rows - 1) / block_rows as int,
        forall|b: int|
            0 <= b < out.0@.len() ==> #[trigger] out.0@[b] == b / (((nrows + block_rows - 1)
                / block_rows as int + threads - 1) / threads as int),
        out.1@.len() == threads,
        forall|t: int|
            0 <= t < threads ==> #[trigger] out.1@[t] == (
                if t * (((nrows + block_rows - 1) / block_rows as int + threads - 1)
                    / threads as int) * block_rows < nrows {
                    (t * (((nrows + block_rows - 1) / block_rows as int + threads - 1)
                        / threads as int) * block_rows) as usize
                } else {
                    nrows
                },
                if (t + 1) * (((nrows + block_rows - 1) / block_rows as int + threads - 1)
                    / threads as int) * block_rows < nrows {
                    ((t + 1) * (((nrows + block_rows - 1) / block_rows as int + threads - 1)
                        / threads as int) * block_rows) as usize
                } else {
                    nrows
                },
            ),
{
    let num_blocks: usize = (nrows + block_rows - 1) / block_rows;
    let blocks_per_owner: usize = (num_blocks + threads - 1) / threads;
    proof {
        assert(blocks_per_owner >= 1 || num_blocks == 0) by {
            if num_blocks >= 1 {
                vstd::arithmetic::div_mod::lemma_div_non_zero(
                    num_blocks as int + threads - 1,
                    threads as int,
                );
            }
        }
        vstd::arithmetic::div_mod::lemma_fundamental_div_mod(
            num_blocks as int + threads - 1,
            threads as int,
        );
        vstd::arithmetic::div_mod::lemma_mod_bound(num_blocks as int + threads - 1,
            threads as int);
        assert(threads * blocks_per_owner >= num_blocks);
    }
    let mut owner_of_block: Vec<usize> = Vec::new();
    let mut b: usize = 0;
    while b < num_blocks
        invariant
            num_blocks >= 1 ==> blocks_per_owner >= 1,
            b <= num_blocks,
            owner_of_block@.len() == b,
            forall|b2: int|
                0 <= b2 < b ==> #[trigger] owner_of_block@[b2] == b2 / blocks_per_owner as int,
        decreases num_blocks - b,
    {
        owner_of_block.push(b / blocks_per_owner);
        b += 1;
    }
    let mut row_ranges: Vec<(usize, usize)> = Vec::new();
    let mut t: usize = 0;
    while t < threads
        invariant
            threads >= 1,
            block_rows >= 1,
            t <= threads,
            blocks_per_owner == (num_blocks + threads - 1) / threads as int,
            num_blocks == (nrows + block_rows - 1) / block_rows as int,
            blocks_per_owner * threads * block_rows <= usize::MAX,
            row_ranges@.len() == t,
            forall|t2: int|
                0 <= t2 < t ==> #[trigger] row_ranges@[t2] == (
                    if t2 * blocks_per_owner as int * block_rows < nrows {
                        (t2 * blocks_per_owner as int * block_rows) as usize
                    } else {
                        nrows
                    },
                    if (t2 + 1) * blocks_per_owner as int * block_rows < nrows {
                        ((t2 + 1) * blocks_per_owner as int * block_rows) as usize
                    } else {
                        nrows
                    },
                ),
        decreases threads - t,
    {
        proof {
            assert(t * blocks_per_owner * block_rows <= threads * blocks_per_owner
                * block_rows && (t + 1) * blocks_per_owner * block_rows <= threads
                * blocks_per_owner * block_rows && t * blocks_per_owner <= t
                * blocks_per_owner * block_rows && (t + 1) * blocks_per_owner <= (t + 1)
                * blocks_per_owner * block_rows && blocks_per_owner * threads * block_rows
                == threads * blocks_per_owner * block_rows) by (nonlinear_arith)
                requires
                    t < threads,
                    blocks_per_owner >= 0,
                    block_rows >= 1,
            ;
        }
        let row_start: usize = if t * blocks_per_owner * block_rows < nrows {
            t * blocks_per_owner * block_rows
        } else {
            nrows
        };
        let row_end: usize = if (t + 1) * blocks_per_owner * block_rows < nrows {
            (t + 1) * blocks_per_owner * block_rows
        } else {
            nrows
        };
        row_ranges.push((row_start, row_end));
        t += 1;
    }
    (owner_of_block, row_ranges)
}

/// A versioned dense accumulator for one block: instead of clearing its
/// backing array between blocks, every slot remembers the epoch it was last
/// written at, so a new epoch invalidates everything in constant time, and
/// the touched list bounds the flush to the rows actually written.
pub struct BlockScratch {
    pub acc: Vec<i64>,
    pub seen_epoch: Vec<u32>,
    pub touched: Vec<usize>,
    pub epoch: u32,
}

impl BlockScratch {
    /// The accumulated value per slot: what was written this epoch, zero
    /// elsewhere.
    pub open spec fn view_at(self, i: int) -> i64 {
        if self.seen_epoch@[i] == self.epoch {
            self.acc@[i]
        } else {
            0
        }
    }

    pub open spec fn block_rows(self) -> int {
        self.acc@.len() as int
    }

    pub open spec fn wf(self) -> bool {
        &&& self.acc@.len() == self.seen_epoch@.len()
        &&& self.epoch >= 1
        &&& forall|i: int| 0 <= i < self.seen_epoch@.len() ==> #[trigger] self.seen_epoch@[i]
            <= self.epoch
        &&& forall|j1: int, j2: int|
            0 <= j1 < j2 < self.touched@.len() ==> #[trigger] self.touched@[j1] != #[trigger]
                self.touched@[j2]
        &&& forall|j: int|
            0 <= j < self.touched@.len() ==> (#[trigger] self.touched@[j]) < self.acc@.len()
                && self.seen_epoch@[self.touched@[j] as int] == self.epoch
        &&& forall|i: int|
            0 <= i < self.seen_epoch@.len() && #[trigger] self.seen_epoch@[i] == self.epoch
                ==> exists|j: int| 0 <= j < self.touched@.len() && (#[trigger] self.touched@[
                j]) == i
    }

    /// A fresh accumulator for blocks of `block_rows` rows.
    pub fn new(block_rows: usize) -> (s: Self)
        ensures
            s.wf(),
            s.block_rows() == block_rows,
            forall|i: int| 0 <= i < block_rows ==> #[trigger] s.view_at(i) == 0,
    {
        let mut acc: Vec<i64> = Vec::new();
        let mut seen_epoch: Vec<u32> = Vec::new();
        let mut i: usize = 0;
        while i < block_rows
            invariant
                acc@.len() == i,
                seen_epoch@.len() == i,
                i <= block_rows,
                forall|j: int| 0 <= j < i ==> #[trigger] seen_epoch@[j] == 0,
            decreases block_rows - i,
        {
            acc.push(0);
            seen_epoch.push(0);
            i += 1;
        }
        BlockScratch { acc, seen_epoch, touched: Vec::new(), epoch: 1 }
    }

    /// Open a new block: bump the epoch — everything is invalid again — and
    /// forget the touched list. A wrapped epoch counter resets the version
    /// array once, keeping stale versions from ever matching.
    pub fn start_block(&mut self)
        requires
            old(self).wf(),
        ensures
            final(self).wf(),
            final(self).block_rows() == old(self).block_rows(),
            forall|i: int| 0 <= i < final(self).block_rows() ==> #[trigger] final(self).view_at(
                i) == 0,
            final(self).touched@.len() == 0,
    {
        self.epoch = self.epoch.wrapping_add(1);
        if self.epoch == 0 {
            let n: usize = self.seen_epoch.len();
            let mut i: usize = 0;
            while i < n
                invariant
                    n == self.seen_epoch@.len(),
                    i <= n,
                    self.acc@.len() == n,
                    forall|j: int| 0 <= j < i ==> #[trigger] self.seen_epoch@[j] == 0,
                decreases n - i,
            {
                self.seen_epoch[i] = 0;
                i += 1;
            }
            self.epoch = 1;
        }
        self.touched.clear();
    }

    /// Fold one contribution into a slot: a first touch this epoch replaces
    /// the stale value, later touches accumulate.
    pub fn add(&mut self, local_idx: usize, val: i64)
        requires
            old(self).wf(),
            local_idx < old(self).block_rows(),
        ensures
            final(self).wf(),
            final(self).block_rows() == old(self).block_rows(),
            final(self).view_at(local_idx as int) == crop(
                old(self).view_at(local_idx as int) + val,
            ),
            forall|i: int|
                0 <= i < final(self).block_rows() && i != local_idx
                    ==> #[trigger] final(self).view_at(i) == old(self).view_at(i),
    {
        if self.seen_epoch[local_idx] != self.epoch {
            self.seen_epoch[local_idx] = self.epoch;
            self.acc[local_idx] = val;
            self.touched.push(local_idx);
            proof {
                lemma_crop_id(val as int);
                assert forall|i: int|
                    0 <= i < self.seen_epoch@.len() && #[trigger] self.seen_epoch@[i]
                        == self.epoch implies exists|j: int|
                    0 <= j < self.touched@.len() && (#[trigger] self.touched@[j]) == i by {
                    if i == local_idx {
                        assert(self.touched@[self.touched@.len() - 1] == i);
                    } else {
                        let j = choose|j: int|
                            0 <= j < old(self).touched@.len() && (#[trigger] old(
                                self,
                            ).touched@[j]) == i;
                        assert(self.touched@[j] == i);
                    }
                }
                assert forall|j1: int, j2: int|
                    0 <= j1 < j2 < self.touched@.len() implies #[trigger] self.touched@[j1]
                    != #[trigger] self.touched@[j2] by {
                    if j2 == self.touched@.len() - 1 {
                        assert(old(self).seen_epoch@[old(self).touched@[j1] as int]
                            == self.epoch);
                    }
                }
            }
        } else {
            let prev: i64 = self.acc[local_idx];
            self.acc[local_idx] = prev.wrapping_add(val);
            proof {
                lemma_wrapping_add_crop(prev, val);
            }
        }
    }

    /// Scatter the settled sums into the owner's destination: only the
    /// touched slots below `rows` move — the tail block of a destination may
    /// be shorter than the block size — and every other destination row
    /// keeps its value.
    pub fn flush_into(&self, y: &mut Vec<i64>, base_local: usize, rows: usize)
        requires
            self.wf(),
            rows <= self.block_rows(),
            base_local + rows <= old(y).len(),
            forall|i: int| rows <= i < self.block_rows() ==> #[trigger] self.view_at(i) == 0,
        ensures
            final(y)@.len() == old(y)@.len(),
            forall|i: int|
                0 <= i < rows ==> final(y)@[base_local + i] == crop(
                    old(y)@[base_local + i] + self.view_at(i),
                ),
            forall|k: int|
                0 <= k < old(y)@.len() && !(base_local <= k < base_local + rows)
                    ==> final(y)@[k] == old(y)@[k],
    {
        let ghost y0: Seq<i64> = y@;
        let n: usize = self.touched.len();
        let mut j: usize = 0;
        while j < n
            invariant
                self.wf(),
                rows <= self.block_rows(),
                forall|i: int| rows <= i < self.block_rows() ==> #[trigger] self.view_at(i)
                    == 0,
                n == self.touched@.len(),
                j <= n,
                base_local + rows <= y0.len(),
                base_local + rows <= usize::MAX,
                y@.len() == y0.len(),
                forall|j2: int|
                    0 <= j2 < j && (#[trigger] self.touched@[j2]) < rows ==> y@[base_local
                        + self.touched@[j2] as int] == crop(y0[base_local + self.touched@[
                        j2] as int] + self.view_at(self.touched@[j2] as int)),
                forall|k: int|
                    0 <= k < y0.len() && (forall|j2: int|
                        0 <= j2 < j && (#[trigger] self.touched@[j2]) < rows ==> base_local
                            + self.touched@[j2] as int != k) ==> y@[k] == y0[k],
        decreases n - j,
        {
            let idx: usize = self.touched[j];
            if idx < rows {
                let ghost pre: Seq<i64> = y@;
                y[base_local + idx] = y[base_local + idx].wrapping_add(self.acc[idx]);
                proof {
                    lemma_wrapping_add_crop(pre[base_local + idx as int],
                        self.acc@[idx as int]);
                    assert(pre[base_local + idx as int] == y0[base_local + idx as int]) by {
                        assert forall|j2: int|
                            0 <= j2 < j && (#[trigger] self.touched@[j2]) < rows implies
                            base_local + self.touched@[j2] as int != base_local
                            + idx as int by {
                            assert(self.touched@[j2] != self.touched@[j as int]);
                        }
                    }
                    assert(self.view_at(idx as int) == self.acc@[idx as int]);
                }
            }
            j += 1;
        }
        proof {
            assert forall|i: int| 0 <= i < rows implies y@[base_local + i]
                == crop(y0[base_local + i] + self.view_at(i)) by {
                if self.seen_epoch@[i] == self.epoch {
                    let j2 = choose|j2: int|
                        0 <= j2 < self.touched@.len() && (#[trigger] self.touched@[j2]) == i;
                } else {
                    assert(self.view_at(i) == 0);
                    assert forall|j2: int|
                        0 <= j2 < n implies base_local + (#[trigger] self.touched@[j2]) as int
                        != base_local + i by {
                        assert(self.seen_epoch@[self.touched@[j2] as int] == self.epoch);
                    }
                    assert(y@[base_local + i] == y0[base_local + i]);
                    lemma_crop_id(y0[base_local + i] as int);
                }
            }
            assert forall|k: int|
                0 <= k < y0.len() && !(base_local <= k < base_local + rows) implies y@[k]
                == y0[k] by {
                assert forall|j2: int|
                    0 <= j2 < n && (#[trigger] self.touched@[j2]) < rows implies base_local
                    + self.touched@[j2] as int != k by {}
            }
        }
    }
}

/// Sum of the listed contributions destined for row `r`.
pub open spec fn pairs_row_sum(ps: Seq<(usize, i64)>, r: int) -> int
    decreases ps.len(),
{
    if ps.len() == 0 {
        0
    } else {
        pairs_row_sum(ps.drop_last(), r) + if ps.last().0 == r {
            ps.last().1 as int
        } else {
            0
        }
    }
}

/// Sum, across a batch of chunks, of the contributions destined for row `r`.
pub open spec fn chunks_row_sum(chs: Seq<Chunk>, r: int) -> int
    decreases chs.len(),
{
    if chs.len() == 0 {
        0
    } else {
        chunks_row_sum(chs.drop_last(), r) + pairs_row_sum(chs.last().pairs(), r)
    }
}

/// A row no pair names receives nothing.
pub proof fn lemma_pairs_row_none(ps: Seq<(usize, i64)>, r: int)
    requires
        forall|j: int| 0 <= j < ps.len() ==> (#[trigger] ps[j]).0 != r,
    ensures
        pairs_row_sum(ps, r) == 0,
    decreases ps.len(),
{
    if ps.len() > 0 {
        lemma_pairs_row_none(ps.drop_last(), r);
    }
}

/// Changing one chunk changes the batch sum by that chunk's difference.
pub proof fn lemma_chunks_sum_update(chs: Seq<Chunk>, chs2: Seq<Chunk>, b: int, r: int)
    requires
        chs.len() == chs2.len(),
        forall|c: int| 0 <= c < chs.len() && c != b ==> #[trigger] chs2[c] == chs[c],
    ensures
        chunks_row_sum(chs2, r) == chunks_row_sum(chs, r) + if 0 <= b < chs.len() {
            pairs_row_sum(chs2[b].pairs(), r) - pairs_row_sum(chs[b].pairs(), r)
        } else {
            0
        },
    decreases chs.len(),
{
    if chs.len() > 0 {
        assert(chs2.drop_last().len() == chs.drop_last().len());
        assert forall|c: int|
            0 <= c < chs.drop_last().len() && c != b implies #[trigger] chs2.drop_last()[c]
            == chs.drop_last()[c] by {
            assert(chs2[c] == chs[c]);
        }
        lemma_chunks_sum_update(chs.drop_last(), chs2.drop_last(), b, r);
        if b == chs.len() - 1 {
        } else {
            assert(chs2.last() == chs.last());
        }
    }
}

/// A chunk fit for draining: its pairs land inside its own block, below the
/// destination height.
pub open spec fn chunk_rows_ok(ch: Chunk, nrows: int) -> bool {
    &&& ch.wf()
    &&& ch.block_id * B_ROWS < nrows
    &&& forall|j: int|
        0 <= j < ch.pairs().len() ==> ch.block_id * B_ROWS <= (#[trigger] ch.pairs()[j]).0
            < nrows && (ch.pairs()[j]).0 < ch.block_id * B_ROWS + B_ROWS
}

/// Drain a batch of spill chunks into the destination: group by block —
/// here one chunk at a time — accumulate each block in the epoch-tagged
/// scratch, and flush the settled sums.
#[verifier::rlimit(100)]
#[verifier::spinoff_prover]
pub fn collect_chunks(dst: &mut Vec<i64>, chunks: &Vec<Chunk>, scratch: &mut BlockScratch)
    requires
        old(scratch).wf(),
        old(scratch).block_rows() == B_ROWS,
        forall|c: int| 0 <= c < chunks@.len() ==> chunk_rows_ok(#[trigger] chunks@[c],
            old(dst)@.len() as int),
    ensures
        final(scratch).wf(),
        final(scratch).block_rows() == B_ROWS,
        final(dst)@.len() == old(dst)@.len(),
        forall|r: int|
            0 <= r < old(dst)@.len() ==> final(dst)@[r] == crop(
                old(dst)@[r] + chunks_row_sum(chunks@, r),
            ),
{
    let ghost dst0: Seq<i64> = dst@;
    let nrows: usize = dst.len();
    let n: usize = chunks.len();
    let mut ci: usize = 0;
    proof {
        assert forall|r: int| 0 <= r < nrows implies dst@[r] == crop(
            dst0[r] + chunks_row_sum(chunks@.subrange(0, 0), r),
        ) by {
            lemma_crop_id(dst0[r] as int);
        }
    }
    while ci < n
        invariant
            n == chunks@.len(),
            ci <= n,
            scratch.wf(),
            scratch.block_rows() == B_ROWS,
            dst@.len() == dst0.len() == nrows,
            forall|c: int| 0 <= c < chunks@.len() ==> chunk_rows_ok(#[trigger] chunks@[c],
                nrows as int),
            forall|r: int|
                0 <= r < nrows ==> dst@[r] == crop(
                    dst0[r] + chunks_row_sum(chunks@.subrange(0, ci as int), r),
                ),
        decreases n - ci,
    {
        let bid: usize = chunks[ci].block_id;
        proof {
            assert(chunk_rows_ok(chunks@[ci as int], nrows as int));
            assert(bid * B_ROWS < nrows);
        }
        let base: usize = bid * B_ROWS;
        let block_len: usize = if nrows - base >= B_ROWS {
            B_ROWS
        } else {
            nrows - base
        };
        scratch.start_block();
        let m: usize = chunks[ci].chunk_len();
        let mut pi: usize = 0;
        proof {
            assert(chunks@[ci as int].pairs().subrange(0, 0) =~= Seq::<(usize, i64)>::empty());
        }
        while pi < m
            invariant
                scratch.wf(),
                scratch.block_rows() == B_ROWS,
                ci < n == chunks@.len(),
                m == chunks@[ci as int].len,
                pi <= m,
                chunk_rows_ok(chunks@[ci as int], nrows as int),
                bid == chunks@[ci as int].block_id,
                base == bid * B_ROWS,
                base < nrows,
                block_len == if nrows - base >= B_ROWS {
                    B_ROWS as int
                } else {
                    nrows - base
                },
                dst@.len() == nrows,
                forall|i: int|
                    0 <= i < B_ROWS ==> #[trigger] scratch.view_at(i) == crop(
                        pairs_row_sum(
                            chunks@[ci as int].pairs().subrange(0, pi as int),
                            base + i,
                        ),
                    ),
            decreases m - pi,
        {
            let (row, val): (usize, i64) = chunks[ci].storage[pi];
            proof {
                assert(chunks@[ci as int].pairs()[pi as int] == (row, val));
                assert(base <= row < nrows && row < base + B_ROWS);
            }
            let local: usize = row - base;
            let ghost pre: BlockScratch = *scratch;
            scratch.add(local, val);
            proof {
                let ps = chunks@[ci as int].pairs();
                assert(ps.subrange(0, pi as int + 1).drop_last() =~= ps.subrange(
                    0,
                    pi as int,
                ));
                assert(ps.subrange(0, pi as int + 1).last() == (row, val));
                assert forall|i: int| 0 <= i < B_ROWS implies #[trigger] scratch.view_at(i)
                    == crop(pairs_row_sum(ps.subrange(0, pi as int + 1), base + i)) by {
                    if i == local {
                        lemma_crop_eqm(pairs_row_sum(ps.subrange(0, pi as int), base + i));
                        lemma_eqm_add(
                            pre.view_at(i) as int,
                            pairs_row_sum(ps.subrange(0, pi as int), base + i),
                            val as int,
                            val as int,
                        );
                        lemma_eqm_crop(
                            pre.view_at(i) + val,
                            pairs_row_sum(ps.subrange(0, pi as int), base + i) + val,
                        );
                    }
                }
            }
            pi += 1;
        }
        let ghost dpre: Seq<i64> = dst@;
        proof {
            assert(chunks@[ci as int].pairs().subrange(0, m as int) =~= chunks@[
                ci as int].pairs());
            assert forall|i: int|
                block_len <= i < B_ROWS implies #[trigger] scratch.view_at(i) == 0 by {
                assert(scratch.view_at(i) == crop(pairs_row_sum(chunks@[ci as int].pairs(),
                    base + i)));
                assert forall|j: int|
                    0 <= j < chunks@[ci as int].pairs().len() implies (#[trigger] chunks@[
                    ci as int].pairs()[j]).0 != base + i by {}
                lemma_pairs_row_none(chunks@[ci as int].pairs(), base + i);
                lemma_crop_id(0);
            }
        }
        scratch.flush_into(dst, base, block_len);
        proof {
            let ps = chunks@[ci as int].pairs();
            assert(chunks@.subrange(0, ci as int + 1).drop_last() =~= chunks@.subrange(
                0,
                ci as int,
            ));
            assert(chunks@.subrange(0, ci as int + 1).last() == chunks@[ci as int]);
            assert forall|r: int| 0 <= r < nrows implies dst@[r] == crop(
                dst0[r] + chunks_row_sum(chunks@.subrange(0, ci as int + 1), r),
            ) by {
                if base <= r < base + block_len {
                    let i = r - base;
                    assert(dst@[r] == crop(dpre[r] + scratch.view_at(i)));
                    lemma_crop_eqm(pairs_row_sum(ps, r));
                    lemma_eqm_add(
                        scratch.view_at(i) as int,
                        pairs_row_sum(ps, r),
                        dpre[r] as int,
                        dpre[r] as int,
                    );
                    lemma_eqm_crop(
                        dpre[r] + scratch.view_at(i),
                        pairs_row_sum(ps, r) + dpre[r],
                    );
                    lemma_crop_chain(
                        dpre[r],
                        dst0[r] as int,
                        chunks_row_sum(chunks@.subrange(0, ci as int), r),
                        pairs_row_sum(ps, r),
                        pairs_row_sum(ps, r),
                    );
                    lemma_crop_eqm(dst0[r] + chunks_row_sum(chunks@.subrange(0, ci as int),
                        r) + pairs_row_sum(ps, r));
                } else {
                    assert(dst@[r] == dpre[r]);
                    assert forall|j: int| 0 <= j < ps.len() implies (#[trigger] ps[j]).0
                        != r by {}
                    lemma_pairs_row_none(ps, r);
                }
            }
        }
        ci += 1;
    }
    proof {
        assert(chunks@.subrange(0, n as int) =~= chunks@);
    }
}

/// One worker of the chunked-spill strategy: contributions to its own row
/// range go straight into the destination; every foreign contribution is
/// batched into the open chunk of its destination block, full chunks are
/// set aside, and at the end every non-empty open chunk is handed over too.
#[verifier::rlimit(100)]
#[verifier::spinoff_prover]
pub fn buffer_worker(
    dst: &mut Vec<i64>,
    beta: Accum,
    lhs: &CscMatrix,
    rhs: &Vec<i64>,
    alpha: i64,
    n_threads: usize,
    strategy: &SpMvStrategy,
    tid: usize,
    row_start: usize,
    row_end: usize,
) -> (out: Vec<Chunk>)
    requires
        lhs.wf(),
        strategy.valid_for(*lhs, n_threads as int),
        tid < n_threads,
        rhs@.len() == lhs.ncols,
        old(dst)@.len() == lhs.nrows,
        row_start <= row_end <= lhs.nrows,
        lhs.nrows + B_ROWS <= usize::MAX,
    ensures
        final(dst)@.len() == old(dst)@.len(),
        forall|r: int|
            row_start <= r < row_end ==> final(dst)@[r] == crop(
                accum_base(beta, old(dst)@[r]) + row_sum(
                    *lhs,
                    rhs@,
                    alpha,
                    r,
                    strategy.thread_indptrs@[tid as int] as int,
                    strategy.thread_indptrs@[tid as int + 1] as int,
                ),
            ),
        forall|r: int|
            0 <= r < lhs.nrows && !(row_start <= r < row_end) ==> final(dst)@[r] == old(
                dst,
            )@[r],
        forall|c: int| 0 <= c < out@.len() ==> chunk_rows_ok(#[trigger] out@[c],
            lhs.nrows as int),
        forall|r: int|
            row_start <= r < row_end ==> #[trigger] chunks_row_sum(out@, r) == 0,
        forall|r: int|
            0 <= r < lhs.nrows && !(row_start <= r < row_end) ==> eqm(
                #[trigger] chunks_row_sum(out@, r),
                row_sum(
                    *lhs,
                    rhs@,
                    alpha,
                    r,
                    strategy.thread_indptrs@[tid as int] as int,
                    strategy.thread_indptrs@[tid as int + 1] as int,
                ),
            ),
{
    let ghost dst0: Seq<i64> = dst@;
    if matches!(beta, Accum::Replace) {
        let mut r: usize = row_start;
        while r < row_end
            invariant
                row_start <= r <= row_end <= dst@.len(),
                dst@.len() == dst0.len(),
                forall|i: int| row_start <= i < r ==> dst@[i] == 0,
                forall|i: int|
                    0 <= i < dst@.len() && !(row_start <= i < r) ==> dst@[i] == dst0[i],
            decreases row_end - r,
        {
            dst[r] = 0i64;
            r += 1;
        }
    }
    let ghost dstb: Seq<i64> = dst@;

    let (los, his, rhs_ks) = build_slices(lhs, rhs, alpha, n_threads, strategy, tid);
    let ghost cs: int = strategy.thread_cols@[tid as int] as int;
    let k: usize = los.len();
    let nrows: usize = lhs.nrows;
    let nb: usize = (nrows + B_ROWS - 1) / B_ROWS;
    proof {
        vstd::arithmetic::div_mod::lemma_fundamental_div_mod(
            nrows as int + B_ROWS - 1,
            B_ROWS as int,
        );
        vstd::arithmetic::div_mod::lemma_mod_bound(nrows as int + B_ROWS - 1, B_ROWS as int);
        assert(nb * B_ROWS >= nrows);
    }

    let mut done: Vec<Chunk> = Vec::new();
    let mut open: Vec<Chunk> = Vec::new();
    let mut b0: usize = 0;
    while b0 < nb
        invariant
            b0 <= nb,
            nb * B_ROWS >= nrows,
            open@.len() == b0,
            forall|b: int|
                0 <= b < b0 ==> (#[trigger] open@[b]).wf() && open@[b].block_id == b
                    && open@[b].pairs() == Seq::<(usize, i64)>::empty(),
        decreases nb - b0,
    {
        open.push(Chunk::new(b0));
        b0 += 1;
    }

    let mut c: usize = 0;
    let mut merge_ptrs: Vec<usize> = Vec::new();
    proof {
        assert forall|r: int| true implies #[trigger] chunks_row_sum(open@, r) == 0 by {
            lemma_open_empty_sum(open@, r);
        }
        assert forall|r: int| row_start <= r < row_end implies dst@[r] == crop(
            dstb[r] + fr_sum(*lhs, rhs_ks@, los@, merge_ptrs@, r, 0),
        ) by {
            lemma_crop_id(dstb[r] as int);
        }
    }
    while c < k
        invariant
            lhs.wf(),
            slices_ok(*lhs, rhs@, alpha, *strategy, n_threads as int, tid as int, los@, his@,
                rhs_ks@),
            cs == strategy.thread_cols@[tid as int] as int,
            k == los@.len(),
            nrows == lhs.nrows,
            nb * B_ROWS >= nrows,
            open@.len() == nb,
            c <= k,
            merge_ptrs@.len() == c,
            row_start <= row_end <= nrows,
            dst@.len() == dstb.len() == nrows,
            forall|c2: int| 0 <= c2 < c ==> #[trigger] merge_ptrs@[c2] == his@[c2],
            forall|b: int|
                0 <= b < nb ==> (#[trigger] open@[b]).wf() && open@[b].block_id == b
                    && open@[b].pairs().len() < K_CAP,
            forall|b: int|
                0 <= b < nb ==> forall|j: int|
                    0 <= j < (#[trigger] open@[b]).pairs().len() ==> b * B_ROWS <= (
                    #[trigger] open@[b].pairs()[j]).0 < nrows && open@[b].pairs()[j].0 < b
                        * B_ROWS + B_ROWS && !(row_start <= open@[b].pairs()[j].0 < row_end),
            forall|ci: int| 0 <= ci < done@.len() ==> chunk_rows_ok(#[trigger] done@[ci],
                nrows as int),
            forall|r: int|
                row_start <= r < row_end ==> dst@[r] == crop(
                    dstb[r] + fr_sum(*lhs, rhs_ks@, los@, merge_ptrs@, r, c as int),
                ),
            forall|r: int|
                0 <= r < dst@.len() && !(row_start <= r < row_end) ==> dst@[r] == dstb[r],
            forall|r: int|
                row_start <= r < row_end ==> #[trigger] chunks_row_sum(done@, r)
                    + chunks_row_sum(open@, r) == 0,
            forall|r: int|
                !(row_start <= r < row_end) ==> eqm(
                    #[trigger] chunks_row_sum(done@, r) + chunks_row_sum(open@, r),
                    fr_sum(*lhs, rhs_ks@, los@, merge_ptrs@, r, c as int),
                ),
        decreases k - c,
    {
        let hi: usize = his[c];
        let mut pos: usize = los[c];
        let rk: i64 = rhs_ks[c];
        proof {
            assert(in_col(*lhs, cs + c, los@[c as int], his@[c as int]));
            reveal(in_col);
            assert(his@[c as int] <= lhs.nnz());
        }
        while pos < hi
            invariant
                lhs.wf(),
                0 <= (c as int) < k == los@.len(),
                rk == rhs_ks@[c as int],
                hi == his@[c as int],
                los@[c as int] <= pos <= hi <= lhs.nnz(),
                nrows == lhs.nrows,
                nb * B_ROWS >= nrows,
                open@.len() == nb,
                merge_ptrs@.len() == c,
                row_start <= row_end <= nrows,
                dst@.len() == dstb.len() == nrows,
                forall|b: int|
                    0 <= b < nb ==> (#[trigger] open@[b]).wf() && open@[b].block_id == b
                        && open@[b].pairs().len() < K_CAP,
                forall|b: int|
                    0 <= b < nb ==> forall|j: int|
                        0 <= j < (#[trigger] open@[b]).pairs().len() ==> b * B_ROWS <= (
                        #[trigger] open@[b].pairs()[j]).0 < nrows && open@[b].pairs()[j].0
                            < b * B_ROWS + B_ROWS && !(row_start <= open@[b].pairs()[j].0
                            < row_end),
                forall|ci: int|
                    0 <= ci < done@.len() ==> chunk_rows_ok(#[trigger] done@[ci],
                        nrows as int),
                forall|r: int|
                    row_start <= r < row_end ==> dst@[r] == crop(
                        dstb[r] + fr_sum(*lhs, rhs_ks@, los@, merge_ptrs@, r, c as int)
                            + seg_sum(*lhs, rk, r, los@[c as int] as int, pos as int),
                    ),
                forall|r: int|
                    0 <= r < dst@.len() && !(row_start <= r < row_end) ==> dst@[r] == dstb[
                        r],
                forall|r: int|
                    row_start <= r < row_end ==> #[trigger] chunks_row_sum(done@, r)
                        + chunks_row_sum(open@, r) == 0,
                forall|r: int|
                    !(row_start <= r < row_end) ==> eqm(
                        #[trigger] chunks_row_sum(done@, r) + chunks_row_sum(open@, r),
                        fr_sum(*lhs, rhs_ks@, los@, merge_ptrs@, r, c as int) + seg_sum(
                            *lhs,
                            rk,
                            r,
                            los@[c as int] as int,
                            pos as int,
                        ),
                    ),
            decreases hi - pos,
        {
            let row: usize = lhs.row_idx[pos];
            let term: i64 = lhs.values[pos].wrapping_mul(rk);
            let ghost prod: int = lhs.values@[pos as int] as int * rk as int;
            proof {
                lemma_wrapping_mul_crop(lhs.values@[pos as int], rk);
                assert(lhs.row_idx@[pos as int] < nrows);
            }
            if row >= row_start && row < row_end {
                let ghost pre: Seq<i64> = dst@;
                dst[row] = dst[row].wrapping_add(term);
                proof {
                    lemma_wrapping_add_crop(pre[row as int], term);
                    lemma_crop_chain(
                        pre[row as int],
                        dstb[row as int] + fr_sum(*lhs, rhs_ks@, los@, merge_ptrs@,
                            row as int, c as int),
                        seg_sum(*lhs, rk, row as int, los@[c as int] as int, pos as int),
                        term as int,
                        prod,
                    );
                    assert forall|r: int|
                        !(row_start <= r < row_end) implies eqm(
                        #[trigger] chunks_row_sum(done@, r) + chunks_row_sum(open@, r),
                        fr_sum(*lhs, rhs_ks@, los@, merge_ptrs@, r, c as int) + seg_sum(
                            *lhs,
                            rk,
                            r,
                            los@[c as int] as int,
                            pos as int + 1,
                        ),
                    ) by {
                        assert(lhs.row_idx@[pos as int] != r);
                    }
                }
            } else {
                let b: usize = row / B_ROWS;
                proof {
                    crate::merge::lemma_qdiv_bound(row as int, B_ROWS as int, nb as int);
                    vstd::arithmetic::div_mod::lemma_fundamental_div_mod(row as int,
                        B_ROWS as int);
                    vstd::arithmetic::div_mod::lemma_mod_bound(row as int, B_ROWS as int);
                    assert(b * B_ROWS <= row < b * B_ROWS + B_ROWS);
                }
                let ghost open_pre: Seq<Chunk> = open@;
                let ghost done_pre: Seq<Chunk> = done@;
                let full: bool = open[b].push(row, term);
                proof {
                    lemma_chunks_sum_update(open_pre, open@, b as int, row as int);
                    assert forall|r: int| true implies #[trigger] chunks_row_sum(open@, r)
                        == chunks_row_sum(open_pre, r) + if r == row {
                        term as int
                    } else {
                        0int
                    } by {
                        lemma_chunks_sum_update(open_pre, open@, b as int, r);
                        assert(open@[b as int].pairs().drop_last() =~= open_pre[
                            b as int].pairs());
                    }
                    assert forall|r: int|
                        !(row_start <= r < row_end) implies eqm(
                        #[trigger] chunks_row_sum(done@, r) + chunks_row_sum(open@, r),
                        fr_sum(*lhs, rhs_ks@, los@, merge_ptrs@, r, c as int) + seg_sum(
                            *lhs,
                            rk,
                            r,
                            los@[c as int] as int,
                            pos as int + 1,
                        ),
                    ) by {
                        if r == row {
                            lemma_crop_eqm(prod);
                            lemma_eqm_add(
                                chunks_row_sum(done_pre, r) + chunks_row_sum(open_pre, r),
                                fr_sum(*lhs, rhs_ks@, los@, merge_ptrs@, r, c as int)
                                    + seg_sum(*lhs, rk, r, los@[c as int] as int,
                                    pos as int),
                                term as int,
                                prod,
                            );
                        }
                    }
                }
                if full {
                    let mut fresh: Chunk = Chunk::new(b);
                    let ghost open_mid: Seq<Chunk> = open@;
                    core::mem::swap(&mut fresh, &mut open[b]);
                    done.push(fresh);
                    proof {
                        assert(chunk_rows_ok(open_mid[b as int], nrows as int)) by {
                            assert(open_mid[b as int].pairs()[0].0 >= b * B_ROWS);
                            assert(open_mid[b as int].pairs()[0].0 < nrows);
                        }
                        assert forall|r: int| true implies #[trigger] chunks_row_sum(done@,
                            r) + chunks_row_sum(open@, r) == chunks_row_sum(done_pre, r)
                            + chunks_row_sum(open_mid, r) by {
                            lemma_chunks_sum_update(open_mid, open@, b as int, r);
                            assert(done@.drop_last() =~= done_pre);
                            assert(done@.last() == open_mid[b as int]);
                        }
                    }
                }
            }
            pos += 1;
        }
        let ghost ptrs_pre: Seq<usize> = merge_ptrs@;
        merge_ptrs.push(hi);
        proof {
            assert(merge_ptrs@[c as int] == hi);
            assert forall|r: int| true implies #[trigger] fr_sum(*lhs, rhs_ks@, los@,
                merge_ptrs@, r, c as int + 1) == fr_sum(*lhs, rhs_ks@, los@, ptrs_pre, r,
                c as int) + seg_sum(*lhs, rk, r, los@[c as int] as int, hi as int) by {
                lemma_fr_sum_update(*lhs, rhs_ks@, los@, ptrs_pre, merge_ptrs@, r, c as int,
                    c as int);
            }
            assert forall|r: int| row_start <= r < row_end implies dst@[r] == crop(
                dstb[r] + fr_sum(*lhs, rhs_ks@, los@, merge_ptrs@, r, c as int + 1),
            ) by {
                assert(dst@[r] == crop(dstb[r] + fr_sum(*lhs, rhs_ks@, los@, ptrs_pre, r,
                    c as int) + seg_sum(*lhs, rk, r, los@[c as int] as int, hi as int)));
            }
            assert forall|r: int|
                !(row_start <= r < row_end) implies eqm(
                #[trigger] chunks_row_sum(done@, r) + chunks_row_sum(open@, r),
                fr_sum(*lhs, rhs_ks@, los@, merge_ptrs@, r, c as int + 1),
            ) by {
                assert(eqm(chunks_row_sum(done@, r) + chunks_row_sum(open@, r), fr_sum(
                    *lhs, rhs_ks@, los@, ptrs_pre, r, c as int) + seg_sum(*lhs, rk, r,
                    los@[c as int] as int, hi as int)));
            }
        }
        c += 1;
    }

    // hand over the open chunks that still hold contributions
    let ghost lo: int = strategy.thread_indptrs@[tid as int] as int;
    let ghost hi2: int = strategy.thread_indptrs@[tid as int + 1] as int;
    proof {
        let kk = los@.len() as int;
        assert(merge_ptrs@ =~= his@);
        assert(kk >= 1 && los@[0] == lo && his@[kk - 1] == hi2);
        assert forall|r: int| row_start <= r < row_end implies dst@[r] == crop(
            accum_base(beta, dst0[r]) + row_sum(*lhs, rhs@, alpha, r, lo, hi2),
        ) by {
            lemma_fr_sum_total(*lhs, rhs@, alpha, cs, rhs_ks@, los@, his@, his@, r, kk);
            lemma_eqm_add(dstb[r] as int, dstb[r] as int, fr_sum(*lhs, rhs_ks@, los@, his@,
                r, kk), row_sum(*lhs, rhs@, alpha, r, lo, hi2));
            lemma_eqm_crop(dstb[r] + fr_sum(*lhs, rhs_ks@, los@, his@, r, kk), dstb[r]
                + row_sum(*lhs, rhs@, alpha, r, lo, hi2));
            assert(dstb[r] as int == accum_base(beta, dst0[r]));
        }
        assert forall|r: int|
            0 <= r < nrows && !(row_start <= r < row_end) implies eqm(
            #[trigger] chunks_row_sum(done@, r) + chunks_row_sum(open@, r),
            row_sum(*lhs, rhs@, alpha, r, lo, hi2),
        ) by {
            lemma_fr_sum_total(*lhs, rhs@, alpha, cs, rhs_ks@, los@, his@, his@, r, kk);
        }
    }
    let mut b2: usize = 0;
    while b2 < nb
        invariant
            nrows == lhs.nrows,
            open@.len() == nb,
            b2 <= nb,
            row_start <= row_end <= nrows,
            forall|b: int|
                0 <= b < nb ==> (#[trigger] open@[b]).wf() && open@[b].block_id == b
                    && open@[b].pairs().len() < K_CAP,
            forall|b: int|
                0 <= b < nb ==> forall|j: int|
                    0 <= j < (#[trigger] open@[b]).pairs().len() ==> b * B_ROWS <= (
                    #[trigger] open@[b].pairs()[j]).0 < nrows && open@[b].pairs()[j].0 < b
                        * B_ROWS + B_ROWS && !(row_start <= open@[b].pairs()[j].0 < row_end),
            forall|b: int| 0 <= b < b2 ==> (#[trigger] open@[b]).pairs().len() == 0,
            forall|ci: int| 0 <= ci < done@.len() ==> chunk_rows_ok(#[trigger] done@[ci],
                nrows as int),
            forall|r: int|
                row_start <= r < row_end ==> #[trigger] chunks_row_sum(done@, r)
                    + chunks_row_sum(open@, r) == 0,
            forall|r: int|
                0 <= r < nrows && !(row_start <= r < row_end) ==> eqm(
                    #[trigger] chunks_row_sum(done@, r) + chunks_row_sum(open@, r),
                    row_sum(*lhs, rhs@, alpha, r, lo, hi2),
                ),
        decreases nb - b2,
    {
        if open[b2].chunk_len() > 0 {
            let mut taken: Chunk = Chunk::new(b2);
            let ghost open_pre: Seq<Chunk> = open@;
            let ghost done_pre: Seq<Chunk> = done@;
            core::mem::swap(&mut taken, &mut open[b2]);
            done.push(taken);
            proof {
                assert(chunk_rows_ok(open_pre[b2 as int], nrows as int)) by {
                    assert(open_pre[b2 as int].pairs()[0].0 >= b2 * B_ROWS);
                    assert(open_pre[b2 as int].pairs()[0].0 < nrows);
                }
                assert forall|r: int| true implies #[trigger] chunks_row_sum(done@, r)
                    + chunks_row_sum(open@, r) == chunks_row_sum(done_pre, r)
                    + chunks_row_sum(open_pre, r) by {
                    lemma_chunks_sum_update(open_pre, open@, b2 as int, r);
                    assert(done@.drop_last() =~= done_pre);
                    assert(done@.last() == open_pre[b2 as int]);
                }
            }
        }
        b2 += 1;
    }
    proof {
        assert forall|r: int| true implies #[trigger] chunks_row_sum(open@, r) == 0 by {
            lemma_open_empty_sum(open@, r);
        }
    }
    done
}

/// Rows outside the destination receive nothing from sound chunks.
proof fn lemma_chunks_row_none(chs: Seq<Chunk>, r: int, nrows: int)
    requires
        forall|c: int| 0 <= c < chs.len() ==> chunk_rows_ok(#[trigger] chs[c], nrows),
        !(0 <= r < nrows),
    ensures
        chunks_row_sum(chs, r) == 0,
    decreases chs.len(),
{
    if chs.len() > 0 {
        lemma_chunks_row_none(chs.drop_last(), r, nrows);
        assert forall|j: int|
            0 <= j < chs.last().pairs().len() implies (#[trigger] chs.last().pairs()[j]).0
            != r by {
            assert(chunk_rows_ok(chs[chs.len() - 1], nrows));
        }
        lemma_pairs_row_none(chs.last().pairs(), r);
    }
}

/// A batch of empty chunks contributes nothing.
proof fn lemma_open_empty_sum(chs: Seq<Chunk>, r: int)
    requires
        forall|b: int| 0 <= b < chs.len() ==> (#[trigger] chs[b]).pairs().len() == 0,
    ensures
        chunks_row_sum(chs, r) == 0,
    decreases chs.len(),
{
    if chs.len() > 0 {
        lemma_open_empty_sum(chs.drop_last(), r);
    }
}

/// Scalar pair slots of scratch this strategy budgets: the shared chunk
/// pool, `chunks-per-thread` chunks of `K_CAP` pairs for every thread.
pub fn sparse_dense_scratch(
    lhs: &CscMatrix,
    rhs: &ColMajorMat,
    strategy: &SpMvStrategy,
    par: Par,
) -> (req: usize)
    requires
        match par {
            Par::Sequential => true,
            Par::Threads(n) => n * 4 <= usize::MAX && (rhs.ncols < n * 4 ==> K_CAP * n
                * WS_CHUNKS_PER_THREAD <= usize::MAX),
        },
    ensures
        req == match par {
            Par::Sequential => 0int,
            Par::Threads(n) => if rhs.ncols >= n * 4 {
                0int
            } else {
                K_CAP * n * WS_CHUNKS_PER_THREAD
            },
        },
{
    match par {
        Par::Sequential => 0,
        Par::Threads(n_threads) => {
            if rhs.ncols >= n_threads * 4 {
                0
            } else {
                K_CAP * n_threads * WS_CHUNKS_PER_THREAD
            }
        },
    }
}

/// The per-worker chunk batches are sound: every chunk fit for draining,
/// nothing aimed at the worker's own window, and for each foreign row
/// exactly the worker's slice sum.
pub open spec fn clists_ok(
    m: CscMatrix,
    x: Seq<i64>,
    alpha: i64,
    ptrs: Seq<usize>,
    rpt: int,
    n: int,
    lists: Seq<Vec<Chunk>>,
) -> bool {
    &&& lists.len() == n
    &&& forall|t: int, c: int|
        0 <= t < n && 0 <= c < (#[trigger] lists[t])@.len() ==> chunk_rows_ok(
            #[trigger] lists[t]@[c],
            m.nrows as int,
        )
    &&& forall|t: int, r: int|
        0 <= t < n && t * rpt <= r < (t + 1) * rpt ==> #[trigger] chunks_row_sum(
            (#[trigger] lists[t])@,
            r,
        ) == 0
    &&& forall|t: int, r: int|
        0 <= t < n && 0 <= r < m.nrows && !(t * rpt <= r < (t + 1) * rpt) ==> eqm(
            #[trigger] chunks_row_sum((#[trigger] lists[t])@, r),
            row_sum(m, x, alpha, r, ptrs[t] as int, ptrs[t + 1] as int),
        )
}

/// The compute phase of the chunked-spill strategy.
#[verifier::rlimit(100)]
#[verifier::spinoff_prover]
fn run_buffer_workers(
    dst: &mut Vec<i64>,
    beta: Accum,
    lhs: &CscMatrix,
    rhs: &Vec<i64>,
    alpha: i64,
    n_threads: usize,
    strategy: &SpMvStrategy,
    rpt: usize,
    row_ranges: &Vec<(usize, usize)>,
) -> (outs: Vec<Vec<Chunk>>)
    requires
        lhs.wf(),
        strategy.valid_for(*lhs, n_threads as int),
        rhs@.len() == lhs.ncols,
        old(dst)@.len() == lhs.nrows,
        rpt >= 1,
        lhs.nrows <= n_threads * rpt,
        lhs.nrows + B_ROWS <= usize::MAX,
        row_ranges@.len() == n_threads,
        forall|t: int|
            0 <= t < n_threads ==> #[trigger] row_ranges@[t] == (
                if t * rpt < lhs.nrows {
                    (t * rpt) as usize
                } else {
                    lhs.nrows
                },
                if (t + 1) * rpt < lhs.nrows {
                    ((t + 1) * rpt) as usize
                } else {
                    lhs.nrows
                },
            ),
    ensures
        final(dst)@.len() == old(dst)@.len(),
        clists_ok(*lhs, rhs@, alpha, strategy.thread_indptrs@, rpt as int, n_threads as int,
            outs@),
        phase1_done(*lhs, rhs@, alpha, old(dst)@, beta, strategy.thread_indptrs@, rpt as int,
            final(dst)@),
{
    let ghost dst0: Seq<i64> = dst@;
    let ghost ptrs: Seq<usize> = strategy.thread_indptrs@;
    let nrows: usize = lhs.nrows;
    let mut outs: Vec<Vec<Chunk>> = Vec::new();
    let mut tid: usize = 0;
    while tid < n_threads
        invariant
            lhs.wf(),
            strategy.valid_for(*lhs, n_threads as int),
            rhs@.len() == lhs.ncols,
            nrows == lhs.nrows,
            dst@.len() == dst0.len() == nrows,
            rpt >= 1,
            nrows <= n_threads * rpt,
            nrows + B_ROWS <= usize::MAX,
            ptrs == strategy.thread_indptrs@,
            row_ranges@.len() == n_threads,
            forall|t: int|
                0 <= t < n_threads ==> #[trigger] row_ranges@[t] == (
                    if t * rpt < nrows {
                        (t * rpt) as usize
                    } else {
                        nrows
                    },
                    if (t + 1) * rpt < nrows {
                        ((t + 1) * rpt) as usize
                    } else {
                        nrows
                    },
                ),
            tid <= n_threads,
            clists_ok(*lhs, rhs@, alpha, ptrs, rpt as int, tid as int, outs@),
            forall|r: int|
                0 <= r < nrows && r < tid * rpt ==> #[trigger] dst@[r] == crop(
                    accum_base(beta, dst0[r]) + own_slice_sum(*lhs, rhs@, alpha, ptrs,
                        rpt as int, r),
                ),
            forall|r: int|
                tid * rpt <= r < nrows ==> #[trigger] dst@[r] == dst0[r],
        decreases n_threads - tid,
    {
        let rr: (usize, usize) = row_ranges[tid];
        let row_start: usize = rr.0;
        let row_end: usize = rr.1;
        proof {
            assert(tid * rpt + rpt == (tid + 1) * rpt) by (nonlinear_arith);
            assert(tid * rpt >= 0 && tid * rpt <= (tid + 1) * rpt) by (nonlinear_arith)
                requires
                    tid >= 0,
                    rpt >= 0,
            ;
        }
        let ghost pre: Seq<i64> = dst@;
        let ghost outs_pre: Seq<Vec<Chunk>> = outs@;
        let chunks: Vec<Chunk> = buffer_worker(
            dst,
            beta,
            lhs,
            rhs,
            alpha,
            n_threads,
            strategy,
            tid,
            row_start,
            row_end,
        );
        outs.push(chunks);
        proof {
            assert forall|r: int|
                0 <= r < nrows && r < (tid + 1) * rpt implies #[trigger] dst@[r] == crop(
                accum_base(beta, dst0[r]) + own_slice_sum(*lhs, rhs@, alpha, ptrs, rpt as int,
                    r),
            ) by {
                if r < tid * rpt {
                    assert(dst@[r] == pre[r]);
                } else {
                    assert(row_start <= r < row_end);
                    assert(pre[r] == dst0[r]);
                    assert(r / rpt as int == tid as int) by {
                        vstd::arithmetic::div_mod::lemma_fundamental_div_mod_converse(
                            r,
                            rpt as int,
                            tid as int,
                            r - tid * rpt,
                        );
                    }
                }
            }
            assert forall|t: int, c: int|
                0 <= t < tid + 1 && 0 <= c < (#[trigger] outs@[t])@.len() implies
                chunk_rows_ok(#[trigger] outs@[t]@[c], nrows as int) by {
                if t < tid {
                    assert(outs@[t] == outs_pre[t]);
                } else {
                    assert(outs@[t] == chunks);
                }
            }
            assert forall|t: int, r: int|
                0 <= t < tid + 1 && t * rpt <= r < (t + 1) * rpt implies #[trigger]
                chunks_row_sum((#[trigger] outs@[t])@, r) == 0 by {
                if t < tid {
                    assert(outs@[t] == outs_pre[t]);
                } else {
                    assert(outs@[t] == chunks);
                    if 0 <= r < nrows {
                        assert(row_start <= r < row_end);
                    } else {
                        lemma_chunks_row_none(chunks@, r, nrows as int);
                    }
                }
            }
            assert forall|t: int, r: int|
                0 <= t < tid + 1 && 0 <= r < nrows && !(t * rpt <= r < (t + 1) * rpt)
                    implies eqm(
                #[trigger] chunks_row_sum((#[trigger] outs@[t])@, r),
                row_sum(*lhs, rhs@, alpha, r, ptrs[t] as int, ptrs[t + 1] as int),
            ) by {
                if t < tid {
                    assert(outs@[t] == outs_pre[t]);
                } else {
                    assert(outs@[t] == chunks);
                    assert(!(row_start <= r < row_end));
                }
            }
        }
        tid += 1;
    }
    outs
}

/// Drain worker `t2`'s chunks into the destination.
#[verifier::rlimit(100)]
#[verifier::spinoff_prover]
fn drain_one(
    dst: &mut Vec<i64>,
    lhs: &CscMatrix,
    rhs: &Vec<i64>,
    alpha: i64,
    n_threads: usize,
    strategy: &SpMvStrategy,
    rpt: usize,
    outs: &Vec<Vec<Chunk>>,
    t2: usize,
    scratch: &mut BlockScratch,
    beta: Ghost<Accum>,
    gdst0: Ghost<Seq<i64>>,
)
    requires
        lhs.wf(),
        strategy.valid_for(*lhs, n_threads as int),
        rhs@.len() == lhs.ncols,
        old(dst)@.len() == lhs.nrows,
        gdst0@.len() == lhs.nrows,
        old(scratch).wf(),
        old(scratch).block_rows() == B_ROWS,
        rpt >= 1,
        t2 < n_threads,
        lhs.nrows <= n_threads * rpt,
        clists_ok(*lhs, rhs@, alpha, strategy.thread_indptrs@, rpt as int, n_threads as int,
            outs@),
        phase2_at(*lhs, rhs@, alpha, gdst0@, beta@, strategy.thread_indptrs@, rpt as int,
            t2 as int, old(dst)@),
    ensures
        final(dst)@.len() == old(dst)@.len(),
        final(scratch).wf(),
        final(scratch).block_rows() == B_ROWS,
        phase2_at(*lhs, rhs@, alpha, gdst0@, beta@, strategy.thread_indptrs@, rpt as int,
            t2 as int + 1, final(dst)@),
{
    let ghost dst0: Seq<i64> = gdst0@;
    let ghost ptrs: Seq<usize> = strategy.thread_indptrs@;
    let nrows: usize = lhs.nrows;
    let ghost lo: int = ptrs[t2 as int] as int;
    let ghost hi: int = ptrs[t2 as int + 1] as int;
    let ghost pre: Seq<i64> = dst@;
    let list: &Vec<Chunk> = &outs[t2];
    proof {
        assert(outs@[t2 as int] == *list);
        assert forall|c: int|
            0 <= c < list@.len() implies chunk_rows_ok(#[trigger] list@[c], nrows as int) by {
            assert(outs@[t2 as int]@[c] == list@[c]);
        }
        assert(t2 * rpt + rpt == (t2 + 1) * rpt) by (nonlinear_arith);
        assert(t2 * rpt >= 0) by (nonlinear_arith)
            requires
                t2 >= 0,
                rpt >= 0,
        ;
    }
    collect_chunks(dst, list, scratch);
    proof {
        assert forall|r: int| 0 <= r < nrows implies #[trigger] dst@[r] == crop(
            accum_base(beta@, dst0[r]) + row_sum(*lhs, rhs@, alpha, r, 0, ptrs[t2 as int
                + 1] as int) + if r >= (t2 + 1) * rpt {
                own_slice_sum(*lhs, rhs@, alpha, ptrs, rpt as int, r)
            } else {
                0int
            },
        ) by {
            lemma_row_sum_split(*lhs, rhs@, alpha, r, 0, lo, hi);
            assert(dst@[r] == crop(pre[r] + chunks_row_sum(list@, r)));
            if t2 * rpt <= r < (t2 + 1) * rpt {
                assert(chunks_row_sum(outs@[t2 as int]@, r) == 0);
                assert(dst@[r] == crop(pre[r] + 0));
                lemma_crop_id(pre[r] as int);
                assert(r / rpt as int == t2 as int) by {
                    vstd::arithmetic::div_mod::lemma_fundamental_div_mod_converse(
                        r,
                        rpt as int,
                        t2 as int,
                        r - t2 * rpt,
                    );
                }
                assert(own_slice_sum(*lhs, rhs@, alpha, ptrs, rpt as int, r) == row_sum(
                    *lhs, rhs@, alpha, r, lo, hi));
            } else {
                assert(eqm(chunks_row_sum(outs@[t2 as int]@, r), row_sum(*lhs, rhs@, alpha,
                    r, lo, hi)));
                if r >= (t2 + 1) * rpt {
                    lemma_crop_chain(
                        pre[r],
                        accum_base(beta@, dst0[r]) + own_slice_sum(*lhs, rhs@, alpha, ptrs,
                            rpt as int, r),
                        row_sum(*lhs, rhs@, alpha, r, 0, lo),
                        chunks_row_sum(list@, r),
                        row_sum(*lhs, rhs@, alpha, r, lo, hi),
                    );
                } else {
                    assert(r < t2 * rpt);
                    lemma_crop_chain(
                        pre[r],
                        accum_base(beta@, dst0[r]) as int,
                        row_sum(*lhs, rhs@, alpha, r, 0, lo),
                        chunks_row_sum(list@, r),
                        row_sum(*lhs, rhs@, alpha, r, lo, hi),
                    );
                }
            }
        }
        assert(phase2_at(*lhs, rhs@, alpha, dst0, beta@, ptrs, rpt as int, t2 as int + 1,
            dst@));
    }
}

/// The chunked-spill strategy for one destination column: workers batch
/// their foreign contributions into block-tagged chunks, and the chunk
/// batches are drained into the destination through the epoch-tagged
/// scratch, worker-ascending.
#[verifier::rlimit(100)]
pub fn par_sparse_dense(
    dst: &mut Vec<i64>,
    beta: Accum,
    lhs: &CscMatrix,
    rhs: &Vec<i64>,
    alpha: i64,
    n_threads: usize,
    strategy: &SpMvStrategy,
    stack: &mut Vec<i64>,
)
    requires
        lhs.wf(),
        strategy.valid_for(*lhs, n_threads as int),
        rhs@.len() == lhs.ncols,
        old(dst)@.len() == lhs.nrows,
        lhs.nrows >= 1,
        lhs.nrows + B_ROWS <= usize::MAX,
        (lhs.nrows + B_ROWS - 1) / B_ROWS as int + n_threads <= usize::MAX,
        ((lhs.nrows + B_ROWS - 1) / B_ROWS as int + n_threads - 1) / n_threads as int
            * n_threads * B_ROWS <= usize::MAX,
    ensures
        final(dst)@.len() == old(dst)@.len(),
        final(stack)@ == old(stack)@,
        spmv_post(*lhs, rhs@, alpha, old(dst)@, beta, final(dst)@),
{
    let ghost dst0: Seq<i64> = dst@;
    let nrows: usize = lhs.nrows;
    let (owner_of_block, row_ranges) = assign_blocks(nrows, B_ROWS, n_threads);
    let nb: usize = (nrows + B_ROWS - 1) / B_ROWS;
    let bpo: usize = (nb + n_threads - 1) / n_threads;
    proof {
        vstd::arithmetic::div_mod::lemma_div_non_zero(nrows as int + B_ROWS - 1,
            B_ROWS as int);
        vstd::arithmetic::div_mod::lemma_fundamental_div_mod(nrows as int + B_ROWS - 1,
            B_ROWS as int);
        vstd::arithmetic::div_mod::lemma_mod_bound(nrows as int + B_ROWS - 1, B_ROWS as int);
        assert(nb >= 1 && nb * B_ROWS >= nrows);
        vstd::arithmetic::div_mod::lemma_div_non_zero(nb as int + n_threads - 1,
            n_threads as int);
        vstd::arithmetic::div_mod::lemma_fundamental_div_mod(nb as int + n_threads - 1,
            n_threads as int);
        vstd::arithmetic::div_mod::lemma_mod_bound(nb as int + n_threads - 1,
            n_threads as int);
        assert(bpo >= 1 && n_threads * bpo >= nb);
        assert(bpo * B_ROWS <= bpo * n_threads * B_ROWS && bpo * n_threads * B_ROWS == bpo
            * (n_threads as int) * B_ROWS) by (nonlinear_arith)
            requires
                n_threads >= 1,
                bpo >= 0,
                B_ROWS as int >= 0,
        ;
    }
    let rpt: usize = bpo * B_ROWS;
    proof {
        assert(rpt >= 1) by (nonlinear_arith)
            requires
                bpo >= 1,
                rpt == bpo * B_ROWS,
        ;
        assert(n_threads * rpt >= nb * B_ROWS) by (nonlinear_arith)
            requires
                n_threads * bpo >= nb,
                B_ROWS as int > 0,
                rpt == bpo * B_ROWS,
        ;
        assert(nrows <= n_threads * rpt);
        assert forall|t: int|
            0 <= t < n_threads implies #[trigger] row_ranges@[t] == (
            if t * rpt < nrows {
                (t * rpt) as usize
            } else {
                nrows
            },
            if (t + 1) * rpt < nrows {
                ((t + 1) * rpt) as usize
            } else {
                nrows
            },
        ) by {
            assert(t * (bpo as int) * B_ROWS == t * (rpt as int) && (t + 1) * (bpo as int)
                * B_ROWS == (t + 1) * (rpt as int)) by (nonlinear_arith)
                requires
                    rpt == bpo * B_ROWS,
            ;
        }
    }
    let outs: Vec<Vec<Chunk>> = run_buffer_workers(
        dst,
        beta,
        lhs,
        rhs,
        alpha,
        n_threads,
        strategy,
        rpt,
        &row_ranges,
    );
    let mut scratch: BlockScratch = BlockScratch::new(B_ROWS);
    let ghost ptrs: Seq<usize> = strategy.thread_indptrs@;
    proof {
        assert forall|r: int| 0 <= r < nrows implies #[trigger] dst@[r] == crop(
            accum_base(beta, dst0[r]) + row_sum(*lhs, rhs@, alpha, r, 0, ptrs[0] as int)
                + if r >= 0 * rpt {
                own_slice_sum(*lhs, rhs@, alpha, ptrs, rpt as int, r)
            } else {
                0int
            },
        ) by {
            assert(dst@[r] == crop(accum_base(beta, dst0[r]) + own_slice_sum(*lhs, rhs@,
                alpha, ptrs, rpt as int, r)));
            assert(ptrs[0] == 0);
            assert(0 * rpt == 0) by (nonlinear_arith);
        }
        assert(phase2_at(*lhs, rhs@, alpha, dst0, beta, ptrs, rpt as int, 0, dst@));
    }
    let mut t2: usize = 0;
    while t2 < n_threads
        invariant
            lhs.wf(),
            strategy.valid_for(*lhs, n_threads as int),
            rhs@.len() == lhs.ncols,
            nrows == lhs.nrows,
            dst@.len() == dst0.len() == nrows,
            rpt >= 1,
            nrows <= n_threads * rpt,
            scratch.wf(),
            scratch.block_rows() == B_ROWS,
            ptrs == strategy.thread_indptrs@,
            t2 <= n_threads,
            clists_ok(*lhs, rhs@, alpha, ptrs, rpt as int, n_threads as int, outs@),
            phase2_at(*lhs, rhs@, alpha, dst0, beta, ptrs, rpt as int, t2 as int, dst@),
        decreases n_threads - t2,
    {
        drain_one(dst, lhs, rhs, alpha, n_threads, strategy, rpt, &outs, t2, &mut scratch,
            Ghost(beta), Ghost(dst0));
        t2 += 1;
    }
    proof {
        assert forall|r: int| 0 <= r < nrows implies #[trigger] dst@[r] == crop(
            accum_base(beta, dst0[r]) + row_sum(*lhs, rhs@, alpha, r, 0, lhs.nnz()),
        ) by {
            assert(r < n_threads * rpt);
            assert(ptrs[n_threads as int] == lhs.nnz());
        }
    }
}

} // verus!
