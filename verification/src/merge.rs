//! Merge-based strategy, loser-tree variant: each thread k-way merges its
//! owned columns through a tournament tree that stores, at every internal
//! node, the loser of that match; replacing the winning leaf and walking the
//! fixed-depth path back up costs one comparison per level. Rows that fall
//! inside the thread's own output range bypass the tree and accumulate
//! directly into the thread's destination slice.
//!
//! Requires row indices sorted ascending within each column, the soft
//! invariant `CscMatrix::rows_sorted`.
use vstd::prelude::*;

verus! {

use crate::csc::{
    accum_base, lemma_row_sum_split, row_sum, seg_sum, spmv_post, Accum, CscMatrix,
};
use crate::merge_impl::{
    build_slices, fr_sum, in_col, lemma_fr_sum_empty, lemma_fr_sum_total, lemma_fr_sum_update,
    rem_sum, slices_ok, MergeEntry,
};
use crate::ring::{
    crop, eqm, lemma_crop_chain, lemma_crop_eqm, lemma_crop_id, lemma_eqm_add, lemma_eqm_crop,
    lemma_wrapping_add_crop, lemma_wrapping_mul_crop,
};
use crate::spmv_drivers::SpMvStrategy;
use vstd::arithmetic::div_mod::{
    lemma_div_denominator, lemma_fundamental_div_mod, lemma_fundamental_div_mod_converse,
};

/// Powers of two: subtree widths and per-level node counts.
pub open spec fn pw(h: nat) -> nat
    decreases h,
{
    if h == 0 {
        1
    } else {
        2 * pw((h - 1) as nat)
    }
}

pub proof fn lemma_pw_pos(h: nat)
    ensures
        pw(h) >= 1,
    decreases h,
{
    if h > 0 {
        lemma_pw_pos((h - 1) as nat);
    }
}

pub proof fn lemma_pw_adds(a: nat, b: nat)
    ensures
        pw(a + b) == pw(a) * pw(b),
    decreases a,
{
    if a == 0 {
        assert(pw(b) == 1 * pw(b)) by (nonlinear_arith);
    } else {
        lemma_pw_adds((a - 1) as nat, b);
        assert(pw(a + b) == 2 * (pw((a - 1) as nat) * pw(b))) by {
            assert((a + b - 1) as nat == (a - 1) as nat + b);
        }
        assert(2 * (pw((a - 1) as nat) * pw(b)) == (2 * pw((a - 1) as nat)) * pw(b))
            by (nonlinear_arith);
    }
}

pub proof fn lemma_pw_injective(a: nat, b: nat)
    requires
        pw(a) == pw(b),
    ensures
        a == b,
    decreases a,
{
    if a > 0 && b > 0 {
        lemma_pw_injective((a - 1) as nat, (b - 1) as nat);
    } else if a > 0 {
        lemma_pw_pos((a - 1) as nat);
    } else if b > 0 {
        lemma_pw_pos((b - 1) as nat);
    }
}

pub proof fn lemma_pw_monotone(a: nat, b: nat)
    requires
        a <= b,
    ensures
        pw(a) <= pw(b),
    decreases b,
{
    if a < b {
        lemma_pw_monotone(a, (b - 1) as nat);
        lemma_pw_pos((b - 1) as nat);
    }
}

/// "`a` wins or draws against `b`": the absent entry loses, and between two
/// present entries the smaller destination row wins.
pub open spec fn le_opt(a: Option<MergeEntry>, b: Option<MergeEntry>) -> bool {
    match (a, b) {
        (Option::Some(x), Option::Some(y)) => x.0 <= y.0,
        (Option::Some(_), Option::None) => true,
        (Option::None, Option::None) => true,
        (Option::None, Option::Some(_)) => false,
    }
}

/// Array offset of the internal nodes at height `h` (1 = the matches played
/// between leaf pairs), in a tree with `pw(lv)` leaves: levels are laid out
/// bottom-up, each of `pw(lv - h)` nodes.
pub open spec fn node_base(lv: nat, h: nat) -> int {
    pw(lv) - pw((lv + 1 - h) as nat)
}

/// Array index of internal node `p` at height `h`.
pub open spec fn node_idx(lv: nat, h: nat, p: int) -> int {
    node_base(lv, h) + p
}

/// Leaf `x` lies under the node at height `h`, position `q`.
pub open spec fn under(x: int, h: nat, q: int) -> bool {
    q * pw(h) <= x < (q + 1) * pw(h)
}

/// The leaf that wins the subtree below the node at height `h`, position
/// `p`, as the stored annotations determine it: each node stores the loser
/// of its match, so the winner is whichever child finalist is not stored.
pub open spec fn sub_winner(losers: Seq<usize>, lv: nat, h: nat, p: int) -> int
    decreases h,
{
    if h == 0 {
        p
    } else {
        let w0 = sub_winner(losers, lv, (h - 1) as nat, 2 * p);
        let w1 = sub_winner(losers, lv, (h - 1) as nat, 2 * p + 1);
        if losers[node_idx(lv, h, p)] == w0 {
            w1
        } else {
            w0
        }
    }
}

/// The tournament annotation below the node at height `h`, position `p`, is
/// consistent: every node stores the losing finalist of its match, and the
/// winner wins or draws each match on its way up.
pub open spec fn subtree_ok(
    base: Seq<Option<MergeEntry>>,
    losers: Seq<usize>,
    lv: nat,
    h: nat,
    p: int,
) -> bool
    decreases h,
{
    if h == 0 {
        true
    } else {
        let w0 = sub_winner(losers, lv, (h - 1) as nat, 2 * p);
        let w1 = sub_winner(losers, lv, (h - 1) as nat, 2 * p + 1);
        &&& subtree_ok(base, losers, lv, (h - 1) as nat, 2 * p)
        &&& subtree_ok(base, losers, lv, (h - 1) as nat, 2 * p + 1)
        &&& (losers[node_idx(lv, h, p)] == w0 || losers[node_idx(lv, h, p)] == w1)
        &&& le_opt(base[sub_winner(losers, lv, h, p)], base[losers[node_idx(lv, h, p)] as int])
    }
}

/// A consistent subtree's winner lies among its leaves and wins or draws
/// against every one of them.
pub proof fn lemma_subtree_min(
    base: Seq<Option<MergeEntry>>,
    losers: Seq<usize>,
    lv: nat,
    h: nat,
    p: int,
)
    requires
        subtree_ok(base, losers, lv, h, p),
    ensures
        under(sub_winner(losers, lv, h, p), h, p),
        forall|l: int|
            under(l, h, p) ==> le_opt(base[sub_winner(losers, lv, h, p)], #[trigger] base[l]),
    decreases h,
{
    if h == 0 {
        assert(p * 1 <= p < (p + 1) * 1) by (nonlinear_arith);
    } else {
        let w0 = sub_winner(losers, lv, (h - 1) as nat, 2 * p);
        let w1 = sub_winner(losers, lv, (h - 1) as nat, 2 * p + 1);
        let w = sub_winner(losers, lv, h, p);
        lemma_subtree_min(base, losers, lv, (h - 1) as nat, 2 * p);
        lemma_subtree_min(base, losers, lv, (h - 1) as nat, 2 * p + 1);
        let ph = pw((h - 1) as nat);
        assert(2 * p * ph == p * (2 * ph) && (2 * p + 2) * ph == (p + 1) * (2 * ph))
            by (nonlinear_arith);
        assert forall|l: int| under(l, h, p) implies le_opt(base[w], #[trigger] base[l]) by {
            assert((2 * p + 1) * ph == 2 * p * ph + ph && (2 * p + 2) * ph == (2 * p + 1) * ph
                + ph) by (nonlinear_arith);
            assert(under(l, (h - 1) as nat, 2 * p) || under(l, (h - 1) as nat, 2 * p + 1));
        }
    }
}

/// A leaf sits under exactly the position its index names at every height.
pub proof fn lemma_under_div(x: int, h: nat, q: int)
    requires
        x >= 0,
        under(x, h, q),
    ensures
        x / pw(h) as int == q,
{
    lemma_pw_pos(h);
    assert((q + 1) * pw(h) == q * pw(h) + pw(h)) by (nonlinear_arith);
    lemma_fundamental_div_mod_converse(x, pw(h) as int, q, x - q * pw(h) as int);
}

pub proof fn lemma_div_under(x: int, h: nat)
    requires
        x >= 0,
    ensures
        under(x, h, x / pw(h) as int),
{
    lemma_pw_pos(h);
    lemma_fundamental_div_mod(x, pw(h) as int);
    let q = x / pw(h) as int;
    assert(q * pw(h) + x % pw(h) as int == x) by (nonlinear_arith)
        requires
            x == pw(h) as int * q + x % pw(h) as int,
    ;
    assert((q + 1) * pw(h) == q * pw(h) + pw(h)) by (nonlinear_arith);
}

/// Positions nest: a node position under `(h, q)` at relative height `j`
/// covers only leaves under `(h, q)`.
pub proof fn lemma_under_trans(x: int, j: nat, r: int, h: nat, q: int)
    requires
        under(x, j, r),
        under(r, (h - j) as nat, q),
        j <= h,
    ensures
        under(x, h, q),
{
    lemma_pw_adds((h - j) as nat, j);
    lemma_pw_pos(j);
    let pj = pw(j) as int;
    let pd = pw((h - j) as nat) as int;
    assert(q * (pd * pj) <= r * pj && (r + 1) * pj <= (q + 1) * (pd * pj)) by (nonlinear_arith)
        requires
            q * pd <= r < (q + 1) * pd,
            pj >= 1,
    ;
    assert(pw(h) as int == pd * pj) by {
        assert((h - j) as nat + j == h);
    }
}

/// Bounds of node array indices: nodes at height `h` fill
/// `[node_base(lv, h), node_base(lv, h + 1))`.
pub proof fn lemma_node_idx_bounds(lv: nat, h: nat, q: int)
    requires
        1 <= h <= lv,
        0 <= q < pw((lv - h) as nat),
    ensures
        node_base(lv, h) <= node_idx(lv, h, q) < node_base(lv, (h + 1) as nat),
        node_base(lv, (h + 1) as nat) <= pw(lv) - 1,
{
    assert(pw((lv + 1 - h) as nat) == 2 * pw((lv - h) as nat));
    assert(pw((lv + 1 - (h + 1)) as nat) == pw((lv - h) as nat));
    lemma_pw_pos((lv - h) as nat);
    lemma_pw_monotone(1, (lv + 1 - h) as nat);
}

/// Subtree facts depend only on the node slots strictly below the next
/// level's offset: rewriting any later slot leaves them alone.
pub proof fn lemma_subtree_frame_above(
    base: Seq<Option<MergeEntry>>,
    losers: Seq<usize>,
    losers2: Seq<usize>,
    lv: nat,
    h: nat,
    p: int,
)
    requires
        h <= lv,
        0 <= p < pw((lv - h) as nat),
        forall|n: int| 0 <= n < node_base(lv, (h + 1) as nat) ==> losers2[n] == #[trigger] losers[n],
    ensures
        sub_winner(losers2, lv, h, p) == sub_winner(losers, lv, h, p),
        subtree_ok(base, losers, lv, h, p) ==> subtree_ok(base, losers2, lv, h, p),
    decreases h,
{
    if h > 0 {
        let hm = (h - 1) as nat;
        assert(pw((lv - hm) as nat) == 2 * pw((lv - h) as nat));
        lemma_node_idx_bounds(lv, h, p);
        lemma_node_base_nonneg(lv, h);
        lemma_node_base_monotone(lv, h, (h + 1) as nat);
        lemma_subtree_frame_above(base, losers, losers2, lv, hm, 2 * p);
        lemma_subtree_frame_above(base, losers, losers2, lv, hm, 2 * p + 1);
        assert(losers2[node_idx(lv, h, p)] == losers[node_idx(lv, h, p)]);
    }
}

/// Subtree facts also survive a write at a single node slot that lies
/// outside the subtree — at the same height but another position.
pub proof fn lemma_subtree_frame_point(
    base: Seq<Option<MergeEntry>>,
    losers: Seq<usize>,
    lv: nat,
    h: nat,
    p: int,
    j0: nat,
    q0: int,
    v: usize,
)
    requires
        losers.len() == pw(lv),
        h <= lv,
        0 <= p < pw((lv - h) as nat),
        1 <= j0 <= lv,
        0 <= q0 < pw((lv - j0) as nat),
        j0 > h || !under(q0, (h - j0) as nat, p),
    ensures
        sub_winner(losers.update(node_idx(lv, j0, q0), v), lv, h, p) == sub_winner(
            losers,
            lv,
            h,
            p,
        ),
        subtree_ok(base, losers, lv, h, p) ==> subtree_ok(
            base,
            losers.update(node_idx(lv, j0, q0), v),
            lv,
            h,
            p,
        ),
    decreases h,
{
    let n0 = node_idx(lv, j0, q0);
    if h == 0 {
    } else {
        let hm = (h - 1) as nat;
        assert(pw((lv - hm) as nat) == 2 * pw((lv - h) as nat));
        // the two children are disjoint from the written slot too
        if j0 <= hm && under(q0, (hm - j0) as nat, 2 * p) {
            assert(under(2 * p, 1, p)) by {
                assert(p * 2 <= 2 * p < (p + 1) * 2) by (nonlinear_arith);
                assert(pw(1) == 2) by {
                    reveal_with_fuel(pw, 3);
                }
            }
            lemma_under_trans(q0, (hm - j0) as nat, 2 * p, (h - j0) as nat, p);
            assert(false);
        }
        if j0 <= hm && under(q0, (hm - j0) as nat, 2 * p + 1) {
            assert(under(2 * p + 1, 1, p)) by {
                assert(p * 2 <= 2 * p + 1 < (p + 1) * 2) by (nonlinear_arith);
                assert(pw(1) == 2) by {
                    reveal_with_fuel(pw, 3);
                }
            }
            lemma_under_trans(q0, (hm - j0) as nat, 2 * p + 1, (h - j0) as nat, p);
            assert(false);
        }
        lemma_subtree_frame_point(base, losers, lv, hm, 2 * p, j0, q0, v);
        lemma_subtree_frame_point(base, losers, lv, hm, 2 * p + 1, j0, q0, v);
        // this node's own slot differs from the written one
        assert(node_idx(lv, h, p) != n0) by {
            lemma_node_idx_bounds(lv, h, p);
            lemma_node_idx_bounds(lv, j0, q0);
            if j0 < h {
                lemma_node_base_monotone(lv, (j0 + 1) as nat, h);
            } else if j0 > h {
                lemma_node_base_monotone(lv, (h + 1) as nat, j0);
            } else {
                assert(!under(q0, 0, p));
                assert(q0 * 1 == q0 && (q0 + 1) * 1 == q0 + 1) by (nonlinear_arith);
            }
        }
        assert(0 <= node_idx(lv, h, p) < losers.len() && 0 <= n0 < losers.len()) by {
            lemma_node_idx_bounds(lv, h, p);
            lemma_node_idx_bounds(lv, j0, q0);
            lemma_node_base_nonneg(lv, h);
            lemma_node_base_nonneg(lv, j0);
        }
        assert(losers.update(n0, v)[node_idx(lv, h, p)] == losers[node_idx(lv, h, p)]);
    }
}

/// Level offsets never decrease with height.
pub proof fn lemma_node_base_monotone(lv: nat, h1: nat, h2: nat)
    requires
        1 <= h1 <= h2 <= lv + 1,
    ensures
        node_base(lv, h1) <= node_base(lv, h2),
{
    lemma_pw_monotone((lv + 1 - h2) as nat, (lv + 1 - h1) as nat);
}

/// Level offsets are never negative.
pub proof fn lemma_node_base_nonneg(lv: nat, h: nat)
    requires
        1 <= h <= lv + 1,
    ensures
        0 <= node_base(lv, h),
{
    lemma_pw_monotone((lv + 1 - h) as nat, lv);
}

/// The position, at height `h`, of the sibling of leaf `x`'s path node.
pub open spec fn sib_pos(x: int, h: nat) -> int {
    let q = x / pw(h) as int;
    if q % 2 == 0 {
        q + 1
    } else {
        q - 1
    }
}

/// What the climb from leaf `x` still relies on above height `h`: each
/// ancestor stores the winner of the sibling subtree it faced, and those
/// sibling subtrees are consistent.
pub open spec fn path_ok(
    base: Seq<Option<MergeEntry>>,
    losers: Seq<usize>,
    lv: nat,
    x: int,
    h: nat,
) -> bool
    decreases lv - h,
{
    if h >= lv {
        true
    } else {
        &&& subtree_ok(base, losers, lv, h, sib_pos(x, h))
        &&& losers[node_idx(lv, (h + 1) as nat, x / pw((h + 1) as nat) as int)] == sub_winner(
            losers,
            lv,
            h,
            sib_pos(x, h),
        )
        &&& path_ok(base, losers, lv, x, (h + 1) as nat)
    }
}

/// A tournament winner's own path already satisfies `path_ok` down to the
/// leaves: each ancestor stores exactly the sibling winner it defeated.
pub proof fn lemma_winner_path(
    base: Seq<Option<MergeEntry>>,
    losers: Seq<usize>,
    lv: nat,
    h: nat,
    p: int,
)
    requires
        h <= lv,
        0 <= p < pw((lv - h) as nat),
        subtree_ok(base, losers, lv, h, p),
        path_ok(base, losers, lv, sub_winner(losers, lv, h, p), h),
    ensures
        path_ok(base, losers, lv, sub_winner(losers, lv, h, p), 0),
    decreases h,
{
    let w = sub_winner(losers, lv, h, p);
    lemma_subtree_min(base, losers, lv, h, p);
    lemma_pw_pos(h);
    assert(0 <= p * pw(h)) by (nonlinear_arith)
        requires
            p >= 0,
            pw(h) >= 0,
    ;
    lemma_under_div(w, h, p);
    if h > 0 {
        let hm = (h - 1) as nat;
        let w0 = sub_winner(losers, lv, hm, 2 * p);
        let w1 = sub_winner(losers, lv, hm, 2 * p + 1);
        assert(pw((lv - hm) as nat) == 2 * pw((lv - h) as nat));
        lemma_subtree_min(base, losers, lv, hm, 2 * p);
        lemma_subtree_min(base, losers, lv, hm, 2 * p + 1);
        lemma_pw_pos(hm);
        assert(0 <= 2 * p * pw(hm) && 0 <= (2 * p + 1) * pw(hm)) by (nonlinear_arith)
            requires
                p >= 0,
                pw(hm) >= 0,
        ;
        lemma_under_div(w0, hm, 2 * p);
        lemma_under_div(w1, hm, 2 * p + 1);
        let stored = losers[node_idx(lv, h, p)];
        assert(pw(h) == pw(hm) * 2) by {
            assert(pw(h) == 2 * pw(hm));
        }
        if stored == w0 {
            assert(w == w1);
            assert(w / pw(hm) as int == 2 * p + 1);
            assert((2 * p + 1) % 2 == 1);
            assert(sib_pos(w, hm) == 2 * p);
            assert(path_ok(base, losers, lv, w, hm));
            lemma_winner_path(base, losers, lv, hm, 2 * p + 1);
        } else {
            assert(w == w0);
            assert(w / pw(hm) as int == 2 * p);
            assert((2 * p) % 2 == 0);
            assert(sib_pos(w, hm) == 2 * p + 1);
            assert(path_ok(base, losers, lv, w, hm));
            lemma_winner_path(base, losers, lv, hm, 2 * p);
        }
    }
}

/// Rewriting one leaf outside a subtree does not disturb the subtree.
pub proof fn lemma_subtree_base_update(
    base: Seq<Option<MergeEntry>>,
    losers: Seq<usize>,
    lv: nat,
    h: nat,
    p: int,
    x: int,
    v: Option<MergeEntry>,
)
    requires
        base.len() == pw(lv),
        h <= lv,
        0 <= p < pw((lv - h) as nat),
        0 <= x < pw(lv),
        !under(x, h, p),
        subtree_ok(base, losers, lv, h, p),
    ensures
        subtree_ok(base.update(x, v), losers, lv, h, p),
    decreases h,
{
    if h > 0 {
        let hm = (h - 1) as nat;
        assert(pw((lv - hm) as nat) == 2 * pw((lv - h) as nat));
        assert(pw(1) == 2) by {
            reveal_with_fuel(pw, 3);
        }
        assert(!under(x, hm, 2 * p) && !under(x, hm, 2 * p + 1)) by {
            if under(x, hm, 2 * p) {
                assert(under(2 * p, 1, p)) by {
                    assert(p * 2 <= 2 * p < (p + 1) * 2) by (nonlinear_arith);
                }
                lemma_under_trans(x, hm, 2 * p, h, p);
            }
            if under(x, hm, 2 * p + 1) {
                assert(under(2 * p + 1, 1, p)) by {
                    assert(p * 2 <= 2 * p + 1 < (p + 1) * 2) by (nonlinear_arith);
                }
                lemma_under_trans(x, hm, 2 * p + 1, h, p);
            }
        }
        lemma_subtree_base_update(base, losers, lv, hm, 2 * p, x, v);
        lemma_subtree_base_update(base, losers, lv, hm, 2 * p + 1, x, v);
        let w = sub_winner(losers, lv, h, p);
        let stored = losers[node_idx(lv, h, p)] as int;
        lemma_subtree_min(base, losers, lv, h, p);
        lemma_subtree_min(base, losers, lv, hm, 2 * p);
        lemma_subtree_min(base, losers, lv, hm, 2 * p + 1);
        assert(under(stored, h, p)) by {
            if stored == sub_winner(losers, lv, hm, 2 * p) {
                assert(under(stored, hm, 2 * p));
                assert(under(2 * p, 1, p)) by {
                    assert(p * 2 <= 2 * p < (p + 1) * 2) by (nonlinear_arith);
                }
                lemma_under_trans(stored, hm, 2 * p, h, p);
            } else {
                assert(under(stored, hm, 2 * p + 1));
                assert(under(2 * p + 1, 1, p)) by {
                    assert(p * 2 <= 2 * p + 1 < (p + 1) * 2) by (nonlinear_arith);
                }
                lemma_under_trans(stored, hm, 2 * p + 1, h, p);
            }
        }
        assert(w != x && stored != x);
        assert(0 <= w < base.len() && 0 <= stored < base.len()) by {
            lemma_under_bounds(w, h, p, lv);
            lemma_under_bounds(stored, h, p, lv);
        }
        assert(base.update(x, v)[w] == base[w] && base.update(x, v)[stored] == base[stored]);
    }
}

/// Leaves under a valid node stay inside the leaf array.
pub proof fn lemma_under_bounds(l: int, h: nat, p: int, lv: nat)
    requires
        under(l, h, p),
        h <= lv,
        0 <= p < pw((lv - h) as nat),
    ensures
        0 <= l < pw(lv),
{
    lemma_pw_adds((lv - h) as nat, h);
    lemma_pw_pos(h);
    assert(0 <= p * pw(h) && (p + 1) * pw(h) <= pw((lv - h) as nat) * pw(h))
        by (nonlinear_arith)
        requires
            0 <= p,
            p + 1 <= pw((lv - h) as nat),
            pw(h) >= 1,
    ;
}

/// Rewriting the leaf a path starts from does not disturb the path facts.
pub proof fn lemma_path_ok_base_update(
    base: Seq<Option<MergeEntry>>,
    losers: Seq<usize>,
    lv: nat,
    x: int,
    h: nat,
    v: Option<MergeEntry>,
)
    requires
        base.len() == pw(lv),
        0 <= x < pw(lv),
        h <= lv,
        path_ok(base, losers, lv, x, h),
    ensures
        path_ok(base.update(x, v), losers, lv, x, h),
    decreases lv - h,
{
    if h < lv {
        lemma_path_ok_base_update(base, losers, lv, x, (h + 1) as nat, v);
        let sp = sib_pos(x, h);
        lemma_div_under(x, h);
        lemma_pw_pos(h);
        let q = x / pw(h) as int;
        assert(!under(x, h, sp)) by {
            if under(x, h, sp) {
                lemma_under_div(x, h, sp);
            }
        }
        assert(0 <= sp < pw((lv - h) as nat)) by {
            lemma_q_bound(x, h, lv);
        }
        lemma_subtree_base_update(base, losers, lv, h, sp, x, v);
    }
}

/// A path position fits the level's node count.
pub proof fn lemma_qpos_bound(x: int, h: nat, lv: nat)
    requires
        0 <= x < pw(lv),
        h <= lv,
    ensures
        0 <= (x / pw(h) as int) && (x / pw(h) as int) < pw((lv - h) as nat),
{
    lemma_pw_pos(h);
    lemma_div_under(x, h);
    let q = x / pw(h) as int;
    lemma_pw_adds((lv - h) as nat, h);
    assert(q >= 0) by {
        assert(q * pw(h) <= x);
        if q < 0 {
            assert(q * pw(h) <= q) by (nonlinear_arith)
                requires
                    q < 0,
                    pw(h) >= 1,
            ;
        }
    }
    assert(q < pw((lv - h) as nat)) by {
        if q >= pw((lv - h) as nat) {
            assert(q * pw(h) >= pw((lv - h) as nat) * pw(h)) by (nonlinear_arith)
                requires
                    q >= pw((lv - h) as nat),
                    pw(h) >= 1,
            ;
        }
    }
}

/// A path position and its sibling both fit the level's node count.
pub proof fn lemma_q_bound(x: int, h: nat, lv: nat)
    requires
        0 <= x < pw(lv),
        h < lv,
    ensures
        0 <= (x / pw(h) as int) && (x / pw(h) as int) < pw((lv - h) as nat),
        0 <= sib_pos(x, h) < pw((lv - h) as nat),
        x / pw(h) as int != sib_pos(x, h),
        sib_pos(x, h) / 2 == x / pw(h) as int / 2,
    decreases lv,
{
    lemma_pw_pos(h);
    lemma_div_under(x, h);
    let q = x / pw(h) as int;
    lemma_pw_adds((lv - h) as nat, h);
    assert(q >= 0) by {
        assert(q * pw(h) <= x);
        if q < 0 {
            assert(q * pw(h) <= q) by (nonlinear_arith)
                requires
                    q < 0,
                    pw(h) >= 1,
            ;
        }
    }
    assert(q < pw((lv - h) as nat)) by {
        if q >= pw((lv - h) as nat) {
            assert(q * pw(h) >= pw((lv - h) as nat) * pw(h)) by (nonlinear_arith)
                requires
                    q >= pw((lv - h) as nat),
                    pw(h) >= 1,
            ;
        }
    }
    // the sibling stays on the same pair, so within bounds as well
    assert(pw((lv - h) as nat) % 2 == 0) by {
        assert(pw((lv - h) as nat) == 2 * pw((lv - h - 1) as nat));
    }
    if q % 2 == 0 {
        assert(q + 1 < pw((lv - h) as nat)) by {
            if q + 1 == pw((lv - h) as nat) {
                assert((q + 1) % 2 == 1) by (nonlinear_arith)
                    requires
                        q % 2 == 0,
                ;
            }
        }
        assert((q + 1) / 2 == q / 2) by (nonlinear_arith)
            requires
                q % 2 == 0,
        ;
    } else {
        assert((q - 1) / 2 == q / 2) by (nonlinear_arith)
            requires
                q % 2 == 1,
        ;
    }
}

/// Writing at a path node below the remaining climb does not disturb the
/// path facts above it.
pub proof fn lemma_path_ok_losers_write(
    base: Seq<Option<MergeEntry>>,
    losers: Seq<usize>,
    lv: nat,
    x: int,
    h: nat,
    j0: nat,
    v: usize,
)
    requires
        losers.len() == pw(lv),
        0 <= x < pw(lv),
        1 <= j0 <= h <= lv,
        path_ok(base, losers, lv, x, h),
    ensures
        path_ok(
            base,
            losers.update(node_idx(lv, j0, x / pw(j0) as int), v),
            lv,
            x,
            h,
        ),
    decreases lv - h,
{
    let q0 = x / pw(j0) as int;
    let n0 = node_idx(lv, j0, q0);
    let losers2 = losers.update(n0, v);
    if h < lv {
        lemma_path_ok_losers_write(base, losers, lv, x, (h + 1) as nat, j0, v);
        let sp = sib_pos(x, h);
        lemma_q_bound(x, h, lv);
        lemma_q_bound(x, j0, lv);
        // the written slot is not inside the sibling subtree
        assert(j0 > h || !under(q0, (h - j0) as nat, sp)) by {
            if j0 <= h && under(q0, (h - j0) as nat, sp) {
                lemma_div_under(x, j0);
                lemma_under_trans(x, j0, q0, h, sp);
                lemma_under_div(x, h, sp);
            }
        }
        lemma_subtree_frame_point(base, losers, lv, h, sp, j0, q0, v);
        // and it is not the stored ancestor slot either
        assert(losers2[node_idx(lv, (h + 1) as nat, x / pw((h + 1) as nat) as int)] == losers[
            node_idx(lv, (h + 1) as nat, x / pw((h + 1) as nat) as int)]) by {
            lemma_node_idx_bounds(lv, j0, q0);
            lemma_node_base_nonneg(lv, j0);
            lemma_qpos_bound(x, (h + 1) as nat, lv);
            lemma_node_idx_bounds(lv, (h + 1) as nat, x / pw((h + 1) as nat) as int);
            lemma_node_base_nonneg(lv, (h + 1) as nat);
            lemma_node_base_monotone(lv, (j0 + 1) as nat, (h + 1) as nat);
        }
    }
}

/// The tournament tree: `base` holds one pending entry (or none) per leaf,
/// `losers` holds at every internal node the leaf index that lost the match
/// played there, plus one extra slot at the end naming the overall winner.
pub struct LoserTree {
    pub base: Vec<Option<MergeEntry>>,
    pub losers: Vec<usize>,
    pub height: Ghost<nat>,
}

impl LoserTree {
    /// Shape: a power-of-two leaf count with one annotation slot per node
    /// plus the winner slot, and every annotation in leaf range.
    pub open spec fn shape_ok(self) -> bool {
        &&& self.height@ >= 1
        &&& self.base@.len() == pw(self.height@)
        &&& self.losers@.len() == pw(self.height@)
        &&& forall|n: int|
            0 <= n < self.losers@.len() ==> (#[trigger] self.losers@[n]) < self.base@.len()
    }

    /// A settled tournament: annotations consistent and the winner slot
    /// naming the tournament winner.
    pub open spec fn inv(self) -> bool {
        &&& self.shape_ok()
        &&& subtree_ok(self.base@, self.losers@, self.height@, self.height@, 0)
        &&& self.losers@[pw(self.height@) - 1] as int == sub_winner(
            self.losers@,
            self.height@,
            self.height@,
            0,
        )
    }

    /// Between taking the winner and replaying: the winner slot names the
    /// vacated leaf and every ancestor still stores its sibling's winner.
    pub open spec fn ready(self) -> bool {
        &&& self.shape_ok()
        &&& path_ok(
            self.base@,
            self.losers@,
            self.height@,
            self.losers@[pw(self.height@) - 1] as int,
            0,
        )
    }

    /// Hand out the tournament winner's entry, vacating its leaf; the tree
    /// is then ready for `push`. Returns `None` once every leaf is empty.
    pub fn winner(&mut self) -> (r: Option<MergeEntry>)
        requires
            old(self).inv(),
        ensures
            final(self).height@ == old(self).height@,
            final(self).losers@ == old(self).losers@,
            final(self).base@ == old(self).base@.update(
                old(self).losers@[pw(old(self).height@) - 1] as int,
                None::<MergeEntry>,
            ),
            r == old(self).base@[old(self).losers@[pw(old(self).height@) - 1] as int],
            forall|l: int| 0 <= l < old(self).base@.len() ==> le_opt(r, #[trigger] old(self).base@[l]),
            final(self).ready(),
    {
        proof {
            lemma_pw_pos(self.height@);
        }
        let last: usize = self.losers.len() - 1;
        let winner_idx: usize = self.losers[last];
        let result: Option<MergeEntry> = self.base[winner_idx];
        self.base[winner_idx] = None;
        proof {
            let lv = self.height@;
            let w = old(self).losers@[pw(lv) - 1] as int;
            lemma_subtree_min(old(self).base@, old(self).losers@, lv, lv, 0);
            lemma_pw_pos(lv);
            assert forall|l: int| 0 <= l < old(self).base@.len() implies le_opt(
                result,
                #[trigger] old(self).base@[l],
            ) by {
                assert(0 * pw(lv) <= l < 1 * pw(lv)) by (nonlinear_arith)
                    requires
                        0 <= l < pw(lv),
                ;
                assert(under(l, lv, 0));
            }
            assert(under(w, lv, 0));
            assert(0 * pw(lv) == 0 && 1 * pw(lv) == pw(lv)) by (nonlinear_arith);
            lemma_winner_path(old(self).base@, old(self).losers@, lv, lv, 0);
            lemma_path_ok_base_update(old(self).base@, old(self).losers@, lv, w, 0, None);
        }
        result
    }

    /// Replay the tournament from the vacated leaf with a replacement entry
    /// (or none, when that run is exhausted).
    pub fn push(&mut self, replacement: Option<MergeEntry>)
        requires
            old(self).ready(),
        ensures
            final(self).height@ == old(self).height@,
            final(self).base@ == old(self).base@.update(
                old(self).losers@[pw(old(self).height@) - 1] as int,
                replacement,
            ),
            final(self).inv(),
    {
        proof {
            lemma_pw_pos(self.height@);
        }
        let last: usize = self.losers.len() - 1;
        let winner_idx: usize = self.losers[last];
        self.base[winner_idx] = replacement;
        proof {
            let lv = self.height@;
            lemma_pw_pos(lv);
            lemma_path_ok_base_update(
                old(self).base@,
                old(self).losers@,
                lv,
                winner_idx as int,
                0,
                replacement,
            );
        }
        self.adjust_from_leaf(winner_idx);
    }

    /// Replay the matches on the way from leaf `idx` back to the root:
    /// whenever the climbing entry loses a match, it stays as the stored
    /// loser and the old loser climbs on.
    #[verifier::rlimit(100)]
    pub fn adjust_from_leaf(&mut self, idx: usize)
        requires
            old(self).shape_ok(),
            (idx as int) < pw(old(self).height@),
            path_ok(old(self).base@, old(self).losers@, old(self).height@, idx as int, 0),
        ensures
            final(self).height@ == old(self).height@,
            final(self).base@ == old(self).base@,
            final(self).inv(),
    {
        let ghost lv = self.height@;
        let size: usize = self.base.len();
        let mut parent_idx: usize = idx / 2;
        let mut winner_idx: usize = idx;
        let mut level_size: usize = size / 2;
        let mut offset: usize = 0;
        let ghost mut h: nat = 0;
        proof {
            assert(pw(1) == 2) by {
                reveal_with_fuel(pw, 3);
            }
            assert(pw(0) == 1);
            assert(pw(lv) / 2 == pw((lv - 1) as nat));
            assert(node_base(lv, 1) == 0);
            assert(idx / 2 == idx as int / pw(1) as int);
            assert(idx as int / pw(0) as int == idx as int) by {
                vstd::arithmetic::div_mod::lemma_div_basics(idx as int);
            }
            assert(sub_winner(self.losers@, lv, 0, idx as int) == idx as int);
            assert(subtree_ok(self.base@, self.losers@, lv, 0, idx as int));
        }
        while level_size > 0
            invariant
                self.shape_ok(),
                lv == self.height@,
                size == pw(lv),
                self.base@ == old(self).base@,
                (idx as int) < pw(lv),
                h <= lv,
                level_size as int == if h < lv {
                    pw((lv - h - 1) as nat) as int
                } else {
                    0
                },
                offset == node_base(lv, (h + 1) as nat),
                h < lv ==> parent_idx as int == node_idx(
                    lv,
                    (h + 1) as nat,
                    idx as int / pw((h + 1) as nat) as int,
                ),
                winner_idx as int == sub_winner(self.losers@, lv, h, idx as int / pw(h) as int),
                subtree_ok(self.base@, self.losers@, lv, h, idx as int / pw(h) as int),
                path_ok(self.base@, self.losers@, lv, idx as int, h),
                winner_idx < self.base@.len(),
            decreases level_size,
        {
            proof {
                assert(h < lv);
                lemma_qpos_bound(idx as int, h, lv);
                lemma_qpos_bound(idx as int, (h + 1) as nat, lv);
                lemma_q_bound(idx as int, h, lv);
                lemma_node_idx_bounds(lv, (h + 1) as nat, idx as int / pw((h + 1) as nat) as int);
                lemma_node_base_nonneg(lv, (h + 1) as nat);
                lemma_node_base_monotone(lv, (h + 2) as nat, (lv + 1) as nat);
                lemma_pw_pos((lv + 1 - (lv + 1)) as nat);
            }
            let old_loser: usize = self.losers[parent_idx];
            let ghost q = idx as int / pw(h) as int;
            let ghost qp = idx as int / pw((h + 1) as nat) as int;
            let ghost sp = sib_pos(idx as int, h);
            proof {
                // the path fact at this level: the slot stores the sibling's winner
                assert(subtree_ok(self.base@, self.losers@, lv, h, sp));
                assert(old_loser as int == sub_winner(self.losers@, lv, h, sp));
                // position bookkeeping: q and sp are the two children of qp
                assert(pw((h + 1) as nat) == pw(h) * 2);
                lemma_pw_pos(h);
                lemma_div_denominator(idx as int, pw(h) as int, 2);
                assert(q / 2 == qp && sp / 2 == qp);
                lemma_subtree_min(self.base@, self.losers@, lv, h, q);
                lemma_subtree_min(self.base@, self.losers@, lv, h, sp);
                lemma_under_bounds(old_loser as int, h, sp, lv);
                lemma_under_bounds(winner_idx as int, h, q, lv);
                assert(winner_idx != old_loser) by {
                    if winner_idx == old_loser {
                        lemma_under_div(winner_idx as int, h, q);
                        lemma_under_div(old_loser as int, h, sp);
                    }
                }
                // q and sp make up {2 qp, 2 qp + 1}
                assert((q % 2 == 0 && sp == q + 1) || (q % 2 == 1 && sp == q - 1));
                assert(q == 2 * qp || q == 2 * qp + 1) by (nonlinear_arith)
                    requires
                        q / 2 == qp,
                        q >= 0,
                ;
            }
            let keep: bool = wins(&self.base[winner_idx], &self.base[old_loser]);
            let ghost losers_pre: Seq<usize> = self.losers@;
            if !keep {
                self.losers[parent_idx] = winner_idx;
                winner_idx = old_loser;
            }
            proof {
                let w0 = sub_winner(losers_pre, lv, h, 2 * qp);
                let w1 = sub_winner(losers_pre, lv, h, 2 * qp + 1);
                if !keep {
                    let stored: usize = sub_winner(losers_pre, lv, h, q) as usize;
                    assert(self.losers@ == losers_pre.update(node_idx(lv, (h + 1) as nat, qp),
                        stored));
                    // children and path above are untouched by a write at their parent
                    lemma_subtree_frame_point(self.base@, losers_pre, lv, h, q, (h + 1) as nat,
                        qp, stored);
                    lemma_subtree_frame_point(self.base@, losers_pre, lv, h, sp, (h + 1) as nat,
                        qp, stored);
                    lemma_path_ok_losers_write(self.base@, losers_pre, lv, idx as int,
                        (h + 1) as nat, (h + 1) as nat, stored);
                }
                // the new node is consistent and crowns the survivor
                assert(subtree_ok(self.base@, self.losers@, lv, (h + 1) as nat, qp));
                assert(winner_idx as int == sub_winner(self.losers@, lv, (h + 1) as nat, qp));
                assert(path_ok(self.base@, self.losers@, lv, idx as int, (h + 1) as nat));
            }
            proof {
                assert(offset + level_size == node_base(lv, (h + 2) as nat)) by {
                    assert(pw((lv + 1 - (h + 1)) as nat) == 2 * pw((lv - h - 1) as nat));
                }
                lemma_node_base_monotone(lv, (h + 2) as nat, (lv + 1) as nat);
                assert(node_base(lv, (lv + 1) as nat) == pw(lv) - 1) by {
                    assert(pw((lv + 1 - (lv + 1)) as nat) == 1);
                }
                assert(parent_idx - offset == idx as int / pw((h + 1) as nat) as int);
            }
            let next_level_idx: usize = (parent_idx - offset) / 2;
            proof {
                assert(next_level_idx as int <= idx as int / pw((h + 1) as nat) as int);
                lemma_qpos_bound(idx as int, (h + 1) as nat, lv);
                if h + 2 <= lv {
                    lemma_node_base_monotone(lv, (h + 3) as nat, (lv + 1) as nat);
                    assert(node_base(lv, (h + 2) as nat) + pw((lv - h - 2) as nat)
                        == node_base(lv, (h + 3) as nat)) by {
                        assert(pw((lv + 1 - (h + 2)) as nat) == 2 * pw((lv - h - 2) as nat));
                    }
                    assert(next_level_idx < pw((lv - h - 2) as nat)) by {
                        assert(pw((lv - h - 1) as nat) == 2 * pw((lv - h - 2) as nat));
                        assert(idx as int / pw((h + 1) as nat) as int / 2 < pw(
                            (lv - h - 2) as nat,
                        )) by (nonlinear_arith)
                            requires
                                0 <= (idx as int / pw((h + 1) as nat) as int),
                                (idx as int / pw((h + 1) as nat) as int) < 2 * pw(
                                    (lv - h - 2) as nat,
                                ),
                        ;
                    }
                } else {
                    assert(pw((lv - h - 1) as nat) == 1);
                    assert(idx as int / pw((h + 1) as nat) as int == 0);
                }
            }
            offset = offset + level_size;
            level_size = level_size / 2;
            parent_idx = offset + next_level_idx;
            proof {
                h = h + 1;
                if h < lv {
                    assert(level_size as int == pw((lv - h - 1) as nat) as int) by {
                        assert(pw((lv - h) as nat) == 2 * pw((lv - h - 1) as nat));
                    }
                    assert(offset == node_base(lv, (h + 1) as nat)) by {
                        assert(pw((lv + 1 - h) as nat) == 2 * pw((lv - h) as nat));
                    }
                    assert(parent_idx as int == node_idx(lv, (h + 1) as nat, idx as int / pw(
                        (h + 1) as nat) as int)) by {
                        assert(pw((h + 1) as nat) == pw(h) * 2);
                        lemma_div_denominator(idx as int, pw(h) as int, 2);
                    }
                } else {
                    assert(level_size == 0) by {
                        assert(pw((lv - h + 1 - 1) as nat) == 1);
                    }
                }
            }
        }
        proof {
            if h < lv {
                lemma_pw_pos((lv - h - 1) as nat);
            }
            assert(h == lv);
            lemma_qpos_bound(idx as int, lv, lv);
            assert(pw((lv - lv) as nat) == 1);
            assert(idx as int / pw(lv) as int == 0);
        }
        let last: usize = self.losers.len() - 1;
        let ghost losers_pre: Seq<usize> = self.losers@;
        self.losers[last] = winner_idx;
        proof {
            let lv2 = self.height@;
            assert forall|n: int| 0 <= n < node_base(lv2, (lv2 + 1) as nat) implies self.losers@[n]
                == #[trigger] losers_pre[n] by {
                assert(node_base(lv2, (lv2 + 1) as nat) == pw(lv2) - 1) by {
                    assert(pw((lv2 + 1 - (lv2 + 1)) as nat) == 1);
                }
            }
            lemma_subtree_frame_above(self.base@, losers_pre, self.losers@, lv2, lv2, 0);
        }
    }
}

/// "The climbing entry wins or draws": the comparison the replayed matches
/// use — an absent entry always loses, ties keep the climber.
pub fn wins(a: &Option<MergeEntry>, b: &Option<MergeEntry>) -> (r: bool)
    ensures
        r == le_opt(*a, *b),
{
    match (a, b) {
        (Option::Some(x), Option::Some(y)) => x.0 <= y.0,
        (Option::None, Option::Some(_)) => false,
        _ => true,
    }
}

/// Levels `h` of the tournament below node count `n` are settled: every
/// subtree is consistent and the scratch array names its winner.
pub open spec fn level_facts(
    base: Seq<Option<MergeEntry>>,
    losers: Seq<usize>,
    winners: Seq<usize>,
    lv: nat,
    h: nat,
    n: int,
    size: int,
) -> bool {
    forall|p: int|
        0 <= p < n ==> #[trigger] subtree_ok(base, losers, lv, h, p) && winners[node_idx(lv, h,
            p)] as int == sub_winner(losers, lv, h, p) && winners[node_idx(lv, h, p)] < size
}

/// "`a` beats `b` outright": strict comparison used while building the
/// tournament — a present entry beats an absent one, smaller row wins, and
/// ties go to `b`.
pub fn strictly_better(a: &Option<MergeEntry>, b: &Option<MergeEntry>) -> (r: bool)
    ensures
        r ==> le_opt(*a, *b),
        !r ==> le_opt(*b, *a),
{
    match (a, b) {
        (Option::Some(x), Option::Some(y)) => x.0 < y.0,
        (Option::Some(_), Option::None) => true,
        _ => false,
    }
}

impl LoserTree {
    /// Wrap the leaf entries — their count a power of two, at least two —
    /// and play every match once, bottom level up, recording each match's
    /// loser; the last slot gets the champion.
    pub fn new(base: Vec<Option<MergeEntry>>, losers: Vec<usize>) -> (t: Self)
        requires
            exists|lv: nat| lv >= 1 && #[trigger] pw(lv) == base@.len(),
            losers@.len() == base@.len(),
            forall|n: int| 0 <= n < losers@.len() ==> (#[trigger] losers@[n]) < base@.len(),
        ensures
            t.inv(),
            t.base@ == base@,
            t.height@ >= 1,
            pw(t.height@) == base@.len(),
    {
        let ghost lv: nat = choose|lv: nat| lv >= 1 && #[trigger] pw(lv) == base@.len();
        let mut tree = LoserTree { base, losers, height: Ghost(lv) };
        tree.build_tournament();
        tree
    }

    /// Play every match from the leaf pairs upward, storing losers and
    /// carrying winners up in a scratch array.
    #[verifier::rlimit(100)]
    #[verifier::spinoff_prover]
    pub fn build_tournament(&mut self)
        requires
            old(self).shape_ok(),
        ensures
            final(self).inv(),
            final(self).base@ == old(self).base@,
            final(self).height@ == old(self).height@,
    {
        let ghost lv = self.height@;
        let size: usize = self.base.len();
        proof {
            lemma_pw_pos(lv);
            assert(pw(1) == 2) by {
                reveal_with_fuel(pw, 3);
            }
            assert(pw(lv) / 2 == pw((lv - 1) as nat));
            assert(node_base(lv, 1) == 0);
            assert(pw(0) == 1);
        }
        let mut winners: Vec<usize> = vec![0usize; size];
        let half: usize = size / 2;

        let mut i: usize = 0;
        while i < half
            invariant
                self.shape_ok(),
                lv == self.height@,
                size == pw(lv),
                half == pw((lv - 1) as nat),
                self.base@ == old(self).base@,
                winners@.len() == size,
                i <= half,
                forall|p: int|
                    0 <= p < i ==> #[trigger] subtree_ok(self.base@, self.losers@, lv, 1, p)
                        && winners@[p] as int == sub_winner(self.losers@, lv, 1, p)
                        && winners@[p] < size,
            decreases half - i,
        {
            let l: usize = 2 * i;
            let r: usize = l + 1;
            proof {
                assert(2 * i + 1 < size) by {
                    assert(pw(lv) == 2 * pw((lv - 1) as nat));
                }
            }
            let lw: bool = strictly_better(&self.base[l], &self.base[r]);
            let ghost losers_pre: Seq<usize> = self.losers@;
            let win: usize;
            if lw {
                self.losers[i] = r;
                winners[i] = l;
                win = l;
            } else {
                self.losers[i] = l;
                winners[i] = r;
                win = r;
            }
            proof {
                assert(pw(0) == 1);
                assert(node_base(lv, 1) == 0);
                assert(node_idx(lv, 1, i as int) == i as int);
                assert(self.losers@ == losers_pre.update(i as int, if lw {
                    r
                } else {
                    l
                }));
                assert(sub_winner(self.losers@, lv, 0, 2 * i as int) == 2 * i as int);
                assert(sub_winner(self.losers@, lv, 0, 2 * i as int + 1) == 2 * i + 1);
                assert(self.losers@[i as int] == if lw { r } else { l });
                assert(subtree_ok(self.base@, self.losers@, lv, 0, 2 * i as int));
                assert(subtree_ok(self.base@, self.losers@, lv, 0, 2 * i as int + 1));
                assert(sub_winner(self.losers@, lv, 1, i as int) == win as int);
                assert(le_opt(self.base@[win as int], self.base@[self.losers@[i as int] as int]));
                assert(subtree_ok(self.base@, self.losers@, lv, 1, i as int));
                assert forall|p: int|
                    0 <= p < i + 1 implies #[trigger] subtree_ok(self.base@, self.losers@, lv,
                    1, p) && winners@[p] as int == sub_winner(self.losers@, lv, 1, p)
                    && winners@[p] < size by {
                    if p < i {
                        assert(subtree_ok(self.base@, losers_pre, lv, 1, p));
                        assert(!under(i as int, 0, p));
                        lemma_subtree_frame_point(self.base@, losers_pre, lv, 1, p, 1, i as int,
                            if lw {
                                r
                            } else {
                                l
                            });
                        assert(node_idx(lv, 1, p) == p);
                    }
                }
            }
            i += 1;
        }

        self.build_upper(&winners, half);
    }


    /// Play one match at height `h + 1`: compare the two child winners,
    /// store the loser, carry the winner up.
    #[verifier::rlimit(100)]
    #[verifier::spinoff_prover]
    fn play_match(
        &mut self,
        winners: &mut Vec<usize>,
        current_level_start: usize,
        next_level_start: usize,
        i2: usize,
        gh: Ghost<nat>,
    )
        requires
            old(self).shape_ok(),
            1 <= gh@ < old(self).height@,
            current_level_start == node_base(old(self).height@, gh@),
            next_level_start == node_base(old(self).height@, (gh@ + 1) as nat),
            i2 < pw((old(self).height@ - gh@ - 1) as nat),
            next_level_start + pw((old(self).height@ - gh@ - 1) as nat) <= pw(old(self).height@)
                - 1,
            old(winners)@.len() == pw(old(self).height@),
            level_facts(old(self).base@, old(self).losers@, old(winners)@, old(self).height@,
                gh@, pw((old(self).height@ - gh@) as nat) as int, pw(old(self).height@) as int),
            level_facts(old(self).base@, old(self).losers@, old(winners)@, old(self).height@,
                (gh@ + 1) as nat, i2 as int, pw(old(self).height@) as int),
        ensures
            final(self).shape_ok(),
            final(self).base@ == old(self).base@,
            final(self).height@ == old(self).height@,
            final(winners)@.len() == old(winners)@.len(),
            level_facts(final(self).base@, final(self).losers@, final(winners)@,
                old(self).height@, gh@, pw((old(self).height@ - gh@) as nat) as int, pw(
                old(self).height@) as int),
            level_facts(final(self).base@, final(self).losers@, final(winners)@,
                old(self).height@, (gh@ + 1) as nat, i2 as int + 1, pw(
                old(self).height@) as int),
    {
        let ghost lv = self.height@;
        let ghost h = gh@;
        let size: usize = self.base.len();


                proof {
                    assert(current_level_start + 2 * i2 + 1 == node_idx(lv, h, 2 * i2 as int
                        + 1));
                    assert(2 * i2 as int + 1 < pw((lv - h) as nat));
                    lemma_node_idx_bounds(lv, h, 2 * i2 as int + 1);
                    lemma_node_base_nonneg(lv, h);
                    assert(subtree_ok(self.base@, self.losers@, lv, h, 2 * i2 as int)
                        && subtree_ok(self.base@, self.losers@, lv, h, 2 * i2 as int + 1));
                }
                let left_idx: usize = winners[current_level_start + 2 * i2];
                let right_idx: usize = winners[current_level_start + 2 * i2 + 1];
                let lw: bool = strictly_better(&self.base[left_idx], &self.base[right_idx]);
                let ghost losers_pre: Seq<usize> = self.losers@;
                let win: usize;
                let lose: usize;
                if lw {
                    win = left_idx;
                    lose = right_idx;
                } else {
                    win = right_idx;
                    lose = left_idx;
                }
                self.losers[next_level_start + i2] = lose;
                winners[next_level_start + i2] = win;
                proof {
                    let hp = (h + 1) as nat;
                    assert(self.losers@ == losers_pre.update(node_idx(lv, hp, i2 as int),
                        lose));
                    assert forall|p: int|
                        0 <= p < pw((lv - h) as nat) implies #[trigger] subtree_ok(self.base@,
                        self.losers@, lv, h, p) && winners@[node_idx(lv, h,
                        p)] as int == sub_winner(self.losers@, lv, h, p) && winners@[node_idx(
                        lv, h, p)] < size by {
                        assert(subtree_ok(self.base@, losers_pre, lv, h, p));
                        assert forall|n: int|
                            0 <= n < node_base(lv, (h + 1) as nat) implies self.losers@[n]
                            == #[trigger] losers_pre[n] by {
                            lemma_node_idx_bounds(lv, (h + 1) as nat, i2 as int);
                        }
                        lemma_subtree_frame_above(self.base@, losers_pre, self.losers@, lv, h,
                            p);
                        assert(node_idx(lv, h, p) != node_idx(lv, (h + 1) as nat, i2 as int))
                            by {
                            lemma_node_idx_bounds(lv, h, p);
                            lemma_node_idx_bounds(lv, (h + 1) as nat, i2 as int);
                        }
                    }
                    assert forall|p: int|
                        0 <= p < i2 implies #[trigger] subtree_ok(self.base@, self.losers@, lv,
                        hp, p) && winners@[node_idx(lv, hp, p)] as int
                        == sub_winner(self.losers@, lv, hp, p) && winners@[node_idx(lv, hp, p)]
                        < size by {
                        assert(subtree_ok(self.base@, losers_pre, lv, hp, p));
                        assert(!under(i2 as int, 0, p)) by {
                            assert(pw(0) == 1);
                            assert(p * 1 == p && (p + 1) * 1 == p + 1) by (nonlinear_arith);
                        }
                        lemma_subtree_frame_point(self.base@, losers_pre, lv, hp, p, hp,
                            i2 as int, lose);
                        lemma_node_idx_bounds(lv, hp, p);
                        lemma_node_idx_bounds(lv, hp, i2 as int);
                    }
                    // the freshly played match
                    assert(subtree_ok(self.base@, self.losers@, lv, h, 2 * i2 as int));
                    assert(subtree_ok(self.base@, self.losers@, lv, h, 2 * i2 as int + 1));
                    let w0 = sub_winner(self.losers@, lv, h, 2 * i2 as int);
                    let w1 = sub_winner(self.losers@, lv, h, 2 * i2 as int + 1);
                    assert(w0 == left_idx as int && w1 == right_idx as int);
                    lemma_subtree_min(self.base@, self.losers@, lv, h, 2 * i2 as int);
                    lemma_subtree_min(self.base@, self.losers@, lv, h, 2 * i2 as int + 1);
                    assert(left_idx != right_idx) by {
                        if left_idx == right_idx {
                            lemma_pw_pos(h);
                            assert(0 <= 2 * i2 as int * pw(h)) by (nonlinear_arith)
                                requires
                                    i2 >= 0,
                                    pw(h) >= 0,
                            ;
                            lemma_under_div(left_idx as int, h, 2 * i2 as int);
                            lemma_under_div(right_idx as int, h, 2 * i2 as int + 1);
                        }
                    }
                    assert(subtree_ok(self.base@, self.losers@, lv, hp, i2 as int));
                    assert(sub_winner(self.losers@, lv, hp, i2 as int) == win as int);
                }
    }

    /// Play the matches above the leaf level, carrying each level's winners
    /// up, and crown the champion in the final slot.
    #[verifier::rlimit(100)]
    #[verifier::spinoff_prover]
    fn build_upper(&mut self, winners_ref: &Vec<usize>, half: usize)
        requires
            old(self).shape_ok(),
            half == pw((old(self).height@ - 1) as nat),
            winners_ref@.len() == pw(old(self).height@),
            forall|p: int|
                0 <= p < half ==> #[trigger] subtree_ok(old(self).base@, old(self).losers@,
                    old(self).height@, 1, p) && winners_ref@[p] as int == sub_winner(
                    old(self).losers@, old(self).height@, 1, p) && winners_ref@[p] < pw(
                    old(self).height@),
        ensures
            final(self).inv(),
            final(self).base@ == old(self).base@,
            final(self).height@ == old(self).height@,
    {
        let ghost lv = self.height@;
        let size: usize = self.base.len();
        let mut winners: Vec<usize> = winners_ref.clone();
        proof {
            lemma_pw_pos(lv);
            assert(pw(1) == 2) by {
                reveal_with_fuel(pw, 3);
            }
            assert forall|i: int| 0 <= i < winners_ref@.len() implies winners@[i]
                == winners_ref@[i] by {}
            assert(winners@ =~= winners_ref@);
            assert(winners@ == winners_ref@);
        }
        proof {
            assert(node_base(lv, 1) == 0);
            assert forall|p: int| 0 <= p < pw((lv - 1) as nat) implies #[trigger] subtree_ok(
                self.base@, self.losers@, lv, 1, p) && winners@[node_idx(lv, 1, p)] as int
                == sub_winner(self.losers@, lv, 1, p) && winners@[node_idx(lv, 1, p)] < size by {
                assert(node_idx(lv, 1, p) == p);
                assert(subtree_ok(self.base@, self.losers@, lv, 1, p));
            }
            assert(level_facts(self.base@, self.losers@, winners@, lv, 1, pw(
                (lv - 1) as nat) as int, size as int));
        }
        let mut current_level_size: usize = half;
        let mut current_level_start: usize = 0;
        let ghost mut h: nat = 1;
        while current_level_size > 1
            invariant
                self.shape_ok(),
                lv == self.height@,
                size == pw(lv),
                self.base@ == old(self).base@,
                winners@.len() == size,
                1 <= h <= lv,
                current_level_size == pw((lv - h) as nat),
                current_level_start == node_base(lv, h),
                level_facts(self.base@, self.losers@, winners@, lv, h, pw(
                    (lv - h) as nat) as int, size as int),
            decreases current_level_size,
        {
            let next_level_size: usize = current_level_size / 2;
            let next_level_start: usize = current_level_start + current_level_size;
            proof {
                assert(pw((lv - h) as nat) == 2 * pw((lv - h - 1) as nat));
                assert(next_level_size == pw((lv - h - 1) as nat));
                assert(next_level_start == node_base(lv, (h + 1) as nat)) by {
                    assert(pw((lv + 1 - h) as nat) == 2 * pw((lv - h) as nat));
                }
                lemma_node_base_nonneg(lv, h);
                lemma_node_base_monotone(lv, (h + 2) as nat, (lv + 1) as nat);
                assert(node_base(lv, (lv + 1) as nat) == pw(lv) - 1) by {
                    assert(pw((lv + 1 - (lv + 1)) as nat) == 1);
                }
                assert(node_base(lv, (h + 2) as nat) == node_base(lv, (h + 1) as nat) + pw(
                    (lv - h - 1) as nat)) by {
                    assert(pw((lv + 1 - (h + 1)) as nat) == 2 * pw((lv - h - 1) as nat));
                }
            }
            let mut i2: usize = 0;
            while i2 < next_level_size
                invariant
                    self.shape_ok(),
                    lv == self.height@,
                    size == pw(lv),
                    self.base@ == old(self).base@,
                    winners@.len() == size,
                    1 <= h < lv,
                    current_level_size == pw((lv - h) as nat),
                    current_level_start == node_base(lv, h),
                    next_level_size == pw((lv - h - 1) as nat),
                    next_level_start == node_base(lv, (h + 1) as nat),
                    next_level_start + next_level_size <= pw(lv) - 1,
                    i2 <= next_level_size,
                    level_facts(self.base@, self.losers@, winners@, lv, h, pw(
                        (lv - h) as nat) as int, size as int),
                    level_facts(self.base@, self.losers@, winners@, lv, (h + 1) as nat,
                        i2 as int, size as int),
                decreases next_level_size - i2,
            {
                self.play_match(&mut winners, current_level_start, next_level_start, i2,
                    Ghost(h));
                i2 += 1;
            }
            current_level_size = next_level_size;
            current_level_start = next_level_start;
            proof {
                h = h + 1;
            }
        }
        proof {
            if h < lv {
                lemma_pw_pos((lv - h - 1) as nat);
                assert(pw((lv - h) as nat) == 2 * pw((lv - h - 1) as nat));
                assert(false);
            }
            assert(h == lv);
            assert(current_level_start == node_base(lv, lv));
            assert(0 + 0 == 0int);
            assert(current_level_start < size) by {
                lemma_node_idx_bounds(lv, lv, 0);
                lemma_node_base_nonneg(lv, lv);
            }
        }
        let top: usize = winners[current_level_start];
        let last: usize = size - 1;
        let ghost losers_pre: Seq<usize> = self.losers@;
        self.losers[last] = top;
        proof {
            assert(pw((lv - lv) as nat) == 1);
            assert(level_facts(self.base@, losers_pre, winners@, lv, lv, pw(
                (lv - lv) as nat) as int, size as int));
            assert(subtree_ok(self.base@, losers_pre, lv, lv, 0));
            assert(winners@[node_idx(lv, lv, 0)] as int == sub_winner(losers_pre, lv, lv, 0));
            assert forall|n: int|
                0 <= n < node_base(lv, (lv + 1) as nat) implies self.losers@[n] == #[trigger]
                losers_pre[n] by {
                assert(node_base(lv, (lv + 1) as nat) == pw(lv) - 1) by {
                    assert(pw((lv + 1 - (lv + 1)) as nat) == 1);
                }
            }
            lemma_subtree_frame_above(self.base@, losers_pre, self.losers@, lv, lv, 0);
            assert(subtree_ok(self.base@, self.losers@, lv, lv, 0));
            assert(self.losers@[pw(lv) - 1] as int == sub_winner(self.losers@, lv, lv, 0));
            assert(self.shape_ok());
        }
    }
}


/// The tree holds exactly the heads of the unfinished columns: leaf `c`
/// carries column `c`'s frontier slot while that column still has entries,
/// and nothing else.
#[verifier::opaque]
pub open spec fn tree_content_ok(
    m: CscMatrix,
    los: Seq<usize>,
    his: Seq<usize>,
    fr: Seq<usize>,
    k: int,
    base: Seq<Option<MergeEntry>>,
) -> bool {
    &&& forall|c: int|
        0 <= c < k ==> #[trigger] base[c] == if fr[c] < his[c] {
            Some((m.row_idx@[fr[c] as int], m.values@[fr[c] as int], c as usize))
        } else {
            None::<MergeEntry>
        }
    &&& forall|j: int| k <= j < base.len() ==> #[trigger] base[j] is None
}

/// The merged list a tree worker builds: strictly row-sorted rows outside
/// the worker's own output window, each value the cropped consumed sum for
/// its row; rows outside the window absent from the list have consumed
/// nothing.
pub open spec fn merged_win_ok(
    m: CscMatrix,
    rhs_ks: Seq<i64>,
    los: Seq<usize>,
    fr: Seq<usize>,
    merged: Seq<(usize, i64)>,
    row_start: int,
    row_end: int,
) -> bool {
    let k = los.len() as int;
    &&& forall|i1: int, i2: int|
        0 <= i1 < i2 < merged.len() ==> (#[trigger] merged[i1]).0 < (#[trigger] merged[i2]).0
    &&& forall|i: int|
        0 <= i < merged.len() ==> (#[trigger] merged[i]).1 == crop(
            fr_sum(m, rhs_ks, los, fr, merged[i].0 as int, k),
        )
    &&& forall|i: int|
        0 <= i < merged.len() ==> (#[trigger] merged[i]).0 < m.nrows && !(row_start <= merged[
            i].0 < row_end)
    &&& forall|r: int|
        !(row_start <= r < row_end) && (forall|i: int|
            0 <= i < merged.len() ==> (#[trigger] merged[i]).0 != r) ==> #[trigger] fr_sum(
            m,
            rhs_ks,
            los,
            fr,
            r,
            k,
        ) == 0
}

/// One worker of the loser-tree strategy: rows inside the worker's output
/// window `[row_start, row_end)` accumulate straight into the destination;
/// every other contribution flows through the tournament into a sorted
/// merged list that the coordinating thread folds in after the join.
#[verifier::rlimit(100)]
#[verifier::spinoff_prover]
pub fn merge_worker(
    dst: &mut Vec<i64>,
    beta: Accum,
    lhs: &CscMatrix,
    rhs: &Vec<i64>,
    alpha: i64,
    n_threads: usize,
    strategy: &SpMvStrategy,
    tid: usize,
    row_start: usize,
    row_end: usize,
) -> (merged: Vec<(usize, i64)>)
    requires
        lhs.wf(),
        lhs.rows_sorted(),
        strategy.valid_for(*lhs, n_threads as int),
        tid < n_threads,
        rhs@.len() == lhs.ncols,
        old(dst)@.len() == lhs.nrows,
        row_start <= row_end <= lhs.nrows,
        lhs.ncols < usize::MAX / 2,
    ensures
        final(dst)@.len() == old(dst)@.len(),
        forall|r: int|
            row_start <= r < row_end ==> final(dst)@[r] == crop(
                accum_base(beta, old(dst)@[r]) + row_sum(
                    *lhs,
                    rhs@,
                    alpha,
                    r,
                    strategy.thread_indptrs@[tid as int] as int,
                    strategy.thread_indptrs@[tid as int + 1] as int,
                ),
            ),
        forall|r: int|
            0 <= r < lhs.nrows && !(row_start <= r < row_end) ==> final(dst)@[r] == old(
                dst,
            )@[r],
        forall|i1: int, i2: int|
            0 <= i1 < i2 < merged@.len() ==> (#[trigger] merged@[i1]).0 < (
            #[trigger] merged@[i2]).0,
        forall|i: int|
            0 <= i < merged@.len() ==> (#[trigger] merged@[i]).0 < lhs.nrows && !(row_start
                <= merged@[i].0 < row_end),
        forall|i: int|
            0 <= i < merged@.len() ==> (#[trigger] merged@[i]).1 == crop(
                row_sum(
                    *lhs,
                    rhs@,
                    alpha,
                    merged@[i].0 as int,
                    strategy.thread_indptrs@[tid as int] as int,
                    strategy.thread_indptrs@[tid as int + 1] as int,
                ),
            ),
        forall|r: int|
            0 <= r < lhs.nrows && !(row_start <= r < row_end) && (forall|i: int|
                0 <= i < merged@.len() ==> (#[trigger] merged@[i]).0 != r) ==> eqm(
                #[trigger] row_sum(
                    *lhs,
                    rhs@,
                    alpha,
                    r,
                    strategy.thread_indptrs@[tid as int] as int,
                    strategy.thread_indptrs@[tid as int + 1] as int,
                ),
                0,
            ),
{
    let ghost dst0: Seq<i64> = dst@;
    // replace mode: the worker zeroes its own window before accumulating
    if matches!(beta, Accum::Replace) {
        let mut r: usize = row_start;
        while r < row_end
            invariant
                row_start <= r <= row_end <= dst@.len(),
                dst@.len() == dst0.len(),
                forall|i: int| row_start <= i < r ==> dst@[i] == 0,
                forall|i: int|
                    0 <= i < dst@.len() && !(row_start <= i < r) ==> dst@[i] == dst0[i],
            decreases row_end - r,
        {
            dst[r] = 0i64;
            r += 1;
        }
    }
    let ghost dstb: Seq<i64> = dst@;

    let (los, his, rhs_ks) = build_slices(lhs, rhs, alpha, n_threads, strategy, tid);
    let ghost cs: int = strategy.thread_cols@[tid as int] as int;
    let k: usize = los.len();

    // tree size: the smallest power of two that seats every column and at
    // least one match
    proof {
        assert(pw(1) == 2) by {
            reveal_with_fuel(pw, 3);
        }
        assert(strategy.thread_cols@[tid as int + 1] < lhs.ncols);
        assert(k <= lhs.ncols);
    }
    let mut tsize: usize = 2;
    let ghost mut lv: nat = 1;
    while tsize < k
        invariant
            lv >= 1,
            2 <= tsize == pw(lv),
            k <= lhs.ncols < usize::MAX / 2,
        decreases 2 * k - tsize,
    {
        tsize = 2 * tsize;
        proof {
            lv = lv + 1;
        }
    }

    let mut base_v: Vec<Option<MergeEntry>> = Vec::new();
    let mut c0: usize = 0;
    while c0 < tsize
        invariant
            c0 <= tsize,
            base_v@.len() == c0,
            forall|j: int| 0 <= j < c0 ==> (#[trigger] base_v@[j]) is None,
        decreases tsize - c0,
    {
        base_v.push(None);
        c0 += 1;
    }
    let mut losers_v: Vec<usize> = Vec::new();
    let mut c1: usize = 0;
    while c1 < tsize
        invariant
            c1 <= tsize,
            losers_v@.len() == c1,
            forall|j: int| 0 <= j < c1 ==> (#[trigger] losers_v@[j]) == 0,
        decreases tsize - c1,
    {
        losers_v.push(0);
        c1 += 1;
    }

    // initialize the leaves: consume each column's leading window rows
    // straight into the destination, then seat the first foreign entry
    let mut merge_ptrs: Vec<usize> = Vec::new();
    let mut c: usize = 0;
    while c < k
        invariant
            lhs.wf(),
            lhs.rows_sorted(),
            slices_ok(*lhs, rhs@, alpha, *strategy, n_threads as int, tid as int, los@, his@,
                rhs_ks@),
            cs == strategy.thread_cols@[tid as int] as int,
            k == los@.len(),
            k <= tsize == pw(lv) == base_v@.len(),
            lv >= 1,
            c <= k,
            merge_ptrs@.len() == c,
            row_start <= row_end <= lhs.nrows,
            dst@.len() == dstb.len() == lhs.nrows,
            forall|c2: int|
                0 <= c2 < c ==> los@[c2] <= #[trigger] merge_ptrs@[c2] <= his@[c2],
            forall|c2: int|
                0 <= c2 < c && #[trigger] merge_ptrs@[c2] < his@[c2] ==> !(row_start
                    <= lhs.row_idx@[merge_ptrs@[c2] as int] < row_end),
            forall|c2: int|
                0 <= c2 < c ==> #[trigger] base_v@[c2] == if merge_ptrs@[c2] < his@[c2] {
                    Some((lhs.row_idx@[merge_ptrs@[c2] as int],
                    lhs.values@[merge_ptrs@[c2] as int], c2 as usize))
                } else {
                    None::<MergeEntry>
                },
            forall|j: int| c <= j < tsize ==> (#[trigger] base_v@[j]) is None,
            forall|r: int|
                row_start <= r < row_end ==> dst@[r] == crop(
                    dstb[r] + fr_sum(*lhs, rhs_ks@, los@, merge_ptrs@, r, c as int),
                ),
            forall|r: int|
                0 <= r < dst@.len() && !(row_start <= r < row_end) ==> dst@[r] == dstb[r],
            forall|r: int|
                !(row_start <= r < row_end) ==> #[trigger] fr_sum(*lhs, rhs_ks@, los@,
                    merge_ptrs@, r, c as int) == 0,
        decreases k - c,
    {
        let hi: usize = his[c];
        let mut pos: usize = los[c];
        let rk: i64 = rhs_ks[c];
        proof {
            assert(in_col(*lhs, cs + c, los@[c as int], his@[c as int]));
            reveal(in_col);
            assert(his@[c as int] <= lhs.nnz());
        }
        while head_in_window(lhs, pos, hi, row_start, row_end)
            invariant
                lhs.wf(),
                lhs.rows_sorted(),
                0 <= (c as int) < los@.len(),
                rk == rhs_ks@[c as int],
                lhs.col_ptr@[cs + c] <= los@[c as int] && hi == his@[c as int],
                his@[c as int] <= lhs.col_ptr@[cs + c + 1],
                los@[c as int] <= pos <= hi <= lhs.nnz(),
                row_start <= row_end <= lhs.nrows,
                dst@.len() == dstb.len() == lhs.nrows,
                forall|r: int|
                    row_start <= r < row_end ==> dst@[r] == crop(
                        dstb[r] + fr_sum(*lhs, rhs_ks@, los@, merge_ptrs@, r, c as int)
                            + seg_sum(*lhs, rk, r, los@[c as int] as int, pos as int),
                    ),
                forall|r: int|
                    0 <= r < dst@.len() && !(row_start <= r < row_end) ==> dst@[r] == dstb[r],
                merge_ptrs@.len() == c,
                forall|r: int|
                    !(row_start <= r < row_end) ==> #[trigger] fr_sum(*lhs, rhs_ks@, los@,
                        merge_ptrs@, r, c as int) == 0,
                forall|r: int|
                    !(row_start <= r < row_end) ==> #[trigger] seg_sum(*lhs, rk, r,
                        los@[c as int] as int, pos as int) == 0,
            decreases hi - pos,
        {
            let row: usize = lhs.row_idx[pos];
            let term: i64 = lhs.values[pos].wrapping_mul(rk);
            let ghost pre: Seq<i64> = dst@;
            dst[row] = dst[row].wrapping_add(term);
            proof {
                lemma_wrapping_mul_crop(lhs.values@[pos as int], rk);
                lemma_wrapping_add_crop(pre[row as int], term);
                lemma_crop_eqm(lhs.values@[pos as int] as int * rk as int);
                lemma_crop_chain(
                    pre[row as int],
                    dstb[row as int] + fr_sum(*lhs, rhs_ks@, los@, merge_ptrs@, row as int,
                        c as int),
                    seg_sum(*lhs, rk, row as int, los@[c as int] as int, pos as int),
                    term as int,
                    lhs.values@[pos as int] as int * rk as int,
                );
                assert forall|r: int|
                    !(row_start <= r < row_end) implies #[trigger] seg_sum(*lhs, rk, r,
                    los@[c as int] as int, pos as int + 1) == 0 by {
                    assert(row_start <= lhs.row_idx@[pos as int] < row_end);
                    assert(lhs.row_idx@[pos as int] != r);
                    assert(seg_sum(*lhs, rk, r, los@[c as int] as int, pos as int) == 0);
                }
            }
            pos += 1;
        }
        if pos < hi {
            base_v[c] = Some((lhs.row_idx[pos], lhs.values[pos], c));
        }
        let ghost ptrs_pre: Seq<usize> = merge_ptrs@;
        merge_ptrs.push(pos);
        proof {
            assert forall|r: int| row_start <= r < row_end implies dst@[r] == crop(
                dstb[r] + fr_sum(*lhs, rhs_ks@, los@, merge_ptrs@, r, c as int + 1),
            ) by {
                lemma_fr_sum_update(*lhs, rhs_ks@, los@, ptrs_pre, merge_ptrs@, r, c as int,
                    c as int);
            }
            assert forall|r: int|
                !(row_start <= r < row_end) implies #[trigger] fr_sum(*lhs, rhs_ks@, los@,
                merge_ptrs@, r, c as int + 1) == 0 by {
                lemma_fr_sum_update(*lhs, rhs_ks@, los@, ptrs_pre, merge_ptrs@, r, c as int,
                    c as int);
                assert(seg_sum(*lhs, rk, r, los@[c as int] as int, pos as int) == 0);
            }
        }
        c += 1;
    }

    let ghost glos: Seq<usize> = los@;
    let ghost ghis: Seq<usize> = his@;
    let ghost grks: Seq<i64> = rhs_ks@;
    proof {
        reveal(tree_content_ok);
        reveal(worker_state_ok);
        assert(tree_content_ok(*lhs, los@, his@, merge_ptrs@, los@.len() as int, base_v@));
        assert(worker_state_ok(*lhs, rhs_ks@, los@, his@, merge_ptrs@, dstb, dst@,
            Seq::empty(), row_start as int, row_end as int));
    }
    let merged: Vec<(usize, i64)> = merged_loop(
        dst,
        lhs,
        rhs,
        alpha,
        n_threads,
        strategy,
        tid,
        row_start,
        row_end,
        los,
        his,
        rhs_ks,
        merge_ptrs,
        base_v,
        losers_v,
        Ghost(lv),
        Ghost(dstb),
    );
    proof {
        reveal(worker_state_ok);
        let kk = glos.len() as int;
        let lo = strategy.thread_indptrs@[tid as int] as int;
        let hi2 = strategy.thread_indptrs@[tid as int + 1] as int;
        assert(kk >= 1 && glos[0] == lo && ghis[kk - 1] == hi2);
        assert(cs + kk <= lhs.ncols);
        assert forall|r: int| row_start <= r < row_end implies dst@[r] == crop(
            accum_base(beta, dst0[r]) + row_sum(*lhs, rhs@, alpha, r, lo, hi2),
        ) by {
            lemma_fr_sum_total(*lhs, rhs@, alpha, cs, grks, glos, ghis, ghis, r, kk);
            lemma_eqm_add(dstb[r] as int, dstb[r] as int, fr_sum(*lhs, grks, glos, ghis, r,
                kk), row_sum(*lhs, rhs@, alpha, r, lo, hi2));
            lemma_eqm_crop(dstb[r] + fr_sum(*lhs, grks, glos, ghis, r, kk), dstb[r] + row_sum(
                *lhs, rhs@, alpha, r, lo, hi2));
            assert(dstb[r] as int == accum_base(beta, dst0[r]));
        }
        assert forall|i: int| 0 <= i < merged@.len() implies (#[trigger] merged@[i]).1 == crop(
            row_sum(*lhs, rhs@, alpha, merged@[i].0 as int, lo, hi2),
        ) by {
            lemma_fr_sum_total(*lhs, rhs@, alpha, cs, grks, glos, ghis, ghis,
                merged@[i].0 as int, kk);
            lemma_eqm_crop(fr_sum(*lhs, grks, glos, ghis, merged@[i].0 as int, kk), row_sum(
                *lhs, rhs@, alpha, merged@[i].0 as int, lo, hi2));
        }
        assert forall|r: int|
            0 <= r < lhs.nrows && !(row_start <= r < row_end) && (forall|i: int|
                0 <= i < merged@.len() ==> (#[trigger] merged@[i]).0 != r) implies eqm(
            #[trigger] row_sum(*lhs, rhs@, alpha, r, lo, hi2),
            0,
        ) by {
            lemma_fr_sum_total(*lhs, rhs@, alpha, cs, grks, glos, ghis, ghis, r, kk);
            assert(fr_sum(*lhs, grks, glos, ghis, r, kk) == 0);
        }
    }
    merged
}

/// Does the next pending slot exist and land inside the worker's own output
/// window?
pub fn head_in_window(
    lhs: &CscMatrix,
    pos: usize,
    hi: usize,
    row_start: usize,
    row_end: usize,
) -> (r: bool)
    requires
        lhs.wf(),
        pos <= hi <= lhs.nnz(),
    ensures
        r == (pos < hi && row_start <= lhs.row_idx@[pos as int] < row_end),
{
    if pos < hi {
        let row: usize = lhs.row_idx[pos];
        row >= row_start && row < row_end
    } else {
        false
    }
}

/// Everything a tree worker's in-flight state guarantees: frontiers in
/// range with foreign heads, the destination window tracking the consumed
/// sums, the rest of the destination untouched, and the merged list sound.
#[verifier::opaque]
pub open spec fn worker_state_ok(
    m: CscMatrix,
    rhs_ks: Seq<i64>,
    los: Seq<usize>,
    his: Seq<usize>,
    fr: Seq<usize>,
    dstb: Seq<i64>,
    dst: Seq<i64>,
    merged: Seq<(usize, i64)>,
    row_start: int,
    row_end: int,
) -> bool {
    let k = los.len() as int;
    &&& fr.len() == k
    &&& forall|c: int| 0 <= c < k ==> los[c] <= #[trigger] fr[c] <= his[c]
    &&& forall|c: int|
        0 <= c < k && #[trigger] fr[c] < his[c] ==> !(row_start <= m.row_idx@[fr[c] as int]
            < row_end)
    &&& dst.len() == dstb.len() == m.nrows
    &&& forall|r: int|
        row_start <= r < row_end ==> dst[r] == crop(
            dstb[r] + fr_sum(m, rhs_ks, los, fr, r, k),
        )
    &&& forall|r: int| 0 <= r < dst.len() && !(row_start <= r < row_end) ==> dst[r] == dstb[r]
    &&& merged_win_ok(m, rhs_ks, los, fr, merged, row_start, row_end)
    &&& merged.len() > 0 ==> forall|c: int|
        0 <= c < k && #[trigger] fr[c] < his[c] ==> m.row_idx@[fr[c] as int] >= merged[
            merged.len() - 1].0
}

/// Drain the tournament: pop the minimum row, fold it into the merged list
/// (or the destination window, for the local run that may follow it), seat
/// the column's next foreign entry, until every column is exhausted.
#[verifier::rlimit(100)]
#[verifier::spinoff_prover]
fn merged_loop(
    dst: &mut Vec<i64>,
    lhs: &CscMatrix,
    rhs: &Vec<i64>,
    alpha: i64,
    n_threads: usize,
    strategy: &SpMvStrategy,
    tid: usize,
    row_start: usize,
    row_end: usize,
    los: Vec<usize>,
    his: Vec<usize>,
    rhs_ks: Vec<i64>,
    merge_ptrs_in: Vec<usize>,
    base_v: Vec<Option<MergeEntry>>,
    losers_v: Vec<usize>,
    glv: Ghost<nat>,
    gdstb: Ghost<Seq<i64>>,
) -> (merged: Vec<(usize, i64)>)
    requires
        lhs.wf(),
        lhs.rows_sorted(),
        slices_ok(*lhs, rhs@, alpha, *strategy, n_threads as int, tid as int, los@, his@,
            rhs_ks@),
        row_start <= row_end <= lhs.nrows,
        glv@ >= 1,
        los@.len() <= pw(glv@),
        base_v@.len() == pw(glv@),
        losers_v@.len() == pw(glv@),
        forall|n: int| 0 <= n < losers_v@.len() ==> (#[trigger] losers_v@[n]) < base_v@.len(),
        tree_content_ok(*lhs, los@, his@, merge_ptrs_in@, los@.len() as int, base_v@),
        worker_state_ok(*lhs, rhs_ks@, los@, his@, merge_ptrs_in@, gdstb@, old(dst)@,
            Seq::empty(), row_start as int, row_end as int),
    ensures
        worker_state_ok(*lhs, rhs_ks@, los@, his@, his@, gdstb@, final(dst)@, merged@,
            row_start as int, row_end as int),
{
    let ghost dstb: Seq<i64> = gdstb@;
    let ghost lv: nat = glv@;
    let k: usize = los.len();
    let mut merge_ptrs: Vec<usize> = merge_ptrs_in;
    proof {
        assert(lv >= 1 && pw(lv) == base_v@.len());
    }
    let mut tree: LoserTree = LoserTree::new(base_v, losers_v);
    proof {
        lemma_pw_injective(tree.height@, lv);
    }
    let mut merged: Vec<(usize, i64)> = Vec::new();
    proof {
        reveal(tree_content_ok);
        reveal(worker_state_ok);
    }

    loop
        invariant_except_break
            tree.inv(),
            tree.height@ == lv,
            tree_content_ok(*lhs, los@, his@, merge_ptrs@, k as int, tree.base@),
        invariant
            lhs.wf(),
            lhs.rows_sorted(),
            slices_ok(*lhs, rhs@, alpha, *strategy, n_threads as int, tid as int, los@, his@,
                rhs_ks@),
            row_start <= row_end <= lhs.nrows,
            lv >= 1,
            k == los@.len() <= pw(lv),
            merge_ptrs@.len() == k,
            worker_state_ok(*lhs, rhs_ks@, los@, his@, merge_ptrs@, dstb, dst@, merged@,
                row_start as int, row_end as int),
        ensures
            forall|c: int| 0 <= c < k ==> #[trigger] merge_ptrs@[c] == his@[c],
        decreases rem_sum(his@, merge_ptrs@, k as int),
    {
        let ghost base_pre: Seq<Option<MergeEntry>> = tree.base@;
        proof {
            reveal(tree_content_ok);
            reveal(worker_state_ok);
            lemma_pw_pos(lv);
        }
        let ghost wleaf: int = tree.losers@[pw(lv) - 1] as int;
        let popped: Option<MergeEntry> = tree.winner();
        proof {
            assert(popped == base_pre[wleaf]);
        }
        match popped {
            Option::None => {
                proof {
                    assert forall|c: int| 0 <= c < k implies #[trigger] merge_ptrs@[c]
                        == his@[c] by {
                        if merge_ptrs@[c] < his@[c] {
                            assert(le_opt(None, base_pre[c]));
                            assert(base_pre[c] is Some);
                        }
                    }
                }
                break;
            },
            Option::Some(e) => {
                proof {
                    assert(0 <= wleaf < base_pre.len());
                    if wleaf >= k {
                        assert(base_pre[wleaf] is None);
                    }
                    assert(wleaf < k);
                    assert(base_pre[wleaf] == if merge_ptrs@[wleaf] < his@[wleaf] {
                        Some((lhs.row_idx@[merge_ptrs@[wleaf] as int],
                        lhs.values@[merge_ptrs@[wleaf] as int], wleaf as usize))
                    } else {
                        None::<MergeEntry>
                    });
                    assert(e.2 == wleaf);
                    assert(merge_ptrs@[e.2 as int] < his@[e.2 as int]);
                }
                let col: usize = e.2;
                let pos: usize = merge_ptrs[col];
                let hi: usize = his[col];
                let rk: i64 = rhs_ks[col];
                let ghost cs: int = strategy.thread_cols@[tid as int] as int;
                proof {
                    assert(e.0 == lhs.row_idx@[pos as int] && e.1 == lhs.values@[pos as int]);
                    assert(!(row_start <= e.0 < row_end));
                    assert(in_col(*lhs, cs + col, los@[col as int], his@[col as int]));
                    reveal(in_col);
                    assert(his@[col as int] <= lhs.nnz());
                }
                let val: i64 = e.1.wrapping_mul(rk);
                let ghost term: int = lhs.values@[pos as int] as int * rk as int;
                let ghost fr_pre: Seq<usize> = merge_ptrs@;
                merge_ptrs[col] = pos + 1;
                let ghost fr_a: Seq<usize> = merge_ptrs@;
                proof {
                    lemma_wrapping_mul_crop(e.1, rk);
                    assert forall|r: int| true implies #[trigger] fr_sum(*lhs, rhs_ks@, los@,
                        fr_a, r, k as int) == fr_sum(*lhs, rhs_ks@, los@, fr_pre, r, k as int)
                        + if e.0 == r {
                        term
                    } else {
                        0int
                    } by {
                        lemma_fr_sum_update(*lhs, rhs_ks@, los@, fr_pre, fr_a, r, k as int,
                            col as int);
                        assert(seg_sum(*lhs, rk, r, los@[col as int] as int, pos as int + 1)
                            == seg_sum(*lhs, rk, r, los@[col as int] as int, pos as int)
                            + if lhs.row_idx@[pos as int] == r {
                            term
                        } else {
                            0int
                        });
                    }
                }
                let ghost merged_pre: Seq<(usize, i64)> = merged@;
                let li: usize = merged.len();
                if li > 0 && merged[li - 1].0 == e.0 {
                    let prev: i64 = merged[li - 1].1;
                    merged[li - 1] = (e.0, prev.wrapping_add(val));
                    proof {
                        lemma_wrapping_add_crop(prev, val);
                        lemma_crop_chain(
                            prev,
                            0,
                            fr_sum(*lhs, rhs_ks@, los@, fr_pre, e.0 as int, k as int),
                            val as int,
                            term,
                        );
                        assert forall|i2: int|
                            0 <= i2 < merged@.len() implies (#[trigger] merged@[i2]).1 == crop(
                            fr_sum(*lhs, rhs_ks@, los@, fr_a, merged@[i2].0 as int, k as int),
                        ) by {
                            if i2 < li - 1 {
                                assert(merged_pre[i2].0 < merged_pre[li - 1].0);
                                assert(merged@[i2] == merged_pre[i2]);
                            }
                        }
                    }
                } else {
                    proof {
                        if li > 0 {
                            assert forall|j: int|
                                0 <= j < merged_pre.len() implies (#[trigger] merged_pre[j]).0
                                != e.0 by {
                                if j < merged_pre.len() - 1 {
                                    assert(merged_pre[j].0 < merged_pre[merged_pre.len()
                                        - 1].0);
                                }
                            }
                        }
                        assert(fr_sum(*lhs, rhs_ks@, los@, fr_pre, e.0 as int, k as int) == 0);
                        assert(val == crop(term));
                    }
                    merged.push((e.0, val));
                    proof {
                        assert forall|i2: int|
                            0 <= i2 < merged@.len() implies (#[trigger] merged@[i2]).1 == crop(
                            fr_sum(*lhs, rhs_ks@, los@, fr_a, merged@[i2].0 as int, k as int),
                        ) by {
                            if i2 < li {
                                assert(merged@[i2] == merged_pre[i2]);
                                if i2 < li - 1 {
                                    assert(merged_pre[i2].0 < merged_pre[li - 1].0);
                                }
                                assert(merged_pre[i2].0 != e.0);
                            } else {
                                assert(merged@[i2] == (e.0, val));
                            }
                        }
                    }
                }
                proof {
                    // window rows saw no change from consuming a foreign slot
                    assert forall|r: int| row_start <= r < row_end implies dst@[r] == crop(
                        dstb[r] + fr_sum(*lhs, rhs_ks@, los@, fr_a, r, k as int),
                    ) by {
                        assert(e.0 != r);
                    }
                    // rows absent from the merged list are still untouched
                    assert forall|r: int|
                        !(row_start as int <= r < row_end as int) && (forall|i2: int|
                            0 <= i2 < merged@.len() ==> (#[trigger] merged@[i2]).0 != r)
                        implies #[trigger] fr_sum(*lhs, rhs_ks@, los@, fr_a, r, k as int)
                        == 0 by {
                        assert(merged@[merged@.len() - 1].0 == e.0);
                        assert(r != e.0);
                        assert forall|i2: int|
                            0 <= i2 < merged_pre.len() implies (#[trigger] merged_pre[i2]).0
                            != r by {
                            if li > 0 && merged_pre[li - 1].0 == e.0 && i2 == li - 1 {
                                assert(merged@[li - 1].0 == e.0);
                            } else {
                                assert(merged@[i2] == merged_pre[i2]);
                            }
                        }
                        assert(fr_sum(*lhs, rhs_ks@, los@, fr_pre, r, k as int) == 0);
                    }
                }

                // consume the local run that may follow, straight into the
                // destination window
                let mut npos: usize = pos + 1;
                while head_in_window(lhs, npos, hi, row_start, row_end)
                    invariant
                        lhs.wf(),
                        lhs.rows_sorted(),
                        0 <= (col as int) < k == los@.len(),
                        rk == rhs_ks@[col as int],
                        hi == his@[col as int],
                        lhs.col_ptr@[cs + col] <= los@[col as int],
                        his@[col as int] <= lhs.col_ptr@[cs + col + 1],
                        los@[col as int] <= pos < npos <= hi <= lhs.nnz(),
                        row_start <= row_end <= lhs.nrows,
                        merge_ptrs@.len() == k,
                        merge_ptrs@[col as int] == npos,
                        forall|c2: int|
                            0 <= c2 < k && c2 != col ==> #[trigger] merge_ptrs@[c2] == fr_a[
                                c2],
                        forall|c2: int|
                            0 <= c2 < k ==> los@[c2] <= #[trigger] merge_ptrs@[c2] <= his@[
                                c2],
                        dst@.len() == dstb.len() == lhs.nrows,
                        forall|r: int|
                            row_start <= r < row_end ==> dst@[r] == crop(
                                dstb[r] + fr_sum(*lhs, rhs_ks@, los@, merge_ptrs@, r,
                                    k as int),
                            ),
                        forall|r: int|
                            0 <= r < dst@.len() && !(row_start <= r < row_end) ==> dst@[r]
                                == dstb[r],
                        forall|r: int|
                            !(row_start as int <= r < row_end as int) ==> #[trigger] fr_sum(
                                *lhs, rhs_ks@, los@, merge_ptrs@, r, k as int) == fr_sum(
                                *lhs, rhs_ks@, los@, fr_a, r, k as int),
                    decreases hi - npos,
                {
                    let row: usize = lhs.row_idx[npos];
                    let term2: i64 = lhs.values[npos].wrapping_mul(rk);
                    let ghost pre: Seq<i64> = dst@;
                    let ghost fr_m: Seq<usize> = merge_ptrs@;
                    dst[row] = dst[row].wrapping_add(term2);
                    merge_ptrs[col] = npos + 1;
                    proof {
                        lemma_wrapping_mul_crop(lhs.values@[npos as int], rk);
                        lemma_wrapping_add_crop(pre[row as int], term2);
                        assert forall|r: int| true implies #[trigger] fr_sum(*lhs, rhs_ks@,
                            los@, merge_ptrs@, r, k as int) == fr_sum(*lhs, rhs_ks@, los@,
                            fr_m, r, k as int) + if row as int == r {
                            lhs.values@[npos as int] as int * rk as int
                        } else {
                            0int
                        } by {
                            lemma_fr_sum_update(*lhs, rhs_ks@, los@, fr_m, merge_ptrs@, r,
                                k as int, col as int);
                            assert(seg_sum(*lhs, rk, r, los@[col as int] as int,
                                npos as int + 1) == seg_sum(*lhs, rk, r,
                                los@[col as int] as int, npos as int) + if lhs.row_idx@[
                                npos as int] == r {
                                lhs.values@[npos as int] as int * rk as int
                            } else {
                                0int
                            });
                        }
                        lemma_crop_chain(
                            pre[row as int],
                            dstb[row as int] as int,
                            fr_sum(*lhs, rhs_ks@, los@, fr_m, row as int, k as int),
                            term2 as int,
                            lhs.values@[npos as int] as int * rk as int,
                        );
                        assert(merge_ptrs@ == fr_m.update(col as int, (npos + 1) as usize));
                        assert forall|c2: int|
                            0 <= c2 < k && c2 != col implies #[trigger] merge_ptrs@[c2]
                            == fr_a[c2] by {
                            assert(fr_m[c2] == fr_a[c2]);
                        }
                    }
                    npos += 1;
                }

                // seat the column's next foreign entry, or retire the column
                if npos < hi {
                    proof {
                        assert(!(row_start <= lhs.row_idx@[npos as int] < row_end));
                        assert(lhs.row_idx@[npos as int] < lhs.nrows);
                        assert(cs + col < lhs.ncols);
                        assert(lhs.row_idx@[pos as int] <= lhs.row_idx@[npos as int]);
                    }
                    tree.push(Some((lhs.row_idx[npos], lhs.values[npos], col)));
                } else {
                    tree.push(None);
                }
                proof {
                    // restore the content and ordering facts
                    assert forall|c2: int|
                        0 <= c2 < k implies #[trigger] tree.base@[c2] == (if merge_ptrs@[c2]
                        < his@[c2] {
                        Some((lhs.row_idx@[merge_ptrs@[c2] as int],
                        lhs.values@[merge_ptrs@[c2] as int], c2 as usize))
                    } else {
                        None::<MergeEntry>
                    }) by {
                        if c2 != col {
                            assert(base_pre[c2] == tree.base@[c2]);
                        }
                    }
                    assert forall|c2: int|
                        0 <= c2 < k && #[trigger] merge_ptrs@[c2] < his@[c2] implies
                        lhs.row_idx@[merge_ptrs@[c2] as int] >= merged@[merged@.len()
                        - 1].0 by {
                        if c2 != col {
                            assert(le_opt(popped, base_pre[c2]));
                        } else {
                            assert(lhs.row_idx@[pos as int] <= lhs.row_idx@[merge_ptrs@[
                                c2] as int]);
                        }
                    }
                    // termination: at least one slot was consumed
                    lemma_rem_sum_advance(his@, fr_pre, merge_ptrs@, k as int, col as int);
                }
            },
        }
    }
    proof {
        reveal(tree_content_ok);
        reveal(worker_state_ok);
        assert(merge_ptrs@ =~= his@);
        assert(worker_state_ok(*lhs, rhs_ks@, los@, his@, his@, dstb, dst@, merged@,
            row_start as int, row_end as int));
    }
    merged
}

/// Advancing one column's frontier strictly shrinks the pending count.
proof fn lemma_rem_sum_advance(his: Seq<usize>, fr: Seq<usize>, fr2: Seq<usize>, k: int, c: int)
    requires
        0 <= c < k,
        forall|c2: int| 0 <= c2 < k && c2 != c ==> #[trigger] fr2[c2] == fr[c2],
        fr[c] < fr2[c],
        forall|c2: int| 0 <= c2 < k ==> #[trigger] fr2[c2] <= his[c2],
        forall|c2: int| 0 <= c2 < k ==> fr[c2] <= #[trigger] fr2[c2],
    ensures
        0 <= rem_sum(his, fr2, k) < rem_sum(his, fr, k),
    decreases k,
{
    if k > 0 {
        if c == k - 1 {
            lemma_rem_sum_nonneg_pub(his, fr2, k - 1);
            lemma_rem_sum_eq(his, fr, fr2, k - 1, c);
        } else {
            lemma_rem_sum_advance(his, fr, fr2, k - 1, c);
        }
    }
}

proof fn lemma_rem_sum_eq(his: Seq<usize>, fr: Seq<usize>, fr2: Seq<usize>, k: int, c: int)
    requires
        forall|c2: int| 0 <= c2 < k && c2 != c ==> #[trigger] fr2[c2] == fr[c2],
        c >= k,
    ensures
        rem_sum(his, fr2, k) == rem_sum(his, fr, k),
    decreases k,
{
    if k > 0 {
        lemma_rem_sum_eq(his, fr, fr2, k - 1, c);
    }
}

proof fn lemma_rem_sum_nonneg_pub(his: Seq<usize>, fr: Seq<usize>, c: int)
    requires
        forall|c2: int| 0 <= c2 < c ==> #[trigger] fr[c2] <= his[c2],
    ensures
        rem_sum(his, fr, c) >= 0,
    decreases c,
{
    if c > 0 {
        lemma_rem_sum_nonneg_pub(his, fr, c - 1);
    }
}

/// Smallest power of two that seats `k` columns and at least one match.
pub open spec fn tree_size_spec(k: nat) -> nat
    decreases k,
{
    if k <= 2 {
        2
    } else {
        2 * tree_size_spec(((k + 1) / 2) as nat)
    }
}

proof fn lemma_tree_size_bound(k: nat)
    requires
        k >= 2,
    ensures
        tree_size_spec(k) <= 2 * (k - 1),
    decreases k,
{
    if k > 2 {
        lemma_tree_size_bound(((k + 1) / 2) as nat);
    }
}

/// The tournament slot count for `k` columns.
pub fn tree_size(k: usize) -> (r: usize)
    requires
        2 * k <= usize::MAX,
    ensures
        r == tree_size_spec(k as nat),
        k >= 2 ==> r <= 2 * (k - 1),
        r >= 2,
    decreases k,
{
    proof {
        if k >= 2 {
            lemma_tree_size_bound(k as nat);
        }
    }
    if k <= 2 {
        2
    } else {
        2 * tree_size((k + 1) / 2)
    }
}

/// Scratch slots the loser-tree strategy budgets per thread: one entry slot
/// and one annotation slot for every tournament node, summed over the first
/// `t` threads.
pub open spec fn merge_scratch_spec(cols: Seq<usize>, t: int) -> int
    decreases t,
{
    if t <= 0 {
        0
    } else {
        merge_scratch_spec(cols, t - 1) + 2 * tree_size_spec(
            (cols[t] - cols[t - 1] + 1) as nat,
        )
    }
}

/// Scalar slots of scratch this strategy budgets: every thread's tournament
/// keeps its entries and its annotations, twice the tree size each.
pub fn sparse_dense_scratch(
    lhs: &CscMatrix,
    rhs: &crate::csc::ColMajorMat,
    strategy: &SpMvStrategy,
    par: crate::csc::Par,
) -> (req: usize)
    requires
        match par {
            crate::csc::Par::Sequential => true,
            crate::csc::Par::Threads(n) => {
                &&& n * 4 <= usize::MAX
                &&& (rhs.ncols < n * 4 ==> strategy.valid_for(*lhs, n as int) && lhs.wf()
                    && n * 4 * lhs.ncols <= usize::MAX && lhs.ncols >= 1)
            },
        },
    ensures
        req == match par {
            crate::csc::Par::Sequential => 0int,
            crate::csc::Par::Threads(n) => if rhs.ncols >= n * 4 {
                0int
            } else {
                merge_scratch_spec(strategy.thread_cols@, n as int)
            },
        },
{
    match par {
        crate::csc::Par::Sequential => 0,
        crate::csc::Par::Threads(n_threads) => {
            if rhs.ncols >= n_threads * 4 {
                0
            } else {
                let mut total: usize = 0;
                let mut t: usize = 0;
                while t < n_threads
                    invariant
                        lhs.wf(),
                        strategy.valid_for(*lhs, n_threads as int),
                        lhs.ncols >= 1,
                        n_threads * 4 * lhs.ncols <= usize::MAX,
                        t <= n_threads,
                        total == merge_scratch_spec(strategy.thread_cols@, t as int),
                        total <= t * 4 * lhs.ncols,
                    decreases n_threads - t,
                {
                    let col_start: usize = strategy.thread_cols[t];
                    let col_end: usize = strategy.thread_cols[t + 1];
                    let k: usize = 1 + col_end - col_start;
                    proof {
                        assert(strategy.thread_cols@[t as int] <= strategy.thread_cols@[
                            t as int + 1] < lhs.ncols);
                        assert(t * 4 * lhs.ncols + 4 * lhs.ncols == (t + 1) * 4 * lhs.ncols
                            && (t + 1) * 4 * lhs.ncols <= n_threads * 4 * lhs.ncols)
                            by (nonlinear_arith)
                            requires
                                t < n_threads,
                                lhs.ncols >= 0,
                        ;
                        if k >= 2 {
                            lemma_tree_size_bound(k as nat);
                        }
                        assert(2 * (k - 1) < 2 * lhs.ncols);
                    }
                    let tsize: usize = tree_size(k);
                    total = total + 2 * tsize;
                    t += 1;
                }
                total
            }
        },
    }
}

/// Fold one worker's merged list into the destination: every listed row —
/// all of them outside the worker's window — gains its cropped slice sum;
/// rows inside the window, whose slice sums the worker already planted, and
/// rows whose slice sum is the zero ring element keep their value exactly.
pub fn add_merged_outside(
    dst: &mut Vec<i64>,
    merged: &Vec<(usize, i64)>,
    lhs: &CscMatrix,
    rhs: &Vec<i64>,
    alpha: i64,
    lo: usize,
    hi: usize,
    row_start: usize,
    row_end: usize,
)
    requires
        old(dst)@.len() == lhs.nrows,
        row_start <= row_end <= lhs.nrows,
        forall|i1: int, i2: int|
            0 <= i1 < i2 < merged@.len() ==> (#[trigger] merged@[i1]).0 < (
            #[trigger] merged@[i2]).0,
        forall|i: int|
            0 <= i < merged@.len() ==> (#[trigger] merged@[i]).0 < lhs.nrows && !(row_start
                <= merged@[i].0 < row_end),
        forall|i: int|
            0 <= i < merged@.len() ==> (#[trigger] merged@[i]).1 == crop(
                row_sum(*lhs, rhs@, alpha, merged@[i].0 as int, lo as int, hi as int),
            ),
        forall|r: int|
            0 <= r < lhs.nrows && !(row_start <= r < row_end) && (forall|i: int|
                0 <= i < merged@.len() ==> (#[trigger] merged@[i]).0 != r) ==> eqm(
                #[trigger] row_sum(*lhs, rhs@, alpha, r, lo as int, hi as int),
                0,
            ),
    ensures
        final(dst)@.len() == old(dst)@.len(),
        forall|r: int|
            0 <= r < lhs.nrows && !(row_start <= r < row_end) ==> final(dst)@[r] == crop(
                old(dst)@[r] + row_sum(*lhs, rhs@, alpha, r, lo as int, hi as int),
            ),
        forall|r: int| row_start <= r < row_end ==> final(dst)@[r] == old(dst)@[r],
{
    let ghost dst0: Seq<i64> = dst@;
    let n: usize = merged.len();
    let mut i: usize = 0;
    while i < n
        invariant
            n == merged@.len(),
            i <= n,
            dst@.len() == dst0.len() == lhs.nrows,
            forall|i1: int, i2: int|
                0 <= i1 < i2 < merged@.len() ==> (#[trigger] merged@[i1]).0 < (
                #[trigger] merged@[i2]).0,
            forall|i2: int|
                0 <= i2 < merged@.len() ==> (#[trigger] merged@[i2]).0 < lhs.nrows,
            forall|i2: int|
                0 <= i2 < merged@.len() ==> (#[trigger] merged@[i2]).1 == crop(
                    row_sum(*lhs, rhs@, alpha, merged@[i2].0 as int, lo as int, hi as int),
                ),
            forall|j: int|
                0 <= j < i ==> dst@[(#[trigger] merged@[j]).0 as int] == crop(
                    dst0[merged@[j].0 as int] + row_sum(*lhs, rhs@, alpha,
                        merged@[j].0 as int, lo as int, hi as int),
                ),
            forall|r: int|
                0 <= r < dst@.len() && (forall|j: int|
                    0 <= j < i ==> (#[trigger] merged@[j]).0 != r) ==> dst@[r] == dst0[r],
        decreases n - i,
    {
        let (row, val): (usize, i64) = merged[i];
        let ghost pre: Seq<i64> = dst@;
        dst[row] = dst[row].wrapping_add(val);
        proof {
            lemma_wrapping_add_crop(pre[row as int], val);
            assert(pre[row as int] == dst0[row as int]) by {
                assert forall|j: int| 0 <= j < i implies (#[trigger] merged@[j]).0
                    != row as int by {
                    assert(merged@[j].0 < merged@[i as int].0);
                }
            }
            crate::ring::lemma_crop_absorb(
                dst0[row as int] as int,
                row_sum(*lhs, rhs@, alpha, row as int, lo as int, hi as int),
            );
        }
        i += 1;
    }
    proof {
        assert forall|r: int|
            0 <= r < lhs.nrows && !(row_start <= r < row_end) implies dst@[r] == crop(
            dst0[r] + row_sum(*lhs, rhs@, alpha, r, lo as int, hi as int),
        ) by {
            if forall|j: int| 0 <= j < merged@.len() ==> (#[trigger] merged@[j]).0 != r {
                assert(dst@[r] == dst0[r]);
                assert(eqm(row_sum(*lhs, rhs@, alpha, r, lo as int, hi as int), 0));
                lemma_eqm_add(dst0[r] as int, dst0[r] as int, row_sum(*lhs, rhs@, alpha, r,
                    lo as int, hi as int), 0);
                lemma_eqm_crop(dst0[r] + row_sum(*lhs, rhs@, alpha, r, lo as int, hi as int),
                    dst0[r] as int + 0);
                lemma_crop_id(dst0[r] as int);
            } else {
                let j = choose|j: int|
                    0 <= j < merged@.len() && (#[trigger] merged@[j]).0 == r;
            }
        }
        assert forall|r: int| row_start <= r < row_end implies dst@[r] == dst0[r] by {
            assert forall|j: int| 0 <= j < merged@.len() implies (#[trigger] merged@[j]).0
                != r by {
                assert(!(row_start <= merged@[j].0 < row_end));
            }
        }
    }
}

/// The slice sum owed to row `r` by the worker that owns it, when workers
/// take `rpt` consecutive rows each.
pub open spec fn own_slice_sum(
    m: CscMatrix,
    x: Seq<i64>,
    alpha: i64,
    ptrs: Seq<usize>,
    rpt: int,
    r: int,
) -> int {
    row_sum(m, x, alpha, r, ptrs[r / rpt] as int, ptrs[r / rpt + 1] as int)
}

/// Row `r` does not occur in the list.
pub open spec fn absent_from(list: Vec<(usize, i64)>, r: int) -> bool {
    forall|i: int| 0 <= i < list@.len() ==> (#[trigger] list@[i]).0 != r
}

/// The per-worker foreign lists are sound: each strictly row-sorted, rows
/// outside the owner's window, values the cropped slice sums, and rows a
/// slice never touches are absent with a zero-element sum.
pub open spec fn lists_ok(
    m: CscMatrix,
    x: Seq<i64>,
    alpha: i64,
    ptrs: Seq<usize>,
    rpt: int,
    n: int,
    lists: Seq<Vec<(usize, i64)>>,
) -> bool {
    &&& lists.len() == n
    &&& forall|t: int, i1: int, i2: int|
        0 <= t < n && 0 <= i1 < i2 < (#[trigger] lists[t])@.len() ==> (
        #[trigger] lists[t]@[i1]).0 < (#[trigger] lists[t]@[i2]).0
    &&& forall|t: int, i: int|
        0 <= t < n && 0 <= i < (#[trigger] lists[t])@.len() ==> (#[trigger] lists[t]@[i]).0
            < m.nrows && !(t * rpt <= lists[t]@[i].0 < (t + 1) * rpt)
    &&& forall|t: int, i: int|
        0 <= t < n && 0 <= i < (#[trigger] lists[t])@.len() ==> (#[trigger] lists[t]@[i]).1
            == crop(row_sum(m, x, alpha, lists[t]@[i].0 as int, ptrs[t] as int, ptrs[t
                + 1] as int))
    &&& forall|t: int, r: int|
        0 <= t < n && 0 <= r < m.nrows && !(t * rpt <= r < (t + 1) * rpt) && absent_from(
            #[trigger] lists[t],
            r,
        ) ==> eqm(#[trigger] row_sum(m, x, alpha, r, ptrs[t] as int, ptrs[t + 1] as int), 0)
}

/// The compute phase is done: every destination row holds its owner's slice
/// sum over the required base.
pub open spec fn phase1_done(
    m: CscMatrix,
    x: Seq<i64>,
    alpha: i64,
    dst0: Seq<i64>,
    beta: Accum,
    ptrs: Seq<usize>,
    rpt: int,
    dst: Seq<i64>,
) -> bool {
    forall|r: int|
        0 <= r < m.nrows ==> #[trigger] dst[r] == crop(
            accum_base(beta, dst0[r]) + own_slice_sum(m, x, alpha, ptrs, rpt, r),
        )
}

/// The compute phase: run every worker over its own window.
#[verifier::rlimit(100)]
#[verifier::spinoff_prover]
fn run_workers(
    dst: &mut Vec<i64>,
    beta: Accum,
    lhs: &CscMatrix,
    rhs: &Vec<i64>,
    alpha: i64,
    n_threads: usize,
    strategy: &SpMvStrategy,
    rpt: usize,
) -> (all_merged: Vec<Vec<(usize, i64)>>)
    requires
        lhs.wf(),
        lhs.rows_sorted(),
        strategy.valid_for(*lhs, n_threads as int),
        rhs@.len() == lhs.ncols,
        old(dst)@.len() == lhs.nrows,
        lhs.ncols < usize::MAX / 2,
        rpt >= 1,
        lhs.nrows <= n_threads * rpt,
        n_threads * rpt <= lhs.nrows + n_threads - 1,
        (n_threads - 1) * rpt < lhs.nrows,
        lhs.nrows + n_threads <= usize::MAX,
    ensures
        final(dst)@.len() == old(dst)@.len(),
        lists_ok(*lhs, rhs@, alpha, strategy.thread_indptrs@, rpt as int, n_threads as int,
            all_merged@),
        phase1_done(*lhs, rhs@, alpha, old(dst)@, beta, strategy.thread_indptrs@, rpt as int,
            final(dst)@),
{
    let ghost dst0: Seq<i64> = dst@;
    let ghost ptrs: Seq<usize> = strategy.thread_indptrs@;
    let nrows: usize = lhs.nrows;
    let mut all_merged: Vec<Vec<(usize, i64)>> = Vec::new();
    let mut tid: usize = 0;
    while tid < n_threads
        invariant
            lhs.wf(),
            lhs.rows_sorted(),
            strategy.valid_for(*lhs, n_threads as int),
            rhs@.len() == lhs.ncols,
            lhs.ncols < usize::MAX / 2,
            nrows == lhs.nrows,
            dst@.len() == dst0.len() == nrows,
            rpt >= 1,
            nrows + n_threads <= usize::MAX,
            nrows <= n_threads * rpt <= nrows + n_threads - 1,
            (n_threads - 1) * rpt < nrows,
            ptrs == strategy.thread_indptrs@,
            tid <= n_threads,
            lists_ok(*lhs, rhs@, alpha, ptrs, rpt as int, tid as int, all_merged@),
            forall|r: int|
                0 <= r < nrows && r < tid * rpt ==> #[trigger] dst@[r] == crop(
                    accum_base(beta, dst0[r]) + own_slice_sum(*lhs, rhs@, alpha, ptrs,
                        rpt as int, r),
                ),
            forall|r: int|
                tid * rpt <= r < nrows ==> #[trigger] dst@[r] == dst0[r],
        decreases n_threads - tid,
    {
        proof {
            assert(tid * rpt <= (n_threads - 1) * rpt && (tid + 1) * rpt <= n_threads * rpt)
                by (nonlinear_arith)
                requires
                    tid < n_threads,
                    rpt >= 0,
            ;
            assert(tid * rpt + rpt == (tid + 1) * rpt) by (nonlinear_arith);
        }
        let row_start: usize = tid * rpt;
        let row_end: usize = if (tid + 1) * rpt < nrows {
            (tid + 1) * rpt
        } else {
            nrows
        };
        let ghost pre: Seq<i64> = dst@;
        let ghost lists_pre: Seq<Vec<(usize, i64)>> = all_merged@;
        let merged: Vec<(usize, i64)> = merge_worker(
            dst,
            beta,
            lhs,
            rhs,
            alpha,
            n_threads,
            strategy,
            tid,
            row_start,
            row_end,
        );
        all_merged.push(merged);
        proof {
            assert forall|r: int|
                0 <= r < nrows && r < (tid + 1) * rpt implies #[trigger] dst@[r] == crop(
                accum_base(beta, dst0[r]) + own_slice_sum(*lhs, rhs@, alpha, ptrs, rpt as int,
                    r),
            ) by {
                if r < tid * rpt {
                    assert(dst@[r] == pre[r]);
                } else {
                    assert(row_start <= r < row_end);
                    assert(pre[r] == dst0[r]);
                    assert(r / rpt as int == tid as int) by {
                        vstd::arithmetic::div_mod::lemma_fundamental_div_mod_converse(
                            r,
                            rpt as int,
                            tid as int,
                            r - tid * rpt,
                        );
                    }
                }
            }
            lemma_lists_extend(*lhs, rhs@, alpha, ptrs, rpt as int, tid as int, lists_pre,
                all_merged@, merged, row_start as int, row_end as int, nrows as int);
        }
        tid += 1;
    }
    all_merged
}

/// Appending one sound worker list keeps the collection sound.
#[verifier::rlimit(100)]
#[verifier::spinoff_prover]
proof fn lemma_lists_extend(
    m: CscMatrix,
    x: Seq<i64>,
    alpha: i64,
    ptrs: Seq<usize>,
    rpt: int,
    t0: int,
    lists: Seq<Vec<(usize, i64)>>,
    lists2: Seq<Vec<(usize, i64)>>,
    merged: Vec<(usize, i64)>,
    row_start: int,
    row_end: int,
    nrows: int,
)
    requires
        lists_ok(m, x, alpha, ptrs, rpt, t0, lists),
        lists2 == lists.push(merged),
        t0 >= 0,
        nrows == m.nrows,
        row_start == t0 * rpt,
        row_end == if (t0 + 1) * rpt < nrows {
            (t0 + 1) * rpt
        } else {
            nrows
        },
        rpt >= 1,
        forall|i1: int, i2: int|
            0 <= i1 < i2 < merged@.len() ==> (#[trigger] merged@[i1]).0 < (
            #[trigger] merged@[i2]).0,
        forall|i: int|
            0 <= i < merged@.len() ==> (#[trigger] merged@[i]).0 < m.nrows && !(row_start
                <= merged@[i].0 < row_end),
        forall|i: int|
            0 <= i < merged@.len() ==> (#[trigger] merged@[i]).1 == crop(
                row_sum(m, x, alpha, merged@[i].0 as int, ptrs[t0] as int, ptrs[t0
                    + 1] as int),
            ),
        forall|r: int|
            0 <= r < m.nrows && !(row_start <= r < row_end) && (forall|i: int|
                0 <= i < merged@.len() ==> (#[trigger] merged@[i]).0 != r) ==> eqm(
                #[trigger] row_sum(m, x, alpha, r, ptrs[t0] as int, ptrs[t0 + 1] as int),
                0,
            ),
    ensures
        lists_ok(m, x, alpha, ptrs, rpt, t0 + 1, lists2),
{
    assert forall|t: int, i: int|
        0 <= t < t0 + 1 && 0 <= i < (#[trigger] lists2[t])@.len() implies (
        #[trigger] lists2[t]@[i]).0 < m.nrows && !(t * rpt <= lists2[t]@[i].0 < (t + 1)
        * rpt) by {
        if t == t0 {
            assert(lists2[t] == merged);
            if row_end < (t0 + 1) * rpt {
                assert(row_end == nrows);
            }
        } else {
            assert(lists2[t] == lists[t]);
        }
    }
    assert forall|t: int, i1: int, i2: int|
        0 <= t < t0 + 1 && 0 <= i1 < i2 < (#[trigger] lists2[t])@.len() implies (
        #[trigger] lists2[t]@[i1]).0 < (#[trigger] lists2[t]@[i2]).0 by {
        if t == t0 {
            assert(lists2[t] == merged);
        } else {
            assert(lists2[t] == lists[t]);
        }
    }
    assert forall|t: int, i: int|
        0 <= t < t0 + 1 && 0 <= i < (#[trigger] lists2[t])@.len() implies (
        #[trigger] lists2[t]@[i]).1 == crop(
        row_sum(m, x, alpha, lists2[t]@[i].0 as int, ptrs[t] as int, ptrs[t + 1] as int),
    ) by {
        if t == t0 {
            assert(lists2[t] == merged);
        } else {
            assert(lists2[t] == lists[t]);
        }
    }
    assert forall|t: int, r: int|
        0 <= t < t0 + 1 && 0 <= r < m.nrows && !(t * rpt <= r < (t + 1) * rpt) && absent_from(
        #[trigger] lists2[t],
        r,
    ) implies eqm(#[trigger] row_sum(m, x, alpha, r, ptrs[t] as int, ptrs[t + 1] as int), 0)
        by {
        if t == t0 {
            assert(lists2[t] == merged);
            if !(row_start <= r < row_end) {
                assert forall|i: int|
                    0 <= i < merged@.len() implies (#[trigger] merged@[i]).0 != r by {
                    assert(lists2[t]@[i].0 != r);
                }
            } else {
                assert(t * rpt <= r < (t + 1) * rpt);
            }
        } else {
            assert(lists2[t] == lists[t]);
            assert(absent_from(lists[t], r));
        }
    }
    assert(lists2.len() == t0 + 1);
}

/// The reconciliation is `t` lists in: every destination row carries the
/// whole contribution of the first `t` slices, plus its owner's slice.
pub open spec fn phase2_at(
    m: CscMatrix,
    x: Seq<i64>,
    alpha: i64,
    dst0: Seq<i64>,
    beta: Accum,
    ptrs: Seq<usize>,
    rpt: int,
    t: int,
    dst: Seq<i64>,
) -> bool {
    forall|r: int|
        0 <= r < m.nrows ==> #[trigger] dst[r] == crop(
            accum_base(beta, dst0[r]) + row_sum(m, x, alpha, r, 0, ptrs[t] as int) + if r >= t
                * rpt {
                own_slice_sum(m, x, alpha, ptrs, rpt, r)
            } else {
                0int
            },
        )
}

/// Fold worker `t2`'s foreign list into the destination.
#[verifier::rlimit(100)]
#[verifier::spinoff_prover]
fn fold_one(
    dst: &mut Vec<i64>,
    lhs: &CscMatrix,
    rhs: &Vec<i64>,
    alpha: i64,
    n_threads: usize,
    strategy: &SpMvStrategy,
    rpt: usize,
    all_merged: &Vec<Vec<(usize, i64)>>,
    t2: usize,
    beta: Ghost<Accum>,
    gdst0: Ghost<Seq<i64>>,
)
    requires
        lhs.wf(),
        strategy.valid_for(*lhs, n_threads as int),
        rhs@.len() == lhs.ncols,
        old(dst)@.len() == lhs.nrows,
        gdst0@.len() == lhs.nrows,
        rpt >= 1,
        t2 < n_threads,
        lhs.nrows <= n_threads * rpt,
        n_threads * rpt <= lhs.nrows + n_threads - 1,
        lhs.nrows + n_threads <= usize::MAX,
        lists_ok(*lhs, rhs@, alpha, strategy.thread_indptrs@, rpt as int, n_threads as int,
            all_merged@),
        phase2_at(*lhs, rhs@, alpha, gdst0@, beta@, strategy.thread_indptrs@, rpt as int,
            t2 as int, old(dst)@),
    ensures
        final(dst)@.len() == old(dst)@.len(),
        phase2_at(*lhs, rhs@, alpha, gdst0@, beta@, strategy.thread_indptrs@, rpt as int,
            t2 as int + 1, final(dst)@),
{
    let ghost dst0: Seq<i64> = gdst0@;
    let ghost ptrs: Seq<usize> = strategy.thread_indptrs@;
    let nrows: usize = lhs.nrows;
    proof {
        assert(t2 * rpt <= (t2 + 1) * rpt <= n_threads * rpt && t2 * rpt + rpt == (t2 + 1)
            * rpt) by (nonlinear_arith)
            requires
                t2 < n_threads,
                rpt >= 0,
        ;
    }
    let row_start: usize = if t2 * rpt < nrows {
        t2 * rpt
    } else {
        nrows
    };
    let row_end: usize = if (t2 + 1) * rpt < nrows {
        (t2 + 1) * rpt
    } else {
        nrows
    };
    let ghost pre: Seq<i64> = dst@;
    let lo: usize = strategy.thread_indptrs[t2];
    let hi: usize = strategy.thread_indptrs[t2 + 1];
    let list: &Vec<(usize, i64)> = &all_merged[t2];
    proof {
        assert(all_merged@[t2 as int] == *list);
        assert forall|i: int|
            0 <= i < list@.len() implies (#[trigger] list@[i]).0 < lhs.nrows && !(row_start
            <= list@[i].0 < row_end) by {
            assert(!(t2 * rpt <= list@[i].0 < (t2 + 1) * rpt));
        }
        assert forall|r: int|
            0 <= r < lhs.nrows && !(row_start <= r < row_end) && (forall|i: int|
                0 <= i < list@.len() ==> (#[trigger] list@[i]).0 != r) implies eqm(
            #[trigger] row_sum(*lhs, rhs@, alpha, r, lo as int, hi as int),
            0,
        ) by {
            assert(!(t2 * rpt <= r < (t2 + 1) * rpt));
            assert(absent_from(all_merged@[t2 as int], r)) by {
                assert forall|i: int|
                    0 <= i < all_merged@[t2 as int]@.len() implies (#[trigger] all_merged@[
                    t2 as int]@[i]).0 != r by {
                    assert(list@[i].0 != r);
                }
            }
        }
    }
    add_merged_outside(dst, list, lhs, rhs, alpha, lo, hi, row_start, row_end);
    proof {
        assert forall|r: int| 0 <= r < nrows implies #[trigger] dst@[r] == crop(
            accum_base(beta@, dst0[r]) + row_sum(*lhs, rhs@, alpha, r, 0, ptrs[t2 as int
                + 1] as int) + if r >= (t2 + 1) * rpt {
                own_slice_sum(*lhs, rhs@, alpha, ptrs, rpt as int, r)
            } else {
                0int
            },
        ) by {
            lemma_row_sum_split(*lhs, rhs@, alpha, r, 0, lo as int, hi as int);
            if t2 * rpt <= r < (t2 + 1) * rpt {
                // this worker's own window: its slice sum is already in place
                assert(row_start <= r < row_end);
                assert(dst@[r] == pre[r]);
                assert(r / rpt as int == t2 as int) by {
                    vstd::arithmetic::div_mod::lemma_fundamental_div_mod_converse(
                        r,
                        rpt as int,
                        t2 as int,
                        r - t2 * rpt,
                    );
                }
                assert(own_slice_sum(*lhs, rhs@, alpha, ptrs, rpt as int, r) == row_sum(
                    *lhs, rhs@, alpha, r, lo as int, hi as int));
            } else {
                assert(!(row_start <= r < row_end));
                assert(dst@[r] == crop(pre[r] + row_sum(*lhs, rhs@, alpha, r, lo as int, hi as int)));
                if r >= (t2 + 1) * rpt {
                    lemma_crop_chain(
                        pre[r],
                        accum_base(beta@, dst0[r]) + own_slice_sum(*lhs, rhs@, alpha, ptrs,
                            rpt as int, r),
                        row_sum(*lhs, rhs@, alpha, r, 0, lo as int),
                        row_sum(*lhs, rhs@, alpha, r, lo as int, hi as int),
                        row_sum(*lhs, rhs@, alpha, r, lo as int, hi as int),
                    );
                } else {
                    assert(r < t2 * rpt);
                    lemma_crop_chain(
                        pre[r],
                        accum_base(beta@, dst0[r]) as int,
                        row_sum(*lhs, rhs@, alpha, r, 0, lo as int),
                        row_sum(*lhs, rhs@, alpha, r, lo as int, hi as int),
                        row_sum(*lhs, rhs@, alpha, r, lo as int, hi as int),
                    );
                }
            }
        }
        assert(phase2_at(*lhs, rhs@, alpha, dst0, beta@, ptrs, rpt as int, t2 as int + 1,
            dst@));
    }
}

/// The reconciliation phase: fold every worker's foreign list into the
/// destination, worker-ascending.
#[verifier::rlimit(100)]
#[verifier::spinoff_prover]
fn fold_merged(
    dst: &mut Vec<i64>,
    lhs: &CscMatrix,
    rhs: &Vec<i64>,
    alpha: i64,
    n_threads: usize,
    strategy: &SpMvStrategy,
    rpt: usize,
    all_merged: &Vec<Vec<(usize, i64)>>,
    beta: Ghost<Accum>,
    gdst0: Ghost<Seq<i64>>,
)
    requires
        lhs.wf(),
        strategy.valid_for(*lhs, n_threads as int),
        rhs@.len() == lhs.ncols,
        old(dst)@.len() == lhs.nrows,
        gdst0@.len() == lhs.nrows,
        rpt >= 1,
        lhs.nrows <= n_threads * rpt,
        n_threads * rpt <= lhs.nrows + n_threads - 1,
        lhs.nrows + n_threads <= usize::MAX,
        lists_ok(*lhs, rhs@, alpha, strategy.thread_indptrs@, rpt as int, n_threads as int,
            all_merged@),
        phase1_done(*lhs, rhs@, alpha, gdst0@, beta@, strategy.thread_indptrs@, rpt as int,
            old(dst)@),
    ensures
        final(dst)@.len() == old(dst)@.len(),
        spmv_post(*lhs, rhs@, alpha, gdst0@, beta@, final(dst)@),
{
    let ghost dst0: Seq<i64> = gdst0@;
    let ghost ptrs: Seq<usize> = strategy.thread_indptrs@;
    let nrows: usize = lhs.nrows;
    proof {
        assert forall|r: int| 0 <= r < nrows implies #[trigger] dst@[r] == crop(
            accum_base(beta@, dst0[r]) + row_sum(*lhs, rhs@, alpha, r, 0, ptrs[0] as int)
                + if r >= 0 * rpt {
                own_slice_sum(*lhs, rhs@, alpha, ptrs, rpt as int, r)
            } else {
                0int
            },
        ) by {
            assert(dst@[r] == crop(accum_base(beta@, dst0[r]) + own_slice_sum(*lhs, rhs@,
                alpha, ptrs, rpt as int, r)));
            assert(ptrs[0] == 0);
            assert(0 * rpt == 0) by (nonlinear_arith);
        }
        assert(phase2_at(*lhs, rhs@, alpha, dst0, beta@, ptrs, rpt as int, 0, dst@));
    }
    let mut t2: usize = 0;
    while t2 < n_threads
        invariant
            lhs.wf(),
            strategy.valid_for(*lhs, n_threads as int),
            rhs@.len() == lhs.ncols,
            nrows == lhs.nrows,
            dst@.len() == dst0.len() == nrows,
            rpt >= 1,
            nrows <= n_threads * rpt <= nrows + n_threads - 1,
            nrows + n_threads <= usize::MAX,
            ptrs == strategy.thread_indptrs@,
            dst0 == gdst0@,
            t2 <= n_threads,
            lists_ok(*lhs, rhs@, alpha, ptrs, rpt as int, n_threads as int, all_merged@),
            phase2_at(*lhs, rhs@, alpha, dst0, beta@, ptrs, rpt as int, t2 as int, dst@),
        decreases n_threads - t2,
    {
        fold_one(dst, lhs, rhs, alpha, n_threads, strategy, rpt, all_merged, t2, beta,
            gdst0);
        t2 += 1;
    }
    proof {
        assert forall|r: int| 0 <= r < nrows implies #[trigger] dst@[r] == crop(
            accum_base(beta@, dst0[r]) + row_sum(*lhs, rhs@, alpha, r, 0, lhs.nnz()),
        ) by {
            assert(r < n_threads * rpt);
            assert(ptrs[n_threads as int] == lhs.nnz());
        }
    }
}

/// The loser-tree strategy for one destination column: every worker merges
/// its slice through a tournament tree — locally owned rows bypassing the
/// tree into its own destination window — and the sorted foreign lists are
/// folded in afterwards, worker-ascending.
pub fn par_sparse_dense(
    dst: &mut Vec<i64>,
    beta: Accum,
    lhs: &CscMatrix,
    rhs: &Vec<i64>,
    alpha: i64,
    n_threads: usize,
    strategy: &SpMvStrategy,
    stack: &mut Vec<i64>,
)
    requires
        lhs.wf(),
        lhs.rows_sorted(),
        strategy.valid_for(*lhs, n_threads as int),
        rhs@.len() == lhs.ncols,
        old(dst)@.len() == lhs.nrows,
        lhs.nrows >= 1,
        lhs.ncols < usize::MAX / 2,
        lhs.nrows + n_threads <= usize::MAX,
        (n_threads - 1) * ((lhs.nrows + n_threads - 1) / n_threads as int) < lhs.nrows,
    ensures
        final(dst)@.len() == old(dst)@.len(),
        final(stack)@ == old(stack)@,
        spmv_post(*lhs, rhs@, alpha, old(dst)@, beta, final(dst)@),
{
    let ghost dst0: Seq<i64> = dst@;
    let nrows: usize = lhs.nrows;
    let rpt: usize = (nrows + n_threads - 1) / n_threads;
    proof {
        let x = nrows as int + n_threads - 1;
        let n = n_threads as int;
        vstd::arithmetic::div_mod::lemma_div_non_zero(x, n);
        vstd::arithmetic::div_mod::lemma_fundamental_div_mod(x, n);
        vstd::arithmetic::div_mod::lemma_mod_bound(x, n);
        assert(rpt >= 1);
        assert(n * rpt == x - x % n);
        assert(nrows <= n_threads * rpt <= nrows + n_threads - 1);
    }
    let all_merged: Vec<Vec<(usize, i64)>> = run_workers(
        dst,
        beta,
        lhs,
        rhs,
        alpha,
        n_threads,
        strategy,
        rpt,
    );
    fold_merged(dst, lhs, rhs, alpha, n_threads, strategy, rpt, &all_merged, Ghost(beta),
        Ghost(dst0));
}

/// Row `r` sits in a window below the worker count.
pub proof fn lemma_qdiv_bound(r: int, rpt: int, n: int)
    requires
        0 <= r,
        rpt >= 1,
        r < n * rpt,
    ensures
        0 <= r / rpt < n,
{
    vstd::arithmetic::div_mod::lemma_fundamental_div_mod(r, rpt);
    assert(r / rpt >= 0) by (nonlinear_arith)
        requires
            r >= 0,
            rpt >= 1,
            r == rpt * (r / rpt) + r % rpt,
            0 <= r % rpt < rpt,
    ;
    assert(r / rpt < n) by (nonlinear_arith)
        requires
            r < n * rpt,
            rpt >= 1,
            r == rpt * (r / rpt) + r % rpt,
            0 <= r % rpt < rpt,
    ;
}

/// Strictly climbing index bounds climb across any distance.
proof fn lemma_ptrs_le(ptrs: Seq<usize>, t1: int, t2: int)
    requires
        0 <= t1 <= t2 < ptrs.len(),
        forall|t: int| 0 <= t < ptrs.len() - 1 ==> #[trigger] ptrs[t] < ptrs[t + 1],
    ensures
        ptrs[t1] <= ptrs[t2],
    decreases t2 - t1,
{
    if t1 < t2 {
        lemma_ptrs_le(ptrs, t1, t2 - 1);
    }
}

} // verus!
