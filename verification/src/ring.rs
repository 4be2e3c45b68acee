use vstd::prelude::*;

verus! {

use vstd::arithmetic::div_mod::{
    lemma_add_mod_noop, lemma_mod_sub_multiples_vanish, lemma_mod_add_multiples_vanish,
    lemma_mod_twice, lemma_mul_mod_noop_left, lemma_small_mod,
};
use vstd::wrapping::i64_specs;

/// Number of distinct `i64` values; the modulus of the scalar ring.
///
/// Scalar values in this library are `i64` elements combined with wrapping
/// addition and multiplication, so every accumulator is an exact ring element
/// and results can be pinned down exactly, whatever order partial
/// contributions are combined in.
pub open spec fn ring_size() -> int {
    0x1_0000_0000_0000_0000
}

/// Reduce an unbounded integer into the `i64` range, as two's-complement
/// wrapping arithmetic does.
pub open spec fn crop(x: int) -> i64 {
    i64_specs::signed_crop(x)
}

/// `a` and `b` stand for the same ring element.
pub open spec fn eqm(a: int, b: int) -> bool {
    a % ring_size() == b % ring_size()
}

/// Cropping keeps the ring element.
pub proof fn lemma_crop_eqm(x: int)
    ensures
        eqm(crop(x) as int, x),
{
    let r = ring_size();
    lemma_mod_twice(x, r);
    lemma_mod_sub_multiples_vanish(x % r, r);
}

/// Integers already in the `i64` range are left alone by `crop`.
pub proof fn lemma_crop_id(x: int)
    requires
        i64::MIN <= x <= i64::MAX,
    ensures
        crop(x) == x,
{
    let r = ring_size();
    if x >= 0 {
        lemma_small_mod(x as nat, r as nat);
    } else {
        lemma_mod_add_multiples_vanish(x, r);
        lemma_small_mod((x + r) as nat, r as nat);
    }
}

/// `crop` depends only on the ring element.
pub proof fn lemma_eqm_crop(a: int, b: int)
    requires
        eqm(a, b),
    ensures
        crop(a) == crop(b),
{
}

/// Equal ring elements added to equal ring elements stay equal.
pub proof fn lemma_eqm_add(a1: int, a2: int, b1: int, b2: int)
    requires
        eqm(a1, a2),
        eqm(b1, b2),
    ensures
        eqm(a1 + b1, a2 + b2),
{
    let r = ring_size();
    lemma_add_mod_noop(a1, b1, r);
    lemma_add_mod_noop(a2, b2, r);
}

/// Multiplying equal ring elements by the same factor keeps them equal.
pub proof fn lemma_eqm_mul_left(a1: int, a2: int, b: int)
    requires
        eqm(a1, a2),
    ensures
        eqm(a1 * b, a2 * b),
{
    let r = ring_size();
    lemma_mul_mod_noop_left(a1, b, r);
    lemma_mul_mod_noop_left(a2, b, r);
}

/// Folding a cropped partial result into a larger sum loses nothing.
pub proof fn lemma_crop_absorb(a: int, b: int)
    ensures
        crop(a + crop(b) as int) == crop(a + b),
{
    lemma_crop_eqm(b);
    lemma_eqm_add(a, a, crop(b) as int, b);
    lemma_eqm_crop(a + crop(b) as int, a + b);
}

/// Extending a cropped partial sum by a ring-equal increment yields the
/// cropped extended sum.
pub proof fn lemma_crop_chain(d: i64, base: int, s1: int, s2a: int, s2b: int)
    requires
        d == crop(base + s1),
        eqm(s2a, s2b),
    ensures
        crop(d as int + s2a) == crop(base + (s1 + s2b)),
{
    lemma_crop_eqm(base + s1);
    lemma_eqm_add(d as int, base + s1, s2a, s2b);
    lemma_eqm_crop(d as int + s2a, base + s1 + s2b);
}

/// The standard library's wrapping addition computes `crop` of the exact sum.
pub proof fn lemma_wrapping_add_crop(x: i64, y: i64)
    ensures
        i64_specs::wrapping_add(x, y) == crop(x as int + y as int),
{
    let r = ring_size();
    let s = x as int + y as int;
    if s > i64::MAX {
        lemma_small_mod(s as nat, r as nat);
    } else if s < i64::MIN {
        lemma_mod_add_multiples_vanish(s, r);
        lemma_small_mod((s + r) as nat, r as nat);
    } else {
        lemma_crop_id(s);
    }
}

/// The standard library's wrapping multiplication computes `crop` of the
/// exact product.
pub proof fn lemma_wrapping_mul_crop(x: i64, y: i64)
    ensures
        i64_specs::wrapping_mul(x, y) == crop(x as int * y as int),
{
}

} // verus!
