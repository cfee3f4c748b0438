//! Candidate masks: an unsigned bitmask of width N where bit `v` set means
//! value `v` is still possible for a cell. This module gives the masks their
//! mathematical reading (`bit`, `card`, `resolved`) and the lemmas that relate
//! the bitwise operators to that reading.

use vstd::prelude::*;

verus! {

/// Bit `v` of mask `m` is set: candidate value `v` is still possible.
pub open spec fn bit(m: u32, v: u32) -> bool {
    v < 32 && (m >> v) & 1u32 == 1u32
}

/// Number of set bits among the `w` lowest bits of `m`.
pub open spec fn pop(m: u32, w: u32) -> nat
    decreases w,
{
    if w == 0 {
        0
    } else {
        pop(m, (w - 1) as u32) + if bit(m, (w - 1) as u32) {
            1nat
        } else {
            0nat
        }
    }
}

/// Number of set bits of `m`: how many candidates the mask still holds.
pub open spec fn card(m: u32) -> nat {
    pop(m, 32)
}

/// A mask with exactly one candidate left.
pub open spec fn resolved(m: u32) -> bool {
    card(m) == 1
}

/// The single candidate of a resolved mask.
pub open spec fn value_of(m: u32) -> u32 {
    choose|v: u32| bit(m, v)
}

/// The set bits of `m` below `w`, in ascending order.
pub open spec fn mask_seq(m: u32, w: u32) -> Seq<u8>
    decreases w,
{
    if w == 0 {
        Seq::empty()
    } else {
        mask_seq(m, (w - 1) as u32) + if bit(m, (w - 1) as u32) {
            seq![(w - 1) as u8]
        } else {
            Seq::empty()
        }
    }
}

/// Counts the set bits of a mask.
pub fn mask_card(m: u32) -> (c: u32)
    ensures
        c == card(m),
{
    let mut c: u32 = 0;
    for v in 0..32u32
        invariant
            c == pop(m, v),
            c <= v,
    {
        if (m >> v) & 1u32 == 1u32 {
            c = c + 1;
        }
    }
    c
}

/// Tests whether a mask holds exactly one candidate.
pub fn mask_is_resolved(m: u32) -> (r: bool)
    ensures
        r == resolved(m),
{
    mask_card(m) == 1
}

/// A prefix of the bits holds at most as many set bits as its width.
pub proof fn lemma_pop_le(m: u32, w: u32)
    ensures
        pop(m, w) <= w,
    decreases w,
{
    if w > 0 {
        lemma_pop_le(m, (w - 1) as u32);
    }
}

/// A mask whose bits all imply another's has at most as many set bits.
pub proof fn lemma_pop_monotone(a: u32, b: u32, w: u32)
    requires
        forall|v: u32| v < w && #[trigger] bit(a, v) ==> bit(b, v),
    ensures
        pop(a, w) <= pop(b, w),
    decreases w,
{
    if w > 0 {
        lemma_pop_monotone(a, b, (w - 1) as u32);
    }
}

/// A prefix with no set bits counts zero, and conversely.
pub proof fn lemma_pop_zero(m: u32, w: u32)
    ensures
        pop(m, w) == 0 <==> (forall|v: u32| v < w ==> !(#[trigger] bit(m, v))),
    decreases w,
{
    if w > 0 {
        lemma_pop_zero(m, (w - 1) as u32);
    }
}

/// A prefix counting exactly one set bit holds one, and only one.
pub proof fn lemma_pop_one(m: u32, w: u32)
    requires
        pop(m, w) == 1,
    ensures
        exists|v: u32| v < w && #[trigger] bit(m, v),
        forall|v1: u32, v2: u32| v1 < w && v2 < w && #[trigger] bit(m, v1) && #[trigger] bit(m, v2) ==> v1 == v2,
    decreases w,
{
    if w > 0 {
        if bit(m, (w - 1) as u32) {
            assert(pop(m, (w - 1) as u32) == 0);
            lemma_pop_zero(m, (w - 1) as u32);
        } else {
            lemma_pop_one(m, (w - 1) as u32);
        }
    }
}

/// A resolved mask's `value_of` is its one set bit.
pub proof fn lemma_value_of(m: u32)
    requires
        resolved(m),
    ensures
        bit(m, value_of(m)),
        forall|v: u32| #[trigger] bit(m, v) ==> v == value_of(m),
{
    lemma_pop_one(m, 32);
    let v0 = choose|v: u32| v < 32 && bit(m, v);
    assert(bit(m, v0));
}

/// Masks below `1 << n` have no bits at positions `n` and above.
pub proof fn lemma_bit_bound(m: u32, n: u32, v: u32)
    requires
        n < 32,
        m < (1u32 << n),
        n <= v,
    ensures
        !bit(m, v),
{
    assert(!bit(m, v)) by (bit_vector)
        requires
            n < 32,
            m < (1u32 << n),
            n <= v,
    ;
}

/// Bitwise AND intersects the candidate sets.
pub proof fn lemma_bit_and(a: u32, b: u32)
    by (bit_vector)
    ensures
        forall|v: u32| #[trigger] bit(a & b, v) <==> bit(a, v) && bit(b, v),
{
}

/// Bitwise OR unites the candidate sets.
pub proof fn lemma_bit_or(a: u32, b: u32)
    by (bit_vector)
    ensures
        forall|v: u32| #[trigger] bit(a | b, v) <==> bit(a, v) || bit(b, v),
{
}

/// Bitwise NOT complements the candidate set within the 32-bit universe.
pub proof fn lemma_bit_not(a: u32)
    by (bit_vector)
    ensures
        forall|v: u32| v < 32 ==> (#[trigger] bit(!a, v) <==> !bit(a, v)),
{
}

/// Shifting left by one moves every candidate up by one value.
pub proof fn lemma_bit_shl1(a: u32)
    by (bit_vector)
    ensures
        forall|v: u32| #[trigger] bit(a << 1u32, v) <==> (1 <= v < 32 && bit(a, (v - 1) as u32)),
{
}

/// Shifting right by one moves every candidate down by one value.
pub proof fn lemma_bit_shr1(a: u32)
    by (bit_vector)
    ensures
        forall|v: u32| #[trigger] bit(a >> 1u32, v) <==> (v < 31 && bit(a, (v + 1) as u32)),
{
}

/// `(1 << n) - 1` is the full mask of all values below `n`.
pub proof fn lemma_bit_low_mask(n: u32)
    by (bit_vector)
    requires
        n < 32,
    ensures
        forall|v: u32| #[trigger] bit(((1u32 << n) - 1) as u32, v) <==> v < n,
{
}

/// The zero mask holds no candidate.
pub proof fn lemma_bit_zero()
    by (bit_vector)
    ensures
        forall|v: u32| !(#[trigger] bit(0u32, v)),
{
}

/// The complement of the three-bit window around `d`: the values that do
/// not lie within distance 1 of `d`.
pub proof fn lemma_bit_far_window(d: u32)
    by (bit_vector)
    requires
        d < 31,
    ensures
        forall|v: u32|
            #[trigger] bit(!((1u32 << d) << 1u32 | (1u32 << d) | (1u32 << d) >> 1u32), v) <==> (v
                < 32 && v + 1 != d && v != d && v != d + 1),
{
}

/// A mask with no bits at positions `n` and above lies below `1 << n`.
pub proof fn lemma_bound_from_bits(m: u32, n: u32)
    requires
        n < 32,
        forall|v: u32| n <= v < 32 ==> !(#[trigger] bit(m, v)),
    ensures
        m < (1u32 << n),
{
    let low = ((1u32 << n) - 1) as u32;
    lemma_bit_low_mask(n);
    lemma_bit_and(m, low);
    assert forall|v: u32| v < 32 implies (#[trigger] bit(m & low, v) <==> bit(m, v)) by {
        if v >= n {
            assert(!bit(m, v));
        }
    }
    lemma_bits_equal(m & low, m);
    assert(m < (1u32 << n)) by (bit_vector)
        requires
            m & (((1u32 << n) - 1) as u32) == m && n < 32,
    ;
}

/// A nonzero mask holds at least one candidate.
pub proof fn lemma_nonzero_has_bit(m: u32)
    requires
        m != 0,
    ensures
        exists|v: u32| #[trigger] bit(m, v),
    decreases m,
{
    if m & 1u32 == 1u32 {
        assert(bit(m, 0)) by (bit_vector)
            requires
                m & 1u32 == 1u32,
        ;
    } else {
        assert(m >> 1u32 != 0 && m >> 1u32 < m) by (bit_vector)
            requires
                m != 0 && m & 1u32 != 1u32,
        ;
        lemma_nonzero_has_bit(m >> 1u32);
        let v = choose|v: u32| bit(m >> 1u32, v);
        lemma_bit_shr1(m);
        assert(bit(m, (v + 1) as u32));
    }
}

/// Masks with the same candidates are the same mask.
pub proof fn lemma_bits_equal(a: u32, b: u32)
    requires
        forall|v: u32| v < 32 ==> (#[trigger] bit(a, v) <==> bit(b, v)),
    ensures
        a == b,
{
    if a != b {
        assert(a ^ b != 0) by (bit_vector)
            requires
                a != b,
        ;
        lemma_nonzero_has_bit(a ^ b);
        let v = choose|v: u32| bit(a ^ b, v);
        assert(v < 32);
        assert(!(bit(a, v) <==> bit(b, v))) by (bit_vector)
            requires
                bit(a ^ b, v),
        ;
    }
}

} // verus!
