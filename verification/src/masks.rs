use vstd::prelude::*;

verus! {

/// Bit `j` of the byte `m` is set.
pub open spec fn bit_set(m: u8, j: u8) -> bool {
    (m >> j) & 1u8 == 1u8
}

/// The byte whose bit `j` is `bj`, for `j` in `0..8`.
#[verifier::opaque]
pub open spec fn mask_from(
    b0: bool,
    b1: bool,
    b2: bool,
    b3: bool,
    b4: bool,
    b5: bool,
    b6: bool,
    b7: bool,
) -> u8 {
    (if b0 {
        1u8
    } else {
        0u8
    }) | (if b1 {
        2u8
    } else {
        0u8
    }) | (if b2 {
        4u8
    } else {
        0u8
    }) | (if b3 {
        8u8
    } else {
        0u8
    }) | (if b4 {
        16u8
    } else {
        0u8
    }) | (if b5 {
        32u8
    } else {
        0u8
    }) | (if b6 {
        64u8
    } else {
        0u8
    }) | (if b7 {
        128u8
    } else {
        0u8
    })
}

/// Setting bit `s` of `a` sets exactly that bit.
pub proof fn lemma_or_bit(a: u8, s: u8, j: u8)
    requires
        s < 8,
        j < 8,
    ensures
        bit_set(a | (1u8 << s), j) == (bit_set(a, j) || j == s),
{
    assert(bit_set(a | (1u8 << s), j) == (bit_set(a, j) || j == s)) by (bit_vector)
        requires
            s < 8,
            j < 8,
    ;
}

/// Or-ing in zero changes no bit, and zero has no bit set.
pub proof fn lemma_or_zero(a: u8, j: u8)
    requires
        j < 8,
    ensures
        bit_set(a | 0u8, j) == bit_set(a, j),
        !bit_set(0u8, j),
{
    assert(bit_set(a | 0u8, j) == bit_set(a, j)) by (bit_vector);
    assert(!bit_set(0u8, j)) by (bit_vector)
        requires
            j < 8,
    ;
}

/// Two bytes with the same eight bits are equal.
pub proof fn lemma_bits_determine(m1: u8, m2: u8)
    requires
        forall|j: u8| j < 8 ==> bit_set(m1, j) == bit_set(m2, j),
    ensures
        m1 == m2,
{
    assert(bit_set(m1, 0) == bit_set(m2, 0));
    assert(bit_set(m1, 1) == bit_set(m2, 1));
    assert(bit_set(m1, 2) == bit_set(m2, 2));
    assert(bit_set(m1, 3) == bit_set(m2, 3));
    assert(bit_set(m1, 4) == bit_set(m2, 4));
    assert(bit_set(m1, 5) == bit_set(m2, 5));
    assert(bit_set(m1, 6) == bit_set(m2, 6));
    assert(bit_set(m1, 7) == bit_set(m2, 7));
    assert(m1 == m2) by (bit_vector)
        requires
            bit_set(m1, 0) == bit_set(m2, 0),
            bit_set(m1, 1) == bit_set(m2, 1),
            bit_set(m1, 2) == bit_set(m2, 2),
            bit_set(m1, 3) == bit_set(m2, 3),
            bit_set(m1, 4) == bit_set(m2, 4),
            bit_set(m1, 5) == bit_set(m2, 5),
            bit_set(m1, 6) == bit_set(m2, 6),
            bit_set(m1, 7) == bit_set(m2, 7),
    ;
}

/// The bits of `mask_from(b0, .., b7)` are `b0, .., b7`.
pub proof fn lemma_mask_from_bits(
    b0: bool,
    b1: bool,
    b2: bool,
    b3: bool,
    b4: bool,
    b5: bool,
    b6: bool,
    b7: bool,
)
    ensures
        bit_set(mask_from(b0, b1, b2, b3, b4, b5, b6, b7), 0) == b0,
        bit_set(mask_from(b0, b1, b2, b3, b4, b5, b6, b7), 1) == b1,
        bit_set(mask_from(b0, b1, b2, b3, b4, b5, b6, b7), 2) == b2,
        bit_set(mask_from(b0, b1, b2, b3, b4, b5, b6, b7), 3) == b3,
        bit_set(mask_from(b0, b1, b2, b3, b4, b5, b6, b7), 4) == b4,
        bit_set(mask_from(b0, b1, b2, b3, b4, b5, b6, b7), 5) == b5,
        bit_set(mask_from(b0, b1, b2, b3, b4, b5, b6, b7), 6) == b6,
        bit_set(mask_from(b0, b1, b2, b3, b4, b5, b6, b7), 7) == b7,
{
    reveal(mask_from);
    assert(bit_set(mask_from(b0, b1, b2, b3, b4, b5, b6, b7), 0) == b0) by (bit_vector);
    assert(bit_set(mask_from(b0, b1, b2, b3, b4, b5, b6, b7), 1) == b1) by (bit_vector);
    assert(bit_set(mask_from(b0, b1, b2, b3, b4, b5, b6, b7), 2) == b2) by (bit_vector);
    assert(bit_set(mask_from(b0, b1, b2, b3, b4, b5, b6, b7), 3) == b3) by (bit_vector);
    assert(bit_set(mask_from(b0, b1, b2, b3, b4, b5, b6, b7), 4) == b4) by (bit_vector);
    assert(bit_set(mask_from(b0, b1, b2, b3, b4, b5, b6, b7), 5) == b5) by (bit_vector);
    assert(bit_set(mask_from(b0, b1, b2, b3, b4, b5, b6, b7), 6) == b6) by (bit_vector);
    assert(bit_set(mask_from(b0, b1, b2, b3, b4, b5, b6, b7), 7) == b7) by (bit_vector);
}

/// `m` rotated left by one bit, as `u8::rotate_left(m, 1)` computes it.
#[verifier::opaque]
pub open spec fn rotl1(m: u8) -> u8 {
    ((m << 1u8) | (m >> 7u8)) as u8
}

/// Rotating left by one moves bit `s` to bit `(s + 1) % 8`, and two bytes
/// that share a set bit have a non-zero intersection.
pub proof fn lemma_rotl1_shared_bit(a: u8, b: u8, s: u8, t: u8)
    requires
        s < 8,
        t == (s + 1) % 8,
        bit_set(a, s),
        bit_set(b, t),
    ensures
        rotl1(a) & b != 0,
{
    reveal(rotl1);
    assert(rotl1(a) & b != 0) by (bit_vector)
        requires
            s < 8,
            t == (s + 1) % 8,
            bit_set(a, s),
            bit_set(b, t),
    ;
}

} // verus!
