//! Facts about bytes and words that the arithmetic and kernel proofs share.
use vstd::prelude::*;

verus! {

/// Rounding a length down to whole 16-byte registers.
pub proof fn lemma_round_down(n: usize)
    ensures
        n & !15usize <= n,
        (n & !15usize) % 16 == 0,
{
    assert(n & !15usize <= n && (n & !15usize) % 16 == 0) by (bit_vector);
}

/// XOR is commutative and associative, with zero as its identity.
pub proof fn lemma_xor(x: u8, y: u8, z: u8)
    ensures
        x ^ y == y ^ x,
        x ^ y ^ z == y ^ x ^ z,
        x ^ y ^ z == x ^ (y ^ z),
        x ^ 0 == x,
        0 ^ x == x,
        x ^ y ^ y == x,
{
    assert(x ^ y == y ^ x && x ^ y ^ z == y ^ x ^ z && x ^ y ^ z == x ^ (y ^ z) && x ^ 0 == x && 0
        ^ x == x && x ^ y ^ y == x) by (bit_vector);
}

/// Selecting by an all-ones or all-zeros byte mask, in the two forms the
/// kernels use: AND/ANDNOT/XOR and bitwise select.
pub proof fn lemma_select(a: u8, b: u8, m: u8)
    ensures
        m == 0xff ==> (a & m) ^ (!m & b) == a && (a & m) | (b & !m) == a,
        m == 0 ==> (a & m) ^ (!m & b) == b && (a & m) | (b & !m) == b,
{
    assert((m == 0xff ==> (a & m) ^ (!m & b) == a && (a & m) | (b & !m) == a) && (m == 0 ==> (a
        & m) ^ (!m & b) == b && (a & m) | (b & !m) == b)) by (bit_vector);
}

/// A byte is its low nibble plus its high nibble shifted back into place;
/// both nibbles are table indices.
pub proof fn lemma_nibbles(x: u8)
    ensures
        x == (x & 0x0f) ^ ((x >> 4u8) << 4u8),
        (x & 0x0f) < 16,
        (x >> 4u8) < 16,
{
    assert(x == (x & 0x0f) ^ ((x >> 4u8) << 4u8) && (x & 0x0f) < 16 && (x >> 4u8) < 16)
        by (bit_vector);
}

/// A control byte below 16 selects by its own value in a byte shuffle.
pub proof fn lemma_small_index(k: u8)
    requires
        k < 16,
    ensures
        k & 0x80 == 0,
        k & 0x0f == k,
{
    assert(k & 0x80 == 0 && k & 0x0f == k) by (bit_vector)
        requires
            k < 16,
    ;
}

} // verus!
