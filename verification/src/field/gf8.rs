//! GF(2^8) under the AES polynomial `x^8 + x^4 + x^3 + x + 1` (0x11B).
//!
//! The field product is stated the way FIPS-197 defines it: `a * b` is the XOR
//! of `x^i * a` over the set bits `i` of `b`, where multiplication by `x` is a
//! left shift reduced by 0x1B whenever the top bit falls out.
use vstd::prelude::*;
use crate::field::Field;

verus! {

/// Multiplication by `x`, reduced modulo 0x11B.
pub open spec fn xtime(a: u8) -> u8 {
    if a & 0x80u8 == 0 {
        a << 1u8
    } else {
        (a << 1u8) ^ 0x1bu8
    }
}

/// `shifted` when `b` has the bit `mask` set, zero otherwise.
pub open spec fn term(b: u8, mask: u8, shifted: u8) -> u8 {
    if b & mask != 0 {
        shifted
    } else {
        0
    }
}

/// The field product in GF(2^8).
pub open spec fn gf8_mul(a: u8, b: u8) -> u8 {
    let a1 = xtime(a);
    let a2 = xtime(a1);
    let a3 = xtime(a2);
    let a4 = xtime(a3);
    let a5 = xtime(a4);
    let a6 = xtime(a5);
    let a7 = xtime(a6);
    term(b, 1, a) ^ term(b, 2, a1) ^ term(b, 4, a2) ^ term(b, 8, a3) ^ term(b, 16, a4) ^ term(
        b,
        32,
        a5,
    ) ^ term(b, 64, a6) ^ term(b, 128, a7)
}

/// Multiplication in GF(2^8) is commutative.
#[verifier::rlimit(100)]
pub proof fn lemma_mul_commutative(a: u8, b: u8)
    ensures
        gf8_mul(a, b) == gf8_mul(b, a),
{
    assert(gf8_mul(a, b) == gf8_mul(b, a)) by (bit_vector);
}

/// Multiplication distributes over addition (XOR) in its right operand.
pub proof fn lemma_mul_distributes_right(a: u8, x: u8, y: u8)
    ensures
        gf8_mul(a, x ^ y) == gf8_mul(a, x) ^ gf8_mul(a, y),
{
    assert(gf8_mul(a, x ^ y) == gf8_mul(a, x) ^ gf8_mul(a, y)) by (bit_vector);
}

/// Multiplication distributes over addition (XOR) in its left operand.
pub proof fn lemma_mul_distributes_left(x: u8, y: u8, b: u8)
    ensures
        gf8_mul(x ^ y, b) == gf8_mul(x, b) ^ gf8_mul(y, b),
{
    lemma_mul_commutative(x ^ y, b);
    lemma_mul_commutative(x, b);
    lemma_mul_commutative(y, b);
    lemma_mul_distributes_right(b, x, y);
}

/// Scaling a factor by `x` scales the product by `x`.
pub proof fn lemma_mul_xtime(a: u8, b: u8)
    ensures
        gf8_mul(xtime(a), b) == xtime(gf8_mul(a, b)),
{
    let a1 = xtime(a);
    let a2 = xtime(a1);
    let a3 = xtime(a2);
    let a4 = xtime(a3);
    let a5 = xtime(a4);
    let a6 = xtime(a5);
    let a7 = xtime(a6);
    let a8 = xtime(a7);
    lemma_xtime_of_sum(b, a, a1, a2, a3, a4, a5, a6, a7);
}

/// Multiplication by `x` passes through a masked sum term by term.
proof fn lemma_xtime_of_sum(b: u8, y0: u8, y1: u8, y2: u8, y3: u8, y4: u8, y5: u8, y6: u8, y7: u8)
    ensures
        xtime(
            term(b, 1, y0) ^ term(b, 2, y1) ^ term(b, 4, y2) ^ term(b, 8, y3) ^ term(b, 16, y4)
                ^ term(b, 32, y5) ^ term(b, 64, y6) ^ term(b, 128, y7),
        ) == term(b, 1, xtime(y0)) ^ term(b, 2, xtime(y1)) ^ term(b, 4, xtime(y2)) ^ term(
            b,
            8,
            xtime(y3),
        ) ^ term(b, 16, xtime(y4)) ^ term(b, 32, xtime(y5)) ^ term(b, 64, xtime(y6)) ^ term(
            b,
            128,
            xtime(y7),
        ),
{
    assert(xtime(
        term(b, 1, y0) ^ term(b, 2, y1) ^ term(b, 4, y2) ^ term(b, 8, y3) ^ term(b, 16, y4) ^ term(
            b,
            32,
            y5,
        ) ^ term(b, 64, y6) ^ term(b, 128, y7),
    ) == term(b, 1, xtime(y0)) ^ term(b, 2, xtime(y1)) ^ term(b, 4, xtime(y2)) ^ term(
        b,
        8,
        xtime(y3),
    ) ^ term(b, 16, xtime(y4)) ^ term(b, 32, xtime(y5)) ^ term(b, 64, xtime(y6)) ^ term(
        b,
        128,
        xtime(y7),
    )) by (bit_vector);
}

/// Multiplying a masked term is masking the product.
proof fn lemma_mul_term(c: u8, mask: u8, y: u8, b: u8)
    ensures
        gf8_mul(term(c, mask, y), b) == term(c, mask, gf8_mul(y, b)),
{
    lemma_mul_identity(b);
}

/// Multiplication distributes over an eight-term masked sum in its left operand.
proof fn lemma_mul_sum_left(
    c: u8,
    b: u8,
    y0: u8,
    y1: u8,
    y2: u8,
    y3: u8,
    y4: u8,
    y5: u8,
    y6: u8,
    y7: u8,
)
    ensures
        gf8_mul(
            term(c, 1, y0) ^ term(c, 2, y1) ^ term(c, 4, y2) ^ term(c, 8, y3) ^ term(c, 16, y4)
                ^ term(c, 32, y5) ^ term(c, 64, y6) ^ term(c, 128, y7),
            b,
        ) == term(c, 1, gf8_mul(y0, b)) ^ term(c, 2, gf8_mul(y1, b)) ^ term(c, 4, gf8_mul(y2, b))
            ^ term(c, 8, gf8_mul(y3, b)) ^ term(c, 16, gf8_mul(y4, b)) ^ term(
            c,
            32,
            gf8_mul(y5, b),
        ) ^ term(c, 64, gf8_mul(y6, b)) ^ term(c, 128, gf8_mul(y7, b)),
{
    let t0 = term(c, 1, y0);
    let t1 = term(c, 2, y1);
    let t2 = term(c, 4, y2);
    let t3 = term(c, 8, y3);
    let t4 = term(c, 16, y4);
    let t5 = term(c, 32, y5);
    let t6 = term(c, 64, y6);
    let t7 = term(c, 128, y7);
    lemma_mul_distributes_left(t0, t1, b);
    lemma_mul_distributes_left(t0 ^ t1, t2, b);
    lemma_mul_distributes_left(t0 ^ t1 ^ t2, t3, b);
    lemma_mul_distributes_left(t0 ^ t1 ^ t2 ^ t3, t4, b);
    lemma_mul_distributes_left(t0 ^ t1 ^ t2 ^ t3 ^ t4, t5, b);
    lemma_mul_distributes_left(t0 ^ t1 ^ t2 ^ t3 ^ t4 ^ t5, t6, b);
    lemma_mul_distributes_left(t0 ^ t1 ^ t2 ^ t3 ^ t4 ^ t5 ^ t6, t7, b);
    lemma_mul_term(c, 1, y0, b);
    lemma_mul_term(c, 2, y1, b);
    lemma_mul_term(c, 4, y2, b);
    lemma_mul_term(c, 8, y3, b);
    lemma_mul_term(c, 16, y4, b);
    lemma_mul_term(c, 32, y5, b);
    lemma_mul_term(c, 64, y6, b);
    lemma_mul_term(c, 128, y7, b);
}

/// The right factors of a product can be exchanged: `(a * b) * c == (a * c) * b`.
proof fn lemma_mul_exchange(a: u8, b: u8, c: u8)
    ensures
        gf8_mul(gf8_mul(a, b), c) == gf8_mul(gf8_mul(a, c), b),
{
    let a1 = xtime(a);
    let a2 = xtime(a1);
    let a3 = xtime(a2);
    let a4 = xtime(a3);
    let a5 = xtime(a4);
    let a6 = xtime(a5);
    let a7 = xtime(a6);
    lemma_mul_xtime(a, b);
    lemma_mul_xtime(a1, b);
    lemma_mul_xtime(a2, b);
    lemma_mul_xtime(a3, b);
    lemma_mul_xtime(a4, b);
    lemma_mul_xtime(a5, b);
    lemma_mul_xtime(a6, b);
    lemma_mul_sum_left(c, b, a, a1, a2, a3, a4, a5, a6, a7);
}

/// Multiplication in GF(2^8) is associative.
pub proof fn lemma_mul_associative(a: u8, b: u8, c: u8)
    ensures
        gf8_mul(gf8_mul(a, b), c) == gf8_mul(a, gf8_mul(b, c)),
{
    lemma_mul_commutative(a, gf8_mul(b, c));
    lemma_mul_exchange(b, c, a);
    lemma_mul_commutative(b, a);
}

/// One is the multiplicative identity and zero annihilates.
pub proof fn lemma_mul_identity(a: u8)
    ensures
        gf8_mul(a, 1) == a,
        gf8_mul(1, a) == a,
        gf8_mul(a, 0) == 0,
        gf8_mul(0, a) == 0,
{
    assert(gf8_mul(a, 1) == a && gf8_mul(1, a) == a && gf8_mul(a, 0) == 0 && gf8_mul(0, a) == 0)
        by (bit_vector);
}

/// A byte is its low nibble plus its high nibble, so a product splits the same way.
pub proof fn lemma_nibble_split(c: u8, x: u8)
    ensures
        gf8_mul(c, x) == gf8_mul(c, x & 0x0f) ^ gf8_mul(c, (x >> 4u8) << 4u8),
{
    crate::bits::lemma_nibbles(x);
    lemma_mul_distributes_right(c, x & 0x0f, (x >> 4u8) << 4u8);
}

/// One round of the bit-serial multiply: peel off bit 0 of `b`.
pub proof fn lemma_mul_step(a: u8, b: u8)
    ensures
        gf8_mul(a, b) == term(b, 1, a) ^ gf8_mul(xtime(a), b >> 1u8),
{
    assert(gf8_mul(a, b) == term(b, 1, a) ^ gf8_mul(xtime(a), b >> 1u8)) by (bit_vector);
}

/// The product of two bytes, computed bit-serially: eight rounds of
/// conditional accumulate, multiply by `x`, shift the multiplier.
pub fn mul_byte(a: u8, b: u8) -> (product: u8)
    ensures
        product == gf8_mul(a, b),
{
    let mut x = a;
    let mut y = b;
    let mut product: u8 = 0;
    let mut round: u8 = 0;
    proof {
        let g = gf8_mul(a, b);
        crate::bits::lemma_xor(g, 0, 0);
        assert((b as u16) < (1u16 << 8u16)) by (bit_vector);
    }
    while round < 8
        invariant
            round <= 8,
            product ^ gf8_mul(x, y) == gf8_mul(a, b),
            (y as u16) < (1u16 << ((8 - round) as u16)),
        decreases 8 - round,
    {
        let selected: u8 = if y & 1 == 1 {
            0xff
        } else {
            0
        };
        let high: u8 = if x >> 7u8 == 1 {
            0xff
        } else {
            0
        };
        let next_product = product ^ (x & selected);
        let next_x = (x << 1u8) ^ (0x1b & high);
        let next_y = y >> 1u8;
        proof {
            lemma_mul_step(x, y);
            let g = gf8_mul(x, y);
            let g2 = gf8_mul(next_x, next_y);
            let target = gf8_mul(a, b);
            let r = round;
            let t = term(y, 1, x);
            assert(x & selected == t && next_x == xtime(x) && (next_y as u16) < (1u16 << ((8 - (r
                + 1)) as u16))) by (bit_vector)
                requires
                    t == term(y, 1, x),
                    selected == (if y & 1 == 1 {
                        0xffu8
                    } else {
                        0u8
                    }),
                    high == (if x >> 7u8 == 1 {
                        0xffu8
                    } else {
                        0u8
                    }),
                    next_x == (x << 1u8) ^ (0x1b & high),
                    r < 8,
                    (y as u16) < (1u16 << ((8 - r) as u16)),
                    next_y == y >> 1u8,
            ;
            crate::bits::lemma_xor(product, t, g2);
        }
        product = next_product;
        x = next_x;
        y = next_y;
        round = round + 1;
    }
    proof {
        assert(y == 0) by (bit_vector)
            requires
                (y as u16) < (1u16 << 0u16),
        ;
        lemma_mul_identity(x);
        crate::bits::lemma_xor(product, 0, 0);
    }
    product
}

/// An element of GF(2^8), its byte in the polynomial basis.
#[derive(Clone, Copy, Debug, PartialEq, Eq, Hash, Structural)]
pub struct Elem(pub u8);

impl Elem {
    /// Field addition: XOR.
    pub fn add(self, rhs: Elem) -> (sum: Elem)
        ensures
            sum.0 == self.0 ^ rhs.0,
    {
        Elem(self.0 ^ rhs.0)
    }

    /// Field multiplication.
    pub fn mul(self, rhs: Elem) -> (product: Elem)
        ensures
            product.0 == gf8_mul(self.0, rhs.0),
    {
        Elem(mul_byte(self.0, rhs.0))
    }
}

/// GF(2^8): one byte per element.
pub struct Gf8;

impl Field for Gf8 {
    type Elem = Elem;

    open spec fn elem_bytes() -> nat {
        1
    }

    open spec fn product_byte(coeff: Elem, src: Seq<u8>, i: int) -> u8 {
        gf8_mul(coeff.0, src[i])
    }

    open spec fn pointwise_byte(a: Seq<u8>, b: Seq<u8>, i: int) -> u8 {
        gf8_mul(a[i], b[i])
    }

    open spec fn zero() -> Elem {
        Elem(0)
    }

    proof fn lemma_zero_product(src: Seq<u8>, i: int) {
        lemma_mul_identity(src[i]);
    }

    proof fn lemma_register_width() {
    }

    proof fn lemma_product_window(coeff: Elem, s: Seq<u8>, w: Seq<u8>, pos: int, i: int) {
        assert(w[i] == s[pos + i]);
    }
}

} // verus!
