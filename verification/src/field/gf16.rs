//! GF(2^16) as a quadratic tower over GF(2^8).
//!
//! An element is `a + b·u` with `a, b` in GF(2^8) and `u² = u + DELTA`. Its
//! 16-bit representation holds `a` in the low byte and `b` in the high byte,
//! so the stable little-endian encoding is the byte pair `[a, b]`.
use vstd::prelude::*;
use crate::field::Field;
use crate::field::gf8::{
    gf8_mul,
    lemma_mul_associative,
    lemma_mul_commutative,
    lemma_mul_distributes_left,
    lemma_mul_distributes_right,
    lemma_mul_identity,
    mul_byte,
};

verus! {

/// The constant term of the tower's defining polynomial `u² + u + DELTA`.
pub const DELTA: u8 = 0x20;

/// The GF(2^8) component `a` of `a + b·u`.
pub open spec fn lo(v: u16) -> u8 {
    (v & 0xff) as u8
}

/// The GF(2^8) component `b` of `a + b·u`.
pub open spec fn hi(v: u16) -> u8 {
    (v >> 8u16) as u8
}

/// The element `a + b·u`.
pub open spec fn from_parts(a: u8, b: u8) -> u16 {
    (a as u16) | ((b as u16) << 8u16)
}

/// `(a + b·u)(c + d·u) = (ac + δ·bd) + (ad + bc + bd)·u`.
pub open spec fn gf16_mul(x: u16, y: u16) -> u16 {
    let a = lo(x);
    let b = hi(x);
    let c = lo(y);
    let d = hi(y);
    from_parts(
        gf8_mul(a, c) ^ gf8_mul(DELTA, gf8_mul(b, d)),
        gf8_mul(a, d) ^ gf8_mul(b, c) ^ gf8_mul(b, d),
    )
}

/// Low component of `(c0 + c1·u)·(a + b·u)`, grouped as the kernels compute
/// it: one product by `c0` and one by `δ·c1`.
pub open spec fn tower_even(c0: u8, c1: u8, a: u8, b: u8) -> u8 {
    gf8_mul(c0, a) ^ gf8_mul(gf8_mul(DELTA, c1), b)
}

/// High component of `(c0 + c1·u)·(a + b·u)`, grouped as the kernels compute
/// it: one product by `c1` and one by `c0 + c1`.
pub open spec fn tower_odd(c0: u8, c1: u8, a: u8, b: u8) -> u8 {
    gf8_mul(c1, a) ^ gf8_mul(c0 ^ c1, b)
}

/// The components of an element determine it, and vice versa.
pub proof fn lemma_parts(v: u16, a: u8, b: u8)
    ensures
        lo(from_parts(a, b)) == a,
        hi(from_parts(a, b)) == b,
        from_parts(lo(v), hi(v)) == v,
{
    assert(lo(from_parts(a, b)) == a && hi(from_parts(a, b)) == b && from_parts(lo(v), hi(v))
        == v) by (bit_vector);
}

/// The components of a sum are the sums of the components.
pub proof fn lemma_xor_parts(p: u16, q: u16)
    ensures
        lo(p ^ q) == lo(p) ^ lo(q),
        hi(p ^ q) == hi(p) ^ hi(q),
{
    assert(lo(p ^ q) == lo(p) ^ lo(q) && hi(p ^ q) == hi(p) ^ hi(q)) by (bit_vector);
}

/// `u² + u + DELTA` has no root in GF(2^8), so the tower is a field.
pub proof fn lemma_tower_irreducible(t: u8)
    ensures
        gf8_mul(t, t) ^ t != DELTA,
{
    assert(gf8_mul(t, t) ^ t != 0x20u8) by (bit_vector);
}

/// The product regrouped into the two coefficient-times-source products per
/// component that every kernel evaluates.
pub proof fn lemma_tower_form(x: u16, y: u16)
    ensures
        lo(gf16_mul(x, y)) == tower_even(lo(y), hi(y), lo(x), hi(x)),
        hi(gf16_mul(x, y)) == tower_odd(lo(y), hi(y), lo(x), hi(x)),
{
    let a = lo(x);
    let b = hi(x);
    let c = lo(y);
    let d = hi(y);
    lemma_mul_commutative(a, c);
    lemma_mul_commutative(b, d);
    lemma_mul_associative(DELTA, d, b);
    lemma_mul_commutative(a, d);
    lemma_mul_distributes_right(b, c, d);
    lemma_mul_commutative(b, c ^ d);
    let ad = gf8_mul(a, d);
    let bc = gf8_mul(b, c);
    let bd = gf8_mul(b, d);
    crate::bits::lemma_xor(ad, bc, bd);
    lemma_parts(
        0,
        gf8_mul(a, c) ^ gf8_mul(DELTA, gf8_mul(b, d)),
        gf8_mul(a, d) ^ gf8_mul(b, c) ^ gf8_mul(b, d),
    );
}

/// Multiplication in GF(2^16) is commutative.
pub proof fn lemma_mul_commutative16(x: u16, y: u16)
    ensures
        gf16_mul(x, y) == gf16_mul(y, x),
{
    let a = lo(x);
    let b = hi(x);
    let c = lo(y);
    let d = hi(y);
    lemma_mul_commutative(a, c);
    lemma_mul_commutative(b, d);
    lemma_mul_commutative(a, d);
    lemma_mul_commutative(b, c);
    let ad = gf8_mul(a, d);
    let bc = gf8_mul(b, c);
    let bd = gf8_mul(b, d);
    crate::bits::lemma_xor(ad, bc, bd);
}

/// One is the multiplicative identity of GF(2^16), and zero annihilates.
pub proof fn lemma_mul_identity16(x: u16)
    ensures
        gf16_mul(x, 1) == x,
        gf16_mul(x, 0) == 0,
{
    let a = lo(x);
    let b = hi(x);
    assert(lo(1u16) == 1u8 && hi(1u16) == 0u8 && lo(0u16) == 0u8 && hi(0u16) == 0u8 && from_parts(
        0,
        0,
    ) == 0) by (bit_vector);
    lemma_mul_identity(a);
    lemma_mul_identity(b);
    lemma_mul_identity(DELTA);
    crate::bits::lemma_xor(a, 0, 0);
    crate::bits::lemma_xor(0, b, 0);
    crate::bits::lemma_xor(0, 0, 0);
    crate::bits::lemma_xor(b, 0, 0);
    lemma_parts(x, 0, 0);
}

/// Multiplication distributes over addition (XOR) in GF(2^16).
pub proof fn lemma_mul_distributes16(x: u16, y: u16, z: u16)
    ensures
        gf16_mul(x ^ y, z) == gf16_mul(x, z) ^ gf16_mul(y, z),
{
    let (a, b, a2, b2, c, d) = (lo(x), hi(x), lo(y), hi(y), lo(z), hi(z));
    assert(lo(x ^ y) == a ^ a2 && hi(x ^ y) == b ^ b2) by (bit_vector)
        requires
            a == lo(x),
            b == hi(x),
            a2 == lo(y),
            b2 == hi(y),
    ;
    lemma_mul_commutative(a ^ a2, c);
    lemma_mul_commutative(a, c);
    lemma_mul_commutative(a2, c);
    lemma_mul_distributes_right(c, a, a2);
    lemma_mul_commutative(a ^ a2, d);
    lemma_mul_commutative(a, d);
    lemma_mul_commutative(a2, d);
    lemma_mul_distributes_right(d, a, a2);
    lemma_mul_commutative(b ^ b2, c);
    lemma_mul_commutative(b, c);
    lemma_mul_commutative(b2, c);
    lemma_mul_distributes_right(c, b, b2);
    lemma_mul_commutative(b ^ b2, d);
    lemma_mul_commutative(b, d);
    lemma_mul_commutative(b2, d);
    lemma_mul_distributes_right(d, b, b2);
    let (bd, b2d) = (gf8_mul(b, d), gf8_mul(b2, d));
    lemma_mul_distributes_right(DELTA, bd, b2d);
    let (ac, a2c, ad, a2d, bc, b2c, dbd, db2d) = (
        gf8_mul(a, c),
        gf8_mul(a2, c),
        gf8_mul(a, d),
        gf8_mul(a2, d),
        gf8_mul(b, c),
        gf8_mul(b2, c),
        gf8_mul(DELTA, bd),
        gf8_mul(DELTA, b2d),
    );
    let lo1 = ac ^ dbd;
    let hi1 = ad ^ bc ^ bd;
    let lo2 = a2c ^ db2d;
    let hi2 = a2d ^ b2c ^ b2d;
    assert(from_parts((ac ^ a2c) ^ (dbd ^ db2d), (ad ^ a2d) ^ (bc ^ b2c) ^ (bd ^ b2d))
        == from_parts(lo1, hi1) ^ from_parts(lo2, hi2)) by (bit_vector)
        requires
            lo1 == ac ^ dbd,
            hi1 == ad ^ bc ^ bd,
            lo2 == a2c ^ db2d,
            hi2 == a2d ^ b2c ^ b2d,
    ;
}

/// Element `k` of a packed buffer: bytes `2k` and `2k + 1`, little-endian.
pub open spec fn elem_at(s: Seq<u8>, k: int) -> u16 {
    from_parts(s[2 * k], s[2 * k + 1])
}

/// Byte `i` of `src * c`, elementwise over the packed buffer `src`.
pub open spec fn product16(c: u16, src: Seq<u8>, i: int) -> u8 {
    let p = gf16_mul(elem_at(src, i / 2), c);
    if i % 2 == 0 {
        lo(p)
    } else {
        hi(p)
    }
}

/// Byte `i` of the elementwise product of the packed buffers `a` and `b`.
pub open spec fn pointwise16(a: Seq<u8>, b: Seq<u8>, i: int) -> u8 {
    let p = gf16_mul(elem_at(a, i / 2), elem_at(b, i / 2));
    if i % 2 == 0 {
        lo(p)
    } else {
        hi(p)
    }
}

/// A factor can move across `δ`: `a·(δ·x) = δ·(a·x)`.
proof fn lemma_delta_moves(a: u8, x: u8)
    ensures
        gf8_mul(a, gf8_mul(DELTA, x)) == gf8_mul(DELTA, gf8_mul(a, x)),
{
    lemma_mul_associative(a, DELTA, x);
    lemma_mul_commutative(a, DELTA);
    lemma_mul_associative(DELTA, a, x);
}

/// A three-term sum times `e`, term by term.
proof fn lemma_sum3_times(p: u8, q: u8, r: u8, e: u8)
    ensures
        gf8_mul(p ^ q ^ r, e) == gf8_mul(p, e) ^ gf8_mul(q, e) ^ gf8_mul(r, e),
{
    lemma_mul_distributes_left(p ^ q, r, e);
    lemma_mul_distributes_left(p, q, e);
}

/// `u` times a three-term sum, term by term.
proof fn lemma_times_sum3(u: u8, p: u8, q: u8, r: u8)
    ensures
        gf8_mul(u, p ^ q ^ r) == gf8_mul(u, p) ^ gf8_mul(u, q) ^ gf8_mul(u, r),
{
    lemma_mul_distributes_right(u, p ^ q, r);
    lemma_mul_distributes_right(u, p, q);
}

/// Low component of `(x·y)·(e + f·u)` expanded into triple products, where
/// `x·y = p0 + p1·u` with `p0 = ac + δ·bd` and `p1 = ad + bc + bd`.
proof fn lemma_expand_left(a: u8, b: u8, c: u8, d: u8, e: u8)
    ensures
        gf8_mul(gf8_mul(a, c) ^ gf8_mul(DELTA, gf8_mul(b, d)), e) == gf8_mul(a, gf8_mul(c, e))
            ^ gf8_mul(DELTA, gf8_mul(b, gf8_mul(d, e))),
        gf8_mul(gf8_mul(a, d) ^ gf8_mul(b, c) ^ gf8_mul(b, d), e) == gf8_mul(a, gf8_mul(d, e))
            ^ gf8_mul(b, gf8_mul(c, e)) ^ gf8_mul(b, gf8_mul(d, e)),
{
    lemma_mul_distributes_left(gf8_mul(a, c), gf8_mul(DELTA, gf8_mul(b, d)), e);
    lemma_mul_associative(a, c, e);
    lemma_mul_associative(DELTA, gf8_mul(b, d), e);
    lemma_mul_associative(b, d, e);
    lemma_sum3_times(gf8_mul(a, d), gf8_mul(b, c), gf8_mul(b, d), e);
    lemma_mul_associative(a, d, e);
    lemma_mul_associative(b, c, e);
}

/// `a·q0` and `a·q1` expanded into triple products, where
/// `y·z = q0 + q1·u` with `q0 = ce + δ·df` and `q1 = cf + de + df`.
proof fn lemma_expand_right(a: u8, c: u8, d: u8, e: u8, f: u8)
    ensures
        gf8_mul(a, gf8_mul(c, e) ^ gf8_mul(DELTA, gf8_mul(d, f))) == gf8_mul(a, gf8_mul(c, e))
            ^ gf8_mul(DELTA, gf8_mul(a, gf8_mul(d, f))),
        gf8_mul(a, gf8_mul(c, f) ^ gf8_mul(d, e) ^ gf8_mul(d, f)) == gf8_mul(a, gf8_mul(c, f))
            ^ gf8_mul(a, gf8_mul(d, e)) ^ gf8_mul(a, gf8_mul(d, f)),
{
    lemma_mul_distributes_right(a, gf8_mul(c, e), gf8_mul(DELTA, gf8_mul(d, f)));
    lemma_delta_moves(a, gf8_mul(d, f));
    lemma_times_sum3(a, gf8_mul(c, f), gf8_mul(d, e), gf8_mul(d, f));
}

/// Multiplication in GF(2^16) is associative.
pub proof fn lemma_mul_associative16(x: u16, y: u16, z: u16)
    ensures
        gf16_mul(gf16_mul(x, y), z) == gf16_mul(x, gf16_mul(y, z)),
{
    let (a, b, c, d, e, f) = (lo(x), hi(x), lo(y), hi(y), lo(z), hi(z));
    let p0 = gf8_mul(a, c) ^ gf8_mul(DELTA, gf8_mul(b, d));
    let p1 = gf8_mul(a, d) ^ gf8_mul(b, c) ^ gf8_mul(b, d);
    let q0 = gf8_mul(c, e) ^ gf8_mul(DELTA, gf8_mul(d, f));
    let q1 = gf8_mul(c, f) ^ gf8_mul(d, e) ^ gf8_mul(d, f);
    lemma_parts(0, p0, p1);
    lemma_parts(0, q0, q1);
    // Left-hand side: (p0 + p1·u)(e + f·u).
    lemma_expand_left(a, b, c, d, e);
    lemma_expand_left(a, b, c, d, f);
    let (a_ce, a_cf, a_de, a_df) = (
        gf8_mul(a, gf8_mul(c, e)),
        gf8_mul(a, gf8_mul(c, f)),
        gf8_mul(a, gf8_mul(d, e)),
        gf8_mul(a, gf8_mul(d, f)),
    );
    let (b_ce, b_cf, b_de, b_df) = (
        gf8_mul(b, gf8_mul(c, e)),
        gf8_mul(b, gf8_mul(c, f)),
        gf8_mul(b, gf8_mul(d, e)),
        gf8_mul(b, gf8_mul(d, f)),
    );
    lemma_times_sum3(DELTA, a_df, b_cf, b_df);
    // Right-hand side: (a + b·u)(q0 + q1·u).
    lemma_expand_right(a, c, d, e, f);
    lemma_expand_right(b, c, d, e, f);
    lemma_times_sum3(DELTA, b_cf, b_de, b_df);
    let (d_b_de, d_a_df, d_b_cf, d_b_df) = (
        gf8_mul(DELTA, b_de),
        gf8_mul(DELTA, a_df),
        gf8_mul(DELTA, b_cf),
        gf8_mul(DELTA, b_df),
    );
    assert(a_ce ^ d_b_de ^ (d_a_df ^ d_b_cf ^ d_b_df) == a_ce ^ d_a_df ^ (d_b_cf ^ d_b_de ^ d_b_df)
        && a_cf ^ d_b_df ^ (a_de ^ b_ce ^ b_de) ^ (a_df ^ b_cf ^ b_df) == a_cf ^ a_de ^ a_df ^ (b_ce
        ^ d_b_df) ^ (b_cf ^ b_de ^ b_df)) by (bit_vector);
}

/// An element of GF(2^16), `a + b·u` held as `a | b << 8`.
#[derive(Clone, Copy, Debug, PartialEq, Eq, Hash, Structural)]
pub struct Elem(pub u16);

impl Elem {
    /// The element whose little-endian encoding is `bytes`.
    pub fn from_bytes(bytes: [u8; 2]) -> (e: Elem)
        ensures
            e.0 == from_parts(bytes[0], bytes[1]),
    {
        Elem((bytes[0] as u16) | ((bytes[1] as u16) << 8u16))
    }

    /// The little-endian encoding `[a, b]` of `a + b·u`.
    pub fn to_bytes(self) -> (bytes: [u8; 2])
        ensures
            bytes[0] == lo(self.0),
            bytes[1] == hi(self.0),
    {
        [(self.0 & 0xff) as u8, (self.0 >> 8u16) as u8]
    }

    /// Field addition: XOR.
    pub fn add(self, rhs: Elem) -> (sum: Elem)
        ensures
            sum.0 == self.0 ^ rhs.0,
    {
        Elem(self.0 ^ rhs.0)
    }

    /// Field multiplication.
    pub fn mul(self, rhs: Elem) -> (product: Elem)
        ensures
            product.0 == gf16_mul(self.0, rhs.0),
    {
        let a = (self.0 & 0xff) as u8;
        let b = (self.0 >> 8u16) as u8;
        let c = (rhs.0 & 0xff) as u8;
        let d = (rhs.0 >> 8u16) as u8;
        let bd = mul_byte(b, d);
        let low = mul_byte(a, c) ^ mul_byte(DELTA, bd);
        let high = mul_byte(a, d) ^ mul_byte(b, c) ^ bd;
        Elem((low as u16) | ((high as u16) << 8u16))
    }
}

/// GF(2^16): two bytes per element.
pub struct Gf16;

impl Field for Gf16 {
    type Elem = Elem;

    open spec fn elem_bytes() -> nat {
        2
    }

    open spec fn product_byte(coeff: Elem, src: Seq<u8>, i: int) -> u8 {
        product16(coeff.0, src, i)
    }

    open spec fn pointwise_byte(a: Seq<u8>, b: Seq<u8>, i: int) -> u8 {
        pointwise16(a, b, i)
    }

    open spec fn zero() -> Elem {
        Elem(0)
    }

    proof fn lemma_zero_product(src: Seq<u8>, i: int) {
        lemma_mul_identity16(elem_at(src, i / 2));
        assert(lo(0u16) == 0u8 && hi(0u16) == 0u8) by (bit_vector);
    }

    proof fn lemma_register_width() {
    }

    proof fn lemma_product_window(coeff: Elem, s: Seq<u8>, w: Seq<u8>, pos: int, i: int) {
        let k = i / 2;
        assert((pos + i) / 2 == pos / 2 + k);
        assert(w[2 * k] == s[pos + 2 * k]);
        assert(w[2 * k + 1] == s[pos + 2 * k + 1]);
        assert(elem_at(w, k) == elem_at(s, (pos + i) / 2));
    }
}

} // verus!
