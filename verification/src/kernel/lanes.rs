//! One 128-bit vector register, modelled as its sixteen bytes, and the lane
//! operations the kernels are built from.
//!
//! Byte shuffles index within the register; a 256-bit register behaves as two
//! of these side by side, each indexing its own half.
use vstd::prelude::*;
use crate::field::gf16::{from_parts, hi, lo, tower_even, tower_odd};
use crate::field::gf8::{gf8_mul, lemma_mul_commutative, mul_byte};
use crate::kernel::tables::{ScaleTable, TowerCoeff, TowerTables, tower_factor};

verus! {

/// The byte `PSHUFB` selects from `table` for control byte `k`: zero when the
/// top bit is set, else the entry named by the low nibble.
pub open spec fn pshufb_byte(table: Seq<u8>, k: u8) -> u8 {
    if k & 0x80 != 0 {
        0
    } else {
        table[(k & 0x0f) as int]
    }
}

/// The byte a WebAssembly swizzle selects from `table` for index `k`: zero
/// when the index is out of range.
pub open spec fn swizzle_byte(table: Seq<u8>, k: u8) -> u8 {
    if k < 16 {
        table[k as int]
    } else {
        0
    }
}

/// Load sixteen bytes of `s` starting at `offset`.
pub fn load(s: &[u8], offset: usize) -> (v: [u8; 16])
    requires
        offset + 16 <= s.len(),
    ensures
        forall|i: int| 0 <= i < 16 ==> v[i] == s@[offset + i],
{
    let mut v = [0u8; 16];
    let mut i: usize = 0;
    while i < 16
        invariant
            i <= 16,
            offset + 16 <= s.len(),
            forall|j: int| 0 <= j < i ==> v[j] == s@[offset + j],
        decreases 16 - i,
    {
        v[i] = s[offset + i];
        i = i + 1;
    }
    v
}

/// Store the sixteen bytes of `v` into `d` starting at `offset`.
pub fn store(d: &mut [u8], offset: usize, v: &[u8; 16])
    requires
        offset + 16 <= old(d).len(),
    ensures
        final(d)@.len() == old(d)@.len(),
        forall|i: int|
            0 <= i < old(d)@.len() ==> final(d)@[i] == if offset <= i < offset + 16 {
                v[i - offset]
            } else {
                old(d)@[i]
            },
{
    let mut i: usize = 0;
    while i < 16
        invariant
            i <= 16,
            offset + 16 <= old(d).len(),
            d@.len() == old(d)@.len(),
            forall|j: int|
                0 <= j < old(d)@.len() ==> d@[j] == if offset <= j < offset + i {
                    v[j - offset]
                } else {
                    old(d)@[j]
                },
        decreases 16 - i,
    {
        d[offset + i] = v[i];
        i = i + 1;
    }
}

/// Every byte of the register set to `b`.
pub fn splat(b: u8) -> (v: [u8; 16])
    ensures
        forall|i: int| 0 <= i < 16 ==> v[i] == b,
{
    [b, b, b, b, b, b, b, b, b, b, b, b, b, b, b, b]
}

/// Bytewise XOR.
pub fn xor(a: &[u8; 16], b: &[u8; 16]) -> (v: [u8; 16])
    ensures
        forall|i: int| 0 <= i < 16 ==> v[i] == a[i] ^ b[i],
{
    let mut v = [0u8; 16];
    let mut i: usize = 0;
    while i < 16
        invariant
            i <= 16,
            forall|j: int| 0 <= j < i ==> v[j] == a[j] ^ b[j],
        decreases 16 - i,
    {
        v[i] = a[i] ^ b[i];
        i = i + 1;
    }
    v
}

/// Bytewise AND.
pub fn and(a: &[u8; 16], b: &[u8; 16]) -> (v: [u8; 16])
    ensures
        forall|i: int| 0 <= i < 16 ==> v[i] == a[i] & b[i],
{
    let mut v = [0u8; 16];
    let mut i: usize = 0;
    while i < 16
        invariant
            i <= 16,
            forall|j: int| 0 <= j < i ==> v[j] == a[j] & b[j],
        decreases 16 - i,
    {
        v[i] = a[i] & b[i];
        i = i + 1;
    }
    v
}

/// Bitwise select: bits of `a` where `mask` is set, bits of `b` elsewhere.
pub fn bitselect(a: &[u8; 16], b: &[u8; 16], mask: &[u8; 16]) -> (v: [u8; 16])
    ensures
        forall|i: int| 0 <= i < 16 ==> v[i] == (a[i] & mask[i]) | (b[i] & !mask[i]),
{
    let mut v = [0u8; 16];
    let mut i: usize = 0;
    while i < 16
        invariant
            i <= 16,
            forall|j: int| 0 <= j < i ==> v[j] == (a[j] & mask[j]) | (b[j] & !mask[j]),
        decreases 16 - i,
    {
        v[i] = (a[i] & mask[i]) | (b[i] & !mask[i]);
        i = i + 1;
    }
    v
}

/// `PSHUFB`: each byte of `control` picks a byte of `table`.
pub fn shuffle(table: &[u8; 16], control: &[u8; 16]) -> (v: [u8; 16])
    ensures
        forall|i: int| 0 <= i < 16 ==> v[i] == pshufb_byte(table@, control[i]),
{
    let mut v = [0u8; 16];
    let mut i: usize = 0;
    while i < 16
        invariant
            i <= 16,
            forall|j: int| 0 <= j < i ==> v[j] == pshufb_byte(table@, control[j]),
        decreases 16 - i,
    {
        let k = control[i];
        proof {
            crate::bits::lemma_nibbles(k);
        }
        v[i] = if k & 0x80 != 0 {
            0
        } else {
            table[(k & 0x0f) as usize]
        };
        i = i + 1;
    }
    v
}

/// WebAssembly `u8x16_swizzle`: each byte of `indices` picks a byte of `table`.
pub fn swizzle(table: &[u8; 16], indices: &[u8; 16]) -> (v: [u8; 16])
    ensures
        forall|i: int| 0 <= i < 16 ==> v[i] == swizzle_byte(table@, indices[i]),
{
    let mut v = [0u8; 16];
    let mut i: usize = 0;
    while i < 16
        invariant
            i <= 16,
            forall|j: int| 0 <= j < i ==> v[j] == swizzle_byte(table@, indices[j]),
        decreases 16 - i,
    {
        let k = indices[i];
        v[i] = if k < 16 {
            table[k as usize]
        } else {
            0
        };
        i = i + 1;
    }
    v
}

/// Halfword `k` of a register, little-endian.
pub open spec fn word(v: Seq<u8>, k: int) -> u16 {
    from_parts(v[2 * k], v[2 * k + 1])
}

/// The other byte of the 16-bit element holding byte `i`.
pub open spec fn partner(i: int) -> int {
    if i % 2 == 0 {
        i + 1
    } else {
        i - 1
    }
}

/// Shift every 16-bit halfword right by four bits.
pub fn srli_epi16_4(v: &[u8; 16]) -> (r: [u8; 16])
    ensures
        forall|i: int|
            0 <= i < 16 ==> r[i] == if i % 2 == 0 {
                lo(word(v@, i / 2) >> 4u16)
            } else {
                hi(word(v@, i / 2) >> 4u16)
            },
{
    let mut r = [0u8; 16];
    let mut k: usize = 0;
    while k < 8
        invariant
            k <= 8,
            forall|i: int|
                0 <= i < 2 * k ==> r[i] == if i % 2 == 0 {
                    lo(word(v@, i / 2) >> 4u16)
                } else {
                    hi(word(v@, i / 2) >> 4u16)
                },
        decreases 8 - k,
    {
        let word = ((v[2 * k] as u16) | ((v[2 * k + 1] as u16) << 8u16)) >> 4u16;
        r[2 * k] = (word & 0xff) as u8;
        r[2 * k + 1] = (word >> 8u16) as u8;
        k = k + 1;
    }
    r
}

/// Split `value` into its low and high nibbles, both as byte indices.
pub fn split_ssse3(value: &[u8; 16]) -> (split: ([u8; 16], [u8; 16]))
    ensures
        forall|i: int| 0 <= i < 16 ==> split.0[i] == value[i] & 0x0f,
        forall|i: int| 0 <= i < 16 ==> split.1[i] == value[i] >> 4u8,
{
    let nibble = splat(0x0f);
    let low = and(value, &nibble);
    let shifted = srli_epi16_4(value);
    let high = and(&shifted, &nibble);
    proof {
        assert forall|i: int| 0 <= i < 16 implies high[i] == value[i] >> 4u8 by {
            let k = i / 2;
            let a = value[2 * k];
            let b = value[2 * k + 1];
            assert(word(value@, k) == from_parts(a, b));
            assert(lo(from_parts(a, b) >> 4u16) & 0x0f == a >> 4u8 && hi(from_parts(a, b) >> 4u16)
                & 0x0f == b >> 4u8) by (bit_vector);
        }
    }
    (low, high)
}

/// One base-field multiply: two table lookups over pre-split nibbles.
pub fn lookup_ssse3(lo: &[u8; 16], hi: &[u8; 16], split: &([u8; 16], [u8; 16])) -> (v: [u8; 16])
    ensures
        forall|i: int|
            0 <= i < 16 ==> v[i] == pshufb_byte(lo@, split.0[i]) ^ pshufb_byte(hi@, split.1[i]),
{
    xor(&shuffle(lo, &split.0), &shuffle(hi, &split.1))
}

/// Nibble lookups of pre-split indices give the product by the tables'
/// coefficient.
proof fn lemma_lookup_is_product(t: &ScaleTable, lo_t: [u8; 16], hi_t: [u8; 16], x: u8, l: u8, h: u8)
    requires
        forall|i: int| 0 <= i < 16 ==> lo_t[i] == gf8_mul(t.coeff_of(), i as u8),
        forall|i: int| 0 <= i < 16 ==> hi_t[i] == gf8_mul(t.coeff_of(), (i as u8) << 4u8),
        l == x & 0x0f,
        h == x >> 4u8,
    ensures
        pshufb_byte(lo_t@, l) ^ pshufb_byte(hi_t@, h) == gf8_mul(t.coeff_of(), x),
        swizzle_byte(lo_t@, l) ^ swizzle_byte(hi_t@, h) == gf8_mul(t.coeff_of(), x),
{
    crate::field::gf8::lemma_nibble_split(t.coeff_of(), x);
    assert(l & 0x80 == 0 && h & 0x80 == 0 && l & 0x0f == l && h & 0x0f == h && l < 16 && h < 16)
        by (bit_vector)
        requires
            l == x & 0x0f,
            h == x >> 4u8,
    ;
    assert(lo_t[l as int] == gf8_mul(t.coeff_of(), l));
    assert(hi_t[h as int] == gf8_mul(t.coeff_of(), h << 4u8));
}

/// `coeff * value` in every byte, by split-nibble lookups in the tables of
/// `coeff`.
pub fn scale_gf8(table: &ScaleTable, value: &[u8; 16]) -> (v: [u8; 16])
    ensures
        forall|i: int| 0 <= i < 16 ==> v[i] == gf8_mul(table.coeff_of(), value[i]),
{
    let lo_t = table.lo_table();
    let hi_t = table.hi_table();
    let split = split_ssse3(value);
    let v = lookup_ssse3(&lo_t, &hi_t, &split);
    proof {
        assert forall|i: int| 0 <= i < 16 implies v[i] == gf8_mul(table.coeff_of(), value[i]) by {
            lemma_lookup_is_product(table, lo_t, hi_t, value[i], split.0[i], split.1[i]);
        }
    }
    v
}

/// Exchange the two bytes of every 16-bit element.
pub fn swap_adjacent(value: &[u8; 16]) -> (v: [u8; 16])
    ensures
        forall|i: int| 0 <= i < 16 ==> v[i] == value[partner(i)],
{
    let control: [u8; 16] = [1, 0, 3, 2, 5, 4, 7, 6, 9, 8, 11, 10, 13, 12, 15, 14];
    let v = shuffle(value, &control);
    proof {
        assert forall|i: int| 0 <= i < 16 implies v[i] == value[partner(i)] by {
            let e = control[i];
            assert(e == partner(i));
            crate::bits::lemma_small_index(e);
        }
    }
    v
}

/// `0x00ff` in every halfword: selects each element's low byte.
pub fn even_mask() -> (v: [u8; 16])
    ensures
        forall|i: int| 0 <= i < 16 ==> v[i] == if i % 2 == 0 {
            0xffu8
        } else {
            0u8
        },
{
    [0xff, 0, 0xff, 0, 0xff, 0, 0xff, 0, 0xff, 0, 0xff, 0, 0xff, 0, 0xff, 0]
}

/// The byte a tower kernel must produce at position `i` of a register
/// holding `value`, for coefficient `c`.
pub open spec fn tower_byte(c: u16, value: Seq<u8>, i: int) -> u8 {
    if i % 2 == 0 {
        tower_even(lo(c), hi(c), value[i], value[i + 1])
    } else {
        tower_odd(lo(c), hi(c), value[i - 1], value[i])
    }
}

/// `coeff * value` over the eight elements of a register, via four
/// nibble-shuffle multiplies: even and odd contributions are summed first,
/// then the low byte of each element is taken from the even sum and the high
/// byte from the odd sum.
pub fn scale_ssse3(value: &[u8; 16], tables: &TowerTables) -> (v: [u8; 16])
    ensures
        forall|i: int| 0 <= i < 16 ==> v[i] == tower_byte(tables.coeff_of(), value@, i),
{
    let swapped = swap_adjacent(value);
    let direct = split_ssse3(value);
    let crossed = split_ssse3(&swapped);
    let t0 = tables.factor(0);
    let t1 = tables.factor(1);
    let t2 = tables.factor(2);
    let t3 = tables.factor(3);
    let (l0, h0) = (t0.lo_table(), t0.hi_table());
    let (l1, h1) = (t1.lo_table(), t1.hi_table());
    let (l2, h2) = (t2.lo_table(), t2.hi_table());
    let (l3, h3) = (t3.lo_table(), t3.hi_table());
    let e0 = lookup_ssse3(&l0, &h0, &direct);
    let e2 = lookup_ssse3(&l2, &h2, &crossed);
    let o1 = lookup_ssse3(&l1, &h1, &direct);
    let o3 = lookup_ssse3(&l3, &h3, &crossed);
    let even = xor(&e0, &e2);
    let odd = xor(&o1, &o3);
    let mask = even_mask();
    let keep_even = and(&even, &mask);
    let keep_odd = and_not(&mask, &odd);
    let v = xor(&keep_even, &keep_odd);
    proof {
        let c = tables.coeff_of();
        assert forall|i: int| 0 <= i < 16 implies v[i] == tower_byte(c, value@, i) by {
            lemma_lookup_is_product(t0, l0, h0, value[i], direct.0[i], direct.1[i]);
            lemma_lookup_is_product(t1, l1, h1, value[i], direct.0[i], direct.1[i]);
            lemma_lookup_is_product(t2, l2, h2, swapped[i], crossed.0[i], crossed.1[i]);
            lemma_lookup_is_product(t3, l3, h3, swapped[i], crossed.0[i], crossed.1[i]);
            let k = i / 2;
            let (ev, od, m) = (even[i], odd[i], mask[i]);
            crate::bits::lemma_select(ev, od, m);
            crate::bits::lemma_xor(o1[i], o3[i], 0);
            assert(swapped[i] == value[partner(i)]);
        }
    }
    v
}

/// `!mask & v`, bytewise.
pub fn and_not(mask: &[u8; 16], v: &[u8; 16]) -> (r: [u8; 16])
    ensures
        forall|i: int| 0 <= i < 16 ==> r[i] == !mask[i] & v[i],
{
    let mut r = [0u8; 16];
    let mut i: usize = 0;
    while i < 16
        invariant
            i <= 16,
            forall|j: int| 0 <= j < i ==> r[j] == !mask[j] & v[j],
        decreases 16 - i,
    {
        r[i] = !mask[i] & v[i];
        i = i + 1;
    }
    r
}

/// One base-field multiply by swizzle lookups over pre-split nibbles.
pub fn lookup(lo: &[u8; 16], hi: &[u8; 16], low: &[u8; 16], high: &[u8; 16]) -> (v: [u8; 16])
    ensures
        forall|i: int|
            0 <= i < 16 ==> v[i] == swizzle_byte(lo@, low[i]) ^ swizzle_byte(hi@, high[i]),
{
    xor(&swizzle(lo, low), &swizzle(hi, high))
}

/// `coeff * value` over the eight elements of a register, via swizzle
/// lookups and a bitwise select of the even and odd lanes.
pub fn scaled(value: &[u8; 16], tables: &TowerTables) -> (v: [u8; 16])
    ensures
        forall|i: int| 0 <= i < 16 ==> v[i] == tower_byte(tables.coeff_of(), value@, i),
{
    let swapped = swap_adjacent(value);
    let direct = split_ssse3(value);
    let crossed = split_ssse3(&swapped);
    let t0 = tables.factor(0);
    let t1 = tables.factor(1);
    let t2 = tables.factor(2);
    let t3 = tables.factor(3);
    let (l0, h0) = (t0.lo_table(), t0.hi_table());
    let (l1, h1) = (t1.lo_table(), t1.hi_table());
    let (l2, h2) = (t2.lo_table(), t2.hi_table());
    let (l3, h3) = (t3.lo_table(), t3.hi_table());
    let direct_even = lookup(&l0, &h0, &direct.0, &direct.1);
    let direct_odd = lookup(&l1, &h1, &direct.0, &direct.1);
    let cross_even = lookup(&l2, &h2, &crossed.0, &crossed.1);
    let cross_odd = lookup(&l3, &h3, &crossed.0, &crossed.1);
    let even = xor(&direct_even, &cross_even);
    let odd = xor(&direct_odd, &cross_odd);
    let mask = even_mask();
    let v = bitselect(&even, &odd, &mask);
    proof {
        let c = tables.coeff_of();
        assert forall|i: int| 0 <= i < 16 implies v[i] == tower_byte(c, value@, i) by {
            lemma_lookup_is_product(t0, l0, h0, value[i], direct.0[i], direct.1[i]);
            lemma_lookup_is_product(t1, l1, h1, value[i], direct.0[i], direct.1[i]);
            lemma_lookup_is_product(t2, l2, h2, swapped[i], crossed.0[i], crossed.1[i]);
            lemma_lookup_is_product(t3, l3, h3, swapped[i], crossed.0[i], crossed.1[i]);
            let (ev, od, m) = (even[i], odd[i], mask[i]);
            crate::bits::lemma_select(ev, od, m);
            crate::bits::lemma_xor(direct_odd[i], cross_odd[i], 0);
            assert(swapped[i] == value[partner(i)]);
        }
    }
    v
}

/// Lane-parallel multiply of two varying base-field registers, as
/// `GF2P8MULB` does in hardware.
pub fn multiply_vectors(a: &[u8; 16], b: &[u8; 16]) -> (v: [u8; 16])
    ensures
        forall|i: int| 0 <= i < 16 ==> v[i] == gf8_mul(a[i], b[i]),
{
    let mut v = [0u8; 16];
    let mut i: usize = 0;
    while i < 16
        invariant
            i <= 16,
            forall|j: int| 0 <= j < i ==> v[j] == gf8_mul(a[j], b[j]),
        decreases 16 - i,
    {
        v[i] = mul_byte(a[i], b[i]);
        i = i + 1;
    }
    v
}

/// The two broadcast words of a coefficient, as the signed halfwords a
/// broadcast instruction takes: the same 16 bits, reinterpreted.
pub fn broadcast_words(coeff: &TowerCoeff) -> (words: (i16, i16))
    ensures
        words.0 as u16 == from_parts(
            tower_factor(coeff.coeff_of(), 0),
            tower_factor(coeff.coeff_of(), 1),
        ),
        words.1 as u16 == from_parts(
            tower_factor(coeff.coeff_of(), 2),
            tower_factor(coeff.coeff_of(), 3),
        ),
{
    let same = coeff.same();
    let cross = coeff.cross();
    let s = same as i16;
    let x = cross as i16;
    proof {
        assert(s as u16 == same && x as u16 == cross) by (bit_vector)
            requires
                s == same as i16,
                x == cross as i16,
        ;
    }
    (s, x)
}

/// A halfword broadcast to all eight halfwords of a register.
pub fn set1_epi16(word: i16) -> (v: [u8; 16])
    ensures
        forall|i: int| 0 <= i < 16 ==> v[i] == if i % 2 == 0 {
            lo(word as u16)
        } else {
            hi(word as u16)
        },
{
    let w = word as u16;
    let l = (w & 0xff) as u8;
    let h = (w >> 8u16) as u8;
    [l, h, l, h, l, h, l, h, l, h, l, h, l, h, l, h]
}

/// `coeff * src` for one register with a byte-wide field multiply, given the
/// source and its adjacent-exchanged self.
pub fn scale_gfni(src: &[u8; 16], swapped: &[u8; 16], same: &[u8; 16], cross: &[u8; 16]) -> (v: [u8; 16])
    ensures
        forall|i: int|
            0 <= i < 16 ==> v[i] == gf8_mul(src[i], same[i]) ^ gf8_mul(swapped[i], cross[i]),
{
    xor(&multiply_vectors(src, same), &multiply_vectors(swapped, cross))
}

/// `coeff * value` over the eight elements of a register with a byte-wide
/// field multiply: the source times `[c0, c0 + c1]`, plus the exchanged source
/// times `[δ·c1, c1]`.
pub fn scale_tower_gfni(value: &[u8; 16], coeff: &TowerCoeff) -> (v: [u8; 16])
    ensures
        forall|i: int| 0 <= i < 16 ==> v[i] == tower_byte(coeff.coeff_of(), value@, i),
{
    let (same_word, cross_word) = broadcast_words(coeff);
    let same = set1_epi16(same_word);
    let cross = set1_epi16(cross_word);
    let swapped = swap_adjacent(value);
    let v = scale_gfni(value, &swapped, &same, &cross);
    proof {
        let c = coeff.coeff_of();
        let (f0, f1, f2, f3) = (
            tower_factor(c, 0),
            tower_factor(c, 1),
            tower_factor(c, 2),
            tower_factor(c, 3),
        );
        crate::field::gf16::lemma_parts(0, f0, f1);
        crate::field::gf16::lemma_parts(0, f2, f3);
        assert forall|i: int| 0 <= i < 16 implies v[i] == tower_byte(c, value@, i) by {
            if i % 2 == 0 {
                assert(same[i] == f0 && cross[i] == f2);
                lemma_mul_commutative(value[i], f0);
                lemma_mul_commutative(value[i + 1], f2);
            } else {
                assert(same[i] == f1 && cross[i] == f3);
                lemma_mul_commutative(value[i], f1);
                lemma_mul_commutative(value[i - 1], f3);
                crate::bits::lemma_xor(gf8_mul(f3, value[i - 1]), gf8_mul(f1, value[i]), 0);
            }
        }
    }
    v
}

/// The two 128-bit halves of a 256-bit register.
pub fn halves(v: &[u8; 32]) -> (h: ([u8; 16], [u8; 16]))
    ensures
        forall|i: int| 0 <= i < 16 ==> h.0[i] == v[i] && h.1[i] == v[i + 16],
{
    let mut low = [0u8; 16];
    let mut high = [0u8; 16];
    let mut i: usize = 0;
    while i < 16
        invariant
            i <= 16,
            forall|j: int| 0 <= j < i ==> low[j] == v[j] && high[j] == v[j + 16],
        decreases 16 - i,
    {
        low[i] = v[i];
        high[i] = v[i + 16];
        i = i + 1;
    }
    (low, high)
}

/// A 256-bit register from its two 128-bit halves.
pub fn join(low: &[u8; 16], high: &[u8; 16]) -> (v: [u8; 32])
    ensures
        forall|i: int| 0 <= i < 32 ==> v[i] == if i < 16 {
            low[i]
        } else {
            high[i - 16]
        },
{
    let mut v = [0u8; 32];
    let mut i: usize = 0;
    while i < 16
        invariant
            i <= 16,
            forall|j: int| 0 <= j < i ==> v[j] == low[j] && v[j + 16] == high[j],
        decreases 16 - i,
    {
        v[i] = low[i];
        v[i + 16] = high[i];
        i = i + 1;
    }
    v
}

/// Split a 256-bit register into its low and high nibbles, half by half.
pub fn split_avx2(value: &[u8; 32]) -> (split: ([u8; 32], [u8; 32]))
    ensures
        forall|i: int| 0 <= i < 32 ==> split.0[i] == value[i] & 0x0f,
        forall|i: int| 0 <= i < 32 ==> split.1[i] == value[i] >> 4u8,
{
    let (low, high) = halves(value);
    let (l0, h0) = split_ssse3(&low);
    let (l1, h1) = split_ssse3(&high);
    (join(&l0, &l1), join(&h0, &h1))
}

/// One base-field multiply over a 256-bit register: the same 16-entry tables
/// in both halves, each half shuffling within itself.
pub fn lookup_avx2(lo: &[u8; 16], hi: &[u8; 16], split: &([u8; 32], [u8; 32])) -> (v: [u8; 32])
    ensures
        forall|i: int|
            0 <= i < 32 ==> v[i] == pshufb_byte(lo@, split.0[i]) ^ pshufb_byte(hi@, split.1[i]),
{
    let (l0, l1) = halves(&split.0);
    let (h0, h1) = halves(&split.1);
    let first = lookup_ssse3(lo, hi, &(l0, h0));
    let second = lookup_ssse3(lo, hi, &(l1, h1));
    join(&first, &second)
}

/// `coeff * value` over the sixteen elements of a 256-bit register, half by
/// half.
pub fn scale_avx2(value: &[u8; 32], tables: &TowerTables) -> (v: [u8; 32])
    ensures
        forall|i: int|
            0 <= i < 32 ==> v[i] == if i < 16 {
                tower_byte(tables.coeff_of(), value@.subrange(0, 16), i)
            } else {
                tower_byte(tables.coeff_of(), value@.subrange(16, 32), i - 16)
            },
{
    let (low, high) = halves(value);
    let first = scale_ssse3(&low, tables);
    let second = scale_ssse3(&high, tables);
    proof {
        assert(low@ =~= value@.subrange(0, 16));
        assert(high@ =~= value@.subrange(16, 32));
    }
    join(&first, &second)
}

} // verus!
