//! GF(2^16) kernels over packed byte buffers.
//!
//! Every kernel here is the same identity. Interleaved bytes `[a, b]` are
//! `a + b·u`; multiplying by `c0 + c1·u` gives
//!
//! ```text
//! low byte  = c0·a       + (δ·c1)·b
//! high byte = (c0 + c1)·b + c1·a
//! ```
//!
//! so both bytes are one alternating-coefficient byte multiply of the source
//! plus one of the source with adjacent bytes exchanged. A byte-wide field
//! multiply gets the alternating coefficients from a [`TowerCoeff`]; a shuffle
//! backend emulates each of the four base-field factors with the nibble tables
//! of a [`TowerTables`]; the portable path multiplies one element at a time.
use vstd::prelude::*;
use crate::field::Field;
use crate::field::gf8::{gf8_mul, lemma_mul_commutative};
use crate::field::gf16::{
    DELTA,
    Elem,
    Gf16,
    elem_at,
    from_parts,
    gf16_mul,
    hi,
    lemma_mul_commutative16,
    lemma_mul_distributes16,
    lemma_mul_identity16,
    lemma_parts,
    lemma_tower_form,
    lemma_xor_parts,
    lo,
    pointwise16,
    product16,
};
use crate::kernel::backend::{Arch, Backend};
use crate::kernel::blocked::{
    gather_blocked,
    lemma_rows_fit,
    matrix_blocked,
    scatter_blocked,
    terms_cover,
};
use crate::kernel::lanes::{self, tower_byte};
use crate::kernel::tables::{TowerCoeff, TowerTables};
use crate::kernel::{
    FieldKernels,
    ScaleKernels,
    gather_rowwise,
    lemma_matrix_empty,
    lemma_matrix_rows_clamped,
    matrix_rowwise,
    scatter_rowwise,
    copy_bytes,
    matrix_seq,
    terms_fit,
    Sealed,
    gather_seq,
    min_nat,
    pointwise_seq,
    scaled_seq,
    scatter_seq,
    sources_fit,
    sources_of,
    span_mul_add,
};

verus! {

/// The kernels' regrouped byte formula is the byte of the product.
pub proof fn lemma_tower_byte(c: u16, s: Seq<u8>, i: int)
    requires
        0 <= i < s.len(),
        s.len() % 2 == 0,
    ensures
        tower_byte(c, s, i) == product16(c, s, i),
{
    let k = i / 2;
    let x = elem_at(s, k);
    lemma_tower_form(x, c);
    lemma_parts(0, s[2 * k], s[2 * k + 1]);
}

/// A register loaded from an element boundary of `s` holds whole elements,
/// so its per-register products are the buffer's.
proof fn lemma_register(c: u16, s: Seq<u8>, pos: int, reg: [u8; 16])
    requires
        pos % 2 == 0,
        0 <= pos,
        pos + 16 <= s.len(),
        s.len() % 2 == 0,
        forall|j: int| 0 <= j < 16 ==> reg[j] == s[pos + j],
    ensures
        forall|i: int| 0 <= i < 16 ==> tower_byte(c, reg@, i) == product16(c, s, pos + i),
{
    assert forall|i: int| 0 <= i < 16 implies tower_byte(c, reg@, i) == product16(c, s, pos + i) by {
        lemma_tower_byte(c, s, pos + i);
        if i % 2 == 0 {
            assert(reg[i + 1] == s[pos + i + 1]);
        } else {
            assert(reg[i - 1] == s[pos + i - 1]);
        }
    }
}

/// Adding an element to another adds their components.
proof fn lemma_add_parts(a: u8, b: u8, q: u16)
    ensures
        lo(from_parts(a, b) ^ q) == a ^ lo(q),
        hi(from_parts(a, b) ^ q) == b ^ hi(q),
{
    assert(lo(from_parts(a, b) ^ q) == a ^ lo(q) && hi(from_parts(a, b) ^ q) == b ^ hi(q))
        by (bit_vector);
}

/// The bytes of a buffer of `n` bytes that belong to whole elements.
pub open spec fn whole_bytes(n: nat) -> int {
    n - n % 2
}

/// `dst[offset + i] ^= (src * coeff)[i]` for the bytes `i` of `src` from
/// `from` on, one element at a time; a trailing odd byte is not an element
/// and is left alone.
fn mul_add_elems(dst: &mut [u8], offset: usize, coeff: Elem, src: &[u8], from: usize)
    requires
        offset + src.len() <= old(dst).len(),
        from <= src@.len(),
        from % 2 == 0,
    ensures
        final(dst)@.len() == old(dst)@.len(),
        forall|i: int|
            0 <= i < old(dst)@.len() ==> final(dst)@[i] == if offset + from <= i < offset
                + whole_bytes(src@.len()) {
                old(dst)@[i] ^ product16(coeff.0, src@, i - offset)
            } else {
                old(dst)@[i]
            },
{
    let n = src.len();
    let mut k = from;
    while n - k >= 2
        invariant
            from <= k <= n,
            k % 2 == 0,
            n == src@.len(),
            offset + src.len() <= old(dst).len(),
            dst@.len() == old(dst)@.len(),
            forall|i: int|
                0 <= i < old(dst)@.len() ==> dst@[i] == if offset + from <= i < offset + k {
                    old(dst)@[i] ^ product16(coeff.0, src@, i - offset)
                } else {
                    old(dst)@[i]
                },
        decreases n - k,
    {
        let product = Elem::from_bytes([src[k], src[k + 1]]).mul(coeff);
        let current = Elem::from_bytes([dst[offset + k], dst[offset + k + 1]]);
        let bytes = current.add(product).to_bytes();
        proof {
            lemma_add_parts(dst[offset + k as int], dst[offset + k + 1], product.0);
            assert(elem_at(src@, (k as int) / 2) == from_parts(src[k as int], src[k + 1]));
            assert(elem_at(src@, (k as int + 1) / 2) == from_parts(src[k as int], src[k + 1]));
        }
        dst[offset + k] = bytes[0];
        dst[offset + k + 1] = bytes[1];
        k = k + 2;
    }
}

/// `dst ^= src * coeff`, one element at a time. The tail handler for the
/// vector kernels. A trailing odd byte is not an element, and that byte of
/// `dst` is left as it was.
pub fn mul_add_scalar(dst: &mut [u8], coeff: Elem, src: &[u8])
    requires
        old(dst)@.len() == src@.len(),
    ensures
        final(dst)@.len() == old(dst)@.len(),
        forall|i: int|
            0 <= i < old(dst)@.len() ==> final(dst)@[i] == if i < whole_bytes(src@.len()) {
                old(dst)@[i] ^ product16(coeff.0, src@, i)
            } else {
                old(dst)@[i]
            },
        src@.len() % 2 == 0 ==> final(dst)@ == span_mul_add::<Gf16>(old(dst)@, 0, coeff, src@),
{
    mul_add_elems(dst, 0, coeff, src, 0);
    proof {
        if src@.len() % 2 == 0 {
            assert(dst@ =~= span_mul_add::<Gf16>(old(dst)@, 0, coeff, src@));
        }
    }
}

/// `dst[offset..] ^= src * coeff` with nibble-table lookups over whole
/// registers, then the tail one element at a time.
#[verifier::spinoff_prover]
#[verifier::rlimit(40)]
pub fn mul_add_tables_at(dst: &mut [u8], offset: usize, tables: &TowerTables, src: &[u8])
    requires
        offset + src.len() <= old(dst).len(),
        src@.len() % 2 == 0,
    ensures
        final(dst)@.len() == old(dst)@.len(),
        forall|i: int|
            0 <= i < old(dst)@.len() ==> final(dst)@[i] == if offset <= i < offset + src@.len() {
                old(dst)@[i] ^ product16(tables.coeff_of(), src@, i - offset)
            } else {
                old(dst)@[i]
            },
{
    let n = src.len();
    let len = n & !15usize;
    proof {
        crate::bits::lemma_round_down(n);
    }
    let ghost c = tables.coeff_of();
    let mut pos: usize = 0;
    while pos < len
        invariant
            pos <= len,
            len <= n,
            pos % 16 == 0,
            len % 16 == 0,
            n == src@.len(),
            n % 2 == 0,
            c == tables.coeff_of(),
            offset + src.len() <= old(dst).len(),
            dst@.len() == old(dst)@.len(),
            forall|i: int|
                0 <= i < old(dst)@.len() ==> dst@[i] == if offset <= i < offset + pos {
                    old(dst)@[i] ^ product16(c, src@, i - offset)
                } else {
                    old(dst)@[i]
                },
        decreases len - pos,
    {
        let d = lanes::load(dst, offset + pos);
        let s = lanes::load(src, pos);
        let scaled = lanes::scale_ssse3(&s, tables);
        proof {
            lemma_register(c, src@, pos as int, s);
        }
        let r = lanes::xor(&d, &scaled);
        lanes::store(dst, offset + pos, &r);
        pos = pos + 16;
    }
    mul_add_elems(dst, offset, tables.coeff(), src, len);
}

/// `dst[offset..] ^= src * coeff` with a byte-wide field multiply over whole
/// registers, then the tail one element at a time.
#[verifier::spinoff_prover]
#[verifier::rlimit(40)]
pub fn mul_add_gfni_at(dst: &mut [u8], offset: usize, coeff: &TowerCoeff, src: &[u8])
    requires
        offset + src.len() <= old(dst).len(),
        src@.len() % 2 == 0,
    ensures
        final(dst)@.len() == old(dst)@.len(),
        forall|i: int|
            0 <= i < old(dst)@.len() ==> final(dst)@[i] == if offset <= i < offset + src@.len() {
                old(dst)@[i] ^ product16(coeff.coeff_of(), src@, i - offset)
            } else {
                old(dst)@[i]
            },
{
    let n = src.len();
    let len = n & !15usize;
    proof {
        crate::bits::lemma_round_down(n);
    }
    let ghost c = coeff.coeff_of();
    let mut pos: usize = 0;
    while pos < len
        invariant
            pos <= len,
            len <= n,
            pos % 16 == 0,
            len % 16 == 0,
            n == src@.len(),
            n % 2 == 0,
            c == coeff.coeff_of(),
            offset + src.len() <= old(dst).len(),
            dst@.len() == old(dst)@.len(),
            forall|i: int|
                0 <= i < old(dst)@.len() ==> dst@[i] == if offset <= i < offset + pos {
                    old(dst)@[i] ^ product16(c, src@, i - offset)
                } else {
                    old(dst)@[i]
                },
        decreases len - pos,
    {
        let d = lanes::load(dst, offset + pos);
        let s = lanes::load(src, pos);
        let scaled = lanes::scale_tower_gfni(&s, coeff);
        proof {
            lemma_register(c, src@, pos as int, s);
        }
        let r = lanes::xor(&d, &scaled);
        lanes::store(dst, offset + pos, &r);
        pos = pos + 16;
    }
    mul_add_elems(dst, offset, coeff.coeff(), src, len);
}

/// `dst = dst * coeff` for the bytes from `from` on, one element at a time;
/// a trailing odd byte is left alone.
fn mul_assign_elems(dst: &mut [u8], coeff: Elem, from: usize)
    requires
        from <= old(dst)@.len(),
        from % 2 == 0,
    ensures
        final(dst)@.len() == old(dst)@.len(),
        forall|i: int|
            0 <= i < old(dst)@.len() ==> final(dst)@[i] == if from <= i < whole_bytes(
                old(dst)@.len(),
            ) {
                product16(coeff.0, old(dst)@, i)
            } else {
                old(dst)@[i]
            },
{
    let n = dst.len();
    let mut k = from;
    while n - k >= 2
        invariant
            from <= k <= n,
            k % 2 == 0,
            n == old(dst)@.len(),
            dst@.len() == n,
            forall|i: int|
                0 <= i < n ==> dst@[i] == if from <= i < k {
                    product16(coeff.0, old(dst)@, i)
                } else {
                    old(dst)@[i]
                },
        decreases n - k,
    {
        let value = Elem::from_bytes([dst[k], dst[k + 1]]).mul(coeff);
        let bytes = value.to_bytes();
        proof {
            assert(elem_at(old(dst)@, (k as int) / 2) == from_parts(dst[k as int], dst[k + 1]));
            assert(elem_at(old(dst)@, (k as int + 1) / 2) == from_parts(
                dst[k as int],
                dst[k + 1],
            ));
        }
        dst[k] = bytes[0];
        dst[k + 1] = bytes[1];
        k = k + 2;
    }
}

/// `dst = dst * coeff`, one element at a time. A trailing odd byte is not
/// an element and is left as it was.
pub fn mul_assign_scalar(dst: &mut [u8], coeff: Elem)
    ensures
        final(dst)@.len() == old(dst)@.len(),
        forall|i: int|
            0 <= i < old(dst)@.len() ==> final(dst)@[i] == if i < whole_bytes(old(dst)@.len()) {
                product16(coeff.0, old(dst)@, i)
            } else {
                old(dst)@[i]
            },
        old(dst)@.len() % 2 == 0 ==> final(dst)@ == scaled_seq::<Gf16>(coeff, old(dst)@),
{
    mul_assign_elems(dst, coeff, 0);
    proof {
        if old(dst)@.len() % 2 == 0 {
            assert(dst@ =~= scaled_seq::<Gf16>(coeff, old(dst)@));
        }
    }
}

/// `dst = src * coeff` for the bytes from `from` on, one element at a time.
fn mul_into_elems(dst: &mut [u8], coeff: Elem, src: &[u8], from: usize)
    requires
        old(dst)@.len() == src@.len(),
        from <= src@.len(),
        from % 2 == 0,
    ensures
        final(dst)@.len() == old(dst)@.len(),
        forall|i: int|
            0 <= i < src@.len() ==> final(dst)@[i] == if from <= i < whole_bytes(src@.len()) {
                product16(coeff.0, src@, i)
            } else {
                old(dst)@[i]
            },
{
    let n = src.len();
    let mut k = from;
    while n - k >= 2
        invariant
            from <= k <= n,
            k % 2 == 0,
            n == src@.len(),
            dst@.len() == n,
            forall|i: int|
                0 <= i < n ==> dst@[i] == if from <= i < k {
                    product16(coeff.0, src@, i)
                } else {
                    old(dst)@[i]
                },
        decreases n - k,
    {
        let product = Elem::from_bytes([src[k], src[k + 1]]).mul(coeff);
        let bytes = product.to_bytes();
        proof {
            assert(elem_at(src@, (k as int) / 2) == from_parts(src[k as int], src[k + 1]));
            assert(elem_at(src@, (k as int + 1) / 2) == from_parts(src[k as int], src[k + 1]));
        }
        dst[k] = bytes[0];
        dst[k + 1] = bytes[1];
        k = k + 2;
    }
}

/// `dst = src * coeff`, one element at a time, without reading `dst`. A
/// trailing odd byte is not an element, and that byte of `dst` is left as
/// it was.
pub fn mul_into_scalar(dst: &mut [u8], coeff: Elem, src: &[u8])
    requires
        old(dst)@.len() == src@.len(),
    ensures
        final(dst)@.len() == old(dst)@.len(),
        forall|i: int|
            0 <= i < old(dst)@.len() ==> final(dst)@[i] == if i < whole_bytes(src@.len()) {
                product16(coeff.0, src@, i)
            } else {
                old(dst)@[i]
            },
        src@.len() % 2 == 0 ==> final(dst)@ == scaled_seq::<Gf16>(coeff, src@),
{
    mul_into_elems(dst, coeff, src, 0);
    proof {
        if src@.len() % 2 == 0 {
            assert(dst@ =~= scaled_seq::<Gf16>(coeff, src@));
        }
    }
}

/// `dst = dst * coeff` with nibble-table lookups over whole registers.
#[verifier::spinoff_prover]
#[verifier::rlimit(40)]
pub fn mul_assign_tables(dst: &mut [u8], tables: &TowerTables)
    requires
        old(dst)@.len() % 2 == 0,
    ensures
        final(dst)@ == scaled_seq::<Gf16>(Elem(tables.coeff_of()), old(dst)@),
{
    let n = dst.len();
    let len = n & !15usize;
    proof {
        crate::bits::lemma_round_down(n);
    }
    let ghost c = tables.coeff_of();
    let mut pos: usize = 0;
    while pos < len
        invariant
            pos <= len,
            len <= n,
            pos % 16 == 0,
            len % 16 == 0,
            n == old(dst)@.len(),
            n % 2 == 0,
            c == tables.coeff_of(),
            dst@.len() == n,
            forall|i: int|
                0 <= i < n ==> dst@[i] == if i < pos {
                    product16(c, old(dst)@, i)
                } else {
                    old(dst)@[i]
                },
        decreases len - pos,
    {
        let d = lanes::load(dst, pos);
        proof {
            lemma_register(c, old(dst)@, pos as int, d);
        }
        let r = lanes::scale_ssse3(&d, tables);
        lanes::store(dst, pos, &r);
        pos = pos + 16;
    }
    let ghost middle = dst@;
    proof {
        assert forall|i: int| len <= i < n implies product16(c, middle, i) == product16(
            c,
            old(dst)@,
            i,
        ) by {
            let k = i / 2;
            assert(middle[2 * k] == old(dst)@[2 * k]);
            assert(middle[2 * k + 1] == old(dst)@[2 * k + 1]);
        }
    }
    mul_assign_elems(dst, tables.coeff(), len);
    proof {
        assert(dst@ =~= scaled_seq::<Gf16>(Elem(c), old(dst)@));
    }
}

/// `dst = dst * coeff` with a byte-wide field multiply over whole registers.
#[verifier::spinoff_prover]
#[verifier::rlimit(40)]
pub fn mul_assign_gfni(dst: &mut [u8], coeff: &TowerCoeff)
    requires
        old(dst)@.len() % 2 == 0,
    ensures
        final(dst)@ == scaled_seq::<Gf16>(Elem(coeff.coeff_of()), old(dst)@),
{
    let n = dst.len();
    let len = n & !15usize;
    proof {
        crate::bits::lemma_round_down(n);
    }
    let ghost c = coeff.coeff_of();
    let mut pos: usize = 0;
    while pos < len
        invariant
            pos <= len,
            len <= n,
            pos % 16 == 0,
            len % 16 == 0,
            n == old(dst)@.len(),
            n % 2 == 0,
            c == coeff.coeff_of(),
            dst@.len() == n,
            forall|i: int|
                0 <= i < n ==> dst@[i] == if i < pos {
                    product16(c, old(dst)@, i)
                } else {
                    old(dst)@[i]
                },
        decreases len - pos,
    {
        let d = lanes::load(dst, pos);
        proof {
            lemma_register(c, old(dst)@, pos as int, d);
        }
        let r = lanes::scale_tower_gfni(&d, coeff);
        lanes::store(dst, pos, &r);
        pos = pos + 16;
    }
    let ghost middle = dst@;
    proof {
        assert forall|i: int| len <= i < n implies product16(c, middle, i) == product16(
            c,
            old(dst)@,
            i,
        ) by {
            let k = i / 2;
            assert(middle[2 * k] == old(dst)@[2 * k]);
            assert(middle[2 * k + 1] == old(dst)@[2 * k + 1]);
        }
    }
    mul_assign_elems(dst, coeff.coeff(), len);
    proof {
        assert(dst@ =~= scaled_seq::<Gf16>(Elem(c), old(dst)@));
    }
}

/// `dst = src * coeff` with nibble-table lookups over whole registers, out of
/// place: one pass, no `dst` read.
#[verifier::spinoff_prover]
#[verifier::rlimit(40)]
pub fn mul_into_tables(dst: &mut [u8], tables: &TowerTables, src: &[u8])
    requires
        old(dst)@.len() == src@.len(),
        src@.len() % 2 == 0,
    ensures
        final(dst)@ == scaled_seq::<Gf16>(Elem(tables.coeff_of()), src@),
{
    let n = src.len();
    let len = n & !15usize;
    proof {
        crate::bits::lemma_round_down(n);
    }
    let ghost c = tables.coeff_of();
    let mut pos: usize = 0;
    while pos < len
        invariant
            pos <= len,
            len <= n,
            pos % 16 == 0,
            len % 16 == 0,
            n == src@.len(),
            n % 2 == 0,
            c == tables.coeff_of(),
            dst@.len() == n,
            forall|i: int| 0 <= i < pos ==> dst@[i] == product16(c, src@, i),
        decreases len - pos,
    {
        let s = lanes::load(src, pos);
        proof {
            lemma_register(c, src@, pos as int, s);
        }
        let r = lanes::scale_ssse3(&s, tables);
        lanes::store(dst, pos, &r);
        pos = pos + 16;
    }
    mul_into_elems(dst, tables.coeff(), src, len);
    proof {
        assert(dst@ =~= scaled_seq::<Gf16>(Elem(c), src@));
    }
}

/// `dst = src * coeff` with a byte-wide field multiply over whole registers,
/// out of place: one pass, no `dst` read.
#[verifier::spinoff_prover]
#[verifier::rlimit(40)]
pub fn mul_into_gfni(dst: &mut [u8], coeff: &TowerCoeff, src: &[u8])
    requires
        old(dst)@.len() == src@.len(),
        src@.len() % 2 == 0,
    ensures
        final(dst)@ == scaled_seq::<Gf16>(Elem(coeff.coeff_of()), src@),
{
    let n = src.len();
    let len = n & !15usize;
    proof {
        crate::bits::lemma_round_down(n);
    }
    let ghost c = coeff.coeff_of();
    let mut pos: usize = 0;
    while pos < len
        invariant
            pos <= len,
            len <= n,
            pos % 16 == 0,
            len % 16 == 0,
            n == src@.len(),
            n % 2 == 0,
            c == coeff.coeff_of(),
            dst@.len() == n,
            forall|i: int| 0 <= i < pos ==> dst@[i] == product16(c, src@, i),
        decreases len - pos,
    {
        let s = lanes::load(src, pos);
        proof {
            lemma_register(c, src@, pos as int, s);
        }
        let r = lanes::scale_tower_gfni(&s, coeff);
        lanes::store(dst, pos, &r);
        pos = pos + 16;
    }
    mul_into_elems(dst, coeff.coeff(), src, len);
    proof {
        assert(dst@ =~= scaled_seq::<Gf16>(Elem(c), src@));
    }
}

/// The elementwise tower product of two registers of eight elements each:
/// the direct byte products give the low byte (plus `δ` times the high
/// product), the crossed products give the high byte.
fn tower_product(x: &[u8; 16], y: &[u8; 16]) -> (v: [u8; 16])
    ensures
        forall|i: int| 0 <= i < 16 ==> v[i] == pointwise16(x@, y@, i),
{
    let even = lanes::even_mask();
    let delta_even = lanes::set1_epi16(DELTA as i16);
    let direct = lanes::multiply_vectors(x, y);
    let swapped_y = lanes::swap_adjacent(y);
    let crossed = lanes::multiply_vectors(x, &swapped_y);
    let swapped_direct = lanes::swap_adjacent(&direct);
    let delta_bd = lanes::multiply_vectors(&swapped_direct, &delta_even);
    let constant = lanes::xor(&direct, &delta_bd);
    let swapped_crossed = lanes::swap_adjacent(&crossed);
    let mixed = lanes::xor(&crossed, &swapped_crossed);
    let extension = lanes::xor(&mixed, &direct);
    let v = lanes::bitselect(&constant, &extension, &even);
    proof {
        assert(lo(0x20i16 as u16) == 0x20u8 && hi(0x20i16 as u16) == 0u8) by (bit_vector);
        assert forall|i: int| 0 <= i < 16 implies v[i] == pointwise16(x@, y@, i) by {
            let k = i / 2;
            let (a0, a1, b0, b1) = (x[2 * k], x[2 * k + 1], y[2 * k], y[2 * k + 1]);
            lemma_parts(0, a0, a1);
            lemma_parts(0, b0, b1);
            let p = gf16_mul(from_parts(a0, a1), from_parts(b0, b1));
            lemma_parts(
                0,
                gf8_mul(a0, b0) ^ gf8_mul(DELTA, gf8_mul(a1, b1)),
                gf8_mul(a0, b1) ^ gf8_mul(a1, b0) ^ gf8_mul(a1, b1),
            );
            let (cv, ev, m) = (constant[i], extension[i], even[i]);
            crate::bits::lemma_select(cv, ev, m);
            if i % 2 == 0 {
                lemma_mul_commutative(gf8_mul(a1, b1), DELTA);
            } else {
                crate::bits::lemma_xor(gf8_mul(a1, b0), gf8_mul(a0, b1), gf8_mul(a1, b1));
            }
        }
    }
    v
}

/// `dst[k] = a[k] * b[k]` for the elements from byte `from` on, one element
/// at a time.
fn mul_elementwise_elems(dst: &mut [u8], a: &[u8], b: &[u8], from: usize)
    requires
        old(dst)@.len() == a@.len(),
        old(dst)@.len() == b@.len(),
        from <= a@.len(),
        from % 2 == 0,
        a@.len() % 2 == 0,
    ensures
        final(dst)@.len() == old(dst)@.len(),
        forall|i: int|
            0 <= i < a@.len() ==> final(dst)@[i] == if from <= i {
                pointwise16(a@, b@, i)
            } else {
                old(dst)@[i]
            },
{
    let n = a.len();
    let mut k = from;
    while k < n
        invariant
            from <= k <= n,
            k % 2 == 0,
            n == a@.len(),
            n == b@.len(),
            n % 2 == 0,
            dst@.len() == n,
            forall|i: int|
                0 <= i < n ==> dst@[i] == if from <= i < k {
                    pointwise16(a@, b@, i)
                } else {
                    old(dst)@[i]
                },
        decreases n - k,
    {
        let product = Elem::from_bytes([a[k], a[k + 1]]).mul(Elem::from_bytes([b[k], b[k + 1]]));
        let bytes = product.to_bytes();
        proof {
            assert(elem_at(a@, (k as int) / 2) == from_parts(a[k as int], a[k + 1]));
            assert(elem_at(a@, (k as int + 1) / 2) == from_parts(a[k as int], a[k + 1]));
            assert(elem_at(b@, (k as int) / 2) == from_parts(b[k as int], b[k + 1]));
            assert(elem_at(b@, (k as int + 1) / 2) == from_parts(b[k as int], b[k + 1]));
        }
        dst[k] = bytes[0];
        dst[k + 1] = bytes[1];
        k = k + 2;
    }
}

/// `dst[k] = a[k] * b[k]` over interleaved tower elements: whole registers
/// with lane-parallel byte multiplies, then the tail one element at a time.
#[verifier::spinoff_prover]
#[verifier::rlimit(40)]
pub fn elementwise_simd128(dst: &mut [u8], a: &[u8], b: &[u8])
    requires
        old(dst)@.len() == a@.len(),
        old(dst)@.len() == b@.len(),
        a@.len() % 2 == 0,
    ensures
        final(dst)@ == pointwise_seq::<Gf16>(a@, b@),
{
    let n = a.len();
    let len = n & !15usize;
    proof {
        crate::bits::lemma_round_down(n);
    }
    let mut pos: usize = 0;
    while pos < len
        invariant
            pos <= len,
            len <= n,
            pos % 16 == 0,
            len % 16 == 0,
            n == a@.len(),
            n == b@.len(),
            n % 2 == 0,
            dst@.len() == n,
            forall|i: int| 0 <= i < pos ==> dst@[i] == pointwise16(a@, b@, i),
        decreases len - pos,
    {
        let x = lanes::load(a, pos);
        let y = lanes::load(b, pos);
        let r = tower_product(&x, &y);
        proof {
            assert forall|i: int| 0 <= i < 16 implies pointwise16(x@, y@, i) == pointwise16(
                a@,
                b@,
                pos + i,
            ) by {
                let k = i / 2;
                assert((pos + i) / 2 == pos / 2 + k);
                assert(x[2 * k] == a@[pos + 2 * k] && x[2 * k + 1] == a@[pos + 2 * k + 1]);
                assert(y[2 * k] == b@[pos + 2 * k] && y[2 * k + 1] == b@[pos + 2 * k + 1]);
            }
        }
        lanes::store(dst, pos, &r);
        pos = pos + 16;
    }
    mul_elementwise_elems(dst, a, b, len);
    proof {
        assert(dst@ =~= pointwise_seq::<Gf16>(a@, b@));
    }
}

/// `dst[k] = a[k] * b[k]`, one element at a time.
pub fn elementwise_scalar(dst: &mut [u8], a: &[u8], b: &[u8])
    requires
        old(dst)@.len() == a@.len(),
        old(dst)@.len() == b@.len(),
        a@.len() % 2 == 0,
    ensures
        final(dst)@ == pointwise_seq::<Gf16>(a@, b@),
{
    mul_elementwise_elems(dst, a, b, 0);
    proof {
        assert(dst@ =~= pointwise_seq::<Gf16>(a@, b@));
    }
}

/// A GF(2^16) coefficient resolved into the form this host's backend wants.
///
/// `Compact` is two broadcast halfwords; `Tables` is four nibble tables.
/// Choosing between them at preparation time means a host with a byte-wide
/// field multiply never builds tables it will not read, and a shuffle host
/// builds them once instead of on every call.
#[derive(Clone, Copy, Debug)]
pub enum Prepared {
    /// Native byte multiply: a pair of broadcast words.
    Compact(TowerCoeff),
    /// Shuffle backends: four nibble tables.
    Tables(TowerTables),
    /// No vector unit: the coefficient itself.
    Plain(Elem),
}

impl Prepared {
    /// The coefficient this was built from.
    pub open spec fn coeff_spec(self) -> Elem {
        match self {
            Prepared::Compact(c) => Elem(c.coeff_of()),
            Prepared::Tables(t) => Elem(t.coeff_of()),
            Prepared::Plain(e) => e,
        }
    }

    /// The coefficient this was built from.
    pub fn coeff(&self) -> (c: Elem)
        ensures
            c == self.coeff_spec(),
    {
        match self {
            Prepared::Compact(compact) => compact.coeff(),
            Prepared::Tables(tables) => tables.coeff(),
            Prepared::Plain(coeff) => *coeff,
        }
    }
}

impl Sealed for Gf16 {
}

impl ScaleKernels for Gf16 {
    type Prepared = Prepared;

    open spec fn coeff_of(prepared: Prepared) -> Elem {
        prepared.coeff_spec()
    }

    /// A byte-wide field multiply takes the broadcast words, the shuffle
    /// backends take the nibble tables, the portable path the element itself.
    open spec fn form_for(host: Backend, prepared: Prepared) -> bool {
        match host {
            Backend::Avx512 | Backend::Gfni => prepared is Compact,
            Backend::Scalar => prepared is Plain,
            _ => prepared is Tables,
        }
    }

    fn prepare(host: Backend, coeff: Elem) -> (prepared: Prepared) {
        match host {
            Backend::Avx512 | Backend::Gfni => Prepared::Compact(TowerCoeff::new(coeff)),
            Backend::Avx2
            | Backend::Ssse3
            | Backend::Neon
            | Backend::Pmull
            | Backend::Simd128 => Prepared::Tables(TowerTables::new(coeff)),
            Backend::Scalar => Prepared::Plain(coeff),
        }
    }

    fn is_zero(coeff: Elem) -> (zero: bool) {
        coeff.0 == 0
    }

    fn scale_register(coeff: &Prepared, v: &[u8; 16]) -> (r: [u8; 16]) {
        let r = match coeff {
            Prepared::Compact(compact) => lanes::scale_tower_gfni(v, compact),
            Prepared::Tables(tables) => lanes::scale_ssse3(v, tables),
            Prepared::Plain(c) => lanes::scale_tower_gfni(v, &TowerCoeff::new(*c)),
        };
        proof {
            let c = Gf16::coeff_of(*coeff).0;
            assert forall|i: int| 0 <= i < 16 implies r[i] == product16(c, v@, i) by {
                lemma_tower_byte(c, v@, i);
            }
        }
        r
    }

    fn mul_add_at(dst: &mut [u8], offset: usize, coeff: &Prepared, src: &[u8]) {
        match coeff {
            Prepared::Compact(compact) => mul_add_gfni_at(dst, offset, compact, src),
            Prepared::Tables(tables) => mul_add_tables_at(dst, offset, tables, src),
            Prepared::Plain(c) => mul_add_elems(dst, offset, *c, src, 0),
        }
        proof {
            assert(dst@ =~= span_mul_add::<Gf16>(
                old(dst)@,
                offset as int,
                Gf16::coeff_of(*coeff),
                src@,
            ));
        }
    }
}

impl FieldKernels for Gf16 {
    open spec fn backend_used(host: Backend) -> Backend {
        host
    }

    open spec fn vector_elementwise(host: Backend) -> bool {
        host == Backend::Avx512 || host == Backend::Gfni || host == Backend::Neon || host
            == Backend::Pmull || host == Backend::Simd128
    }

    fn bytes() -> (n: usize) {
        2
    }

    fn prepared_coeff(prepared: &Prepared) -> (coeff: Elem) {
        prepared.coeff()
    }

    fn active_backend(host: Backend) -> (b: Backend) {
        host
    }

    fn has_vector_elementwise(host: Backend) -> (vectorized: bool) {
        matches!(
            host,
            Backend::Avx512 | Backend::Gfni | Backend::Neon | Backend::Pmull | Backend::Simd128
        )
    }

    fn mul_add_scatter(host: Backend, rows: &mut [u8], row_len: usize, coeffs: &[Elem], src: &[u8]) {
        match host {
            Backend::Avx512 | Backend::Gfni => scatter_gfni(rows, row_len, coeffs, src),
            Backend::Avx2 | Backend::Ssse3 => scatter_ssse3(rows, row_len, coeffs, src),
            Backend::Simd128 => scatter_simd128(rows, row_len, coeffs, src),
            _ => scatter_rowwise::<Gf16>(host, rows, row_len, coeffs, src),
        }
    }

    fn mul_add_gather(host: Backend, dst: &mut [u8], coeffs: &[Elem], srcs: &[&[u8]]) {
        match host {
            Backend::Avx512 | Backend::Gfni => gather_gfni_axpy(dst, coeffs, srcs),
            Backend::Avx2 => gather_avx2_axpy(dst, coeffs, srcs),
            Backend::Ssse3 => gather_ssse3(dst, coeffs, srcs),
            Backend::Simd128 => gather_simd128(dst, coeffs, srcs),
            _ => gather_rowwise::<Gf16>(host, dst, coeffs, srcs),
        }
    }

    fn mul_add_matrix(
        host: Backend,
        rows: &mut [u8],
        row_len: usize,
        nrows: usize,
        terms: &[(&[Elem], &[u8])],
    ) {
        if row_len == 0 {
            return;
        }
        let count = rows.len() / row_len;
        let n = if nrows < count {
            nrows
        } else {
            count
        };
        match host {
            Backend::Avx512 | Backend::Gfni => {
                if terms_cover(terms, n) {
                    matrix_gfni(rows, row_len, nrows, terms)
                } else {
                    matrix_rowwise::<Gf16>(host, rows, row_len, nrows, terms)
                }
            },
            Backend::Avx2 => {
                if nrows >= count {
                    proof {
                        lemma_matrix_rows_clamped::<Gf16>(
                            rows@,
                            row_len as nat,
                            nrows as nat,
                            count as nat,
                            terms@.map_values(|t: (&[Elem], &[u8])| (t.0@, t.1@)),
                            terms@.len(),
                        );
                    }
                    matrix_avx2_axpy(rows, row_len, terms)
                } else {
                    matrix_rowwise::<Gf16>(host, rows, row_len, nrows, terms)
                }
            },
            Backend::Ssse3 => {
                if terms_cover(terms, n) {
                    matrix_ssse3(rows, row_len, nrows, terms)
                } else {
                    matrix_rowwise::<Gf16>(host, rows, row_len, nrows, terms)
                }
            },
            Backend::Simd128 => {
                if nrows <= count {
                    proof {
                        lemma_rows_fit(rows@.len() as int, row_len as int, nrows as int);
                    }
                    matrix_simd128(rows, row_len, nrows, terms)
                } else {
                    matrix_rowwise::<Gf16>(host, rows, row_len, nrows, terms)
                }
            },
            _ => matrix_rowwise::<Gf16>(host, rows, row_len, nrows, terms),
        }
    }

    fn mul_assign(dst: &mut [u8], coeff: &Prepared) {
        match coeff {
            Prepared::Compact(compact) => mul_assign_gfni(dst, compact),
            Prepared::Tables(tables) => mul_assign_tables(dst, tables),
            Prepared::Plain(c) => mul_assign_scalar(dst, *c),
        }
    }

    fn mul_into(dst: &mut [u8], coeff: &Prepared, src: &[u8]) {
        match coeff {
            Prepared::Compact(compact) => mul_into_gfni(dst, compact, src),
            Prepared::Tables(tables) => mul_into_tables(dst, tables, src),
            Prepared::Plain(c) => {
                copy_bytes(dst, src);
                mul_assign_scalar(dst, *c);
            },
        }
    }

    fn mul_elementwise(host: Backend, dst: &mut [u8], a: &[u8], b: &[u8]) {
        if Gf16::has_vector_elementwise(host) {
            elementwise_simd128(dst, a, b)
        } else {
            elementwise_scalar(dst, a, b)
        }
    }
}

/// One source into many rows with a byte-wide field multiply. Rows go in
/// groups of four, then a pair, then a single row; each group reads every
/// source register once and exchanges its bytes once for all of its rows.
pub fn scatter_gfni(rows: &mut [u8], row_len: usize, coeffs: &[Elem], src: &[u8])
    requires
        row_len > 0 ==> src@.len() == row_len,
        row_len % 2 == 0,
    ensures
        row_len > 0 ==> final(rows)@ == scatter_seq::<Gf16>(
            old(rows)@,
            row_len as nat,
            coeffs@,
            src@,
            min_nat(coeffs@.len(), old(rows)@.len() / (row_len as nat)),
        ),
        row_len == 0 ==> final(rows)@ == old(rows)@,
{
    scatter_blocked::<Gf16>(Backend::Gfni, rows, row_len, coeffs, src, 4, true);
}

/// One source into many rows with nibble tables, four table sets (four
/// rows) at a time; each source register is split into nibbles once per
/// group. The 256-bit form is two of these registers side by side.
pub fn scatter_ssse3(rows: &mut [u8], row_len: usize, coeffs: &[Elem], src: &[u8])
    requires
        row_len > 0 ==> src@.len() == row_len,
        row_len % 2 == 0,
    ensures
        row_len > 0 ==> final(rows)@ == scatter_seq::<Gf16>(
            old(rows)@,
            row_len as nat,
            coeffs@,
            src@,
            min_nat(coeffs@.len(), old(rows)@.len() / (row_len as nat)),
        ),
        row_len == 0 ==> final(rows)@ == old(rows)@,
{
    scatter_blocked::<Gf16>(Backend::Ssse3, rows, row_len, coeffs, src, 4, false);
}

/// Many sources into one destination with nibble tables, eight table sets
/// per pass: each destination register is read and written once per eight
/// sources.
pub fn gather_ssse3(dst: &mut [u8], coeffs: &[Elem], srcs: &[&[u8]])
    requires
        old(dst)@.len() % 2 == 0,
        sources_fit(sources_of(srcs@), min_nat(coeffs@.len(), srcs@.len()), old(dst)@.len()),
    ensures
        final(dst)@ == gather_seq::<Gf16>(
            old(dst)@,
            coeffs@,
            sources_of(srcs@),
            min_nat(coeffs@.len(), srcs@.len()),
        ),
{
    gather_blocked::<Gf16>(Backend::Ssse3, dst, coeffs, srcs, 8);
}

/// Many sources into many rows with a byte-wide field multiply. Rows go in
/// groups of four, then a pair, then one; terms in blocks of sixteen, each
/// block folded into a tile of every row of the group before the tile is
/// written back. Every term must cover every row.
pub fn matrix_gfni(rows: &mut [u8], row_len: usize, nrows: usize, terms: &[(&[Elem], &[u8])])
    requires
        row_len % 2 == 0,
        row_len > 0 ==> terms_fit(
            terms@.map_values(|t: (&[Elem], &[u8])| (t.0@, t.1@)),
            row_len as nat,
        ),
        row_len > 0 ==> forall|t: int|
            0 <= t < terms@.len() ==> min_nat(nrows as nat, old(rows)@.len() / (row_len as nat))
                <= (#[trigger] terms@[t]).0@.len(),
    ensures
        row_len > 0 ==> final(rows)@ == matrix_seq::<Gf16>(
            old(rows)@,
            row_len as nat,
            nrows as nat,
            terms@.map_values(|t: (&[Elem], &[u8])| (t.0@, t.1@)),
            terms@.len(),
        ),
        row_len == 0 ==> final(rows)@ == old(rows)@,
{
    matrix_blocked::<Gf16>(Backend::Gfni, rows, row_len, nrows, terms, 4, true, 16);
}

/// Many sources into many rows with nibble tables: rows in groups of four,
/// terms in blocks of eight, each block folded into a tile of every row of
/// the group before the tile is written back. Every term must cover every
/// row.
pub fn matrix_ssse3(rows: &mut [u8], row_len: usize, nrows: usize, terms: &[(&[Elem], &[u8])])
    requires
        row_len % 2 == 0,
        row_len > 0 ==> terms_fit(
            terms@.map_values(|t: (&[Elem], &[u8])| (t.0@, t.1@)),
            row_len as nat,
        ),
        row_len > 0 ==> forall|t: int|
            0 <= t < terms@.len() ==> min_nat(nrows as nat, old(rows)@.len() / (row_len as nat))
                <= (#[trigger] terms@[t]).0@.len(),
    ensures
        row_len > 0 ==> final(rows)@ == matrix_seq::<Gf16>(
            old(rows)@,
            row_len as nat,
            nrows as nat,
            terms@.map_values(|t: (&[Elem], &[u8])| (t.0@, t.1@)),
            terms@.len(),
        ),
        row_len == 0 ==> final(rows)@ == old(rows)@,
{
    matrix_blocked::<Gf16>(Backend::Ssse3, rows, row_len, nrows, terms, 4, false, 8);
}

/// Many sources into one destination, by repeated AXPY with a byte-wide
/// field multiply: one broadcast pair per source.
pub fn gather_gfni_axpy(dst: &mut [u8], coeffs: &[Elem], srcs: &[&[u8]])
    requires
        old(dst)@.len() % 2 == 0,
        sources_fit(sources_of(srcs@), min_nat(coeffs@.len(), srcs@.len()), old(dst)@.len()),
    ensures
        final(dst)@ == gather_seq::<Gf16>(
            old(dst)@,
            coeffs@,
            sources_of(srcs@),
            min_nat(coeffs@.len(), srcs@.len()),
        ),
{
    gather_rowwise::<Gf16>(Backend::Gfni, dst, coeffs, srcs);
}

/// Many sources into one destination, by repeated AXPY with nibble tables:
/// one table set per source.
pub fn gather_avx2_axpy(dst: &mut [u8], coeffs: &[Elem], srcs: &[&[u8]])
    requires
        old(dst)@.len() % 2 == 0,
        sources_fit(sources_of(srcs@), min_nat(coeffs@.len(), srcs@.len()), old(dst)@.len()),
    ensures
        final(dst)@ == gather_seq::<Gf16>(
            old(dst)@,
            coeffs@,
            sources_of(srcs@),
            min_nat(coeffs@.len(), srcs@.len()),
        ),
{
    gather_rowwise::<Gf16>(Backend::Avx2, dst, coeffs, srcs);
}

/// Many sources into one destination using the nibble-table primitive.
pub fn gather_simd128(dst: &mut [u8], coeffs: &[Elem], srcs: &[&[u8]])
    requires
        old(dst)@.len() % 2 == 0,
        sources_fit(sources_of(srcs@), min_nat(coeffs@.len(), srcs@.len()), old(dst)@.len()),
    ensures
        final(dst)@ == gather_seq::<Gf16>(
            old(dst)@,
            coeffs@,
            sources_of(srcs@),
            min_nat(coeffs@.len(), srcs@.len()),
        ),
{
    gather_rowwise::<Gf16>(Backend::Simd128, dst, coeffs, srcs);
}

/// One source into many rows using the nibble-table primitive.
pub fn scatter_simd128(rows: &mut [u8], row_len: usize, coeffs: &[Elem], src: &[u8])
    requires
        row_len > 0 ==> src@.len() == row_len,
        row_len % 2 == 0,
    ensures
        row_len > 0 ==> final(rows)@ == scatter_seq::<Gf16>(
            old(rows)@,
            row_len as nat,
            coeffs@,
            src@,
            min_nat(coeffs@.len(), old(rows)@.len() / (row_len as nat)),
        ),
        row_len == 0 ==> final(rows)@ == old(rows)@,
{
    scatter_rowwise::<Gf16>(Backend::Simd128, rows, row_len, coeffs, src);
}

/// Many sources into the first `nrows` rows using the nibble-table primitive.
pub fn matrix_simd128(rows: &mut [u8], row_len: usize, nrows: usize, terms: &[(&[Elem], &[u8])])
    requires
        row_len % 2 == 0,
        terms@.len() > 0 ==> nrows * row_len <= old(rows)@.len(),
        row_len > 0 ==> terms_fit(
            terms@.map_values(|t: (&[Elem], &[u8])| (t.0@, t.1@)),
            row_len as nat,
        ),
    ensures
        row_len > 0 ==> final(rows)@ == matrix_seq::<Gf16>(
            old(rows)@,
            row_len as nat,
            nrows as nat,
            terms@.map_values(|t: (&[Elem], &[u8])| (t.0@, t.1@)),
            terms@.len(),
        ),
        row_len == 0 ==> final(rows)@ == old(rows)@,
{
    matrix_rowwise::<Gf16>(Backend::Simd128, rows, row_len, nrows, terms);
}

/// Every term into every row that has a coefficient, by repeated AXPY with
/// nibble tables.
pub fn matrix_avx2_axpy(rows: &mut [u8], row_len: usize, terms: &[(&[Elem], &[u8])])
    requires
        row_len % 2 == 0,
        row_len > 0 ==> terms_fit(
            terms@.map_values(|t: (&[Elem], &[u8])| (t.0@, t.1@)),
            row_len as nat,
        ),
    ensures
        row_len > 0 ==> final(rows)@ == matrix_seq::<Gf16>(
            old(rows)@,
            row_len as nat,
            old(rows)@.len() / (row_len as nat),
            terms@.map_values(|t: (&[Elem], &[u8])| (t.0@, t.1@)),
            terms@.len(),
        ),
        row_len == 0 ==> final(rows)@ == old(rows)@,
{
    if row_len == 0 {
        return;
    }
    let nrows = rows.len() / row_len;
    matrix_rowwise::<Gf16>(Backend::Avx2, rows, row_len, nrows, terms);
}

/// Elementwise multiplication is vectorized for GF(2^8) on every vector
/// backend, and for GF(2^16) on every vector backend but the shuffle-only
/// x86 ones (AVX2 and SSSE3 without GFNI), where it runs one element at a
/// time.
pub proof fn lemma_vector_elementwise_backends(host: Backend)
    ensures
        <crate::field::gf8::Gf8 as FieldKernels>::vector_elementwise(host) <==> host
            != Backend::Scalar,
        <Gf16 as FieldKernels>::vector_elementwise(host) <==> host != Backend::Scalar && (
        crate::kernel::backend::native_mul(host) || !crate::kernel::backend::for_arch(
            host,
            Arch::X86,
        )),
{
}

/// Both fields run their kernels on the backend the process selected, so
/// [`crate::kernel::backend_for`] reports that backend for each of them.
pub proof fn lemma_fields_use_host_backend(host: Backend)
    ensures
        <crate::field::gf8::Gf8 as FieldKernels>::backend_used(host) == host,
        <Gf16 as FieldKernels>::backend_used(host) == host,
{
}

/// Two AXPYs by `c1` and `c2` add up to one AXPY by `c1 + c2`.
pub proof fn lemma_mul_add_combines(d: Seq<u8>, s: Seq<u8>, c1: Elem, c2: Elem)
    requires
        s.len() % 2 == 0,
    ensures
        span_mul_add::<Gf16>(span_mul_add::<Gf16>(d, 0, c1, s), 0, c2, s) == span_mul_add::<Gf16>(
            d,
            0,
            Elem(c1.0 ^ c2.0),
            s,
        ),
{
    let twice = span_mul_add::<Gf16>(span_mul_add::<Gf16>(d, 0, c1, s), 0, c2, s);
    let once = span_mul_add::<Gf16>(d, 0, Elem(c1.0 ^ c2.0), s);
    assert forall|i: int| 0 <= i < d.len() implies twice[i] == once[i] by {
        if i < s.len() {
            let x = elem_at(s, i / 2);
            lemma_mul_commutative16(x, c1.0 ^ c2.0);
            lemma_mul_commutative16(x, c1.0);
            lemma_mul_commutative16(x, c2.0);
            lemma_mul_distributes16(c1.0, c2.0, x);
            lemma_xor_parts(gf16_mul(x, c1.0), gf16_mul(x, c2.0));
            crate::bits::lemma_xor(d[i], product16(c1.0, s, i), product16(c2.0, s, i));
        }
    }
    assert(twice =~= once);
}

/// Multiplying by one leaves a buffer unchanged, and an AXPY by zero adds
/// nothing.
pub proof fn lemma_unit_coefficients(d: Seq<u8>, s: Seq<u8>)
    requires
        d.len() % 2 == 0,
        s.len() % 2 == 0,
    ensures
        scaled_seq::<Gf16>(Elem(1), d) == d,
        span_mul_add::<Gf16>(d, 0, Elem(0), s) == d,
{
    assert forall|i: int| 0 <= i < d.len() implies scaled_seq::<Gf16>(Elem(1), d)[i] == d[i] by {
        let k = i / 2;
        lemma_mul_identity16(elem_at(d, k));
        lemma_parts(0, d[2 * k], d[2 * k + 1]);
    }
    assert(scaled_seq::<Gf16>(Elem(1), d) =~= d);
    assert forall|i: int| 0 <= i < d.len() implies span_mul_add::<Gf16>(d, 0, Elem(0), s)[i]
        == d[i] by {
        if i < s.len() {
            lemma_mul_identity16(elem_at(s, i / 2));
            assert(lo(0u16) == 0u8 && hi(0u16) == 0u8) by (bit_vector);
            crate::bits::lemma_xor(d[i], 0, 0);
        }
    }
    assert(span_mul_add::<Gf16>(d, 0, Elem(0), s) =~= d);
}

} // verus!
