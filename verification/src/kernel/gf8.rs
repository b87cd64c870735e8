//! GF(2^8) kernels over packed byte buffers.
//!
//! Each kernel scales whole 16-byte registers by split-nibble lookups and
//! finishes the sub-register tail one byte at a time.
use vstd::prelude::*;
use crate::field::Field;
use crate::field::gf8::{
    Elem,
    Gf8,
    gf8_mul,
    lemma_mul_commutative,
    lemma_mul_distributes_left,
    lemma_mul_identity,
    mul_byte,
};
use crate::kernel::backend::Backend;
use crate::kernel::tables::ScaleTable;
use crate::kernel::blocked::{
    gather_blocked,
    lemma_rows_fit,
    matrix_blocked,
    scatter_blocked,
    scatter_skipping,
    terms_cover,
};
use crate::kernel::{
    FieldKernels,
    lemma_matrix_empty,
    lemma_scatter_empty,
    ScaleKernels,
    Sealed,
    gather_rowwise,
    gather_seq,
    lanes,
    matrix_rowwise,
    matrix_seq,
    min_nat,
    pointwise_seq,
    scaled_seq,
    scatter_rowwise,
    scatter_seq,
    sources_fit,
    sources_of,
    span_mul_add,
    terms_fit,
};

verus! {

/// `dst[offset..][i] ^= c * src[i]` for `i` in `from..src.len()`, one byte at
/// a time.
fn mul_add_nibble(dst: &mut [u8], offset: usize, table: &ScaleTable, src: &[u8], from: usize)
    requires
        offset + src.len() <= old(dst).len(),
        from <= src@.len(),
    ensures
        final(dst)@.len() == old(dst)@.len(),
        forall|i: int|
            0 <= i < old(dst)@.len() ==> final(dst)@[i] == if offset + from <= i < offset
                + src@.len() {
                old(dst)@[i] ^ gf8_mul(table.coeff_of(), src@[i - offset])
            } else {
                old(dst)@[i]
            },
{
    let mut k = from;
    while k < src.len()
        invariant
            from <= k <= src@.len(),
            offset + src.len() <= old(dst).len(),
            dst@.len() == old(dst)@.len(),
            forall|i: int|
                0 <= i < old(dst)@.len() ==> dst@[i] == if offset + from <= i < offset + k {
                    old(dst)@[i] ^ gf8_mul(table.coeff_of(), src@[i - offset])
                } else {
                    old(dst)@[i]
                },
        decreases src@.len() - k,
    {
        let p = table.scale(src[k]);
        let d = dst[offset + k];
        dst[offset + k] = d ^ p;
        k = k + 1;
    }
}

/// `dst[offset + i] ^= c * src[i]` for every byte of `src`: whole registers
/// first, then the tail.
#[verifier::spinoff_prover]
#[verifier::rlimit(40)]
pub fn mul_add_at(dst: &mut [u8], offset: usize, table: &ScaleTable, src: &[u8])
    requires
        offset + src.len() <= old(dst).len(),
    ensures
        final(dst)@.len() == old(dst)@.len(),
        forall|i: int|
            0 <= i < old(dst)@.len() ==> final(dst)@[i] == if offset <= i < offset + src@.len() {
                old(dst)@[i] ^ gf8_mul(table.coeff_of(), src@[i - offset])
            } else {
                old(dst)@[i]
            },
{
    let len = src.len() & !15usize;
    proof {
        crate::bits::lemma_round_down(src.len());
    }
    let mut pos: usize = 0;
    while pos < len
        invariant
            pos <= len,
            len <= src@.len(),
            pos % 16 == 0,
            len % 16 == 0,
            offset + src.len() <= old(dst).len(),
            dst@.len() == old(dst)@.len(),
            forall|i: int|
                0 <= i < old(dst)@.len() ==> dst@[i] == if offset <= i < offset + pos {
                    old(dst)@[i] ^ gf8_mul(table.coeff_of(), src@[i - offset])
                } else {
                    old(dst)@[i]
                },
        decreases len - pos,
    {
        let d = lanes::load(dst, offset + pos);
        let s = lanes::load(src, pos);
        let scaled = lanes::scale_gf8(table, &s);
        let r = lanes::xor(&d, &scaled);
        lanes::store(dst, offset + pos, &r);
        pos = pos + 16;
    }
    mul_add_nibble(dst, offset, table, src, len);
}

/// `dst ^= c * src` over 16-byte registers, then the tail.
#[verifier::spinoff_prover]
#[verifier::rlimit(40)]
pub fn mul_add_simd128(dst: &mut [u8], table: &ScaleTable, src: &[u8])
    requires
        old(dst)@.len() == src@.len(),
    ensures
        final(dst)@ == span_mul_add::<Gf8>(old(dst)@, 0, Elem(table.coeff_of()), src@),
{
    mul_add_at(dst, 0, table, src);
    proof {
        assert(dst@ =~= span_mul_add::<Gf8>(old(dst)@, 0, Elem(table.coeff_of()), src@));
    }
}

/// `dst[i] = c * dst[i]` for every byte: whole registers first, then the tail.
#[verifier::spinoff_prover]
#[verifier::rlimit(40)]
pub fn mul_assign_simd128(dst: &mut [u8], table: &ScaleTable)
    ensures
        final(dst)@.len() == old(dst)@.len(),
        forall|i: int|
            0 <= i < old(dst)@.len() ==> final(dst)@[i] == gf8_mul(table.coeff_of(), old(dst)@[i]),
{
    let n = dst.len();
    let len = n & !15usize;
    proof {
        crate::bits::lemma_round_down(n);
    }
    let mut pos: usize = 0;
    while pos < len
        invariant
            pos <= len,
            len <= n,
            pos % 16 == 0,
            len % 16 == 0,
            n == old(dst)@.len(),
            dst@.len() == n,
            forall|i: int|
                0 <= i < n ==> dst@[i] == if i < pos {
                    gf8_mul(table.coeff_of(), old(dst)@[i])
                } else {
                    old(dst)@[i]
                },
        decreases len - pos,
    {
        let d = lanes::load(dst, pos);
        let r = lanes::scale_gf8(table, &d);
        lanes::store(dst, pos, &r);
        pos = pos + 16;
    }
    while pos < n
        invariant
            len <= pos <= n,
            n == old(dst)@.len(),
            dst@.len() == n,
            forall|i: int|
                0 <= i < n ==> dst@[i] == if i < pos {
                    gf8_mul(table.coeff_of(), old(dst)@[i])
                } else {
                    old(dst)@[i]
                },
        decreases n - pos,
    {
        let x = dst[pos];
        dst[pos] = table.scale(x);
        pos = pos + 1;
    }
}

/// `dst[i] = c * src[i]` for every byte, out of place.
#[verifier::spinoff_prover]
#[verifier::rlimit(40)]
pub fn mul_into_simd128(dst: &mut [u8], table: &ScaleTable, src: &[u8])
    requires
        old(dst)@.len() == src@.len(),
    ensures
        final(dst)@.len() == old(dst)@.len(),
        forall|i: int| 0 <= i < src@.len() ==> final(dst)@[i] == gf8_mul(table.coeff_of(), src@[i]),
{
    let n = src.len();
    let len = n & !15usize;
    proof {
        crate::bits::lemma_round_down(n);
    }
    let mut pos: usize = 0;
    while pos < len
        invariant
            pos <= len,
            len <= n,
            pos % 16 == 0,
            len % 16 == 0,
            n == src@.len(),
            dst@.len() == n,
            forall|i: int| 0 <= i < pos ==> dst@[i] == gf8_mul(table.coeff_of(), src@[i]),
        decreases len - pos,
    {
        let s = lanes::load(src, pos);
        let r = lanes::scale_gf8(table, &s);
        lanes::store(dst, pos, &r);
        pos = pos + 16;
    }
    while pos < n
        invariant
            len <= pos <= n,
            n == src@.len(),
            dst@.len() == n,
            forall|i: int| 0 <= i < pos ==> dst@[i] == gf8_mul(table.coeff_of(), src@[i]),
        decreases n - pos,
    {
        dst[pos] = table.scale(src[pos]);
        pos = pos + 1;
    }
}

/// `c * value` in every byte of a register, with a lane-parallel field multiply.
fn scale_native(c: u8, value: &[u8; 16]) -> (v: [u8; 16])
    ensures
        forall|i: int| 0 <= i < 16 ==> v[i] == gf8_mul(c, value[i]),
{
    let factor = lanes::splat(c);
    let v = lanes::multiply_vectors(value, &factor);
    proof {
        assert forall|i: int| 0 <= i < 16 implies v[i] == gf8_mul(c, value[i]) by {
            lemma_mul_commutative(value[i], c);
        }
    }
    v
}

/// `dst[offset + i] ^= c * src[i]` for every byte of `src`, with a
/// lane-parallel field multiply.
#[verifier::spinoff_prover]
#[verifier::rlimit(40)]
pub fn mul_add_native_at(dst: &mut [u8], offset: usize, c: u8, src: &[u8])
    requires
        offset + src.len() <= old(dst).len(),
    ensures
        final(dst)@.len() == old(dst)@.len(),
        forall|i: int|
            0 <= i < old(dst)@.len() ==> final(dst)@[i] == if offset <= i < offset + src@.len() {
                old(dst)@[i] ^ gf8_mul(c, src@[i - offset])
            } else {
                old(dst)@[i]
            },
{
    let n = src.len();
    let len = n & !15usize;
    proof {
        crate::bits::lemma_round_down(n);
    }
    let mut pos: usize = 0;
    while pos < len
        invariant
            pos <= len,
            len <= n,
            pos % 16 == 0,
            len % 16 == 0,
            n == src@.len(),
            offset + src.len() <= old(dst).len(),
            dst@.len() == old(dst)@.len(),
            forall|i: int|
                0 <= i < old(dst)@.len() ==> dst@[i] == if offset <= i < offset + pos {
                    old(dst)@[i] ^ gf8_mul(c, src@[i - offset])
                } else {
                    old(dst)@[i]
                },
        decreases len - pos,
    {
        let d = lanes::load(dst, offset + pos);
        let s = lanes::load(src, pos);
        let scaled = scale_native(c, &s);
        let r = lanes::xor(&d, &scaled);
        lanes::store(dst, offset + pos, &r);
        pos = pos + 16;
    }
    while pos < n
        invariant
            len <= pos <= n,
            n == src@.len(),
            offset + src.len() <= old(dst).len(),
            dst@.len() == old(dst)@.len(),
            forall|i: int|
                0 <= i < old(dst)@.len() ==> dst@[i] == if offset <= i < offset + pos {
                    old(dst)@[i] ^ gf8_mul(c, src@[i - offset])
                } else {
                    old(dst)@[i]
                },
        decreases n - pos,
    {
        let p = mul_byte(c, src[pos]);
        let d = dst[offset + pos];
        dst[offset + pos] = d ^ p;
        pos = pos + 1;
    }
}

/// `dst[i] = c * dst[i]` for every byte, with a lane-parallel field multiply.
#[verifier::spinoff_prover]
#[verifier::rlimit(40)]
pub fn mul_assign_native(dst: &mut [u8], c: u8)
    ensures
        final(dst)@.len() == old(dst)@.len(),
        forall|i: int| 0 <= i < old(dst)@.len() ==> final(dst)@[i] == gf8_mul(c, old(dst)@[i]),
{
    let n = dst.len();
    let len = n & !15usize;
    proof {
        crate::bits::lemma_round_down(n);
    }
    let mut pos: usize = 0;
    while pos < len
        invariant
            pos <= len,
            len <= n,
            pos % 16 == 0,
            len % 16 == 0,
            n == old(dst)@.len(),
            dst@.len() == n,
            forall|i: int|
                0 <= i < n ==> dst@[i] == if i < pos {
                    gf8_mul(c, old(dst)@[i])
                } else {
                    old(dst)@[i]
                },
        decreases len - pos,
    {
        let d = lanes::load(dst, pos);
        let r = scale_native(c, &d);
        lanes::store(dst, pos, &r);
        pos = pos + 16;
    }
    while pos < n
        invariant
            len <= pos <= n,
            n == old(dst)@.len(),
            dst@.len() == n,
            forall|i: int|
                0 <= i < n ==> dst@[i] == if i < pos {
                    gf8_mul(c, old(dst)@[i])
                } else {
                    old(dst)@[i]
                },
        decreases n - pos,
    {
        let x = dst[pos];
        dst[pos] = mul_byte(c, x);
        pos = pos + 1;
    }
}

/// `dst[i] = c * src[i]` for every byte, out of place, with a lane-parallel
/// field multiply.
#[verifier::spinoff_prover]
#[verifier::rlimit(40)]
pub fn mul_into_native(dst: &mut [u8], c: u8, src: &[u8])
    requires
        old(dst)@.len() == src@.len(),
    ensures
        final(dst)@.len() == old(dst)@.len(),
        forall|i: int| 0 <= i < src@.len() ==> final(dst)@[i] == gf8_mul(c, src@[i]),
{
    let n = src.len();
    let len = n & !15usize;
    proof {
        crate::bits::lemma_round_down(n);
    }
    let mut pos: usize = 0;
    while pos < len
        invariant
            pos <= len,
            len <= n,
            pos % 16 == 0,
            len % 16 == 0,
            n == src@.len(),
            dst@.len() == n,
            forall|i: int| 0 <= i < pos ==> dst@[i] == gf8_mul(c, src@[i]),
        decreases len - pos,
    {
        let s = lanes::load(src, pos);
        let r = scale_native(c, &s);
        lanes::store(dst, pos, &r);
        pos = pos + 16;
    }
    while pos < n
        invariant
            len <= pos <= n,
            n == src@.len(),
            dst@.len() == n,
            forall|i: int| 0 <= i < pos ==> dst@[i] == gf8_mul(c, src@[i]),
        decreases n - pos,
    {
        dst[pos] = mul_byte(c, src[pos]);
        pos = pos + 1;
    }
}

/// `dst[i] = a[i] * b[i]` for every byte: both operands vary, so each
/// register pair is multiplied lane by lane.
#[verifier::spinoff_prover]
#[verifier::rlimit(40)]
pub fn elementwise_simd128(dst: &mut [u8], a: &[u8], b: &[u8])
    requires
        old(dst)@.len() == a@.len(),
        old(dst)@.len() == b@.len(),
    ensures
        final(dst)@.len() == old(dst)@.len(),
        forall|i: int| 0 <= i < a@.len() ==> final(dst)@[i] == gf8_mul(a@[i], b@[i]),
{
    let n = a.len();
    let len = n & !15usize;
    proof {
        crate::bits::lemma_round_down(n);
    }
    let mut pos: usize = 0;
    while pos < len
        invariant
            pos <= len,
            len <= n,
            pos % 16 == 0,
            len % 16 == 0,
            n == a@.len(),
            n == b@.len(),
            dst@.len() == n,
            forall|i: int| 0 <= i < pos ==> dst@[i] == gf8_mul(a@[i], b@[i]),
        decreases len - pos,
    {
        let x = lanes::load(a, pos);
        let y = lanes::load(b, pos);
        let r = lanes::multiply_vectors(&x, &y);
        lanes::store(dst, pos, &r);
        pos = pos + 16;
    }
    while pos < n
        invariant
            len <= pos <= n,
            n == a@.len(),
            n == b@.len(),
            dst@.len() == n,
            forall|i: int| 0 <= i < pos ==> dst@[i] == gf8_mul(a@[i], b@[i]),
        decreases n - pos,
    {
        dst[pos] = mul_byte(a[pos], b[pos]);
        pos = pos + 1;
    }
}

/// A GF(2^8) coefficient resolved into the form this host's backend wants.
#[derive(Clone, Copy, Debug)]
pub enum Prepared {
    /// Native byte multiply: the coefficient itself, broadcast per use.
    Native(Elem),
    /// Shuffle backends and the portable path: split-nibble tables.
    Table(ScaleTable),
}

impl Prepared {
    /// The coefficient this was built from.
    pub open spec fn coeff_spec(self) -> Elem {
        match self {
            Prepared::Native(e) => e,
            Prepared::Table(t) => Elem(t.coeff_of()),
        }
    }

    /// The coefficient this was built from.
    pub fn coeff(&self) -> (c: Elem)
        ensures
            c == self.coeff_spec(),
    {
        match self {
            Prepared::Native(e) => *e,
            Prepared::Table(t) => t.coeff(),
        }
    }
}

impl Sealed for Gf8 {
}

impl ScaleKernels for Gf8 {
    type Prepared = Prepared;

    open spec fn coeff_of(prepared: Prepared) -> Elem {
        prepared.coeff_spec()
    }

    /// A byte-wide field multiply takes the coefficient itself; every other
    /// backend, the portable path included, takes the split-nibble tables.
    open spec fn form_for(host: Backend, prepared: Prepared) -> bool {
        match host {
            Backend::Avx512 | Backend::Gfni => prepared is Native,
            _ => prepared is Table,
        }
    }

    fn prepare(host: Backend, coeff: Elem) -> (prepared: Prepared) {
        match host {
            Backend::Avx512 | Backend::Gfni => Prepared::Native(coeff),
            _ => Prepared::Table(ScaleTable::new(coeff)),
        }
    }

    fn is_zero(coeff: Elem) -> (zero: bool) {
        coeff.0 == 0
    }

    fn scale_register(coeff: &Prepared, v: &[u8; 16]) -> (r: [u8; 16]) {
        match coeff {
            Prepared::Native(c) => scale_native(c.0, v),
            Prepared::Table(t) => lanes::scale_gf8(t, v),
        }
    }

    fn mul_add_at(dst: &mut [u8], offset: usize, coeff: &Prepared, src: &[u8]) {
        match coeff {
            Prepared::Native(c) => mul_add_native_at(dst, offset, c.0, src),
            Prepared::Table(t) => mul_add_at(dst, offset, t, src),
        }
        proof {
            assert(dst@ =~= span_mul_add::<Gf8>(
                old(dst)@,
                offset as int,
                Gf8::coeff_of(*coeff),
                src@,
            ));
        }
    }
}

impl FieldKernels for Gf8 {
    open spec fn backend_used(host: Backend) -> Backend {
        host
    }

    open spec fn vector_elementwise(host: Backend) -> bool {
        host != Backend::Scalar
    }

    fn bytes() -> (n: usize) {
        1
    }

    fn prepared_coeff(prepared: &Prepared) -> (coeff: Elem) {
        prepared.coeff()
    }

    fn active_backend(host: Backend) -> (b: Backend) {
        host
    }

    fn has_vector_elementwise(host: Backend) -> (vectorized: bool) {
        host != Backend::Scalar
    }

    fn mul_add_scatter(host: Backend, rows: &mut [u8], row_len: usize, coeffs: &[Elem], src: &[u8]) {
        if row_len == 0 {
            return;
        }
        match host {
            Backend::Avx512 | Backend::Gfni => {
                if coeffs.len() <= rows.len() / row_len {
                    proof {
                        lemma_rows_fit(rows.len() as int, row_len as int, coeffs.len() as int);
                    }
                    scatter_gfni(rows, row_len, coeffs, src)
                } else {
                    scatter_rowwise::<Gf8>(host, rows, row_len, coeffs, src)
                }
            },
            Backend::Avx2 | Backend::Ssse3 => scatter_ssse3(rows, row_len, coeffs, src),
            _ => scatter_rowwise::<Gf8>(host, rows, row_len, coeffs, src),
        }
    }

    fn mul_add_gather(host: Backend, dst: &mut [u8], coeffs: &[Elem], srcs: &[&[u8]]) {
        match host {
            Backend::Avx512 | Backend::Gfni => gather_gfni(dst, coeffs, srcs),
            Backend::Avx2 | Backend::Ssse3 => gather_ssse3(dst, coeffs, srcs),
            _ => gather_rowwise::<Gf8>(host, dst, coeffs, srcs),
        }
    }

    fn mul_add_matrix(
        host: Backend,
        rows: &mut [u8],
        row_len: usize,
        nrows: usize,
        terms: &[(&[Elem], &[u8])],
    ) {
        if row_len == 0 {
            return;
        }
        match host {
            Backend::Avx512 | Backend::Gfni => {
                if nrows <= rows.len() / row_len && terms_cover(terms, nrows) {
                    proof {
                        lemma_rows_fit(rows.len() as int, row_len as int, nrows as int);
                    }
                    matrix_gfni(rows, row_len, nrows, terms)
                } else {
                    matrix_rowwise::<Gf8>(host, rows, row_len, nrows, terms)
                }
            },
            _ => matrix_rowwise::<Gf8>(host, rows, row_len, nrows, terms),
        }
    }

    fn mul_assign(dst: &mut [u8], coeff: &Prepared) {
        match coeff {
            Prepared::Native(c) => mul_assign_native(dst, c.0),
            Prepared::Table(t) => mul_assign_simd128(dst, t),
        }
        proof {
            assert(dst@ =~= scaled_seq::<Gf8>(Gf8::coeff_of(*coeff), old(dst)@));
        }
    }

    fn mul_into(dst: &mut [u8], coeff: &Prepared, src: &[u8]) {
        match coeff {
            Prepared::Native(c) => mul_into_native(dst, c.0, src),
            Prepared::Table(t) => mul_into_simd128(dst, t, src),
        }
        proof {
            assert(dst@ =~= scaled_seq::<Gf8>(Gf8::coeff_of(*coeff), src@));
        }
    }

    fn mul_elementwise(host: Backend, dst: &mut [u8], a: &[u8], b: &[u8]) {
        elementwise_simd128(dst, a, b);
        proof {
            assert(dst@ =~= pointwise_seq::<Gf8>(a@, b@));
        }
    }
}

/// One source into many rows with a lane-parallel field multiply. Rows with
/// a zero coefficient are dropped before grouping, so a sparse coefficient
/// vector costs no row traffic for them; the rest go in groups of four, then
/// a pair, then a single row, each group reading every source register once
/// for all of its rows. `rows` must hold a row for every coefficient.
pub fn scatter_gfni(rows: &mut [u8], row_len: usize, coeffs: &[Elem], src: &[u8])
    requires
        src@.len() == row_len,
        coeffs@.len() * row_len <= old(rows)@.len(),
    ensures
        final(rows)@ == scatter_seq::<Gf8>(
            old(rows)@,
            row_len as nat,
            coeffs@,
            src@,
            coeffs@.len(),
        ),
        row_len == 0 ==> final(rows)@ == old(rows)@,
{
    if row_len > 0 {
        proof {
            vstd::arithmetic::div_mod::lemma_div_is_ordered(
                coeffs@.len() * row_len,
                rows@.len() as int,
                row_len as int,
            );
            vstd::arithmetic::div_mod::lemma_div_multiples_vanish(
                coeffs@.len() as int,
                row_len as int,
            );
            assert(row_len * coeffs@.len() == coeffs@.len() * row_len) by (nonlinear_arith);
        }
    } else {
        proof {
            lemma_scatter_empty::<Gf8>(rows@, 0, coeffs@, src@, coeffs@.len());
        }
    }
    scatter_skipping::<Gf8>(Backend::Gfni, rows, row_len, coeffs, src);
}

/// One source into many rows with split-nibble tables, four rows at a time:
/// each source register is split into nibbles once per group. The 256-bit
/// form is two of these registers side by side.
pub fn scatter_ssse3(rows: &mut [u8], row_len: usize, coeffs: &[Elem], src: &[u8])
    requires
        row_len > 0 ==> src@.len() == row_len,
    ensures
        row_len > 0 ==> final(rows)@ == scatter_seq::<Gf8>(
            old(rows)@,
            row_len as nat,
            coeffs@,
            src@,
            min_nat(coeffs@.len(), old(rows)@.len() / (row_len as nat)),
        ),
        row_len == 0 ==> final(rows)@ == old(rows)@,
{
    scatter_blocked::<Gf8>(Backend::Ssse3, rows, row_len, coeffs, src, 4, false);
}

/// Many sources into one destination with a lane-parallel field multiply:
/// every source is folded into a destination register before it is written
/// back, so the destination is read and written once.
pub fn gather_gfni(dst: &mut [u8], coeffs: &[Elem], srcs: &[&[u8]])
    requires
        sources_fit(sources_of(srcs@), min_nat(coeffs@.len(), srcs@.len()), old(dst)@.len()),
    ensures
        final(dst)@ == gather_seq::<Gf8>(
            old(dst)@,
            coeffs@,
            sources_of(srcs@),
            min_nat(coeffs@.len(), srcs@.len()),
        ),
{
    gather_blocked::<Gf8>(Backend::Gfni, dst, coeffs, srcs, usize::MAX);
}

/// Many sources into one destination with split-nibble tables, four table
/// pairs per pass: each destination register is read and written once per
/// four sources.
pub fn gather_ssse3(dst: &mut [u8], coeffs: &[Elem], srcs: &[&[u8]])
    requires
        sources_fit(sources_of(srcs@), min_nat(coeffs@.len(), srcs@.len()), old(dst)@.len()),
    ensures
        final(dst)@ == gather_seq::<Gf8>(
            old(dst)@,
            coeffs@,
            sources_of(srcs@),
            min_nat(coeffs@.len(), srcs@.len()),
        ),
{
    gather_blocked::<Gf8>(Backend::Ssse3, dst, coeffs, srcs, 4);
}

/// Many sources into many rows with a lane-parallel field multiply. Rows go
/// in groups of four, then a pair, then one; every term is folded into a
/// tile of each row of the group before the tile is written back, so
/// destination traffic does not grow with the number of terms. `rows` must
/// hold `nrows` rows, and every term must cover every one of them.
pub fn matrix_gfni(rows: &mut [u8], row_len: usize, nrows: usize, terms: &[(&[Elem], &[u8])])
    requires
        nrows * row_len <= old(rows)@.len(),
        terms_fit(terms@.map_values(|t: (&[Elem], &[u8])| (t.0@, t.1@)), row_len as nat),
        forall|t: int| 0 <= t < terms@.len() ==> nrows <= (#[trigger] terms@[t]).0@.len(),
    ensures
        final(rows)@ == matrix_seq::<Gf8>(
            old(rows)@,
            row_len as nat,
            nrows as nat,
            terms@.map_values(|t: (&[Elem], &[u8])| (t.0@, t.1@)),
            terms@.len(),
        ),
        row_len == 0 ==> final(rows)@ == old(rows)@,
{
    proof {
        if row_len == 0 {
            lemma_matrix_empty::<Gf8>(
                rows@,
                nrows as nat,
                terms@.map_values(|t: (&[Elem], &[u8])| (t.0@, t.1@)),
                terms@.len(),
            );
        }
    }
    matrix_blocked::<Gf8>(Backend::Gfni, rows, row_len, nrows, terms, 4, true, usize::MAX);
}

/// Two AXPYs by `c1` and `c2` add up to one AXPY by `c1 + c2`.
pub proof fn lemma_mul_add_combines(d: Seq<u8>, s: Seq<u8>, c1: Elem, c2: Elem)
    ensures
        span_mul_add::<Gf8>(span_mul_add::<Gf8>(d, 0, c1, s), 0, c2, s) == span_mul_add::<Gf8>(
            d,
            0,
            Elem(c1.0 ^ c2.0),
            s,
        ),
{
    let twice = span_mul_add::<Gf8>(span_mul_add::<Gf8>(d, 0, c1, s), 0, c2, s);
    let once = span_mul_add::<Gf8>(d, 0, Elem(c1.0 ^ c2.0), s);
    assert forall|i: int| 0 <= i < d.len() implies twice[i] == once[i] by {
        if i < s.len() {
            lemma_mul_distributes_left(c1.0, c2.0, s[i]);
            crate::bits::lemma_xor(d[i], gf8_mul(c1.0, s[i]), gf8_mul(c2.0, s[i]));
        }
    }
    assert(twice =~= once);
}

/// Multiplying by one leaves a buffer unchanged, and an AXPY by zero adds
/// nothing.
pub proof fn lemma_unit_coefficients(d: Seq<u8>, s: Seq<u8>)
    ensures
        scaled_seq::<Gf8>(Elem(1), d) == d,
        span_mul_add::<Gf8>(d, 0, Elem(0), s) == d,
{
    assert forall|i: int| 0 <= i < d.len() implies scaled_seq::<Gf8>(Elem(1), d)[i] == d[i] by {
        lemma_mul_identity(d[i]);
    }
    assert(scaled_seq::<Gf8>(Elem(1), d) =~= d);
    assert forall|i: int| 0 <= i < d.len() implies span_mul_add::<Gf8>(d, 0, Elem(0), s)[i]
        == d[i] by {
        if i < s.len() {
            lemma_mul_identity(s[i]);
            crate::bits::lemma_xor(d[i], 0, 0);
        }
    }
    assert(span_mul_add::<Gf8>(d, 0, Elem(0), s) =~= d);
}

} // verus!
