//! Vector kernels and backend selection.
//!
//! - [`backend`]: which instruction set the kernels use, and how it is chosen.
//! - [`FieldKernels`]: the per-field kernel contract over packed buffers.
//! - [`lanes`]: one vector register and the operations the kernels build on.
//! - [`blocked`]: the register-blocked multi-row and multi-source kernels,
//!   shared by both fields.
//! - [`gf8`] / [`gf16`]: the kernels of each field, and which shape each
//!   backend runs.
pub mod backend;
pub mod blocked;
pub mod gf16;
pub mod gf8;
pub mod lanes;
pub mod tables;

use vstd::prelude::*;
use crate::field::Field;
pub use self::backend::{Arch, Backend, HostFeatures, ParseBackendError, resolve_backend};

verus! {

/// Marks the fields that implement [`FieldKernels`].
pub trait Sealed {
}

/// `d` with `coeff * src` added into the span of `src.len()` bytes starting
/// at `offset`.
pub open spec fn span_mul_add<F: Field>(
    d: Seq<u8>,
    offset: int,
    coeff: F::Elem,
    src: Seq<u8>,
) -> Seq<u8> {
    Seq::new(
        d.len(),
        |i: int|
            if offset <= i < offset + src.len() {
                d[i] ^ F::product_byte(coeff, src, i - offset)
            } else {
                d[i]
            },
    )
}

/// `coeff * src`, byte by byte.
pub open spec fn scaled_seq<F: Field>(coeff: F::Elem, src: Seq<u8>) -> Seq<u8> {
    Seq::new(src.len(), |i: int| F::product_byte(coeff, src, i))
}

/// The elementwise product of `a` and `b`, byte by byte.
pub open spec fn pointwise_seq<F: Field>(a: Seq<u8>, b: Seq<u8>) -> Seq<u8> {
    Seq::new(a.len(), |i: int| F::pointwise_byte(a, b, i))
}

/// `rows[j] ^= coeffs[j] * src` applied to the first `n` rows of `row_len`
/// bytes.
pub open spec fn scatter_seq<F: Field>(
    rows: Seq<u8>,
    row_len: nat,
    coeffs: Seq<F::Elem>,
    src: Seq<u8>,
    n: nat,
) -> Seq<u8>
    decreases n,
{
    if n == 0 {
        rows
    } else {
        span_mul_add::<F>(
            scatter_seq::<F>(rows, row_len, coeffs, src, (n - 1) as nat),
            (n - 1) * row_len,
            coeffs[n - 1],
            src,
        )
    }
}

/// `dst ^= coeffs[i] * srcs[i]` applied for each of the first `n` sources.
pub open spec fn gather_seq<F: Field>(
    dst: Seq<u8>,
    coeffs: Seq<F::Elem>,
    srcs: Seq<Seq<u8>>,
    n: nat,
) -> Seq<u8>
    decreases n,
{
    if n == 0 {
        dst
    } else {
        span_mul_add::<F>(gather_seq::<F>(dst, coeffs, srcs, (n - 1) as nat), 0, coeffs[n - 1], srcs[n - 1])
    }
}

/// The smaller of two counts.
pub open spec fn min_nat(a: nat, b: nat) -> nat {
    if a <= b {
        a
    } else {
        b
    }
}

/// For each of the first `t` terms `(coeffs, src)`, `rows[j] ^= coeffs[j] * src`
/// for every row `j` that exists, is below `nrows`, and has a coefficient.
pub open spec fn matrix_seq<F: Field>(
    rows: Seq<u8>,
    row_len: nat,
    nrows: nat,
    terms: Seq<(Seq<F::Elem>, Seq<u8>)>,
    t: nat,
) -> Seq<u8>
    decreases t,
{
    if t == 0 {
        rows
    } else {
        let term = terms[t - 1];
        scatter_seq::<F>(
            matrix_seq::<F>(rows, row_len, nrows, terms, (t - 1) as nat),
            row_len,
            term.0,
            term.1,
            min_nat(min_nat(nrows, rows.len() / row_len), term.0.len()),
        )
    }
}

/// The contents of a slice of source buffers.
pub open spec fn sources_of(srcs: Seq<&[u8]>) -> Seq<Seq<u8>> {
    srcs.map_values(|s: &[u8]| s@)
}

/// Whether every one of the first `n` sources holds exactly `len` bytes.
pub open spec fn sources_fit(srcs: Seq<Seq<u8>>, n: nat, len: nat) -> bool {
    forall|i: int| 0 <= i < n ==> #[trigger] srcs[i].len() == len
}

/// Whether every term's source holds exactly `row_len` bytes.
pub open spec fn terms_fit<E>(terms: Seq<(Seq<E>, Seq<u8>)>, row_len: nat) -> bool {
    forall|t: int| 0 <= t < terms.len() ==> #[trigger] terms[t].1.len() == row_len
}

/// The terms of a flat row-major plan: term `t` pairs the `nrows`
/// coefficients starting at `t * nrows` with source `t`.
pub open spec fn plan_terms<E>(values: Seq<E>, srcs: Seq<Seq<u8>>, nrows: nat) -> Seq<(Seq<E>, Seq<u8>)> {
    Seq::new(srcs.len(), |t: int| (values.subrange(t * nrows, t * nrows + nrows), srcs[t]))
}

/// A scatter of an empty source leaves the rows as they were, whatever the
/// number of rows it covers.
pub proof fn lemma_scatter_empty<F: Field>(
    rows: Seq<u8>,
    row_len: nat,
    coeffs: Seq<F::Elem>,
    src: Seq<u8>,
    n: nat,
)
    requires
        src.len() == 0,
    ensures
        scatter_seq::<F>(rows, row_len, coeffs, src, n) == rows,
    decreases n,
{
    if n > 0 {
        lemma_scatter_empty::<F>(rows, row_len, coeffs, src, (n - 1) as nat);
        assert(span_mul_add::<F>(rows, (n - 1) * row_len, coeffs[n - 1], src) =~= rows);
    }
}

/// A matrix update over rows of no bytes leaves the rows as they were.
pub proof fn lemma_matrix_empty<F: Field>(
    rows: Seq<u8>,
    nrows: nat,
    terms: Seq<(Seq<F::Elem>, Seq<u8>)>,
    t: nat,
)
    requires
        t <= terms.len(),
        terms_fit(terms, 0),
    ensures
        matrix_seq::<F>(rows, 0, nrows, terms, t) == rows,
    decreases t,
{
    if t > 0 {
        lemma_matrix_empty::<F>(rows, nrows, terms, (t - 1) as nat);
        let term = terms[t - 1];
        lemma_scatter_empty::<F>(
            rows,
            0,
            term.0,
            term.1,
            min_nat(min_nat(nrows, rows.len() / 0), term.0.len()),
        );
    }
}

/// Two rows of `row_len` bytes fit below `limit` rows.
proof fn lemma_row_in_bounds(j: nat, n: nat, row_len: nat, total: nat)
    requires
        j < n,
        n <= total / row_len,
        row_len > 0,
    ensures
        j * row_len + row_len <= total,
        n * row_len <= total,
{
    assert(n * row_len <= (total / row_len) * row_len) by (nonlinear_arith)
        requires
            n <= total / row_len,
    ;
    assert((total / row_len) * row_len <= total) by (nonlinear_arith)
        requires
            row_len > 0,
    ;
    assert(j * row_len + row_len <= n * row_len) by (nonlinear_arith)
        requires
            j < n,
    ;
}

/// Copy `src` over `dst`.
pub fn copy_bytes(dst: &mut [u8], src: &[u8])
    requires
        old(dst)@.len() == src@.len(),
    ensures
        final(dst)@ == src@,
{
    let n = src.len();
    let mut i: usize = 0;
    while i < n
        invariant
            i <= n,
            n == src@.len(),
            dst@.len() == n,
            forall|j: int| 0 <= j < i ==> dst@[j] == src@[j],
        decreases n - i,
    {
        dst[i] = src[i];
        i = i + 1;
    }
    proof {
        assert(dst@ =~= src@);
    }
}

/// Scaling by one prepared coefficient: the primitive every kernel shape of
/// a field is built from.
pub trait ScaleKernels: Field {
    /// The backend-ready form of one coefficient.
    type Prepared;

    /// The coefficient a prepared coefficient was built from.
    spec fn coeff_of(prepared: Self::Prepared) -> Self::Elem;

    /// Whether `prepared` is in the form the kernels of `host` consume.
    spec fn form_for(host: Backend, prepared: Self::Prepared) -> bool;

    /// Resolve a coefficient into the form `host` wants.
    fn prepare(host: Backend, coeff: Self::Elem) -> (prepared: Self::Prepared)
        ensures
            Self::coeff_of(prepared) == coeff,
            Self::form_for(host, prepared),
    ;

    /// Whether a raw coefficient is zero, and so adds nothing.
    fn is_zero(coeff: Self::Elem) -> (zero: bool)
        ensures
            zero == (coeff == Self::zero()),
    ;

    /// `coeff * v` over one register of whole elements.
    fn scale_register(coeff: &Self::Prepared, v: &[u8; 16]) -> (r: [u8; 16])
        ensures
            forall|i: int|
                0 <= i < 16 ==> r[i] == Self::product_byte(Self::coeff_of(*coeff), v@, i),
    ;

    /// `dst[offset..offset + src.len()] ^= coeff * src`.
    fn mul_add_at(dst: &mut [u8], offset: usize, coeff: &Self::Prepared, src: &[u8])
        requires
            offset + src.len() <= old(dst).len(),
            src@.len() % Self::elem_bytes() == 0,
        ensures
            final(dst)@ == span_mul_add::<Self>(
                old(dst)@,
                offset as int,
                Self::coeff_of(*coeff),
                src@,
            ),
    ;
}

/// The per-field vector kernel contract.
///
/// All slice lengths are in bytes and are whole multiples of the field's
/// element width. Rows of no bytes leave the scatter and matrix kernels
/// nothing to update, whatever the sources hold. Kernels that take raw coefficients resolve them for the
/// backend `host` the process runs on. The one-coefficient primitives live
/// in [`ScaleKernels`], which the multi-row kernels shared by both fields are
/// written against.
pub trait FieldKernels: ScaleKernels + Sealed {
    /// The backend this field's kernels use on a host running `host`.
    spec fn backend_used(host: Backend) -> Backend;

    /// Whether elementwise multiplication is vectorized on `host`.
    spec fn vector_elementwise(host: Backend) -> bool;

    /// Bytes per element.
    fn bytes() -> (n: usize)
        ensures
            n == Self::elem_bytes(),
            n >= 1,
    ;

    /// Recover the coefficient a prepared coefficient was built from.
    fn prepared_coeff(prepared: &Self::Prepared) -> (coeff: Self::Elem)
        ensures
            coeff == Self::coeff_of(*prepared),
    ;

    /// Backend used by this field's kernels.
    fn active_backend(host: Backend) -> (b: Backend)
        ensures
            b == Self::backend_used(host),
    ;

    /// Whether [`FieldKernels::mul_elementwise`] uses a vector implementation.
    fn has_vector_elementwise(host: Backend) -> (vectorized: bool)
        ensures
            vectorized == Self::vector_elementwise(host),
    ;

    /// `dst *= coeff`, in place.
    fn mul_assign(dst: &mut [u8], coeff: &Self::Prepared)
        requires
            old(dst)@.len() % Self::elem_bytes() == 0,
        ensures
            final(dst)@ == scaled_seq::<Self>(Self::coeff_of(*coeff), old(dst)@),
    ;

    /// `dst[i] = a[i] * b[i]`, elementwise over two full vectors.
    fn mul_elementwise(host: Backend, dst: &mut [u8], a: &[u8], b: &[u8])
        requires
            old(dst)@.len() == a@.len(),
            old(dst)@.len() == b@.len(),
            a@.len() % Self::elem_bytes() == 0,
        ensures
            final(dst)@ == pointwise_seq::<Self>(a@, b@),
    ;

    /// `dst ^= coeff * src`. The workhorse AXPY.
    fn mul_add(dst: &mut [u8], coeff: &Self::Prepared, src: &[u8])
        requires
            old(dst)@.len() == src@.len(),
            src@.len() % Self::elem_bytes() == 0,
        ensures
            final(dst)@ == span_mul_add::<Self>(old(dst)@, 0, Self::coeff_of(*coeff), src@),
    {
        Self::mul_add_at(dst, 0, coeff, src);
    }

    /// `dst = coeff * src`, out of place: copy, then scale in place.
    fn mul_into(dst: &mut [u8], coeff: &Self::Prepared, src: &[u8])
        requires
            old(dst)@.len() == src@.len(),
            src@.len() % Self::elem_bytes() == 0,
        ensures
            final(dst)@ == scaled_seq::<Self>(Self::coeff_of(*coeff), src@),
    {
        copy_bytes(dst, src);
        Self::mul_assign(dst, coeff);
    }

    /// One source into many rows: `rows[j] ^= coeffs[j] * src` for each row
    /// `j` of `row_len` bytes that has a coefficient.
    fn mul_add_scatter_with(rows: &mut [u8], row_len: usize, coeffs: &[Self::Prepared], src: &[u8])
        requires
            row_len > 0 ==> src@.len() == row_len,
            (row_len as nat) % Self::elem_bytes() == 0,
        ensures
            row_len > 0 ==> final(rows)@ == scatter_seq::<Self>(
                old(rows)@,
                row_len as nat,
                coeffs@.map_values(|p: Self::Prepared| Self::coeff_of(p)),
                src@,
                min_nat(coeffs@.len(), old(rows)@.len() / (row_len as nat)),
            ),
            row_len == 0 ==> final(rows)@ == old(rows)@,
    {
        let ghost values = coeffs@.map_values(|p: Self::Prepared| Self::coeff_of(p));
        if row_len == 0 {
            return;
        }
        let count = rows.len() / row_len;
        let n = if coeffs.len() < count {
            coeffs.len()
        } else {
            count
        };
        let mut j: usize = 0;
        while j < n
            invariant
                j <= n,
                n == min_nat(coeffs@.len(), old(rows)@.len() / (row_len as nat)),
                n <= coeffs@.len(),
                n <= old(rows)@.len() / (row_len as nat),
                row_len > 0,
                src@.len() == row_len,
                (row_len as nat) % Self::elem_bytes() == 0,
                values == coeffs@.map_values(|p: Self::Prepared| Self::coeff_of(p)),
                rows@.len() == old(rows)@.len(),
                rows@ == scatter_seq::<Self>(old(rows)@, row_len as nat, values, src@, j as nat),
            decreases n - j,
        {
            proof {
                lemma_row_in_bounds(j as nat, n as nat, row_len as nat, rows.len() as nat);
            }
            Self::mul_add_at(rows, j * row_len, &coeffs[j], src);
            j = j + 1;
        }
    }

    /// Prepared-plan scatter with access to both the raw and the resolved
    /// coefficients.
    fn mul_add_scatter_plan(
        rows: &mut [u8],
        row_len: usize,
        values: &[Self::Elem],
        coeffs: &[Self::Prepared],
        src: &[u8],
    )
        requires
            row_len > 0 ==> src@.len() == row_len,
            (row_len as nat) % Self::elem_bytes() == 0,
        ensures
            row_len > 0 ==> final(rows)@ == scatter_seq::<Self>(
                old(rows)@,
                row_len as nat,
                coeffs@.map_values(|p: Self::Prepared| Self::coeff_of(p)),
                src@,
                min_nat(coeffs@.len(), old(rows)@.len() / (row_len as nat)),
            ),
            row_len == 0 ==> final(rows)@ == old(rows)@,
    {
        Self::mul_add_scatter_with(rows, row_len, coeffs, src);
    }

    /// One source into many rows, from raw coefficients resolved for `host`.
    fn mul_add_scatter(
        host: Backend,
        rows: &mut [u8],
        row_len: usize,
        coeffs: &[Self::Elem],
        src: &[u8],
    )
        requires
            row_len > 0 ==> src@.len() == row_len,
            (row_len as nat) % Self::elem_bytes() == 0,
        ensures
            row_len > 0 ==> final(rows)@ == scatter_seq::<Self>(
                old(rows)@,
                row_len as nat,
                coeffs@,
                src@,
                min_nat(coeffs@.len(), old(rows)@.len() / (row_len as nat)),
            ),
            row_len == 0 ==> final(rows)@ == old(rows)@,
    ;

    /// Many sources into one row: `dst ^= sum(coeffs[i] * srcs[i])`.
    fn mul_add_gather_with(dst: &mut [u8], coeffs: &[Self::Prepared], srcs: &[&[u8]])
        requires
            old(dst)@.len() % Self::elem_bytes() == 0,
            sources_fit(
                sources_of(srcs@),
                min_nat(coeffs@.len(), srcs@.len()),
                old(dst)@.len(),
            ),
        ensures
            final(dst)@ == gather_seq::<Self>(
                old(dst)@,
                coeffs@.map_values(|p: Self::Prepared| Self::coeff_of(p)),
                sources_of(srcs@),
                min_nat(coeffs@.len(), srcs@.len()),
            ),
    {
        let n = if coeffs.len() < srcs.len() {
            coeffs.len()
        } else {
            srcs.len()
        };
        let ghost values = coeffs@.map_values(|p: Self::Prepared| Self::coeff_of(p));
        let ghost sources = sources_of(srcs@);
        let mut i: usize = 0;
        while i < n
            invariant
                i <= n,
                n == min_nat(coeffs@.len(), srcs@.len()),
                n <= coeffs@.len(),
                n <= srcs@.len(),
                old(dst)@.len() % Self::elem_bytes() == 0,
                values == coeffs@.map_values(|p: Self::Prepared| Self::coeff_of(p)),
                sources == sources_of(srcs@),
                sources_fit(sources, n as nat, old(dst)@.len()),
                dst@.len() == old(dst)@.len(),
                dst@ == gather_seq::<Self>(old(dst)@, values, sources, i as nat),
            decreases n - i,
        {
            let src = srcs[i];
            proof {
                assert(sources[i as int] == src@);
                assert(sources[i as int].len() == old(dst)@.len());
            }
            Self::mul_add_at(dst, 0, &coeffs[i], src);
            i = i + 1;
        }
    }

    /// Prepared-plan gather with access to both the raw and the resolved
    /// coefficients.
    fn mul_add_gather_plan(
        dst: &mut [u8],
        values: &[Self::Elem],
        coeffs: &[Self::Prepared],
        srcs: &[&[u8]],
    )
        requires
            old(dst)@.len() % Self::elem_bytes() == 0,
            sources_fit(
                sources_of(srcs@),
                min_nat(coeffs@.len(), srcs@.len()),
                old(dst)@.len(),
            ),
        ensures
            final(dst)@ == gather_seq::<Self>(
                old(dst)@,
                coeffs@.map_values(|p: Self::Prepared| Self::coeff_of(p)),
                sources_of(srcs@),
                min_nat(coeffs@.len(), srcs@.len()),
            ),
    {
        Self::mul_add_gather_with(dst, coeffs, srcs);
    }

    /// Many sources into one row, from raw coefficients resolved for `host`.
    fn mul_add_gather(host: Backend, dst: &mut [u8], coeffs: &[Self::Elem], srcs: &[&[u8]])
        requires
            old(dst)@.len() % Self::elem_bytes() == 0,
            sources_fit(
                sources_of(srcs@),
                min_nat(coeffs@.len(), srcs@.len()),
                old(dst)@.len(),
            ),
        ensures
            final(dst)@ == gather_seq::<Self>(
                old(dst)@,
                coeffs@,
                sources_of(srcs@),
                min_nat(coeffs@.len(), srcs@.len()),
            ),
    ;

    /// Many sources into many rows: for each `(coeffs, src)` term,
    /// `rows[j] ^= coeffs[j] * src` for every row `j` below `nrows`.
    fn mul_add_matrix_with(
        rows: &mut [u8],
        row_len: usize,
        nrows: usize,
        terms: &[(&[Self::Prepared], &[u8])],
    )
        requires
            (row_len as nat) % Self::elem_bytes() == 0,
            row_len > 0 ==> terms_fit(
                terms@.map_values(
                    |t: (&[Self::Prepared], &[u8])|
                        (t.0@.map_values(|p: Self::Prepared| Self::coeff_of(p)), t.1@),
                ),
                row_len as nat,
            ),
        ensures
            row_len > 0 ==> final(rows)@ == matrix_seq::<Self>(
                old(rows)@,
                row_len as nat,
                nrows as nat,
                terms@.map_values(
                    |t: (&[Self::Prepared], &[u8])|
                        (t.0@.map_values(|p: Self::Prepared| Self::coeff_of(p)), t.1@),
                ),
                terms@.len(),
            ),
            row_len == 0 ==> final(rows)@ == old(rows)@,
    {
        let ghost spec_terms = terms@.map_values(
            |t: (&[Self::Prepared], &[u8])|
                (t.0@.map_values(|p: Self::Prepared| Self::coeff_of(p)), t.1@),
        );
        if row_len == 0 {
            return;
        }
        let count = rows.len() / row_len;
        let limit = if nrows < count {
            nrows
        } else {
            count
        };
        let mut t: usize = 0;
        while t < terms.len()
            invariant
                t <= terms@.len(),
                row_len > 0,
                (row_len as nat) % Self::elem_bytes() == 0,
                limit == min_nat(nrows as nat, old(rows)@.len() / (row_len as nat)),
                spec_terms == terms@.map_values(
                    |t: (&[Self::Prepared], &[u8])|
                        (t.0@.map_values(|p: Self::Prepared| Self::coeff_of(p)), t.1@),
                ),
                terms_fit(spec_terms, row_len as nat),
                rows@.len() == old(rows)@.len(),
                rows@ == matrix_seq::<Self>(
                    old(rows)@,
                    row_len as nat,
                    nrows as nat,
                    spec_terms,
                    t as nat,
                ),
            decreases terms@.len() - t,
        {
            let (coeffs, src) = terms[t];
            let n = if coeffs.len() < limit {
                coeffs.len()
            } else {
                limit
            };
            let ghost before = rows@;
            let ghost values = coeffs@.map_values(|p: Self::Prepared| Self::coeff_of(p));
            proof {
                assert(spec_terms[t as int] == (values, src@));
                assert(spec_terms[t as int].1.len() == row_len);
                assert(src@.len() == row_len);
            }
            let mut j: usize = 0;
            while j < n
                invariant
                    j <= n,
                    n <= coeffs@.len(),
                    n <= limit,
                    limit <= old(rows)@.len() / (row_len as nat),
                    row_len > 0,
                    src@.len() == row_len,
                    (row_len as nat) % Self::elem_bytes() == 0,
                    values == coeffs@.map_values(|p: Self::Prepared| Self::coeff_of(p)),
                    rows@.len() == old(rows)@.len(),
                    rows@ == scatter_seq::<Self>(before, row_len as nat, values, src@, j as nat),
                decreases n - j,
            {
                proof {
                    lemma_row_in_bounds(j as nat, n as nat, row_len as nat, rows.len() as nat);
                }
                Self::mul_add_at(rows, j * row_len, &coeffs[j], src);
                j = j + 1;
            }
            t = t + 1;
        }
    }

    /// Many sources into many rows, from raw coefficients resolved for `host`.
    fn mul_add_matrix(
        host: Backend,
        rows: &mut [u8],
        row_len: usize,
        nrows: usize,
        terms: &[(&[Self::Elem], &[u8])],
    )
        requires
            (row_len as nat) % Self::elem_bytes() == 0,
            row_len > 0 ==> terms_fit(
                terms@.map_values(|t: (&[Self::Elem], &[u8])| (t.0@, t.1@)),
                row_len as nat,
            ),
        ensures
            row_len > 0 ==> final(rows)@ == matrix_seq::<Self>(
                old(rows)@,
                row_len as nat,
                nrows as nat,
                terms@.map_values(|t: (&[Self::Elem], &[u8])| (t.0@, t.1@)),
                terms@.len(),
            ),
            row_len == 0 ==> final(rows)@ == old(rows)@,
    ;

    /// Prepared-plan matrix over flat row-major coefficients: source `t`
    /// pairs with the `nrows` coefficients starting at `t * nrows`.
    fn mul_add_matrix_plan(
        rows: &mut [u8],
        row_len: usize,
        nrows: usize,
        values: &[Self::Elem],
        coeffs: &[Self::Prepared],
        srcs: &[&[u8]],
    )
        requires
            (row_len as nat) % Self::elem_bytes() == 0,
            srcs@.len() * nrows <= coeffs.len(),
            row_len > 0 ==> sources_fit(sources_of(srcs@), srcs@.len(), row_len as nat),
        ensures
            row_len > 0 ==> final(rows)@ == matrix_seq::<Self>(
                old(rows)@,
                row_len as nat,
                nrows as nat,
                plan_terms(
                    coeffs@.map_values(|p: Self::Prepared| Self::coeff_of(p)),
                    sources_of(srcs@),
                    nrows as nat,
                ),
                srcs@.len(),
            ),
            row_len == 0 ==> final(rows)@ == old(rows)@,
    {
        let ghost all = coeffs@.map_values(|p: Self::Prepared| Self::coeff_of(p));
        let ghost spec_terms = plan_terms(all, sources_of(srcs@), nrows as nat);
        if row_len == 0 {
            return;
        }
        let count = rows.len() / row_len;
        let limit = if nrows < count {
            nrows
        } else {
            count
        };
        let mut t: usize = 0;
        while t < srcs.len()
            invariant
                t <= srcs@.len(),
                row_len > 0,
                (row_len as nat) % Self::elem_bytes() == 0,
                srcs@.len() * nrows <= coeffs.len(),
                sources_fit(sources_of(srcs@), srcs@.len(), row_len as nat),
                limit == min_nat(nrows as nat, old(rows)@.len() / (row_len as nat)),
                limit <= nrows,
                all == coeffs@.map_values(|p: Self::Prepared| Self::coeff_of(p)),
                spec_terms == plan_terms(all, sources_of(srcs@), nrows as nat),
                rows@.len() == old(rows)@.len(),
                rows@ == matrix_seq::<Self>(
                    old(rows)@,
                    row_len as nat,
                    nrows as nat,
                    spec_terms,
                    t as nat,
                ),
            decreases srcs@.len() - t,
        {
            let src = srcs[t];
            proof {
                assert(t * nrows + nrows <= srcs@.len() * nrows) by (nonlinear_arith)
                    requires
                        t < srcs@.len(),
                ;
                assert(sources_of(srcs@)[t as int] == src@);
            }
            let start = t * nrows;
            let ghost before = rows@;
            let ghost values_t = all.subrange(start as int, start + nrows);
            proof {
                assert(spec_terms[t as int] == (values_t, src@));
                assert(min_nat(limit as nat, values_t.len()) == limit);
            }
            let mut j: usize = 0;
            while j < limit
                invariant
                    j <= limit,
                    limit <= nrows,
                    limit <= old(rows)@.len() / (row_len as nat),
                    start + nrows <= coeffs.len(),
                    row_len > 0,
                    src@.len() == row_len,
                    (row_len as nat) % Self::elem_bytes() == 0,
                    all == coeffs@.map_values(|p: Self::Prepared| Self::coeff_of(p)),
                    values_t == all.subrange(start as int, start + nrows),
                    rows@.len() == old(rows)@.len(),
                    rows@ == scatter_seq::<Self>(before, row_len as nat, values_t, src@, j as nat),
                decreases limit - j,
            {
                proof {
                    lemma_row_in_bounds(j as nat, limit as nat, row_len as nat, rows.len() as nat);
                    assert(values_t[j as int] == Self::coeff_of(coeffs@[start + j]));
                }
                Self::mul_add_at(rows, j * row_len, &coeffs[start + j], src);
                proof {
                    assert(scatter_seq::<Self>(before, row_len as nat, values_t, src@, (j + 1) as nat)
                        == span_mul_add::<Self>(
                        scatter_seq::<Self>(before, row_len as nat, values_t, src@, j as nat),
                        j * row_len,
                        values_t[j as int],
                        src@,
                    ));
                }
                j = j + 1;
            }
            t = t + 1;
        }
    }

}

/// One source into many rows, one row at a time: `rows[j] ^= coeffs[j] *
/// src` for each row `j` that has a coefficient, each coefficient resolved
/// for `host`.
pub fn scatter_rowwise<F: ScaleKernels>(
    host: Backend,
    rows: &mut [u8],
    row_len: usize,
    coeffs: &[F::Elem],
    src: &[u8],
)
    requires
        row_len > 0 ==> src@.len() == row_len,
        (row_len as nat) % F::elem_bytes() == 0,
    ensures
        row_len > 0 ==> final(rows)@ == scatter_seq::<F>(
            old(rows)@,
            row_len as nat,
            coeffs@,
            src@,
            min_nat(coeffs@.len(), old(rows)@.len() / (row_len as nat)),
        ),
        row_len == 0 ==> final(rows)@ == old(rows)@,
{
    if row_len == 0 {
        return;
    }
    let count = rows.len() / row_len;
    let n = if coeffs.len() < count {
        coeffs.len()
    } else {
        count
    };
    let mut j: usize = 0;
    while j < n
        invariant
            j <= n,
            n == min_nat(coeffs@.len(), old(rows)@.len() / (row_len as nat)),
            n <= coeffs@.len(),
            n <= old(rows)@.len() / (row_len as nat),
            row_len > 0,
            src@.len() == row_len,
            (row_len as nat) % F::elem_bytes() == 0,
            rows@.len() == old(rows)@.len(),
            rows@ == scatter_seq::<F>(old(rows)@, row_len as nat, coeffs@, src@, j as nat),
        decreases n - j,
    {
        proof {
            lemma_row_in_bounds(j as nat, n as nat, row_len as nat, rows.len() as nat);
        }
        let prepared = F::prepare(host, coeffs[j]);
        F::mul_add_at(rows, j * row_len, &prepared, src);
        j = j + 1;
    }
}

/// Many sources into one row, one source at a time: `dst ^= coeffs[i] *
/// srcs[i]` for each source that has a coefficient, each coefficient
/// resolved for `host`.
pub fn gather_rowwise<F: ScaleKernels>(host: Backend, dst: &mut [u8], coeffs: &[F::Elem], srcs: &[&[u8]])
    requires
        old(dst)@.len() % F::elem_bytes() == 0,
        sources_fit(
            sources_of(srcs@),
            min_nat(coeffs@.len(), srcs@.len()),
            old(dst)@.len(),
        ),
    ensures
        final(dst)@ == gather_seq::<F>(
            old(dst)@,
            coeffs@,
            sources_of(srcs@),
            min_nat(coeffs@.len(), srcs@.len()),
        ),
{
    let n = if coeffs.len() < srcs.len() {
        coeffs.len()
    } else {
        srcs.len()
    };
    let ghost sources = sources_of(srcs@);
    let mut i: usize = 0;
    while i < n
        invariant
            i <= n,
            n == min_nat(coeffs@.len(), srcs@.len()),
            n <= coeffs@.len(),
            n <= srcs@.len(),
            old(dst)@.len() % F::elem_bytes() == 0,
            sources == sources_of(srcs@),
            sources_fit(sources, n as nat, old(dst)@.len()),
            dst@.len() == old(dst)@.len(),
            dst@ == gather_seq::<F>(old(dst)@, coeffs@, sources, i as nat),
        decreases n - i,
    {
        let src = srcs[i];
        proof {
            assert(sources[i as int] == src@);
            assert(sources[i as int].len() == old(dst)@.len());
        }
        let prepared = F::prepare(host, coeffs[i]);
        F::mul_add_at(dst, 0, &prepared, src);
        i = i + 1;
    }
}

/// Many sources into many rows, one term and one row at a time: for each
/// `(coeffs, src)` term, `rows[j] ^= coeffs[j] * src` for every row `j`
/// below `nrows` that has a coefficient, each resolved for `host`.
pub fn matrix_rowwise<F: ScaleKernels>(
    host: Backend,
    rows: &mut [u8],
    row_len: usize,
    nrows: usize,
    terms: &[(&[F::Elem], &[u8])],
)
    requires
        (row_len as nat) % F::elem_bytes() == 0,
        row_len > 0 ==> terms_fit(
            terms@.map_values(|t: (&[F::Elem], &[u8])| (t.0@, t.1@)),
            row_len as nat,
        ),
    ensures
        row_len > 0 ==> final(rows)@ == matrix_seq::<F>(
            old(rows)@,
            row_len as nat,
            nrows as nat,
            terms@.map_values(|t: (&[F::Elem], &[u8])| (t.0@, t.1@)),
            terms@.len(),
        ),
        row_len == 0 ==> final(rows)@ == old(rows)@,
{
    let ghost spec_terms = terms@.map_values(|t: (&[F::Elem], &[u8])| (t.0@, t.1@));
    if row_len == 0 {
        return;
    }
    let count = rows.len() / row_len;
    let limit = if nrows < count {
        nrows
    } else {
        count
    };
    let mut t: usize = 0;
    while t < terms.len()
        invariant
            t <= terms@.len(),
            row_len > 0,
            (row_len as nat) % F::elem_bytes() == 0,
            limit == min_nat(nrows as nat, old(rows)@.len() / (row_len as nat)),
            spec_terms == terms@.map_values(|t: (&[F::Elem], &[u8])| (t.0@, t.1@)),
            terms_fit(spec_terms, row_len as nat),
            rows@.len() == old(rows)@.len(),
            rows@ == matrix_seq::<F>(
                old(rows)@,
                row_len as nat,
                nrows as nat,
                spec_terms,
                t as nat,
            ),
        decreases terms@.len() - t,
    {
        let (coeffs, src) = terms[t];
        let n = if coeffs.len() < limit {
            coeffs.len()
        } else {
            limit
        };
        let ghost before = rows@;
        proof {
            assert(spec_terms[t as int] == (coeffs@, src@));
            assert(spec_terms[t as int].1.len() == row_len);
            assert(src@.len() == row_len);
        }
        let mut j: usize = 0;
        while j < n
            invariant
                j <= n,
                n <= coeffs@.len(),
                n <= limit,
                limit <= old(rows)@.len() / (row_len as nat),
                row_len > 0,
                src@.len() == row_len,
                (row_len as nat) % F::elem_bytes() == 0,
                rows@.len() == old(rows)@.len(),
                rows@ == scatter_seq::<F>(before, row_len as nat, coeffs@, src@, j as nat),
            decreases n - j,
        {
            proof {
                lemma_row_in_bounds(j as nat, n as nat, row_len as nat, rows.len() as nat);
            }
            let prepared = F::prepare(host, coeffs[j]);
            F::mul_add_at(rows, j * row_len, &prepared, src);
            j = j + 1;
        }
        t = t + 1;
    }
}

/// The backend used for a particular field on a host running `host`.
pub fn backend_for<F: FieldKernels>(host: Backend) -> (b: Backend)
    ensures
        b == F::backend_used(host),
{
    F::active_backend(host)
}

/// Whether elementwise multiplication is vectorized for `F` on `host`.
pub fn has_vector_elementwise<F: FieldKernels>(host: Backend) -> (vectorized: bool)
    ensures
        vectorized == F::vector_elementwise(host),
{
    F::has_vector_elementwise(host)
}

/// `dst ^= src` over raw bytes, on the kernels of `host`.
///
/// Addition in every binary field is XOR, and XOR of a packed element array
/// is XOR of its bytes regardless of element width.
pub fn xor(host: Backend, dst: &mut [u8], src: &[u8])
    requires
        old(dst)@.len() == src@.len(),
    ensures
        final(dst)@ == xor_seq(old(dst)@, src@),
{
    match host {
        Backend::Avx512 | Backend::Gfni | Backend::Avx2 => xor_avx2(dst, src),
        Backend::Scalar => {
            xor_bytes(dst, src, 0);
            proof {
                assert(dst@ =~= xor_seq(old(dst)@, src@));
            }
        },
        _ => xor_sse2(dst, src),
    }
}

/// `dst ^= src` for the bytes from `from` on, one byte at a time.
fn xor_bytes(dst: &mut [u8], src: &[u8], from: usize)
    requires
        old(dst)@.len() == src@.len(),
        from <= src@.len(),
    ensures
        final(dst)@.len() == old(dst)@.len(),
        forall|i: int|
            0 <= i < src@.len() ==> final(dst)@[i] == if i < from {
                old(dst)@[i]
            } else {
                old(dst)@[i] ^ src@[i]
            },
{
    let n = src.len();
    let mut pos = from;
    while pos < n
        invariant
            from <= pos <= n,
            n == src@.len(),
            dst@.len() == n,
            forall|i: int|
                0 <= i < n ==> dst@[i] == if from <= i < pos {
                    old(dst)@[i] ^ src@[i]
                } else {
                    old(dst)@[i]
                },
        decreases n - pos,
    {
        let d = dst[pos];
        dst[pos] = d ^ src[pos];
        pos = pos + 1;
    }
}

/// `dst ^= src` over 32-byte registers, each two 16-byte halves, then one
/// byte at a time.
pub fn xor_avx2(dst: &mut [u8], src: &[u8])
    requires
        old(dst)@.len() == src@.len(),
    ensures
        final(dst)@ == xor_seq(old(dst)@, src@),
{
    let n = src.len();
    let len = n & !31usize;
    proof {
        assert(len <= n && len % 32 == 0) by (bit_vector)
            requires
                len == n & !31usize,
        ;
    }
    let mut pos: usize = 0;
    while pos < len
        invariant
            pos <= len,
            len <= n,
            pos % 32 == 0,
            len % 32 == 0,
            n == src@.len(),
            dst@.len() == n,
            forall|i: int|
                0 <= i < n ==> dst@[i] == if i < pos {
                    old(dst)@[i] ^ src@[i]
                } else {
                    old(dst)@[i]
                },
        decreases len - pos,
    {
        let d0 = lanes::load(dst, pos);
        let d1 = lanes::load(dst, pos + 16);
        let s0 = lanes::load(src, pos);
        let s1 = lanes::load(src, pos + 16);
        let r0 = lanes::xor(&d0, &s0);
        let r1 = lanes::xor(&d1, &s1);
        lanes::store(dst, pos, &r0);
        lanes::store(dst, pos + 16, &r1);
        pos = pos + 32;
    }
    xor_bytes(dst, src, len);
    proof {
        assert(dst@ =~= xor_seq(old(dst)@, src@));
    }
}

/// `dst ^= src` over 16-byte registers, then one byte at a time.
pub fn xor_sse2(dst: &mut [u8], src: &[u8])
    requires
        old(dst)@.len() == src@.len(),
    ensures
        final(dst)@ == xor_seq(old(dst)@, src@),
{
    let n = src.len();
    let len = n & !15usize;
    proof {
        crate::bits::lemma_round_down(n);
    }
    let mut pos: usize = 0;
    while pos < len
        invariant
            pos <= len,
            len <= n,
            pos % 16 == 0,
            len % 16 == 0,
            n == src@.len(),
            dst@.len() == n,
            forall|i: int|
                0 <= i < n ==> dst@[i] == if i < pos {
                    old(dst)@[i] ^ src@[i]
                } else {
                    old(dst)@[i]
                },
        decreases len - pos,
    {
        let d = lanes::load(dst, pos);
        let s = lanes::load(src, pos);
        let r = lanes::xor(&d, &s);
        lanes::store(dst, pos, &r);
        pos = pos + 16;
    }
    xor_bytes(dst, src, len);
    proof {
        assert(dst@ =~= xor_seq(old(dst)@, src@));
    }
}

/// `a ^ b`, byte by byte.
pub open spec fn xor_seq(a: Seq<u8>, b: Seq<u8>) -> Seq<u8> {
    Seq::new(b.len(), |i: int| a[i] ^ b[i])
}

/// Adding the same buffer twice gives back the first: in characteristic two
/// subtraction is addition.
pub proof fn lemma_xor_twice(d: Seq<u8>, s: Seq<u8>)
    requires
        d.len() == s.len(),
    ensures
        xor_seq(xor_seq(d, s), s) == d,
{
    assert forall|i: int| 0 <= i < d.len() implies xor_seq(xor_seq(d, s), s)[i] == d[i] by {
        crate::bits::lemma_xor(d[i], s[i], 0);
    }
    assert(xor_seq(xor_seq(d, s), s) =~= d);
}

/// Adding the same product twice gives back the buffer it started from.
pub proof fn lemma_mul_add_twice<F: Field>(d: Seq<u8>, offset: int, c: F::Elem, src: Seq<u8>)
    ensures
        span_mul_add::<F>(span_mul_add::<F>(d, offset, c, src), offset, c, src) == d,
{
    let once = span_mul_add::<F>(d, offset, c, src);
    assert forall|i: int| 0 <= i < d.len() implies span_mul_add::<F>(once, offset, c, src)[i]
        == d[i] by {
        if offset <= i < offset + src.len() {
            crate::bits::lemma_xor(d[i], F::product_byte(c, src, i - offset), 0);
        }
    }
    assert(span_mul_add::<F>(once, offset, c, src) =~= d);
}

/// Byte `i` of `sum(coeffs[k] * srcs[k])` over the first `n` terms.
pub open spec fn product_sum<F: Field>(coeffs: Seq<F::Elem>, srcs: Seq<Seq<u8>>, i: int, n: nat) -> u8
    decreases n,
{
    if n == 0 {
        0
    } else {
        product_sum::<F>(coeffs, srcs, i, (n - 1) as nat) ^ F::product_byte(
            coeffs[n - 1],
            srcs[n - 1],
            i,
        )
    }
}

/// A gather adds the sum of the products to the destination:
/// `dst ^= sum(coeffs[k] * srcs[k])`.
pub proof fn lemma_gather_is_sum<F: Field>(dst: Seq<u8>, coeffs: Seq<F::Elem>, srcs: Seq<Seq<u8>>, n: nat)
    requires
        n <= coeffs.len(),
        n <= srcs.len(),
        sources_fit(srcs, n, dst.len()),
    ensures
        gather_seq::<F>(dst, coeffs, srcs, n) == Seq::new(
            dst.len(),
            |i: int| dst[i] ^ product_sum::<F>(coeffs, srcs, i, n),
        ),
    decreases n,
{
    if n == 0 {
        assert forall|i: int| 0 <= i < dst.len() implies dst[i] ^ 0u8 == dst[i] by {
            crate::bits::lemma_xor(dst[i], 0, 0);
        }
        assert(gather_seq::<F>(dst, coeffs, srcs, n) =~= Seq::new(
            dst.len(),
            |i: int| dst[i] ^ product_sum::<F>(coeffs, srcs, i, n),
        ));
    } else {
        let m = (n - 1) as nat;
        lemma_gather_is_sum::<F>(dst, coeffs, srcs, m);
        assert(srcs[m as int].len() == dst.len());
        assert forall|i: int| 0 <= i < dst.len() implies gather_seq::<F>(dst, coeffs, srcs, n)[i]
            == dst[i] ^ product_sum::<F>(coeffs, srcs, i, n) by {
            crate::bits::lemma_xor(
                dst[i],
                product_sum::<F>(coeffs, srcs, i, m),
                F::product_byte(coeffs[m as int], srcs[m as int], i),
            );
        }
        assert(gather_seq::<F>(dst, coeffs, srcs, n) =~= Seq::new(
            dst.len(),
            |i: int| dst[i] ^ product_sum::<F>(coeffs, srcs, i, n),
        ));
    }
}

/// A scatter adds `coeffs[j] * src` to each of the first `n` rows and leaves
/// the rest of the buffer alone.
#[verifier::spinoff_prover]
pub proof fn lemma_scatter_rows<F: Field>(
    rows: Seq<u8>,
    row_len: nat,
    coeffs: Seq<F::Elem>,
    src: Seq<u8>,
    n: nat,
)
    requires
        row_len > 0,
        src.len() == row_len,
        n * row_len <= rows.len(),
    ensures
        scatter_seq::<F>(rows, row_len, coeffs, src, n) == Seq::new(
            rows.len(),
            |i: int|
                if i < n * row_len {
                    rows[i] ^ F::product_byte(coeffs[i / row_len as int], src, i % row_len as int)
                } else {
                    rows[i]
                },
        ),
    decreases n,
{
    let target = Seq::new(
        rows.len(),
        |i: int|
            if i < n * row_len {
                rows[i] ^ F::product_byte(coeffs[i / row_len as int], src, i % row_len as int)
            } else {
                rows[i]
            },
    );
    if n == 0 {
        assert(scatter_seq::<F>(rows, row_len, coeffs, src, n) =~= target);
    } else {
        let m = (n - 1) as nat;
        assert(m * row_len <= n * row_len) by (nonlinear_arith)
            requires
                m < n,
        ;
        assert(n * row_len == m * row_len + row_len) by (nonlinear_arith)
            requires
                m == n - 1,
        ;
        lemma_scatter_rows::<F>(rows, row_len, coeffs, src, m);
        assert forall|i: int| 0 <= i < rows.len() implies scatter_seq::<F>(
            rows,
            row_len,
            coeffs,
            src,
            n,
        )[i] == target[i] by {
            if m * row_len <= i < n * row_len {
                vstd::arithmetic::div_mod::lemma_fundamental_div_mod_converse(
                    i,
                    row_len as int,
                    m as int,
                    i - m * row_len,
                );
            }
        }
        assert(scatter_seq::<F>(rows, row_len, coeffs, src, n) =~= target);
    }
}

/// A matrix product leaves the buffer's length alone.
pub proof fn lemma_matrix_len<F: Field>(
    rows: Seq<u8>,
    row_len: nat,
    nrows: nat,
    terms: Seq<(Seq<F::Elem>, Seq<u8>)>,
    count: nat,
)
    ensures
        matrix_seq::<F>(rows, row_len, nrows, terms, count).len() == rows.len(),
    decreases count,
{
    if count > 0 {
        lemma_matrix_len::<F>(rows, row_len, nrows, terms, (count - 1) as nat);
        let term = terms[count - 1];
        lemma_scatter_len::<F>(
            matrix_seq::<F>(rows, row_len, nrows, terms, (count - 1) as nat),
            row_len,
            term.0,
            term.1,
            min_nat(min_nat(nrows, rows.len() / row_len), term.0.len()),
        );
    }
}

/// A scatter leaves the buffer's length alone.
pub proof fn lemma_scatter_len<F: Field>(
    rows: Seq<u8>,
    row_len: nat,
    coeffs: Seq<F::Elem>,
    src: Seq<u8>,
    n: nat,
)
    ensures
        scatter_seq::<F>(rows, row_len, coeffs, src, n).len() == rows.len(),
    decreases n,
{
    if n > 0 {
        lemma_scatter_len::<F>(rows, row_len, coeffs, src, (n - 1) as nat);
    }
}

/// Only the rows that exist count: two row limits that clamp to the same
/// number of rows give the same matrix product.
pub proof fn lemma_matrix_rows_clamped<F: Field>(
    rows: Seq<u8>,
    row_len: nat,
    a: nat,
    b: nat,
    terms: Seq<(Seq<F::Elem>, Seq<u8>)>,
    count: nat,
)
    requires
        min_nat(a, rows.len() / row_len) == min_nat(b, rows.len() / row_len),
    ensures
        matrix_seq::<F>(rows, row_len, a, terms, count) == matrix_seq::<F>(
            rows,
            row_len,
            b,
            terms,
            count,
        ),
    decreases count,
{
    if count > 0 {
        let k = (count - 1) as nat;
        lemma_matrix_rows_clamped::<F>(rows, row_len, a, b, terms, k);
        lemma_matrix_len::<F>(rows, row_len, a, terms, k);
    }
}

/// The matrix shape with a single term is the scatter shape.
pub proof fn lemma_matrix_one_term<F: Field>(
    rows: Seq<u8>,
    row_len: nat,
    nrows: nat,
    coeffs: Seq<F::Elem>,
    src: Seq<u8>,
)
    ensures
        matrix_seq::<F>(rows, row_len, nrows, seq![(coeffs, src)], 1) == scatter_seq::<F>(
            rows,
            row_len,
            coeffs,
            src,
            min_nat(min_nat(nrows, rows.len() / row_len), coeffs.len()),
        ),
{
    let terms = seq![(coeffs, src)];
    assert(terms[0] == (coeffs, src));
    assert(matrix_seq::<F>(rows, row_len, nrows, terms, 0) == rows);
    assert(matrix_seq::<F>(rows, row_len, nrows, terms, 1) == scatter_seq::<F>(
        matrix_seq::<F>(rows, row_len, nrows, terms, 0),
        row_len,
        terms[0].0,
        terms[0].1,
        min_nat(min_nat(nrows, rows.len() / row_len), terms[0].0.len()),
    ));
}

/// Smallest destination for which non-temporal stores pay for themselves.
pub const NT_STORE_MIN: usize = 2097152;

/// Head bytes to store normally so that a non-temporal body starts on a
/// 32-byte boundary, or `None` when this destination should stay temporal.
///
/// `dst_len` is the destination's length and `align_offset` the number of
/// bytes from its start to the next 32-byte boundary, as the pointer reports
/// it (`usize::MAX` when it cannot say). `None` covers a destination too small
/// to repay the eviction, and a peel that is not a whole number of
/// `elem_bytes` elements.
pub fn nt_split(dst_len: usize, align_offset: usize, elem_bytes: usize) -> (peel: Option<usize>)
    ensures
        peel == if dst_len < NT_STORE_MIN {
            None
        } else if align_offset != usize::MAX && (if elem_bytes == 0 {
            align_offset == 0
        } else {
            align_offset % elem_bytes == 0
        }) {
            Some(align_offset)
        } else {
            None
        },
{
    if dst_len < NT_STORE_MIN {
        return None;
    }
    let whole = if elem_bytes == 0 {
        align_offset == 0
    } else {
        align_offset % elem_bytes == 0
    };
    if align_offset != usize::MAX && whole {
        Some(align_offset)
    } else {
        None
    }
}

/// Bytes of scalar lead-in that put a row group's vector accesses on a
/// 32-byte boundary, or `0` when the row is too short to repay it.
///
/// `head` is the distance from the row's start to the next 32-byte boundary.
pub fn peel_to_align(head: usize, len: usize) -> (peel: usize)
    ensures
        peel == if len < 2048 || head >= len {
            0
        } else {
            head
        },
        peel < len || peel == 0,
{
    let floor: usize = 16 * 128;
    if len < floor || head >= len {
        0
    } else {
        head
    }
}

/// Matrix-like coefficient/source provider for the register-blocked kernels.
pub trait Matrix<C> {
    /// Number of terms.
    spec fn term_count(&self) -> nat;

    /// Whether `term` has a coefficient for destination row `row`.
    spec fn has_coefficient(&self, term: int, row: int) -> bool;

    /// The coefficient of `term` for destination row `row`.
    spec fn coefficient_at(&self, term: int, row: int) -> C;

    /// The source buffer of `term`.
    spec fn source_at(&self, term: int) -> Seq<u8>;

    /// Number of terms.
    fn len(&self) -> (n: usize)
        ensures
            n == self.term_count(),
    ;

    /// The coefficient of `term` for destination row `row`.
    fn coefficient(&self, term: usize, row: usize) -> (c: &C)
        requires
            self.has_coefficient(term as int, row as int),
        ensures
            *c == self.coefficient_at(term as int, row as int),
    ;

    /// The source buffer of `term`.
    fn source(&self, term: usize) -> (s: &[u8])
        requires
            term < self.term_count(),
        ensures
            s@ == self.source_at(term as int),
    ;
}

/// Flat row-major coefficient matrix over borrowed sources.
pub struct FlatMatrix<'a, C> {
    /// Flat row-major coefficients, `terms * nrows` entries.
    pub coefficients: &'a [C],
    /// Destination row count.
    pub nrows: usize,
    /// Source buffers, one per term.
    pub sources: &'a [&'a [u8]],
}

impl<'a, C> Matrix<C> for FlatMatrix<'a, C> {
    open spec fn term_count(&self) -> nat {
        self.sources@.len()
    }

    open spec fn has_coefficient(&self, term: int, row: int) -> bool {
        0 <= term && 0 <= row && term * self.nrows + row < self.coefficients.len()
    }

    open spec fn coefficient_at(&self, term: int, row: int) -> C {
        self.coefficients@[term * self.nrows + row]
    }

    open spec fn source_at(&self, term: int) -> Seq<u8> {
        self.sources@[term]@
    }

    fn len(&self) -> (n: usize) {
        self.sources.len()
    }

    fn coefficient(&self, term: usize, row: usize) -> (c: &C) {
        proof {
            assert(term * self.nrows <= term * self.nrows + row);
        }
        &self.coefficients[term * self.nrows + row]
    }

    fn source(&self, term: usize) -> (s: &[u8]) {
        self.sources[term]
    }
}

/// A slice of `(coefficients, source)` terms is a matrix: term `t` supplies
/// coefficient `row` of its own coefficient slice.
pub struct TermList<'a, C> {
    /// The terms.
    pub terms: &'a [(&'a [C], &'a [u8])],
}

impl<'a, C> Matrix<C> for TermList<'a, C> {
    open spec fn term_count(&self) -> nat {
        self.terms@.len()
    }

    open spec fn has_coefficient(&self, term: int, row: int) -> bool {
        0 <= term < self.terms@.len() && 0 <= row < self.terms@[term].0@.len()
    }

    open spec fn coefficient_at(&self, term: int, row: int) -> C {
        self.terms@[term].0@[row]
    }

    open spec fn source_at(&self, term: int) -> Seq<u8> {
        self.terms@[term].1@
    }

    fn len(&self) -> (n: usize) {
        self.terms.len()
    }

    fn coefficient(&self, term: usize, row: usize) -> (c: &C) {
        &self.terms[term].0[row]
    }

    fn source(&self, term: usize) -> (s: &[u8]) {
        self.terms[term].1
    }
}

} // verus!
