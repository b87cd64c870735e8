//! Field element arithmetic.
pub mod gf16;
pub mod gf8;

use vstd::prelude::*;

verus! {

/// A binary field whose elements are packed into buffers as fixed-width
/// little-endian byte strings.
pub trait Field: Sized {
    /// A field element.
    type Elem: Copy;

    /// Bytes per element.
    spec fn elem_bytes() -> nat;

    /// Byte `i` of `coeff * src`, for `src` a whole number of elements.
    spec fn product_byte(coeff: Self::Elem, src: Seq<u8>, i: int) -> u8;

    /// Byte `i` of the elementwise product of `a` and `b`.
    spec fn pointwise_byte(a: Seq<u8>, b: Seq<u8>, i: int) -> u8;

    /// The zero element.
    spec fn zero() -> Self::Elem;

    /// Zero times anything is zero, byte by byte.
    proof fn lemma_zero_product(src: Seq<u8>, i: int)
        ensures
            Self::product_byte(Self::zero(), src, i) == 0,
    ;

    /// A sixteen-byte register holds whole elements: the element width is a
    /// power of two no wider than the register.
    proof fn lemma_register_width()
        ensures
            Self::elem_bytes() == 1 || Self::elem_bytes() == 2 || Self::elem_bytes() == 4
                || Self::elem_bytes() == 8 || Self::elem_bytes() == 16,
    ;

    /// A product byte depends only on the element it belongs to: read through
    /// a window that starts on an element boundary, it is the same byte.
    proof fn lemma_product_window(coeff: Self::Elem, s: Seq<u8>, w: Seq<u8>, pos: int, i: int)
        requires
            0 <= pos,
            pos % (Self::elem_bytes() as int) == 0,
            w.len() % Self::elem_bytes() == 0,
            pos + w.len() <= s.len(),
            0 <= i < w.len(),
            forall|k: int| 0 <= k < w.len() ==> w[k] == s[pos + k],
        ensures
            Self::product_byte(coeff, w, i) == Self::product_byte(coeff, s, pos + i),
    ;
}

} // verus!
