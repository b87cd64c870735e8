//! Coefficients resolved into the forms the kernels consume.
//!
//! - [`ScaleTable`]: the split-nibble tables of one GF(2^8) coefficient, so
//!   that `c * x` is two 16-entry lookups and an XOR.
//! - [`TowerCoeff`]: the two alternating byte pairs a byte-wide multiplier
//!   needs for one GF(2^16) coefficient.
//! - [`TowerTables`]: the four nibble tables a shuffle-only backend needs for
//!   one GF(2^16) coefficient.
use vstd::prelude::*;
use crate::field::gf16::{self, DELTA, from_parts, hi, lo};
use crate::field::gf8::{self, gf8_mul, mul_byte};

verus! {

/// The `k`-th base-field factor of the GF(2^16) coefficient `c = c0 + c1·u`:
/// `c0`, `c0 + c1`, `δ·c1`, `c1`. Factors 0 and 2 produce an element's low
/// byte, 1 and 3 its high byte; 0 and 1 read the element as it lies, 2 and 3
/// with its bytes exchanged.
pub open spec fn tower_factor(c: u16, k: int) -> u8 {
    if k == 0 {
        lo(c)
    } else if k == 1 {
        lo(c) ^ hi(c)
    } else if k == 2 {
        gf8_mul(DELTA, hi(c))
    } else {
        hi(c)
    }
}

/// Split-nibble tables of one GF(2^8) coefficient:
/// `lo[i] = c * i` and `hi[i] = c * (i << 4)`.
#[derive(Clone, Copy, Debug)]
pub struct ScaleTable {
    coeff: u8,
    lo: [u8; 16],
    hi: [u8; 16],
}

impl ScaleTable {
    #[verifier::type_invariant]
    spec fn holds_products(self) -> bool {
        forall|i: int|
            0 <= i < 16 ==> self.lo[i] == gf8_mul(self.coeff, i as u8) && self.hi[i] == gf8_mul(
                self.coeff,
                (i as u8) << 4u8,
            )
    }

    /// The coefficient the tables multiply by.
    pub closed spec fn coeff_of(self) -> u8 {
        self.coeff
    }

    /// Build the tables of `coeff`.
    pub fn new(coeff: gf8::Elem) -> (t: ScaleTable)
        ensures
            t.coeff_of() == coeff.0,
    {
        let c = coeff.0;
        let mut lo = [0u8; 16];
        let mut hi = [0u8; 16];
        let mut i: u8 = 0;
        while i < 16
            invariant
                i <= 16,
                forall|j: int|
                    0 <= j < i ==> lo[j] == gf8_mul(c, j as u8) && hi[j] == gf8_mul(
                        c,
                        (j as u8) << 4u8,
                    ),
            decreases 16 - i,
        {
            lo[i as usize] = mul_byte(c, i);
            hi[i as usize] = mul_byte(c, i << 4u8);
            i = i + 1;
        }
        ScaleTable { coeff: c, lo, hi }
    }

    /// The coefficient the tables multiply by.
    pub fn coeff(&self) -> (c: gf8::Elem)
        ensures
            c.0 == self.coeff_of(),
    {
        gf8::Elem(self.coeff)
    }

    /// The low-nibble table: entry `i` is `coeff * i`.
    pub fn lo_table(&self) -> (t: [u8; 16])
        ensures
            forall|i: int| 0 <= i < 16 ==> t[i] == gf8_mul(self.coeff_of(), i as u8),
    {
        proof {
            use_type_invariant(self);
        }
        self.lo
    }

    /// The high-nibble table: entry `i` is `coeff * (i << 4)`.
    pub fn hi_table(&self) -> (t: [u8; 16])
        ensures
            forall|i: int| 0 <= i < 16 ==> t[i] == gf8_mul(self.coeff_of(), (i as u8) << 4u8),
    {
        proof {
            use_type_invariant(self);
        }
        self.hi
    }

    /// `coeff * x`, by two table lookups.
    pub fn scale(&self, x: u8) -> (product: u8)
        ensures
            product == gf8_mul(self.coeff_of(), x),
    {
        proof {
            use_type_invariant(self);
            gf8::lemma_nibble_split(self.coeff, x);
            crate::bits::lemma_nibbles(x);
            let l = (x & 0x0f) as int;
            let h = (x >> 4u8) as int;
            assert(l as u8 == x & 0x0f);
            assert(h as u8 == x >> 4u8);
        }
        self.lo[(x & 0x0f) as usize] ^ self.hi[(x >> 4u8) as usize]
    }
}

/// The broadcast byte pairs a byte-wide multiplier needs for one GF(2^16)
/// coefficient `c0 + c1·u`: `same = [c0, c0 + c1]` multiplies an element as it
/// lies, `cross = [δ·c1, c1]` multiplies it with its bytes exchanged.
#[derive(Clone, Copy, Debug)]
pub struct TowerCoeff {
    coeff: gf16::Elem,
    same: u16,
    cross: u16,
}

impl TowerCoeff {
    #[verifier::type_invariant]
    spec fn holds_pairs(self) -> bool {
        &&& self.same == from_parts(tower_factor(self.coeff.0, 0), tower_factor(self.coeff.0, 1))
        &&& self.cross == from_parts(tower_factor(self.coeff.0, 2), tower_factor(self.coeff.0, 3))
    }

    /// The coefficient the pairs were built from.
    pub closed spec fn coeff_of(self) -> u16 {
        self.coeff.0
    }

    /// Resolve `coeff` into its two byte pairs.
    pub fn new(coeff: gf16::Elem) -> (t: TowerCoeff)
        ensures
            t.coeff_of() == coeff.0,
    {
        let c0 = (coeff.0 & 0xff) as u8;
        let c1 = (coeff.0 >> 8u16) as u8;
        let d1 = mul_byte(DELTA, c1);
        let same = (c0 as u16) | (((c0 ^ c1) as u16) << 8u16);
        let cross = (d1 as u16) | ((c1 as u16) << 8u16);
        TowerCoeff { coeff, same, cross }
    }

    /// The coefficient the pairs were built from.
    pub fn coeff(&self) -> (c: gf16::Elem)
        ensures
            c.0 == self.coeff_of(),
    {
        self.coeff
    }

    /// `[c0, c0 + c1]` as one halfword.
    pub fn same(&self) -> (w: u16)
        ensures
            w == from_parts(tower_factor(self.coeff_of(), 0), tower_factor(self.coeff_of(), 1)),
    {
        proof {
            use_type_invariant(self);
        }
        self.same
    }

    /// `[δ·c1, c1]` as one halfword.
    pub fn cross(&self) -> (w: u16)
        ensures
            w == from_parts(tower_factor(self.coeff_of(), 2), tower_factor(self.coeff_of(), 3)),
    {
        proof {
            use_type_invariant(self);
        }
        self.cross
    }
}

/// The four split-nibble tables of one GF(2^16) coefficient, one per
/// [`tower_factor`].
#[derive(Clone, Copy, Debug)]
pub struct TowerTables {
    coeff: gf16::Elem,
    factors: [ScaleTable; 4],
}

impl TowerTables {
    #[verifier::type_invariant]
    spec fn holds_factors(self) -> bool {
        forall|k: int| 0 <= k < 4 ==> self.factors[k].coeff_of() == tower_factor(self.coeff.0, k)
    }

    /// The coefficient the tables were built from.
    pub closed spec fn coeff_of(self) -> u16 {
        self.coeff.0
    }

    /// Build the four tables of `coeff`.
    pub fn new(coeff: gf16::Elem) -> (t: TowerTables)
        ensures
            t.coeff_of() == coeff.0,
    {
        let c0 = (coeff.0 & 0xff) as u8;
        let c1 = (coeff.0 >> 8u16) as u8;
        let f0 = ScaleTable::new(gf8::Elem(c0));
        let f1 = ScaleTable::new(gf8::Elem(c0 ^ c1));
        let f2 = ScaleTable::new(gf8::Elem(mul_byte(DELTA, c1)));
        let f3 = ScaleTable::new(gf8::Elem(c1));
        TowerTables { coeff, factors: [f0, f1, f2, f3] }
    }

    /// The coefficient the tables were built from.
    pub fn coeff(&self) -> (c: gf16::Elem)
        ensures
            c.0 == self.coeff_of(),
    {
        self.coeff
    }

    /// The table of factor `k`.
    pub fn factor(&self, k: usize) -> (t: &ScaleTable)
        requires
            k < 4,
        ensures
            t.coeff_of() == tower_factor(self.coeff_of(), k as int),
    {
        proof {
            use_type_invariant(self);
        }
        &self.factors[k]
    }
}

} // verus!
