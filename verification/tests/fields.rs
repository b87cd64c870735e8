use fff::field::gf16::{self, DELTA};
use fff::field::gf8::{self, mul_byte};

/// Reference GF(2^8) product, shift-and-add with reduction by 0x11B.
fn reference8(mut a: u8, mut b: u8) -> u8 {
    let mut p = 0u8;
    while b != 0 {
        if b & 1 == 1 {
            p ^= a;
        }
        let carry = a & 0x80 != 0;
        a <<= 1;
        if carry {
            a ^= 0x1b;
        }
        b >>= 1;
    }
    p
}

/// Reference tower product: (a + b·u)(c + d·u) with u² = u + DELTA.
fn reference16(x: u16, y: u16) -> u16 {
    let (a, b) = ((x & 0xff) as u8, (x >> 8) as u8);
    let (c, d) = ((y & 0xff) as u8, (y >> 8) as u8);
    let bd = reference8(b, d);
    let low = reference8(a, c) ^ reference8(DELTA, bd);
    let high = reference8(a, d) ^ reference8(b, c) ^ bd;
    u16::from(low) | (u16::from(high) << 8)
}

#[test]
fn gf8_known_products() {
    // FIPS-197 worked examples.
    assert_eq!(mul_byte(0x57, 0x83), 0xc1);
    assert_eq!(mul_byte(0x57, 0x13), 0xfe);
    // 0x53 and 0xCA are inverses in the AES field.
    assert_eq!(mul_byte(0x53, 0xca), 0x01);
    assert_eq!(gf8::Elem(0x03).mul(gf8::Elem(0x04)), gf8::Elem(0x0c));
    assert_eq!(gf8::Elem(0x03).add(gf8::Elem(0x05)), gf8::Elem(0x06));
}

#[test]
fn gf8_matches_reference_everywhere() {
    for a in 0..=255u8 {
        for b in 0..=255u8 {
            assert_eq!(mul_byte(a, b), reference8(a, b));
        }
    }
}

#[test]
fn gf8_field_laws_on_samples() {
    let samples = [0u8, 1, 2, 3, 0x1b, 0x53, 0x80, 0xca, 0xff];
    for &a in &samples {
        assert_eq!(mul_byte(a, 1), a);
        assert_eq!(mul_byte(a, 0), 0);
        for &b in &samples {
            assert_eq!(mul_byte(a, b), mul_byte(b, a));
            for &c in &samples {
                assert_eq!(mul_byte(mul_byte(a, b), c), mul_byte(a, mul_byte(b, c)));
                assert_eq!(mul_byte(a, b ^ c), mul_byte(a, b) ^ mul_byte(a, c));
            }
        }
    }
}

#[test]
fn gf16_tower_identity() {
    // u · u = u + DELTA.
    let u = gf16::Elem(0x0100);
    assert_eq!(u.mul(u), gf16::Elem(0x0100 | u16::from(DELTA)));
    let x = gf16::Elem(0x1234);
    assert_eq!(x.mul(gf16::Elem(1)), x);
    assert_eq!(x.mul(gf16::Elem(0)), gf16::Elem(0));
    assert_eq!(x.add(x), gf16::Elem(0));
}

#[test]
fn gf16_bytes_are_little_endian() {
    let x = gf16::Elem::from_bytes([0x34, 0x12]);
    assert_eq!(x, gf16::Elem(0x1234));
    assert_eq!(x.to_bytes(), [0x34, 0x12]);
}

#[test]
fn gf16_matches_reference_on_samples() {
    let mut state = 0x1234_5678u32;
    for _ in 0..2000 {
        state = state.wrapping_mul(1_664_525).wrapping_add(1_013_904_223);
        let x = (state >> 16) as u16;
        state = state.wrapping_mul(1_664_525).wrapping_add(1_013_904_223);
        let y = (state >> 16) as u16;
        assert_eq!(gf16::Elem(x).mul(gf16::Elem(y)).0, reference16(x, y));
        assert_eq!(gf16::Elem(x).mul(gf16::Elem(y)), gf16::Elem(y).mul(gf16::Elem(x)));
    }
}

#[test]
fn gf16_laws_on_samples() {
    let samples = [0u16, 1, 2, 0x0100, 0x1234, 0x0108, 0xffff, 0x8001, 0x20];
    for &a in &samples {
        for &b in &samples {
            for &c in &samples {
                let (x, y, z) = (gf16::Elem(a), gf16::Elem(b), gf16::Elem(c));
                assert_eq!(x.mul(y).mul(z), x.mul(y.mul(z)));
                assert_eq!(x.add(y).mul(z), x.mul(z).add(y.mul(z)));
            }
        }
    }
}

#[test]
fn tower_polynomial_has_no_root() {
    for t in 0..=255u8 {
        assert_ne!(mul_byte(t, t) ^ t, DELTA);
    }
}

#[test]
fn gf16_has_no_zero_divisors_on_samples() {
    let samples = [1u16, 2, 0x0100, 0x1234, 0x0108, 0xffff, 0x8001, 0x20, 0x2001];
    for &a in &samples {
        for &b in &samples {
            assert_ne!(gf16::Elem(a).mul(gf16::Elem(b)), gf16::Elem(0));
        }
    }
}
