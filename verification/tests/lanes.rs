use fff::field::gf16::Elem as E16;
use fff::field::gf8::{Elem as E8, mul_byte};
use fff::kernel::lanes;
use fff::kernel::tables::{ScaleTable, TowerCoeff, TowerTables};

fn register(seed: u8) -> [u8; 16] {
    let mut v = [0u8; 16];
    for (i, b) in v.iter_mut().enumerate() {
        *b = seed.wrapping_mul(37).wrapping_add((i as u8).wrapping_mul(71)) ^ 0x5a;
    }
    v
}

fn tower_products(value: &[u8; 16], c: u16) -> [u8; 16] {
    let mut out = [0u8; 16];
    for k in 0..8 {
        let e = E16::from_bytes([value[2 * k], value[2 * k + 1]]);
        let p = e.mul(E16(c)).to_bytes();
        out[2 * k] = p[0];
        out[2 * k + 1] = p[1];
    }
    out
}

#[test]
fn shuffle_zeroes_on_top_bit_and_masks_low_nibble() {
    let table: [u8; 16] = core::array::from_fn(|i| 100 + i as u8);
    let control: [u8; 16] = [0, 1, 0x80, 0x8f, 0x13, 0x2f, 15, 7, 0xff, 3, 0x40, 9, 2, 0x7e, 5, 6];
    let v = lanes::shuffle(&table, &control);
    assert_eq!(v, [100, 101, 0, 0, 103, 115, 115, 107, 0, 103, 100, 109, 102, 114, 105, 106]);
}

#[test]
fn swizzle_zeroes_out_of_range_indices() {
    let table: [u8; 16] = core::array::from_fn(|i| 200 + i as u8);
    let indices: [u8; 16] = [0, 15, 16, 17, 0x80, 3, 255, 8, 1, 2, 4, 5, 6, 7, 9, 10];
    let v = lanes::swizzle(&table, &indices);
    assert_eq!(v, [200, 215, 0, 0, 0, 203, 0, 208, 201, 202, 204, 205, 206, 207, 209, 210]);
}

#[test]
fn srli_shifts_each_halfword() {
    let mut v = [0u8; 16];
    v[0] = 0x34;
    v[1] = 0x12;
    v[2] = 0xff;
    v[3] = 0xff;
    let r = lanes::srli_epi16_4(&v);
    assert_eq!(&r[0..4], &[0x23, 0x01, 0xff, 0x0f]);
    assert!(r[4..].iter().all(|&b| b == 0));
}

#[test]
fn split_gives_both_nibbles() {
    let v = register(3);
    let (low, high) = lanes::split_ssse3(&v);
    for i in 0..16 {
        assert_eq!(low[i], v[i] & 0x0f);
        assert_eq!(high[i], v[i] >> 4);
    }
    let wide: [u8; 32] = core::array::from_fn(|i| (i as u8).wrapping_mul(29) ^ 0xc3);
    let (l, h) = lanes::split_avx2(&wide);
    for i in 0..32 {
        assert_eq!(l[i], wide[i] & 0x0f);
        assert_eq!(h[i], wide[i] >> 4);
    }
}

#[test]
fn swap_adjacent_exchanges_pairs() {
    let v: [u8; 16] = core::array::from_fn(|i| i as u8);
    assert_eq!(lanes::swap_adjacent(&v), [1, 0, 3, 2, 5, 4, 7, 6, 9, 8, 11, 10, 13, 12, 15, 14]);
}

#[test]
fn scale_gf8_is_bytewise_product() {
    for c in [0u8, 1, 2, 0x53, 0xca, 0xff] {
        let table = ScaleTable::new(E8(c));
        let v = register(c);
        let r = lanes::scale_gf8(&table, &v);
        for i in 0..16 {
            assert_eq!(r[i], mul_byte(c, v[i]));
        }
    }
}

#[test]
fn tower_register_kernels_agree_with_element_product() {
    for c in [0u16, 1, 2, 0x0100, 0x1234, 0xbeef, 0xffff] {
        let tables = TowerTables::new(E16(c));
        let coeff = TowerCoeff::new(E16(c));
        let v = register(c as u8 ^ (c >> 8) as u8);
        let expected = tower_products(&v, c);
        assert_eq!(lanes::scale_ssse3(&v, &tables), expected);
        assert_eq!(lanes::scaled(&v, &tables), expected);
        assert_eq!(lanes::scale_tower_gfni(&v, &coeff), expected);
        let wide: [u8; 32] = core::array::from_fn(|i| if i < 16 { v[i] } else { v[31 - i] ^ 0x77 });
        let r = lanes::scale_avx2(&wide, &tables);
        let mut high = [0u8; 16];
        high.copy_from_slice(&wide[16..]);
        assert_eq!(&r[..16], &expected[..]);
        assert_eq!(&r[16..], &tower_products(&high, c)[..]);
    }
}

#[test]
fn multiply_vectors_is_lanewise() {
    let a = register(11);
    let b = register(200);
    let r = lanes::multiply_vectors(&a, &b);
    for i in 0..16 {
        assert_eq!(r[i], mul_byte(a[i], b[i]));
    }
    assert_eq!(mul_byte(0x57, 0x83), 0xc1);
}

#[test]
fn broadcast_words_reinterpret_the_tower_factors() {
    let coeff = TowerCoeff::new(E16(0x8001));
    let (same, cross) = lanes::broadcast_words(&coeff);
    assert_eq!(same as u16, coeff.same());
    assert_eq!(cross as u16, coeff.cross());
    let v = lanes::set1_epi16(-2);
    for i in 0..16 {
        assert_eq!(v[i], if i % 2 == 0 { 0xfe } else { 0xff });
    }
}

#[test]
fn halves_and_join_round_trip() {
    let wide: [u8; 32] = core::array::from_fn(|i| i as u8 * 3);
    let (low, high) = lanes::halves(&wide);
    assert_eq!(lanes::join(&low, &high), wide);
    let data: Vec<u8> = (0..40u8).collect();
    let reg = lanes::load(&data, 5);
    assert_eq!(reg[0], 5);
    assert_eq!(reg[15], 20);
    let mut out = vec![0u8; 40];
    lanes::store(&mut out, 7, &reg);
    assert_eq!(&out[7..23], &data[5..21]);
    assert!(out[..7].iter().all(|&b| b == 0));
    assert!(out[23..].iter().all(|&b| b == 0));
}

#[test]
fn lookup_avx2_uses_the_same_tables_in_both_halves() {
    let table = ScaleTable::new(E8(0x1b));
    let wide: [u8; 32] = core::array::from_fn(|i| (i as u8).wrapping_mul(57) ^ 0xa5);
    let split = lanes::split_avx2(&wide);
    let r = lanes::lookup_avx2(&table.lo_table(), &table.hi_table(), &split);
    for i in 0..32 {
        assert_eq!(r[i], mul_byte(0x1b, wide[i]));
    }
}
