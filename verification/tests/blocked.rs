use fff::field::gf16::{Elem as E16, Gf16};
use fff::field::gf8::{Elem as E8, Gf8, mul_byte};
use fff::kernel::backend::Backend;
use fff::kernel::blocked::{next_group, terms_cover};
use fff::kernel::gf16 as k16;
use fff::kernel::gf8 as k8;
use fff::kernel::FieldKernels;

const HOSTS: [Backend; 8] = Backend::ALL;

fn noise(len: usize, seed: u32) -> Vec<u8> {
    let mut state = seed.wrapping_mul(2_654_435_761) | 1;
    (0..len)
        .map(|_| {
            state = state.wrapping_mul(1_664_525).wrapping_add(1_013_904_223);
            (state >> 24) as u8
        })
        .collect()
}

fn gf8_product(src: &[u8], c: u8) -> Vec<u8> {
    src.iter().map(|&x| mul_byte(c, x)).collect()
}

fn gf16_product(src: &[u8], c: E16) -> Vec<u8> {
    let mut out = Vec::with_capacity(src.len());
    for k in 0..src.len() / 2 {
        let e = E16::from_bytes([src[2 * k], src[2 * k + 1]]);
        out.extend_from_slice(&e.mul(c).to_bytes());
    }
    out
}

fn add_into(dst: &mut [u8], p: &[u8]) {
    for (d, x) in dst.iter_mut().zip(p) {
        *d ^= *x;
    }
}

#[test]
fn group_sizes() {
    assert_eq!(next_group(9, 4, true), 4);
    assert_eq!(next_group(3, 4, true), 2);
    assert_eq!(next_group(1, 4, true), 1);
    assert_eq!(next_group(3, 4, false), 3);
    assert_eq!(next_group(4, 4, false), 4);
    // Seven rows with halving go as four, two and one.
    let mut left = 7;
    let mut sizes = Vec::new();
    while left > 0 {
        let c = next_group(left, 4, true);
        sizes.push(c);
        left -= c;
    }
    assert_eq!(sizes, vec![4, 2, 1]);
}

#[test]
fn cover_check() {
    let a = [E8(1), E8(2), E8(3)];
    let b = [E8(4)];
    let s = [0u8; 4];
    let terms: [(&[E8], &[u8]); 2] = [(&a, &s), (&b, &s)];
    assert!(terms_cover(&terms, 1));
    assert!(!terms_cover(&terms, 2));
    let none: [(&[E8], &[u8]); 0] = [];
    assert!(terms_cover(&none, 100));
}

#[test]
fn gf8_scatter_every_group_shape() {
    for row_len in [1usize, 15, 16, 17, 40, 64, 100] {
        for nrows in 1..=9usize {
            let src = noise(row_len, (row_len * 31 + nrows) as u32);
            let rows = noise(row_len * nrows + 3, (row_len + 7 * nrows) as u32);
            let coeffs: Vec<E8> = (0..nrows).map(|j| E8((j as u8).wrapping_mul(53) ^ 0x1d)).collect();
            let mut expected = rows.clone();
            for j in 0..nrows {
                add_into(&mut expected[j * row_len..(j + 1) * row_len], &gf8_product(&src, coeffs[j].0));
            }
            for host in HOSTS {
                let mut r = rows.clone();
                Gf8::mul_add_scatter(host, &mut r, row_len, &coeffs, &src);
                assert_eq!(r, expected, "row_len {row_len} nrows {nrows} host {host:?}");
            }
            let mut g = rows.clone();
            k8::scatter_gfni(&mut g, row_len, &coeffs, &src);
            assert_eq!(g, expected);
            let mut t = rows.clone();
            k8::scatter_ssse3(&mut t, row_len, &coeffs, &src);
            assert_eq!(t, expected);
        }
    }
}

#[test]
fn gf8_gather_blocks_of_sources() {
    for len in [0usize, 5, 16, 31, 64, 129] {
        for nsrc in [0usize, 1, 3, 4, 5, 9] {
            let sources: Vec<Vec<u8>> = (0..nsrc).map(|i| noise(len, (i * 13 + len) as u32)).collect();
            let srcs: Vec<&[u8]> = sources.iter().map(|s| s.as_slice()).collect();
            let coeffs: Vec<E8> = (0..nsrc).map(|i| E8(0x80u8.wrapping_add(i as u8 * 17))).collect();
            let dst = noise(len, 99 + len as u32);
            let mut expected = dst.clone();
            for i in 0..nsrc {
                add_into(&mut expected, &gf8_product(srcs[i], coeffs[i].0));
            }
            for host in HOSTS {
                let mut d = dst.clone();
                Gf8::mul_add_gather(host, &mut d, &coeffs, &srcs);
                assert_eq!(d, expected, "len {len} sources {nsrc} host {host:?}");
            }
            let mut g = dst.clone();
            k8::gather_gfni(&mut g, &coeffs, &srcs);
            assert_eq!(g, expected);
            let mut t = dst.clone();
            k8::gather_ssse3(&mut t, &coeffs, &srcs);
            assert_eq!(t, expected);
        }
    }
}

#[test]
fn gf8_matrix_tiles_and_tails() {
    for row_len in [3usize, 16, 33, 80] {
        for nrows in [1usize, 2, 3, 5, 7] {
            let nterms = 6;
            let sources: Vec<Vec<u8>> = (0..nterms).map(|t| noise(row_len, (t * 7 + row_len) as u32)).collect();
            let coeffs: Vec<Vec<E8>> = (0..nterms)
                .map(|t| (0..nrows).map(|j| E8((t * 29 + j * 11 + 1) as u8)).collect())
                .collect();
            let terms: Vec<(&[E8], &[u8])> =
                (0..nterms).map(|t| (coeffs[t].as_slice(), sources[t].as_slice())).collect();
            let rows = noise(row_len * nrows, (row_len * nrows) as u32);
            let mut expected = rows.clone();
            for t in 0..nterms {
                for j in 0..nrows {
                    add_into(
                        &mut expected[j * row_len..(j + 1) * row_len],
                        &gf8_product(&sources[t], coeffs[t][j].0),
                    );
                }
            }
            for host in HOSTS {
                let mut r = rows.clone();
                Gf8::mul_add_matrix(host, &mut r, row_len, nrows, &terms);
                assert_eq!(r, expected, "row_len {row_len} nrows {nrows} host {host:?}");
            }
            let mut g = rows.clone();
            k8::matrix_gfni(&mut g, row_len, nrows, &terms);
            assert_eq!(g, expected);
        }
    }
}

#[test]
fn gf8_matrix_short_coefficients_fall_back() {
    // The second term has no coefficient for row 1: only row 0 gets it.
    let row_len = 20;
    let s0 = noise(row_len, 1);
    let s1 = noise(row_len, 2);
    let c0 = [E8(3), E8(5)];
    let c1 = [E8(7)];
    let terms: [(&[E8], &[u8]); 2] = [(&c0, &s0), (&c1, &s1)];
    let rows = noise(2 * row_len, 3);
    let mut expected = rows.clone();
    add_into(&mut expected[..row_len], &gf8_product(&s0, 3));
    add_into(&mut expected[row_len..], &gf8_product(&s0, 5));
    add_into(&mut expected[..row_len], &gf8_product(&s1, 7));
    for host in HOSTS {
        let mut r = rows.clone();
        Gf8::mul_add_matrix(host, &mut r, row_len, 2, &terms);
        assert_eq!(r, expected);
    }
}

#[test]
fn gf16_scatter_every_group_shape() {
    for row_len in [2usize, 14, 16, 18, 48, 98] {
        for nrows in 1..=9usize {
            let src = noise(row_len, (row_len * 17 + nrows) as u32);
            let rows = noise(row_len * nrows + 1, (row_len * 3 + nrows) as u32);
            let coeffs: Vec<E16> =
                (0..nrows).map(|j| E16((j as u16).wrapping_mul(0x3b1d) ^ 0x0101)).collect();
            let mut expected = rows.clone();
            for j in 0..nrows {
                add_into(&mut expected[j * row_len..(j + 1) * row_len], &gf16_product(&src, coeffs[j]));
            }
            for host in HOSTS {
                let mut r = rows.clone();
                Gf16::mul_add_scatter(host, &mut r, row_len, &coeffs, &src);
                assert_eq!(r, expected, "row_len {row_len} nrows {nrows} host {host:?}");
            }
            let mut g = rows.clone();
            k16::scatter_gfni(&mut g, row_len, &coeffs, &src);
            assert_eq!(g, expected);
            let mut t = rows.clone();
            k16::scatter_ssse3(&mut t, row_len, &coeffs, &src);
            assert_eq!(t, expected);
        }
    }
}

#[test]
fn gf16_gather_blocks_of_eight() {
    for len in [0usize, 2, 16, 30, 66] {
        for nsrc in [1usize, 7, 8, 9, 17] {
            let sources: Vec<Vec<u8>> = (0..nsrc).map(|i| noise(len, (i * 5 + len) as u32)).collect();
            let srcs: Vec<&[u8]> = sources.iter().map(|s| s.as_slice()).collect();
            let coeffs: Vec<E16> = (0..nsrc).map(|i| E16(0x1234u16.wrapping_mul(i as u16 + 1))).collect();
            let dst = noise(len, 7 + len as u32);
            let mut expected = dst.clone();
            for i in 0..nsrc {
                add_into(&mut expected, &gf16_product(srcs[i], coeffs[i]));
            }
            for host in HOSTS {
                let mut d = dst.clone();
                Gf16::mul_add_gather(host, &mut d, &coeffs, &srcs);
                assert_eq!(d, expected, "len {len} sources {nsrc} host {host:?}");
            }
            let mut t = dst.clone();
            k16::gather_ssse3(&mut t, &coeffs, &srcs);
            assert_eq!(t, expected);
        }
    }
}

#[test]
fn gf16_matrix_term_blocks() {
    // Twenty terms span two blocks of sixteen and three blocks of eight.
    let nterms = 20;
    for row_len in [6usize, 32, 50] {
        for nrows in [1usize, 3, 4, 6] {
            let sources: Vec<Vec<u8>> = (0..nterms).map(|t| noise(row_len, (t * 3 + row_len) as u32)).collect();
            let coeffs: Vec<Vec<E16>> = (0..nterms)
                .map(|t| (0..nrows).map(|j| E16((t as u16 * 0x0301) ^ (j as u16 * 0x1111) ^ 1)).collect())
                .collect();
            let terms: Vec<(&[E16], &[u8])> =
                (0..nterms).map(|t| (coeffs[t].as_slice(), sources[t].as_slice())).collect();
            let rows = noise(row_len * nrows, (row_len + nrows) as u32);
            let mut expected = rows.clone();
            for t in 0..nterms {
                for j in 0..nrows {
                    add_into(
                        &mut expected[j * row_len..(j + 1) * row_len],
                        &gf16_product(&sources[t], coeffs[t][j]),
                    );
                }
            }
            for host in HOSTS {
                let mut r = rows.clone();
                Gf16::mul_add_matrix(host, &mut r, row_len, nrows, &terms);
                assert_eq!(r, expected, "row_len {row_len} nrows {nrows} host {host:?}");
            }
            let mut g = rows.clone();
            k16::matrix_gfni(&mut g, row_len, nrows, &terms);
            assert_eq!(g, expected);
            let mut t = rows.clone();
            k16::matrix_ssse3(&mut t, row_len, nrows, &terms);
            assert_eq!(t, expected);
        }
    }
}

#[test]
fn gf16_matrix_fewer_rows_than_buffer() {
    // Rows past `nrows` are left alone on every backend.
    let row_len = 18;
    let src = noise(row_len, 5);
    let coeffs = [E16(2), E16(3), E16(4)];
    let terms: [(&[E16], &[u8]); 1] = [(&coeffs, &src)];
    let rows = noise(3 * row_len, 6);
    let mut expected = rows.clone();
    add_into(&mut expected[..row_len], &gf16_product(&src, E16(2)));
    add_into(&mut expected[row_len..2 * row_len], &gf16_product(&src, E16(3)));
    for host in HOSTS {
        let mut r = rows.clone();
        Gf16::mul_add_matrix(host, &mut r, row_len, 2, &terms);
        assert_eq!(r, expected, "host {host:?}");
    }
}

#[test]
fn gf8_scatter_drops_zero_rows() {
    let row_len = 37;
    let src = noise(row_len, 77);
    // Zero coefficients scattered among live ones leave 1, 2, 3, 4, 5 and 7
    // live rows for the grouping.
    let patterns: [&[u8]; 6] = [
        &[0, 0, 9, 0],
        &[5, 0, 0, 6],
        &[0, 1, 2, 0, 3],
        &[1, 2, 0, 3, 4, 0],
        &[0, 7, 7, 7, 0, 7, 7],
        &[1, 0, 2, 3, 0, 4, 5, 6, 7, 0],
    ];
    for pattern in patterns {
        let coeffs: Vec<E8> = pattern.iter().map(|&c| E8(c)).collect();
        let rows = noise(row_len * coeffs.len(), pattern.len() as u32);
        let mut expected = rows.clone();
        for (j, &c) in pattern.iter().enumerate() {
            add_into(&mut expected[j * row_len..(j + 1) * row_len], &gf8_product(&src, c));
        }
        let mut r = rows.clone();
        k8::scatter_gfni(&mut r, row_len, &coeffs, &src);
        assert_eq!(r, expected, "pattern {pattern:?}");
        for (j, &c) in pattern.iter().enumerate() {
            if c == 0 {
                assert_eq!(&r[j * row_len..(j + 1) * row_len], &rows[j * row_len..(j + 1) * row_len]);
            }
        }
    }
}

#[test]
fn zero_length_rows_change_nothing() {
    let rows = noise(12, 5);
    let empty: [u8; 0] = [];
    let c8 = [E8(3), E8(7)];
    let c16 = [E16(0x1234), E16(0x8001)];
    let t8: [(&[E8], &[u8]); 2] = [(&c8, &empty), (&c8, &empty)];
    let t16: [(&[E16], &[u8]); 2] = [(&c16, &empty), (&c16, &empty)];
    for host in HOSTS {
        let mut r = rows.clone();
        Gf8::mul_add_scatter(host, &mut r, 0, &c8, &empty);
        assert_eq!(r, rows, "host {host:?}");
        Gf16::mul_add_scatter(host, &mut r, 0, &c16, &empty);
        assert_eq!(r, rows, "host {host:?}");
        Gf8::mul_add_matrix(host, &mut r, 0, 2, &t8);
        assert_eq!(r, rows, "host {host:?}");
        Gf16::mul_add_matrix(host, &mut r, 0, 2, &t16);
        assert_eq!(r, rows, "host {host:?}");
    }
    let mut r = rows.clone();
    k8::scatter_gfni(&mut r, 0, &c8, &empty);
    k8::scatter_ssse3(&mut r, 0, &c8, &empty);
    k8::matrix_gfni(&mut r, 0, 2, &t8);
    k16::scatter_gfni(&mut r, 0, &c16, &empty);
    k16::scatter_ssse3(&mut r, 0, &c16, &empty);
    k16::scatter_simd128(&mut r, 0, &c16, &empty);
    k16::matrix_gfni(&mut r, 0, 2, &t16);
    k16::matrix_ssse3(&mut r, 0, 2, &t16);
    k16::matrix_simd128(&mut r, 0, 2, &t16);
    k16::matrix_avx2_axpy(&mut r, 0, &t16);
    assert_eq!(r, rows);
}

#[test]
fn zero_length_rows_ignore_the_sources() {
    let rows = noise(10, 9);
    let src = noise(4, 3);
    let c8 = [E8(3), E8(7)];
    let c16 = [E16(0x1234), E16(0x8001)];
    let t8: [(&[E8], &[u8]); 2] = [(&c8, &src), (&c8, &src[..2])];
    let t16: [(&[E16], &[u8]); 2] = [(&c16, &src), (&c16, &src[..2])];
    for host in HOSTS {
        let mut r = rows.clone();
        Gf8::mul_add_scatter(host, &mut r, 0, &c8, &src);
        Gf16::mul_add_scatter(host, &mut r, 0, &c16, &src);
        Gf8::mul_add_matrix(host, &mut r, 0, 2, &t8);
        Gf16::mul_add_matrix(host, &mut r, 0, 2, &t16);
        assert_eq!(r, rows, "host {host:?}");
    }
    let mut r = rows.clone();
    k8::scatter_ssse3(&mut r, 0, &c8, &src);
    k16::scatter_gfni(&mut r, 0, &c16, &src);
    k16::scatter_ssse3(&mut r, 0, &c16, &src);
    k16::scatter_simd128(&mut r, 0, &c16, &src);
    k16::matrix_gfni(&mut r, 0, 2, &t16);
    k16::matrix_ssse3(&mut r, 0, 2, &t16);
    k16::matrix_simd128(&mut r, 0, 2, &t16);
    k16::matrix_avx2_axpy(&mut r, 0, &t16);
    assert_eq!(r, rows);
}
