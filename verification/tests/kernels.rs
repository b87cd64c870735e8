use fff::field::gf16::{Elem as E16, Gf16};
use fff::field::gf8::{Elem as E8, Gf8, mul_byte};
use fff::kernel::backend::Backend;
use fff::kernel::gf16::{
    self as k16, Prepared as P16, gather_avx2_axpy, gather_gfni_axpy, gather_simd128,
    matrix_avx2_axpy, matrix_simd128, mul_add_scalar, mul_assign_scalar, mul_into_scalar,
    scatter_simd128,
};
use fff::kernel::gf8 as k8;
use fff::kernel::tables::{ScaleTable, TowerCoeff, TowerTables};
use fff::kernel::{
    FieldKernels, FlatMatrix, Matrix, NT_STORE_MIN, ScaleKernels, TermList, backend_for, copy_bytes,
    has_vector_elementwise, nt_split, peel_to_align, xor, xor_avx2, xor_sse2,
};

fn noise(len: usize, seed: u32) -> Vec<u8> {
    let mut state = seed | 1;
    (0..len)
        .map(|_| {
            state = state.wrapping_mul(1_664_525).wrapping_add(1_013_904_223);
            (state >> 24) as u8
        })
        .collect()
}

fn elem16(bytes: &[u8], k: usize) -> E16 {
    E16::from_bytes([bytes[2 * k], bytes[2 * k + 1]])
}

fn product16(src: &[u8], c: E16) -> Vec<u8> {
    let mut out = Vec::new();
    for k in 0..src.len() / 2 {
        out.extend_from_slice(&elem16(src, k).mul(c).to_bytes());
    }
    out
}

const HOSTS: [Backend; 8] = Backend::ALL;

#[test]
fn readme_gf8_mul_add() {
    let src = [0x01u8, 0x02, 0x03, 0x04];
    for host in HOSTS {
        let mut dst = [0u8; 4];
        let c = Gf8::prepare(host, E8(0x03));
        Gf8::mul_add(&mut dst, &c, &src);
        assert_eq!(dst, [0x03, 0x06, 0x05, 0x0c]);
    }
}

#[test]
fn gf8_kernels_match_bytewise_products() {
    for len in [0usize, 1, 15, 16, 17, 31, 32, 33, 100] {
        let src = noise(len, 7 + len as u32);
        let orig = noise(len, 99 + len as u32);
        for host in HOSTS {
            for c in [0u8, 1, 2, 0x53, 0xff] {
                let p = Gf8::prepare(host, E8(c));
                assert_eq!(Gf8::prepared_coeff(&p), E8(c));
                let mut add = orig.clone();
                Gf8::mul_add(&mut add, &p, &src);
                let mut assign = orig.clone();
                Gf8::mul_assign(&mut assign, &p);
                let mut into = orig.clone();
                Gf8::mul_into(&mut into, &p, &src);
                for i in 0..len {
                    assert_eq!(add[i], orig[i] ^ mul_byte(c, src[i]));
                    assert_eq!(assign[i], mul_byte(c, orig[i]));
                    assert_eq!(into[i], mul_byte(c, src[i]));
                }
            }
            let mut prod = vec![0u8; len];
            Gf8::mul_elementwise(host, &mut prod, &orig, &src);
            for i in 0..len {
                assert_eq!(prod[i], mul_byte(orig[i], src[i]));
            }
        }
    }
}

#[test]
fn gf8_prepared_forms() {
    assert!(matches!(Gf8::prepare(Backend::Gfni, E8(5)), k8::Prepared::Native(_)));
    assert!(matches!(Gf8::prepare(Backend::Avx512, E8(5)), k8::Prepared::Native(_)));
    assert!(matches!(Gf8::prepare(Backend::Avx2, E8(5)), k8::Prepared::Table(_)));
    assert!(matches!(Gf8::prepare(Backend::Scalar, E8(5)), k8::Prepared::Table(_)));
    assert_eq!(k8::Prepared::Native(E8(9)).coeff(), E8(9));
}

#[test]
fn scale_table_lookups() {
    let t = ScaleTable::new(E8(0x57));
    assert_eq!(t.coeff(), E8(0x57));
    for x in 0..=255u8 {
        assert_eq!(t.scale(x), mul_byte(0x57, x));
    }
    let lo = t.lo_table();
    let hi = t.hi_table();
    for i in 0..16u8 {
        assert_eq!(lo[i as usize], mul_byte(0x57, i));
        assert_eq!(hi[i as usize], mul_byte(0x57, i << 4));
    }
}

#[test]
fn gf8_simd128_kernels() {
    let t = ScaleTable::new(E8(0x1d));
    let src = noise(37, 3);
    let orig = noise(37, 4);
    let mut d = orig.clone();
    k8::mul_add_simd128(&mut d, &t, &src);
    let mut a = orig.clone();
    k8::mul_assign_simd128(&mut a, &t);
    let mut n = orig.clone();
    k8::mul_into_simd128(&mut n, &t, &src);
    let mut e = vec![0u8; 37];
    k8::elementwise_simd128(&mut e, &orig, &src);
    for i in 0..37 {
        assert_eq!(d[i], orig[i] ^ mul_byte(0x1d, src[i]));
        assert_eq!(a[i], mul_byte(0x1d, orig[i]));
        assert_eq!(n[i], mul_byte(0x1d, src[i]));
        assert_eq!(e[i], mul_byte(orig[i], src[i]));
    }
}

#[test]
fn gf16_kernels_agree_across_backends() {
    for len in [0usize, 2, 14, 16, 18, 30, 32, 34, 64, 98] {
        let src = noise(len, 11 + len as u32);
        let orig = noise(len, 13 + len as u32);
        for c in [0u16, 1, 2, 0x0100, 0x1234, 0xffff] {
            let coeff = E16(c);
            let expected = product16(&src, coeff);
            let scaled_orig = product16(&orig, coeff);
            for host in HOSTS {
                let p = Gf16::prepare(host, coeff);
                assert_eq!(Gf16::prepared_coeff(&p), coeff);
                assert_eq!(p.coeff(), coeff);
                let mut add = orig.clone();
                Gf16::mul_add(&mut add, &p, &src);
                let mut assign = orig.clone();
                Gf16::mul_assign(&mut assign, &p);
                let mut into = orig.clone();
                Gf16::mul_into(&mut into, &p, &src);
                for i in 0..len {
                    assert_eq!(add[i], orig[i] ^ expected[i]);
                    assert_eq!(assign[i], scaled_orig[i]);
                    assert_eq!(into[i], expected[i]);
                }
            }
        }
    }
}

#[test]
fn gf16_prepared_forms() {
    let c = E16(0x0108);
    assert!(matches!(Gf16::prepare(Backend::Gfni, c), P16::Compact(_)));
    assert!(matches!(Gf16::prepare(Backend::Avx512, c), P16::Compact(_)));
    for host in [Backend::Avx2, Backend::Ssse3, Backend::Neon, Backend::Pmull, Backend::Simd128] {
        assert!(matches!(Gf16::prepare(host, c), P16::Tables(_)));
    }
    assert!(matches!(Gf16::prepare(Backend::Scalar, c), P16::Plain(_)));
    assert_eq!(P16::Compact(TowerCoeff::new(c)).coeff(), c);
    assert_eq!(P16::Tables(TowerTables::new(c)).coeff(), c);
    assert_eq!(P16::Plain(c).coeff(), c);
}

#[test]
fn tower_coeff_pairs() {
    // Coefficients zero and one reduce to the pairs (0, 0) and (0x0101, 0).
    let zero = TowerCoeff::new(E16(0));
    assert_eq!((zero.same(), zero.cross()), (0, 0));
    let one = TowerCoeff::new(E16(1));
    assert_eq!((one.same(), one.cross()), (0x0101, 0));
    let u = TowerCoeff::new(E16(0x0100));
    assert_eq!(u.same(), 0x0100);
    assert_eq!(u.cross(), 0x0100 | u16::from(fff::field::gf16::DELTA));
}

#[test]
fn gf16_scalar_kernels_leave_a_trailing_odd_byte() {
    let mut dst = [0x34u8, 0x12, 0x99];
    mul_assign_scalar(&mut dst, E16(0));
    assert_eq!(dst, [0x00, 0x00, 0x99]);

    let src = noise(7, 11);
    let orig = noise(7, 12);
    let c = E16(0x1d2c);
    let expected = product16(&src[..6], c);
    let mut add = orig.clone();
    mul_add_scalar(&mut add, c, &src);
    let mut into = orig.clone();
    mul_into_scalar(&mut into, c, &src);
    for i in 0..6 {
        assert_eq!(add[i], orig[i] ^ expected[i]);
        assert_eq!(into[i], expected[i]);
    }
    assert_eq!(add[6], orig[6]);
    assert_eq!(into[6], orig[6]);
}

#[test]
fn gf16_scalar_kernels() {
    let src = noise(22, 5);
    let orig = noise(22, 6);
    let c = E16(0xbeef);
    let expected = product16(&src, c);
    let mut add = orig.clone();
    mul_add_scalar(&mut add, c, &src);
    let mut assign = orig.clone();
    mul_assign_scalar(&mut assign, c);
    let mut into = vec![0u8; 22];
    mul_into_scalar(&mut into, c, &src);
    assert_eq!(into, expected);
    assert_eq!(assign, product16(&orig, c));
    for i in 0..22 {
        assert_eq!(add[i], orig[i] ^ expected[i]);
    }
}

#[test]
fn gf16_elementwise() {
    for len in [0usize, 2, 16, 18, 40] {
        let a = noise(len, 21);
        let b = noise(len, 22);
        for host in HOSTS {
            let mut dst = vec![0u8; len];
            Gf16::mul_elementwise(host, &mut dst, &a, &b);
            for k in 0..len / 2 {
                assert_eq!(elem16(&dst, k), elem16(&a, k).mul(elem16(&b, k)));
            }
        }
        let mut v = vec![0u8; len];
        k16::elementwise_simd128(&mut v, &a, &b);
        let mut s = vec![0u8; len];
        k16::elementwise_scalar(&mut s, &a, &b);
        assert_eq!(v, s);
    }
}

#[test]
fn capability_reporting() {
    assert_eq!(backend_for::<Gf16>(Backend::Avx2), Backend::Avx2);
    assert_eq!(backend_for::<Gf8>(Backend::Neon), Backend::Neon);
    assert!(has_vector_elementwise::<Gf16>(Backend::Gfni));
    assert!(has_vector_elementwise::<Gf16>(Backend::Simd128));
    assert!(has_vector_elementwise::<Gf16>(Backend::Neon));
    assert!(has_vector_elementwise::<Gf16>(Backend::Pmull));
    assert!(!has_vector_elementwise::<Gf16>(Backend::Avx2));
    assert!(!has_vector_elementwise::<Gf16>(Backend::Scalar));
    assert!(has_vector_elementwise::<Gf8>(Backend::Avx2));
    assert!(!has_vector_elementwise::<Gf8>(Backend::Scalar));
}

fn scatter_reference(rows: &[u8], row_len: usize, coeffs: &[E16], src: &[u8]) -> Vec<u8> {
    let mut out = rows.to_vec();
    let n = coeffs.len().min(rows.len() / row_len);
    for j in 0..n {
        let p = product16(src, coeffs[j]);
        for t in 0..row_len {
            out[j * row_len + t] ^= p[t];
        }
    }
    out
}

#[test]
fn gf16_scatter() {
    let row_len = 34;
    let src = noise(row_len, 31);
    let rows = noise(row_len * 3 + 5, 32);
    let coeffs = [E16(3), E16(0x0100), E16(0), E16(7)];
    let expected = scatter_reference(&rows, row_len, &coeffs, &src);
    for host in HOSTS {
        let mut r = rows.clone();
        Gf16::mul_add_scatter(host, &mut r, row_len, &coeffs, &src);
        assert_eq!(r, expected);
        let prepared: Vec<P16> = coeffs.iter().map(|&c| Gf16::prepare(host, c)).collect();
        let mut w = rows.clone();
        Gf16::mul_add_scatter_with(&mut w, row_len, &prepared, &src);
        assert_eq!(w, expected);
        let mut p = rows.clone();
        Gf16::mul_add_scatter_plan(&mut p, row_len, &coeffs, &prepared, &src);
        assert_eq!(p, expected);
    }
    let mut s = rows.clone();
    scatter_simd128(&mut s, row_len, &coeffs, &src);
    assert_eq!(s, expected);
}

#[test]
fn gf16_gather() {
    let len = 36;
    let a = noise(len, 41);
    let b = noise(len, 42);
    let c = noise(len, 43);
    let srcs: [&[u8]; 3] = [&a, &b, &c];
    let coeffs = [E16(0x1234), E16(1), E16(0x00ff)];
    let dst = noise(len, 44);
    let mut expected = dst.clone();
    for (s, &k) in srcs.iter().zip(&coeffs) {
        let p = product16(s, k);
        for i in 0..len {
            expected[i] ^= p[i];
        }
    }
    for host in HOSTS {
        let mut d = dst.clone();
        Gf16::mul_add_gather(host, &mut d, &coeffs, &srcs);
        assert_eq!(d, expected);
        let prepared: Vec<P16> = coeffs.iter().map(|&k| Gf16::prepare(host, k)).collect();
        let mut w = dst.clone();
        Gf16::mul_add_gather_with(&mut w, &prepared, &srcs);
        assert_eq!(w, expected);
        let mut p = dst.clone();
        Gf16::mul_add_gather_plan(&mut p, &coeffs, &prepared, &srcs);
        assert_eq!(p, expected);
    }
    for f in [gather_gfni_axpy, gather_avx2_axpy, gather_simd128] {
        let mut d = dst.clone();
        f(&mut d, &coeffs, &srcs);
        assert_eq!(d, expected);
    }
    // Only as many sources as coefficients take part.
    let mut d = dst.clone();
    Gf16::mul_add_gather(Backend::Scalar, &mut d, &coeffs[..1], &srcs);
    let p = product16(&a, coeffs[0]);
    for i in 0..len {
        assert_eq!(d[i], dst[i] ^ p[i]);
    }
}

#[test]
fn readme_matrix_plan() {
    let coeffs = [E16(1), E16(2), E16(3), E16(4)];
    let a = [1u8, 0, 2, 0];
    let b = [3u8, 0, 4, 0];
    let sources: [&[u8]; 2] = [&a, &b];
    // Source 0 feeds rows with coefficients 1 and 2, source 1 with 3 and 4.
    let mut expected = vec![0u8; 8];
    for (t, src) in sources.iter().enumerate() {
        for row in 0..2 {
            let p = product16(src, coeffs[t * 2 + row]);
            for i in 0..4 {
                expected[row * 4 + i] ^= p[i];
            }
        }
    }
    for host in HOSTS {
        let prepared: Vec<P16> = coeffs.iter().map(|&c| Gf16::prepare(host, c)).collect();
        let mut rows = [0u8; 8];
        Gf16::mul_add_matrix_plan(&mut rows, 4, 2, &coeffs, &prepared, &sources);
        assert_eq!(rows.to_vec(), expected);
        let terms: [(&[E16], &[u8]); 2] = [(&coeffs[0..2], &a), (&coeffs[2..4], &b)];
        let mut raw = [0u8; 8];
        Gf16::mul_add_matrix(host, &mut raw, 4, 2, &terms);
        assert_eq!(raw.to_vec(), expected);
        let pterms: [(&[P16], &[u8]); 2] = [(&prepared[0..2], &a), (&prepared[2..4], &b)];
        let mut with = [0u8; 8];
        Gf16::mul_add_matrix_with(&mut with, 4, 2, &pterms);
        assert_eq!(with.to_vec(), expected);
    }
    let terms: [(&[E16], &[u8]); 2] = [(&coeffs[0..2], &a), (&coeffs[2..4], &b)];
    let mut s = [0u8; 8];
    matrix_simd128(&mut s, 4, 2, &terms);
    assert_eq!(s.to_vec(), expected);
    let mut x = [0u8; 8];
    matrix_avx2_axpy(&mut x, 4, &terms);
    assert_eq!(x.to_vec(), expected);
}

#[test]
fn matrix_respects_nrows() {
    let coeffs = [E16(5), E16(6), E16(7)];
    let src = noise(4, 50);
    let terms: [(&[E16], &[u8]); 1] = [(&coeffs, &src)];
    let mut rows = [0u8; 12];
    Gf16::mul_add_matrix(Backend::Scalar, &mut rows, 4, 2, &terms);
    assert_eq!(&rows[8..], &[0, 0, 0, 0]);
    assert_eq!(rows[0..4].to_vec(), product16(&src, E16(5)));
}

#[test]
fn gf8_matrix_equals_scatter_per_term() {
    let src0 = noise(20, 61);
    let src1 = noise(20, 62);
    let c0 = [E8(1), E8(2), E8(3)];
    let c1 = [E8(9), E8(0)];
    let rows0 = noise(60, 63);
    for host in HOSTS {
        let mut m = rows0.clone();
        let terms: [(&[E8], &[u8]); 2] = [(&c0, &src0), (&c1, &src1)];
        Gf8::mul_add_matrix(host, &mut m, 20, 3, &terms);
        let mut s = rows0.clone();
        Gf8::mul_add_scatter(host, &mut s, 20, &c0, &src0);
        Gf8::mul_add_scatter(host, &mut s, 20, &c1, &src1);
        assert_eq!(m, s);
    }
}

#[test]
fn xor_is_addition() {
    for len in [0usize, 1, 15, 16, 17, 31, 32, 33, 40, 70] {
        let a = noise(len, 71);
        let b = noise(len, 72);
        for host in HOSTS {
            let mut d = a.clone();
            xor(host, &mut d, &b);
            for i in 0..len {
                assert_eq!(d[i], a[i] ^ b[i]);
            }
            // Subtraction is addition: twice restores.
            xor(host, &mut d, &b);
            assert_eq!(d, a);
        }
        let mut w = a.clone();
        xor_avx2(&mut w, &b);
        let mut n = a.clone();
        xor_sse2(&mut n, &b);
        assert_eq!(w, n);
        for i in 0..len {
            assert_eq!(w[i], a[i] ^ b[i]);
        }
    }
    let mut c = vec![0u8; 5];
    copy_bytes(&mut c, &[1, 2, 3, 4, 5]);
    assert_eq!(c, [1, 2, 3, 4, 5]);
}

#[test]
fn mul_add_laws_on_values() {
    let src = noise(34, 81);
    let orig = noise(34, 82);
    let (c1, c2) = (E16(0x0203), E16(0x4050));
    for host in HOSTS {
        // AXPY twice with one coefficient restores the destination.
        let p1 = Gf16::prepare(host, c1);
        let mut d = orig.clone();
        Gf16::mul_add(&mut d, &p1, &src);
        Gf16::mul_add(&mut d, &p1, &src);
        assert_eq!(d, orig);
        // AXPY by c1 then c2 is AXPY by c1 + c2.
        let p2 = Gf16::prepare(host, c2);
        let mut two = orig.clone();
        Gf16::mul_add(&mut two, &p1, &src);
        Gf16::mul_add(&mut two, &p2, &src);
        let mut one = orig.clone();
        Gf16::mul_add(&mut one, &Gf16::prepare(host, c1.add(c2)), &src);
        assert_eq!(two, one);
        // Unit coefficients.
        let mut u = orig.clone();
        Gf16::mul_assign(&mut u, &Gf16::prepare(host, E16(1)));
        assert_eq!(u, orig);
        let mut z = orig.clone();
        Gf16::mul_add(&mut z, &Gf16::prepare(host, E16(0)), &src);
        assert_eq!(z, orig);
    }
}

#[test]
fn non_temporal_split() {
    assert_eq!(NT_STORE_MIN, 2 << 20);
    assert_eq!(nt_split(NT_STORE_MIN - 1, 0, 1), None);
    assert_eq!(nt_split(NT_STORE_MIN, 0, 1), Some(0));
    assert_eq!(nt_split(NT_STORE_MIN, 6, 2), Some(6));
    assert_eq!(nt_split(NT_STORE_MIN, 7, 2), None);
    assert_eq!(nt_split(NT_STORE_MIN, usize::MAX, 1), None);
    assert_eq!(nt_split(NT_STORE_MIN, 0, 0), Some(0));
    assert_eq!(nt_split(NT_STORE_MIN, 4, 0), None);
}

#[test]
fn alignment_peel() {
    assert_eq!(peel_to_align(5, 2047), 0);
    assert_eq!(peel_to_align(5, 2048), 5);
    assert_eq!(peel_to_align(31, 4096), 31);
    assert_eq!(peel_to_align(4096, 4096), 0);
}

#[test]
fn matrices_expose_coefficients_and_sources() {
    let coeffs = [E8(1), E8(2), E8(3), E8(4), E8(5), E8(6)];
    let a = [1u8, 2];
    let b = [3u8, 4];
    let sources: [&[u8]; 2] = [&a, &b];
    let flat = FlatMatrix { coefficients: &coeffs, nrows: 3, sources: &sources };
    assert_eq!(flat.len(), 2);
    assert_eq!(*flat.coefficient(1, 2), E8(6));
    assert_eq!(*flat.coefficient(0, 1), E8(2));
    assert_eq!(flat.source(1), &b);
    let terms: [(&[E8], &[u8]); 2] = [(&coeffs[0..2], &a), (&coeffs[2..6], &b)];
    let list = TermList { terms: &terms };
    assert_eq!(list.len(), 2);
    assert_eq!(*list.coefficient(1, 3), E8(6));
    assert_eq!(list.source(0), &a);
}

#[test]
fn gf16_offset_kernels() {
    let c = E16(0x0a0b);
    let src = noise(20, 91);
    let orig = noise(30, 92);
    let expected = product16(&src, c);
    let mut t = orig.clone();
    k16::mul_add_tables_at(&mut t, 6, &TowerTables::new(c), &src);
    let mut g = orig.clone();
    k16::mul_add_gfni_at(&mut g, 6, &TowerCoeff::new(c), &src);
    for i in 0..30 {
        let want = if (6..26).contains(&i) { orig[i] ^ expected[i - 6] } else { orig[i] };
        assert_eq!(t[i], want);
        assert_eq!(g[i], want);
    }
}
