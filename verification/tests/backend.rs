use std::str::FromStr;

use fff::kernel::backend::{
    Arch, Backend, HostFeatures, ParseBackendError, backend, resolve_backend, trim,
};

fn host(arch: Arch) -> HostFeatures {
    HostFeatures {
        arch,
        simd: true,
        avx512f: false,
        avx512bw: false,
        gfni: false,
        avx2: false,
        ssse3: false,
        neon: false,
        pmull: false,
        simd128: false,
    }
}

#[test]
fn names_round_trip() {
    for b in Backend::ALL {
        assert_eq!(Backend::from_name(b.name()), Some(b));
        assert_eq!(Backend::from_str(b.name()), Ok(b));
    }
    assert_eq!(Backend::from_name("nope"), None);
    assert_eq!(Backend::from_name(""), None);
    assert_eq!(Backend::from_name("avx5120"), None);
    assert_eq!(Backend::parse("gfni"), Ok(Backend::Gfni));
    assert_eq!(Backend::parse("GFNI"), Err(ParseBackendError));
    assert_eq!(Backend::from_str("scalar "), Err(ParseBackendError));
}

#[test]
fn names_are_stable() {
    let names: Vec<&str> = Backend::ALL.iter().map(|b| b.name()).collect();
    assert_eq!(
        names,
        ["avx512", "gfni", "avx2", "ssse3", "pmull", "neon", "simd128", "scalar"]
    );
    assert_eq!(ParseBackendError.message(), "unknown fff backend");
}

#[test]
fn all_is_in_preference_order() {
    for (i, b) in Backend::ALL.iter().enumerate() {
        assert_eq!(b.rank() as usize, i);
    }
    assert!(Backend::Avx512 < Backend::Scalar);
}

#[test]
fn capabilities() {
    assert!(Backend::Avx512.has_native_mul());
    assert!(Backend::Gfni.has_native_mul());
    assert!(!Backend::Avx2.has_native_mul());
    assert!(!Backend::Scalar.has_native_mul());
    for b in Backend::ALL {
        if b.has_native_mul() {
            assert!(b.has_blocked_rows());
        }
    }
    assert!(Backend::Neon.has_blocked_rows());
    assert!(Backend::Pmull.has_blocked_rows());
    assert!(!Backend::Ssse3.has_blocked_rows());
    assert_eq!(Backend::Avx512.lane_bytes(), 64);
    assert_eq!(Backend::Gfni.lane_bytes(), 32);
    assert_eq!(Backend::Avx2.lane_bytes(), 32);
    assert_eq!(Backend::Ssse3.lane_bytes(), 16);
    assert_eq!(Backend::Pmull.lane_bytes(), 16);
    assert_eq!(Backend::Neon.lane_bytes(), 16);
    assert_eq!(Backend::Simd128.lane_bytes(), 16);
    assert_eq!(Backend::Scalar.lane_bytes(), 8);
}

#[test]
fn arch_membership() {
    assert!(Backend::Avx2.is_for_current_arch(Arch::X86));
    assert!(!Backend::Avx2.is_for_current_arch(Arch::Aarch64));
    assert!(Backend::Pmull.is_for_current_arch(Arch::Aarch64));
    assert!(Backend::Simd128.is_for_current_arch(Arch::Wasm32));
    assert!(!Backend::Simd128.is_for_current_arch(Arch::X86));
    for arch in [Arch::X86, Arch::Aarch64, Arch::Wasm32, Arch::Other] {
        assert!(Backend::Scalar.is_for_current_arch(arch));
    }
}

#[test]
fn detect_picks_first_available() {
    let mut h = host(Arch::X86);
    assert_eq!(Backend::detect(&h), Backend::Scalar);
    h.ssse3 = true;
    assert_eq!(Backend::detect(&h), Backend::Ssse3);
    h.avx2 = true;
    assert_eq!(Backend::detect(&h), Backend::Avx2);
    h.gfni = true;
    assert_eq!(Backend::detect(&h), Backend::Gfni);
    h.avx512f = true;
    assert_eq!(Backend::detect(&h), Backend::Gfni);
    h.avx512bw = true;
    assert_eq!(Backend::detect(&h), Backend::Avx512);
    h.simd = false;
    assert_eq!(Backend::detect(&h), Backend::Scalar);

    let mut a = host(Arch::Aarch64);
    a.pmull = true;
    assert_eq!(Backend::detect(&a), Backend::Scalar);
    a.neon = true;
    assert_eq!(Backend::detect(&a), Backend::Pmull);
    a.pmull = false;
    assert_eq!(Backend::detect(&a), Backend::Neon);

    let mut w = host(Arch::Wasm32);
    assert_eq!(Backend::detect(&w), Backend::Scalar);
    w.simd128 = true;
    assert_eq!(Backend::detect(&w), Backend::Simd128);

    let mut o = host(Arch::Other);
    o.avx2 = true;
    o.neon = true;
    o.simd128 = true;
    assert_eq!(Backend::detect(&o), Backend::Scalar);
}

#[test]
fn override_is_downgrade_only() {
    let x86 = Arch::X86;
    assert_eq!(resolve_backend(Backend::Gfni, x86, None), Backend::Gfni);
    assert_eq!(resolve_backend(Backend::Gfni, x86, Some("avx2")), Backend::Avx2);
    assert_eq!(resolve_backend(Backend::Gfni, x86, Some("scalar")), Backend::Scalar);
    assert_eq!(resolve_backend(Backend::Gfni, x86, Some("gfni")), Backend::Gfni);
    // Upgrades are refused.
    assert_eq!(resolve_backend(Backend::Avx2, x86, Some("avx512")), Backend::Avx2);
    // Another architecture's backend is refused.
    assert_eq!(resolve_backend(Backend::Avx2, x86, Some("neon")), Backend::Avx2);
    assert_eq!(resolve_backend(Backend::Avx2, x86, Some("simd128")), Backend::Avx2);
    // Unknown names are ignored.
    assert_eq!(resolve_backend(Backend::Avx2, x86, Some("fast")), Backend::Avx2);
    assert_eq!(resolve_backend(Backend::Pmull, Arch::Aarch64, Some("neon")), Backend::Neon);
    assert_eq!(resolve_backend(Backend::Neon, Arch::Aarch64, Some("pmull")), Backend::Neon);
}

#[test]
fn override_name_ignores_surrounding_white_space() {
    let x86 = Arch::X86;
    assert_eq!(resolve_backend(Backend::Avx512, x86, Some(" avx2")), Backend::Avx2);
    assert_eq!(resolve_backend(Backend::Avx512, x86, Some("\tgfni\n")), Backend::Gfni);
    assert_eq!(resolve_backend(Backend::Avx512, x86, Some("ssse3\u{3000}")), Backend::Ssse3);
    assert_eq!(resolve_backend(Backend::Avx512, x86, Some("   ")), Backend::Avx512);
    assert_eq!(resolve_backend(Backend::Avx512, x86, Some("av x2")), Backend::Avx512);
}

#[test]
fn trim_matches_std() {
    for s in ["", " ", "  a b  ", "\t\n\r scalar \u{85}\u{a0}", "\u{2000}x\u{200b}", "x"] {
        assert_eq!(trim(s), s.trim());
    }
}

#[test]
fn backend_detects_then_resolves() {
    let mut h = host(Arch::X86);
    h.ssse3 = true;
    h.avx2 = true;
    h.gfni = true;
    assert_eq!(backend(&h, None), Backend::Gfni);
    assert_eq!(backend(&h, Some("ssse3")), Backend::Ssse3);
    assert_eq!(backend(&h, Some("avx512")), Backend::Gfni);
    let s = host(Arch::Other);
    assert_eq!(backend(&s, Some("avx2")), Backend::Scalar);
}
