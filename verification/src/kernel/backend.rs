//! Which instruction set the vector kernels run on, and how it is chosen.
//!
//! Probing the CPU and reading the process environment happen outside this
//! module; what they report comes in as [`HostFeatures`] and an optional
//! override name, and the choice made from them is decided here.
use vstd::prelude::*;

verus! {

/// The instruction set the vector kernels run on.
///
/// Ordered by capability: earlier variants subsume later ones, and detection
/// picks the first available.
#[derive(Clone, Copy, Debug, PartialEq, Eq, Hash, PartialOrd, Ord, Structural)]
#[non_exhaustive]
pub enum Backend {
    /// x86 AVX-512F + AVX-512BW + GFNI.
    Avx512,
    /// x86 AVX2 + GFNI.
    Gfni,
    /// x86 AVX2 split-nibble shuffle over 32-byte lanes.
    Avx2,
    /// x86 SSSE3 split-nibble shuffle over 16-byte lanes.
    Ssse3,
    /// `AArch64` NEON + PMULL.
    Pmull,
    /// `AArch64` NEON split-nibble shuffle over 16-byte lanes.
    Neon,
    /// WebAssembly `simd128` split-nibble shuffle over 16-byte lanes.
    Simd128,
    /// Portable scalar fallback. Always correct, always available.
    Scalar,
}

/// The target architecture a build runs on.
#[derive(Clone, Copy, Debug, PartialEq, Eq, Structural)]
pub enum Arch {
    /// x86 or `x86_64`.
    X86,
    /// `AArch64`.
    Aarch64,
    /// WebAssembly.
    Wasm32,
    /// Any other target: only the portable kernels exist.
    Other,
}

/// What the host reports about itself: the architecture, whether the build
/// carries vector kernels at all, and each CPU extension the kernels use.
#[derive(Clone, Copy, Debug)]
pub struct HostFeatures {
    pub arch: Arch,
    pub simd: bool,
    pub avx512f: bool,
    pub avx512bw: bool,
    pub gfni: bool,
    pub avx2: bool,
    pub ssse3: bool,
    pub neon: bool,
    pub pmull: bool,
    pub simd128: bool,
}

/// Error returned when a backend name is not recognized.
#[derive(Clone, Copy, Debug, PartialEq, Eq, Structural)]
pub struct ParseBackendError;

impl ParseBackendError {
    /// The error's message.
    pub fn message(&self) -> (text: &'static str)
        ensures
            text@ == "unknown fff backend"@,
    {
        "unknown fff backend"
    }
}

/// Position in detection-preference order; lower is more capable.
pub open spec fn rank(b: Backend) -> nat {
    match b {
        Backend::Avx512 => 0,
        Backend::Gfni => 1,
        Backend::Avx2 => 2,
        Backend::Ssse3 => 3,
        Backend::Pmull => 4,
        Backend::Neon => 5,
        Backend::Simd128 => 6,
        Backend::Scalar => 7,
    }
}

/// Whether the host can run `b`, by the requirements of each instruction set.
pub open spec fn available(b: Backend, f: HostFeatures) -> bool {
    match b {
        Backend::Scalar => true,
        Backend::Avx512 => f.simd && f.arch == Arch::X86 && f.avx512f && f.avx512bw && f.gfni,
        Backend::Gfni => f.simd && f.arch == Arch::X86 && f.avx2 && f.gfni,
        Backend::Avx2 => f.simd && f.arch == Arch::X86 && f.avx2,
        Backend::Ssse3 => f.simd && f.arch == Arch::X86 && f.ssse3,
        Backend::Pmull => f.simd && f.arch == Arch::Aarch64 && f.neon && f.pmull,
        Backend::Neon => f.simd && f.arch == Arch::Aarch64 && f.neon,
        Backend::Simd128 => f.simd && f.arch == Arch::Wasm32 && f.simd128,
    }
}

/// The first backend, in preference order, that the host can run.
pub open spec fn spec_detect(f: HostFeatures) -> Backend {
    if available(Backend::Avx512, f) {
        Backend::Avx512
    } else if available(Backend::Gfni, f) {
        Backend::Gfni
    } else if available(Backend::Avx2, f) {
        Backend::Avx2
    } else if available(Backend::Ssse3, f) {
        Backend::Ssse3
    } else if available(Backend::Pmull, f) {
        Backend::Pmull
    } else if available(Backend::Neon, f) {
        Backend::Neon
    } else if available(Backend::Simd128, f) {
        Backend::Simd128
    } else {
        Backend::Scalar
    }
}

/// Whether `b` multiplies bytes in the field natively.
pub open spec fn native_mul(b: Backend) -> bool {
    b == Backend::Avx512 || b == Backend::Gfni
}

/// Whether `b` implements the register-blocked multi-row kernels.
pub open spec fn blocked_rows(b: Backend) -> bool {
    b == Backend::Avx512 || b == Backend::Gfni || b == Backend::Neon || b == Backend::Pmull
}

/// Whether `b` is an instruction set of the architecture `arch`.
pub open spec fn for_arch(b: Backend, arch: Arch) -> bool {
    match b {
        Backend::Avx512 | Backend::Gfni | Backend::Avx2 | Backend::Ssse3 => arch == Arch::X86,
        Backend::Neon | Backend::Pmull => arch == Arch::Aarch64,
        Backend::Simd128 => arch == Arch::Wasm32,
        Backend::Scalar => true,
    }
}

/// The stable identifier of a backend.
pub open spec fn spec_name(b: Backend) -> Seq<char> {
    match b {
        Backend::Avx512 => "avx512"@,
        Backend::Gfni => "gfni"@,
        Backend::Avx2 => "avx2"@,
        Backend::Ssse3 => "ssse3"@,
        Backend::Pmull => "pmull"@,
        Backend::Neon => "neon"@,
        Backend::Simd128 => "simd128"@,
        Backend::Scalar => "scalar"@,
    }
}

/// The backend whose identifier is `s`, if any.
pub open spec fn spec_from_name(s: Seq<char>) -> Option<Backend> {
    if s == "avx512"@ {
        Some(Backend::Avx512)
    } else if s == "gfni"@ {
        Some(Backend::Gfni)
    } else if s == "avx2"@ {
        Some(Backend::Avx2)
    } else if s == "ssse3"@ {
        Some(Backend::Ssse3)
    } else if s == "pmull"@ {
        Some(Backend::Pmull)
    } else if s == "neon"@ {
        Some(Backend::Neon)
    } else if s == "simd128"@ {
        Some(Backend::Simd128)
    } else if s == "scalar"@ {
        Some(Backend::Scalar)
    } else {
        None
    }
}

/// Width in bytes of one vector register of `b`.
pub open spec fn spec_lane_bytes(b: Backend) -> usize {
    match b {
        Backend::Avx512 => 64,
        Backend::Gfni | Backend::Avx2 => 32,
        Backend::Ssse3 | Backend::Neon | Backend::Pmull | Backend::Simd128 => 16,
        Backend::Scalar => 8,
    }
}

/// Whether `c` is Unicode white space (the `White_Space` property).
pub open spec fn spec_is_space(c: char) -> bool {
    let v = c as u32;
    (0x9 <= v && v <= 0xd) || v == 0x20 || v == 0x85 || v == 0xa0 || v == 0x1680 || (0x2000 <= v
        && v <= 0x200a) || v == 0x2028 || v == 0x2029 || v == 0x202f || v == 0x205f || v == 0x3000
}

/// `s` without its leading white space.
pub open spec fn trim_start(s: Seq<char>) -> Seq<char>
    decreases s.len(),
{
    if s.len() > 0 && spec_is_space(s[0]) {
        trim_start(s.drop_first())
    } else {
        s
    }
}

/// `s` without its trailing white space.
pub open spec fn trim_end(s: Seq<char>) -> Seq<char>
    decreases s.len(),
{
    if s.len() > 0 && spec_is_space(s.last()) {
        trim_end(s.drop_last())
    } else {
        s
    }
}

/// `s` without leading or trailing white space.
pub open spec fn spec_trim(s: Seq<char>) -> Seq<char> {
    trim_end(trim_start(s))
}

/// The backend a process settles on: an override, once stripped of
/// surrounding white space, is honoured only when it names a backend of this
/// architecture that is no more capable than the one detected.
pub open spec fn spec_resolve(detected: Backend, arch: Arch, requested: Option<Seq<char>>) -> Backend {
    match requested {
        Some(name) => match spec_from_name(spec_trim(name)) {
            Some(r) => if for_arch(r, arch) && rank(r) >= rank(detected) {
                r
            } else {
                detected
            },
            None => detected,
        },
        None => detected,
    }
}

/// Whether `c` is Unicode white space.
fn is_space(c: char) -> (space: bool)
    ensures
        space == spec_is_space(c),
{
    let v = c as u32;
    (0x9 <= v && v <= 0xd) || v == 0x20 || v == 0x85 || v == 0xa0 || v == 0x1680 || (0x2000 <= v
        && v <= 0x200a) || v == 0x2028 || v == 0x2029 || v == 0x202f || v == 0x205f || v == 0x3000
}

/// `s` with leading and trailing white space removed.
pub fn trim(s: &str) -> (t: &str)
    ensures
        t@ == spec_trim(s@),
{
    let n = s.unicode_len();
    let mut lo: usize = 0;
    assert(s@.subrange(0, n as int) =~= s@);
    while lo < n && is_space(s.get_char(lo))
        invariant
            n == s@.len(),
            lo <= n,
            trim_start(s@) == trim_start(s@.subrange(lo as int, n as int)),
        decreases n - lo,
    {
        assert(s@.subrange(lo as int, n as int).drop_first() =~= s@.subrange(
            lo + 1,
            n as int,
        ));
        lo = lo + 1;
    }
    assert(trim_start(s@) == s@.subrange(lo as int, n as int));
    let mut hi: usize = n;
    while hi > lo && is_space(s.get_char(hi - 1))
        invariant
            n == s@.len(),
            lo <= hi <= n,
            spec_trim(s@) == trim_end(s@.subrange(lo as int, hi as int)),
        decreases hi - lo,
    {
        assert(s@.subrange(lo as int, hi as int).drop_last() =~= s@.subrange(
            lo as int,
            hi - 1,
        ));
        hi = hi - 1;
    }
    s.substring_char(lo, hi)
}

/// Whether `s` and `t` hold the same characters.
fn same_text(s: &str, t: &str) -> (same: bool)
    ensures
        same == (s@ == t@),
{
    let n = s.unicode_len();
    if n != t.unicode_len() {
        return false;
    }
    let mut i: usize = 0;
    while i < n
        invariant
            n == s@.len(),
            n == t@.len(),
            i <= n,
            forall|j: int| 0 <= j < i ==> s@[j] == t@[j],
        decreases n - i,
    {
        if s.get_char(i) != t.get_char(i) {
            return false;
        }
        i = i + 1;
    }
    proof {
        assert(s@ =~= t@);
    }
    true
}

impl Backend {
    /// Every backend identifier, in detection-preference order.
    pub const ALL: [Backend; 8] = [
        Backend::Avx512,
        Backend::Gfni,
        Backend::Avx2,
        Backend::Ssse3,
        Backend::Pmull,
        Backend::Neon,
        Backend::Simd128,
        Backend::Scalar,
    ];

    /// Position of this backend in detection-preference order.
    pub fn rank(self) -> (r: u8)
        ensures
            r == rank(self),
    {
        match self {
            Backend::Avx512 => 0,
            Backend::Gfni => 1,
            Backend::Avx2 => 2,
            Backend::Ssse3 => 3,
            Backend::Pmull => 4,
            Backend::Neon => 5,
            Backend::Simd128 => 6,
            Backend::Scalar => 7,
        }
    }

    /// The best backend the host can run: the first, in preference order,
    /// whose requirements `host` meets.
    pub fn detect(host: &HostFeatures) -> (b: Backend)
        ensures
            b == spec_detect(*host),
            available(b, *host),
            forall|other: Backend| rank(other) < rank(b) ==> !available(other, *host),
    {
        if host.simd {
            match host.arch {
                Arch::X86 => {
                    if host.avx512f && host.avx512bw && host.gfni {
                        return Backend::Avx512;
                    }
                    if host.avx2 && host.gfni {
                        return Backend::Gfni;
                    }
                    if host.avx2 {
                        return Backend::Avx2;
                    }
                    if host.ssse3 {
                        return Backend::Ssse3;
                    }
                },
                Arch::Aarch64 => {
                    if host.neon {
                        if host.pmull {
                            return Backend::Pmull;
                        }
                        return Backend::Neon;
                    }
                },
                Arch::Wasm32 => {
                    if host.simd128 {
                        return Backend::Simd128;
                    }
                },
                Arch::Other => {},
            }
        }
        Backend::Scalar
    }

    /// Whether this backend has a native byte-wide field multiply.
    pub fn has_native_mul(self) -> (native: bool)
        ensures
            native == native_mul(self),
    {
        matches!(self, Backend::Avx512 | Backend::Gfni)
    }

    /// Whether this backend implements the register-blocked multi-row kernels.
    pub fn has_blocked_rows(self) -> (blocked: bool)
        ensures
            blocked == blocked_rows(self),
    {
        matches!(self, Backend::Avx512 | Backend::Gfni | Backend::Neon | Backend::Pmull)
    }

    /// Vector width in bytes.
    pub fn lane_bytes(self) -> (width: usize)
        ensures
            width == spec_lane_bytes(self),
    {
        match self {
            Backend::Avx512 => 64,
            Backend::Gfni | Backend::Avx2 => 32,
            Backend::Ssse3 | Backend::Neon | Backend::Pmull | Backend::Simd128 => 16,
            Backend::Scalar => 8,
        }
    }

    /// Short stable identifier, also the value accepted as an override.
    pub fn name(self) -> (text: &'static str)
        ensures
            text@ == spec_name(self),
    {
        match self {
            Backend::Avx512 => "avx512",
            Backend::Gfni => "gfni",
            Backend::Avx2 => "avx2",
            Backend::Ssse3 => "ssse3",
            Backend::Pmull => "pmull",
            Backend::Neon => "neon",
            Backend::Simd128 => "simd128",
            Backend::Scalar => "scalar",
        }
    }

    /// Parse a backend name.
    pub fn from_name(name: &str) -> (parsed: Option<Backend>)
        ensures
            parsed == spec_from_name(name@),
    {
        if same_text(name, "avx512") {
            Some(Backend::Avx512)
        } else if same_text(name, "gfni") {
            Some(Backend::Gfni)
        } else if same_text(name, "avx2") {
            Some(Backend::Avx2)
        } else if same_text(name, "ssse3") {
            Some(Backend::Ssse3)
        } else if same_text(name, "pmull") {
            Some(Backend::Pmull)
        } else if same_text(name, "neon") {
            Some(Backend::Neon)
        } else if same_text(name, "simd128") {
            Some(Backend::Simd128)
        } else if same_text(name, "scalar") {
            Some(Backend::Scalar)
        } else {
            None
        }
    }

    /// Parse a backend name, reporting an unknown one as an error.
    pub fn parse(name: &str) -> (parsed: Result<Backend, ParseBackendError>)
        ensures
            parsed == (match spec_from_name(name@) {
                Some(b) => Ok::<Backend, ParseBackendError>(b),
                None => Err(ParseBackendError),
            }),
    {
        match Backend::from_name(name) {
            Some(b) => Ok(b),
            None => Err(ParseBackendError),
        }
    }

    /// Whether this backend is an instruction set of `arch`.
    pub fn is_for_current_arch(self, arch: Arch) -> (ok: bool)
        ensures
            ok == for_arch(self, arch),
    {
        match self {
            Backend::Avx512 | Backend::Gfni | Backend::Avx2 | Backend::Ssse3 => arch == Arch::X86,
            Backend::Neon | Backend::Pmull => arch == Arch::Aarch64,
            Backend::Simd128 => arch == Arch::Wasm32,
            Backend::Scalar => true,
        }
    }
}

impl core::str::FromStr for Backend {
    type Err = ParseBackendError;

    fn from_str(name: &str) -> (parsed: Result<Backend, ParseBackendError>)
        ensures
            parsed == (match spec_from_name(name@) {
                Some(b) => Ok::<Backend, ParseBackendError>(b),
                None => Err(ParseBackendError),
            }),
    {
        Backend::parse(name)
    }
}

/// Apply a downgrade-only override to a detected backend.
///
/// `requested` is the override's name as given; white space around it is
/// ignored. A request for an unknown name, for another architecture, or for a
/// backend more capable than the one detected is ignored.
pub fn resolve_backend(detected: Backend, arch: Arch, requested: Option<&str>) -> (b: Backend)
    ensures
        b == spec_resolve(detected, arch, match requested {
            Some(s) => Some(s@),
            None => None,
        }),
{
    match requested {
        Some(name) => match Backend::from_name(trim(name)) {
            Some(r) => {
                if r.is_for_current_arch(arch) && r.rank() >= detected.rank() {
                    r
                } else {
                    detected
                }
            },
            None => detected,
        },
        None => detected,
    }
}

/// The backend these kernels use on `host`: the best one it can run,
/// downgraded by `requested` when that names a less capable backend of the
/// same architecture.
pub fn backend(host: &HostFeatures, requested: Option<&str>) -> (b: Backend)
    ensures
        b == spec_resolve(
            spec_detect(*host),
            host.arch,
            match requested {
                Some(s) => Some(s@),
                None => None,
            },
        ),
{
    let detected = Backend::detect(host);
    resolve_backend(detected, host.arch, requested)
}

/// Every backend's name parses back to that backend.
pub proof fn lemma_name_round_trip(b: Backend)
    ensures
        spec_from_name(spec_name(b)) == Some(b),
{
    reveal_strlit("avx512");
    reveal_strlit("gfni");
    reveal_strlit("avx2");
    reveal_strlit("ssse3");
    reveal_strlit("pmull");
    reveal_strlit("neon");
    reveal_strlit("simd128");
    reveal_strlit("scalar");
    let names = seq![
        "avx512"@,
        "gfni"@,
        "avx2"@,
        "ssse3"@,
        "pmull"@,
        "neon"@,
        "simd128"@,
        "scalar"@,
    ];
    assert forall|i: int, j: int| 0 <= i < j < 8 implies names[i] != names[j] by {
        assert(names[i][0] != names[j][0] || names[i].len() != names[j].len() || names[i][3]
            != names[j][3]);
    }
}

/// A name that parses is the name of the backend it parses to.
pub proof fn lemma_parse_is_name(s: Seq<char>)
    ensures
        spec_from_name(s) matches Some(b) ==> spec_name(b) == s,
{
}

/// An override only ever downgrades: the result is the detected backend or a
/// less capable backend of the same architecture.
pub proof fn lemma_resolve_downgrade_only(detected: Backend, arch: Arch, requested: Option<Seq<char>>)
    ensures
        rank(spec_resolve(detected, arch, requested)) >= rank(detected),
        spec_resolve(detected, arch, requested) == detected || for_arch(
            spec_resolve(detected, arch, requested),
            arch,
        ),
{
}

/// A backend the host can run is always one of its own architecture.
pub proof fn lemma_available_for_arch(b: Backend, host: HostFeatures)
    requires
        available(b, host),
    ensures
        for_arch(b, host.arch),
{
}

/// A native field multiply comes with the register-blocked kernels.
pub proof fn lemma_native_mul_is_blocked(b: Backend)
    ensures
        native_mul(b) ==> blocked_rows(b),
{
}

/// A host of architecture `arch` that reports every extension, except GFNI
/// when `gfni` is false.
pub open spec fn full_host(arch: Arch, gfni: bool) -> HostFeatures {
    HostFeatures {
        arch,
        simd: true,
        avx512f: true,
        avx512bw: true,
        gfni,
        avx2: true,
        ssse3: true,
        neon: true,
        pmull: true,
        simd128: true,
    }
}

/// What detection picks, read off the host's own flags: each backend is
/// chosen only when the extensions it runs on are reported, AVX-512 exactly
/// when AVX-512F, AVX-512BW and GFNI all are, and a less capable backend only
/// when the extension that would have made a better one is missing.
pub proof fn lemma_detect_reads_flags(h: HostFeatures)
    ensures
        spec_detect(h) == Backend::Avx512 <==> (h.simd && h.arch == Arch::X86 && h.avx512f
            && h.avx512bw && h.gfni),
        spec_detect(h) == Backend::Gfni ==> h.simd && h.arch == Arch::X86 && h.avx2 && h.gfni
            && !(h.avx512f && h.avx512bw),
        spec_detect(h) == Backend::Avx2 ==> h.simd && h.arch == Arch::X86 && h.avx2 && !h.gfni,
        spec_detect(h) == Backend::Ssse3 ==> h.simd && h.arch == Arch::X86 && h.ssse3 && !h.avx2
            && !(h.avx512f && h.avx512bw && h.gfni),
        spec_detect(h) == Backend::Pmull ==> h.simd && h.arch == Arch::Aarch64 && h.neon
            && h.pmull,
        spec_detect(h) == Backend::Neon ==> h.simd && h.arch == Arch::Aarch64 && h.neon
            && !h.pmull,
        spec_detect(h) == Backend::Simd128 ==> h.simd && h.arch == Arch::Wasm32 && h.simd128,
        spec_detect(h) == Backend::Scalar <==> !(h.simd && ((h.arch == Arch::X86 && (h.ssse3
            || h.avx2 || (h.avx512f && h.avx512bw && h.gfni))) || (h.arch == Arch::Aarch64
            && h.neon) || (h.arch == Arch::Wasm32 && h.simd128))),
{
}

/// Every backend but the portable one belongs to exactly one architecture:
/// the one of the hosts that can run it. So an override naming another
/// architecture's backend is never taken.
pub proof fn lemma_backend_has_one_arch(b: Backend, a: Arch, a2: Arch)
    ensures
        b != Backend::Scalar ==> (for_arch(b, a) <==> exists|h: HostFeatures|
            h.arch == a && #[trigger] available(b, h)),
        b != Backend::Scalar && for_arch(b, a) && for_arch(b, a2) ==> a == a2,
        for_arch(Backend::Scalar, a),
{
    let w = full_host(a, true);
    if b != Backend::Scalar && for_arch(b, a) {
        assert(w.arch == a && available(b, w));
    }
}

/// On an x86 host an override resolves to an x86 backend or the portable
/// one; likewise on AArch64 and WebAssembly. The NEON, PMULL and `simd128`
/// backends never come out of an x86 resolution.
pub proof fn lemma_resolve_keeps_arch(detected: Backend, arch: Arch, requested: Option<Seq<char>>)
    requires
        for_arch(detected, arch),
    ensures
        for_arch(spec_resolve(detected, arch, requested), arch),
        arch == Arch::X86 ==> spec_resolve(detected, arch, requested) != Backend::Neon
            && spec_resolve(detected, arch, requested) != Backend::Pmull
            && spec_resolve(detected, arch, requested) != Backend::Simd128,
{
}

/// A backend multiplies field bytes natively exactly when running it needs
/// the GFNI extension.
pub proof fn lemma_native_mul_needs_gfni(b: Backend)
    ensures
        native_mul(b) <==> (forall|h: HostFeatures| #[trigger] available(b, h) ==> h.gfni),
{
    if !native_mul(b) {
        let w = match b {
            Backend::Pmull | Backend::Neon => full_host(Arch::Aarch64, false),
            Backend::Simd128 => full_host(Arch::Wasm32, false),
            _ => full_host(Arch::X86, false),
        };
        assert(available(b, w) && !w.gfni);
    }
}

/// The register-blocked multi-row kernels exist for the native-multiply
/// backends and the AArch64 ones; the shuffle-only x86 backends, `simd128`
/// and the portable backend split multi-row shapes into single-row AXPYs.
pub proof fn lemma_blocked_rows_backends(b: Backend)
    ensures
        blocked_rows(b) <==> native_mul(b) || (b != Backend::Scalar && for_arch(b, Arch::Aarch64)),
        for_arch(b, Arch::X86) && !native_mul(b) ==> !blocked_rows(b),
{
}

} // verus!
