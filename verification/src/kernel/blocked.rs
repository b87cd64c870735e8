//! Register-blocked kernels: several rows, or several sources, per pass.
//!
//! The single-coefficient kernels stream the destination once per
//! coefficient. The blocked shapes instead hold a tile of the destination in
//! accumulators while every coefficient of a block is folded in, so each
//! destination register is read and written once per block:
//!
//! - scatter: one source into a group of rows; each source register is read
//!   once and feeds every row of the group;
//! - gather: a block of sources into one destination register at a time;
//! - matrix: a block of terms into a group of rows, tile by tile.
//!
//! All three are one operation on a flat buffer of rows: fold terms
//! `[t0, t1)`, where term `t` is a coefficient per row and a source row, into
//! the rows `[g, g + cnt)`, first over whole registers and then over the
//! sub-register tail. [`rows_model`] states what the buffer holds part way
//! through; the drivers only choose the groups and the blocks.
//!
//! [`scatter_skipping`] groups rows that need not be adjacent: it drops the
//! rows whose coefficient is zero before grouping the rest, and
//! [`scatter_model`] follows it row by row.
use vstd::prelude::*;
use vstd::arithmetic::div_mod::{lemma_fundamental_div_mod, lemma_fundamental_div_mod_converse};
use crate::field::Field;
use crate::kernel::backend::Backend;
use crate::kernel::lanes;
use crate::kernel::{
    ScaleKernels,
    gather_seq,
    lemma_matrix_empty,
    lemma_scatter_empty,
    lemma_scatter_rows,
    matrix_seq,
    min_nat,
    scatter_seq,
    sources_fit,
    sources_of,
    terms_fit,
};

verus! {

/// The sum of the first `m` terms at byte `b` of row `j`: term `t` adds
/// `terms[t].0[j] * terms[t].1` there.
pub open spec fn term_sum<F: Field>(
    terms: Seq<(Seq<F::Elem>, Seq<u8>)>,
    j: int,
    m: nat,
    b: int,
) -> u8
    decreases m,
{
    if m == 0 {
        0
    } else {
        term_sum::<F>(terms, j, (m - 1) as nat, b) ^ F::product_byte(
            terms[m - 1].0[j],
            terms[m - 1].1,
            b,
        )
    }
}

/// How many terms byte `b` of row `j` has received while the terms
/// `[t0, t1)` are folded into the row group `[g, g + cnt)`: rows before the
/// group have all `total`; in the group, bytes before `front` and rows before
/// `r` have `t1`, row `r` has `t`, the rest `t0`; rows after the group none.
pub open spec fn progress(
    j: int,
    b: int,
    g: int,
    cnt: int,
    total: nat,
    t0: nat,
    t1: nat,
    front: int,
    r: int,
    t: nat,
) -> nat {
    if j < g {
        total
    } else if j < g + cnt {
        if b < front || j < r {
            t1
        } else if j == r {
            t
        } else {
            t0
        }
    } else {
        0
    }
}

/// The buffer `old` of rows of `row_len` bytes, with the first `n` rows
/// having received the terms [`progress`] gives each byte.
pub open spec fn rows_model<F: Field>(
    old: Seq<u8>,
    row_len: nat,
    n: nat,
    terms: Seq<(Seq<F::Elem>, Seq<u8>)>,
    g: int,
    cnt: int,
    t0: nat,
    t1: nat,
    front: int,
    r: int,
    t: nat,
) -> Seq<u8> {
    Seq::new(
        old.len(),
        |p: int|
            if p < n * row_len {
                old[p] ^ term_sum::<F>(
                    terms,
                    p / (row_len as int),
                    progress(
                        p / (row_len as int),
                        p % (row_len as int),
                        g,
                        cnt,
                        terms.len(),
                        t0,
                        t1,
                        front,
                        r,
                        t,
                    ),
                    p % (row_len as int),
                )
            } else {
                old[p]
            },
    )
}

/// Byte `b` of row `j` sits at `j * row_len + b`, and that position names
/// row `j`, byte `b` back.
pub proof fn lemma_position(j: int, b: int, row_len: int)
    requires
        row_len > 0,
        0 <= b < row_len,
    ensures
        (j * row_len + b) / row_len == j,
        (j * row_len + b) % row_len == b,
{
    lemma_fundamental_div_mod_converse(j * row_len + b, row_len, j, b);
}

/// Every position is a row and a byte within it.
pub proof fn lemma_split(p: int, row_len: int)
    requires
        row_len > 0,
        0 <= p,
    ensures
        p == (p / row_len) * row_len + p % row_len,
        0 <= p % row_len < row_len,
        0 <= p / row_len,
{
    lemma_fundamental_div_mod(p, row_len);
    let q = p / row_len;
    let m = p % row_len;
    assert(row_len * q == q * row_len) by (nonlinear_arith);
    assert(0 <= m < row_len) by {
        vstd::arithmetic::div_mod::lemma_mod_bound(p, row_len);
    }
    assert(0 <= q) by (nonlinear_arith)
        requires
            p == q * row_len + m,
            0 <= p,
            m < row_len,
            row_len > 0,
    ;
}

/// Row `j < n` lies wholly below `n * row_len`.
pub proof fn lemma_row_below(j: int, b: int, n: int, row_len: int)
    requires
        0 <= j < n,
        0 <= b < row_len,
    ensures
        0 <= j * row_len + b < n * row_len,
        j * row_len + row_len <= n * row_len,
{
    assert(0 <= j * row_len + b < n * row_len && j * row_len + row_len <= n * row_len)
        by (nonlinear_arith)
        requires
            0 <= j < n,
            0 <= b < row_len,
    ;
}

/// A position below `n * row_len` is in one of the first `n` rows.
pub proof fn lemma_row_of(p: int, n: int, row_len: int)
    requires
        row_len > 0,
        0 <= p < n * row_len,
    ensures
        p / row_len < n,
{
    lemma_split(p, row_len);
    let q = p / row_len;
    if q >= n {
        assert(q * row_len >= n * row_len) by (nonlinear_arith)
            requires
                q >= n,
                row_len > 0,
        ;
    }
}

/// A multiple of the register width is a multiple of the element width.
pub proof fn lemma_whole_elements<F: Field>(x: int)
    requires
        x % 16 == 0,
    ensures
        x % (F::elem_bytes() as int) == 0,
{
    F::lemma_register_width();
    let e = F::elem_bytes() as int;
    let q = x / 16;
    assert(x == 16 * q);
    if e == 1 {
        assert(x % 1 == 0);
    } else if e == 2 {
        assert(x == 2 * (8 * q));
    } else if e == 4 {
        assert(x == 4 * (4 * q));
    } else if e == 8 {
        assert(x == 8 * (2 * q));
    }
}

/// The difference of two multiples of the element width is one too.
proof fn lemma_element_gap<F: Field>(x: int, y: int)
    requires
        x % (F::elem_bytes() as int) == 0,
        y % (F::elem_bytes() as int) == 0,
    ensures
        (x - y) % (F::elem_bytes() as int) == 0,
{
    F::lemma_register_width();
    let e = F::elem_bytes() as int;
    lemma_fundamental_div_mod(x, e);
    lemma_fundamental_div_mod(y, e);
    let (qx, qy) = (x / e, y / e);
    assert(x - y == e * (qx - qy)) by (nonlinear_arith)
        requires
            x == e * qx,
            y == e * qy,
    ;
    vstd::arithmetic::div_mod::lemma_mod_multiples_basic(qx - qy, e);
    assert(e * (qx - qy) == (qx - qy) * e) by (nonlinear_arith);
}

/// XOR regrouped: adding `y` then `z` is adding `y ^ z`.
proof fn lemma_regroup(x: u8, y: u8, z: u8)
    ensures
        x ^ y ^ z == x ^ (y ^ z),
{
    crate::bits::lemma_xor(x, y, z);
}


/// The shape both fold steps need: rows of `row_len` bytes of whole
/// elements, the group `[g, g + cnt)` among the first `n` rows of `old0`,
/// every term a source row with a coefficient for each of those rows, and
/// `srcs[i]` and `prep[i][k]` the source of term `t0 + i` and its prepared
/// coefficient for row `g + k`.
pub open spec fn block_fits<F: ScaleKernels>(
    cur: Seq<u8>,
    row_len: nat,
    g: int,
    cnt: int,
    srcs: Seq<&[u8]>,
    prep: Seq<Vec<F::Prepared>>,
    old0: Seq<u8>,
    n: nat,
    terms: Seq<(Seq<F::Elem>, Seq<u8>)>,
    t0: nat,
) -> bool {
    &&& row_len > 0
    &&& (row_len as int) % (F::elem_bytes() as int) == 0
    &&& 0 <= g
    &&& 0 <= cnt
    &&& g + cnt <= n
    &&& n * row_len <= old0.len()
    &&& cur.len() == old0.len()
    &&& t0 + srcs.len() <= terms.len()
    &&& prep.len() == srcs.len()
    &&& forall|i: int| 0 <= i < srcs.len() ==> #[trigger] srcs[i]@ == terms[t0 + i].1
    &&& forall|i: int| 0 <= i < prep.len() ==> #[trigger] prep[i]@.len() == cnt
    &&& forall|i: int, k: int|
        0 <= i < prep.len() && 0 <= k < cnt ==> F::coeff_of(#[trigger] prep[i]@[k]) == terms[t0
            + i].0[g + k]
    &&& forall|t: int|
        0 <= t < terms.len() ==> (#[trigger] terms[t]).1.len() == row_len && terms[t].0.len() >= n
}

/// Fold the terms `[t0, t0 + srcs.len())` into the register at byte `pos` of
/// every row of the group `[g, g + cnt)`.
///
/// Each row's register is read once into an accumulator; each term's source
/// register is read once and, scaled by each row's coefficient, added into
/// every accumulator; the accumulators are written back once.
#[verifier::spinoff_prover]
#[verifier::loop_isolation(false)]
fn fold_tile<F: ScaleKernels>(
    rows: &mut [u8],
    row_len: usize,
    g: usize,
    cnt: usize,
    pos: usize,
    srcs: &[&[u8]],
    prep: &Vec<Vec<F::Prepared>>,
    Ghost(old0): Ghost<Seq<u8>>,
    Ghost(n): Ghost<nat>,
    Ghost(terms): Ghost<Seq<(Seq<F::Elem>, Seq<u8>)>>,
    Ghost(t0): Ghost<nat>,
)
    requires
        block_fits::<F>(
            old(rows)@,
            row_len as nat,
            g as int,
            cnt as int,
            srcs@,
            prep@,
            old0,
            n,
            terms,
            t0,
        ),
        pos % 16 == 0,
        pos + 16 <= row_len,
        old(rows)@ == rows_model::<F>(
            old0,
            row_len as nat,
            n,
            terms,
            g as int,
            cnt as int,
            t0,
            (t0 + srcs@.len()) as nat,
            pos as int,
            g as int,
            t0,
        ),
    ensures
        final(rows)@ == rows_model::<F>(
            old0,
            row_len as nat,
            n,
            terms,
            g as int,
            cnt as int,
            t0,
            (t0 + srcs@.len()) as nat,
            pos + 16,
            g as int,
            t0,
        ),
{
    let total = rows.len();
    let ghost len = row_len as int;
    let ghost t1 = (t0 + srcs@.len()) as nat;
    let ghost before = rows@;
    let ghost after = rows_model::<F>(
        old0,
        row_len as nat,
        n,
        terms,
        g as int,
        cnt as int,
        t0,
        t1,
        pos + 16,
        g as int,
        t0,
    );
    proof {
        lemma_whole_elements::<F>(pos as int);
        F::lemma_register_width();
        assert(n <= n * len) by (nonlinear_arith)
            requires
                len >= 1,
        ;
    }
    let mut acc: Vec<[u8; 16]> = Vec::new();
    let mut k: usize = 0;
    while k < cnt
        invariant
            k <= cnt,
            rows@ == before,
            acc@.len() == k,
            forall|kk: int, q: int|
                0 <= kk < k && 0 <= q < 16 ==> #[trigger] acc@[kk][q] == old0[(g + kk) * len + pos
                    + q] ^ term_sum::<F>(terms, g + kk, t0, pos + q),
        decreases cnt - k,
    {
        proof {
            lemma_row_below(g + k, pos as int, n as int, len);
        }
        let v = lanes::load(rows, (g + k) * row_len + pos);
        proof {
            assert forall|q: int| 0 <= q < 16 implies v[q] == old0[(g + k) * len + pos + q]
                ^ term_sum::<F>(terms, g + k, t0, pos + q) by {
                lemma_position(g + k, pos + q, len);
                lemma_row_below(g + k, pos + q, n as int, len);
            }
        }
        acc.push(v);
        k = k + 1;
    }
    let m = srcs.len();
    let mut i: usize = 0;
    while i < m
        invariant
            i <= m,
            m == srcs@.len(),
            rows@ == before,
            acc@.len() == cnt,
            forall|kk: int, q: int|
                0 <= kk < cnt && 0 <= q < 16 ==> #[trigger] acc@[kk][q] == old0[(g + kk) * len
                    + pos + q] ^ term_sum::<F>(terms, g + kk, (t0 + i) as nat, pos + q),
        decreases m - i,
    {
        let src = srcs[i];
        let ghost s = terms[t0 + i].1;
        proof {
            assert(srcs@[i as int]@ == s);
        }
        let x = lanes::load(src, pos);
        let coeffs = &prep[i];
        proof {
            assert(prep@[i as int]@.len() == cnt);
        }
        let mut k: usize = 0;
        while k < cnt
            invariant
                k <= cnt,
                acc@.len() == cnt,
                coeffs@ == prep@[i as int]@,
                forall|kk: int, q: int|
                    0 <= kk < cnt && 0 <= q < 16 ==> #[trigger] acc@[kk][q] == old0[(g + kk)
                        * len + pos + q] ^ term_sum::<F>(
                        terms,
                        g + kk,
                        (if kk < k {
                            t0 + i + 1
                        } else {
                            t0 + i
                        }) as nat,
                        pos + q,
                    ),
            decreases cnt - k,
        {
            let y = F::scale_register(&coeffs[k], &x);
            let cur = acc[k];
            let z = lanes::xor(&cur, &y);
            proof {
                let c = terms[t0 + i].0[g + k];
                assert(F::coeff_of(prep@[i as int]@[k as int]) == c);
                assert forall|q: int| 0 <= q < 16 implies z[q] == old0[(g + k) * len + pos + q]
                    ^ term_sum::<F>(terms, g + k, (t0 + i + 1) as nat, pos + q) by {
                    F::lemma_product_window(c, s, x@, pos as int, q);
                    lemma_regroup(
                        old0[(g + k) * len + pos + q],
                        term_sum::<F>(terms, g + k, (t0 + i) as nat, pos + q),
                        F::product_byte(c, s, pos + q),
                    );
                }
            }
            acc.set(k, z);
            k = k + 1;
        }
        i = i + 1;
    }
    let mut k: usize = 0;
    while k < cnt
        invariant
            k <= cnt,
            acc@.len() == cnt,
            rows@.len() == old0.len(),
            rows@.len() == total,
            g + cnt <= n,
            n <= n * len,
            n * len <= old0.len(),
            forall|p: int|
                0 <= p < old0.len() ==> #[trigger] rows@[p] == if p < n * len && g <= p / len < g
                    + k && pos <= p % len < pos + 16 {
                    after[p]
                } else {
                    before[p]
                },
        decreases cnt - k,
    {
        proof {
            lemma_row_below(g + k, pos as int, n as int, len);
        }
        let v = acc[k];
        let ghost cur = rows@;
        let off = (g + k) * row_len + pos;
        lanes::store(rows, off, &v);
        proof {
            let off = (g + k) * len + pos;
            assert forall|p: int| 0 <= p < old0.len() implies #[trigger] rows@[p] == if p < n * len
                && g <= p / len < g + k + 1 && pos <= p % len < pos + 16 {
                after[p]
            } else {
                before[p]
            } by {
                if off <= p < off + 16 {
                    lemma_position(g + k, pos + (p - off), len);
                    lemma_row_below(g + k, pos + (p - off), n as int, len);
                    assert(v[p - off] == acc@[k as int][p - off]);
                } else {
                    lemma_split(p, len);
                    assert(rows@[p] == cur[p]);
                }
            }
        }
        k = k + 1;
    }
    proof {
        assert forall|p: int| 0 <= p < old0.len() implies rows@[p] == after[p] by {
            if p < n * len {
                lemma_split(p, len);
                lemma_row_of(p, n as int, len);
            }
        }
        assert(rows@ =~= after);
    }
}


/// Fold the terms `[t0, t0 + srcs.len())` into the bytes from `from` to the
/// end of every row of the group `[g, g + cnt)`, one row and one term at a
/// time: the sub-register tail the tiles leave.
#[verifier::spinoff_prover]
#[verifier::loop_isolation(false)]
fn fold_tails<F: ScaleKernels>(
    rows: &mut [u8],
    row_len: usize,
    g: usize,
    cnt: usize,
    from: usize,
    srcs: &[&[u8]],
    prep: &Vec<Vec<F::Prepared>>,
    Ghost(old0): Ghost<Seq<u8>>,
    Ghost(n): Ghost<nat>,
    Ghost(terms): Ghost<Seq<(Seq<F::Elem>, Seq<u8>)>>,
    Ghost(t0): Ghost<nat>,
)
    requires
        block_fits::<F>(
            old(rows)@,
            row_len as nat,
            g as int,
            cnt as int,
            srcs@,
            prep@,
            old0,
            n,
            terms,
            t0,
        ),
        from % 16 == 0,
        from <= row_len,
        old(rows)@ == rows_model::<F>(
            old0,
            row_len as nat,
            n,
            terms,
            g as int,
            cnt as int,
            t0,
            (t0 + srcs@.len()) as nat,
            from as int,
            g as int,
            t0,
        ),
    ensures
        final(rows)@ == rows_model::<F>(
            old0,
            row_len as nat,
            n,
            terms,
            g as int,
            cnt as int,
            t0,
            (t0 + srcs@.len()) as nat,
            from as int,
            g + cnt,
            t0,
        ),
{
    let total = rows.len();
    let ghost len = row_len as int;
    let ghost t1 = (t0 + srcs@.len()) as nat;
    let ghost e = F::elem_bytes() as int;
    proof {
        lemma_whole_elements::<F>(from as int);
        lemma_element_gap::<F>(len, from as int);
        assert(n <= n * len) by (nonlinear_arith)
            requires
                len >= 1,
        ;
    }
    let m = srcs.len();
    let mut k: usize = 0;
    while k < cnt
        invariant
            k <= cnt,
            g + cnt <= n,
            n <= n * len,
            n * len <= old0.len(),
            rows@.len() == total,
            total == old0.len(),
            rows@ == rows_model::<F>(
                old0,
                row_len as nat,
                n,
                terms,
                g as int,
                cnt as int,
                t0,
                t1,
                from as int,
                g + k,
                t0,
            ),
        decreases cnt - k,
    {
        let mut i: usize = 0;
        while i < m
            invariant
                i <= m,
                k < cnt,
                g + cnt <= n,
                n <= n * len,
                n * len <= old0.len(),
                rows@.len() == total,
                total == old0.len(),
                rows@ == rows_model::<F>(
                    old0,
                    row_len as nat,
                    n,
                    terms,
                    g as int,
                    cnt as int,
                    t0,
                    t1,
                    from as int,
                    g + k,
                    (t0 + i) as nat,
                ),
            decreases m - i,
        {
            let ghost cur = rows@;
            let ghost s = terms[t0 + i].1;
            let ghost c = terms[t0 + i].0[g + k];
            proof {
                lemma_row_below(g + k, 0, n as int, len);
                assert(srcs@[i as int]@ == s);
                assert(prep@[i as int]@.len() == cnt);
                assert(F::coeff_of(prep@[i as int]@[k as int]) == c);
            }
            let sub = vstd::slice::slice_subrange(srcs[i], from, row_len);
            let off = (g + k) * row_len + from;
            F::mul_add_at(rows, off, &prep[i][k], sub);
            proof {
                let next = rows_model::<F>(
                    old0,
                    row_len as nat,
                    n,
                    terms,
                    g as int,
                    cnt as int,
                    t0,
                    t1,
                    from as int,
                    g + k,
                    (t0 + i + 1) as nat,
                );
                assert forall|p: int| 0 <= p < old0.len() implies rows@[p] == next[p] by {
                    if off <= p < off + (len - from) {
                        lemma_position(g + k, from + (p - off), len);
                        lemma_row_below(g + k, from + (p - off), n as int, len);
                        F::lemma_product_window(c, s, sub@, from as int, p - off);
                        lemma_regroup(
                            old0[p],
                            term_sum::<F>(terms, g + k, (t0 + i) as nat, from + (p - off)),
                            F::product_byte(c, s, from + (p - off)),
                        );
                    } else {
                        lemma_split(p, len);
                        if p < n * len {
                            lemma_row_of(p, n as int, len);
                        }
                    }
                }
                assert(rows@ =~= next);
            }
            i = i + 1;
        }
        proof {
            let done = rows_model::<F>(
                old0,
                row_len as nat,
                n,
                terms,
                g as int,
                cnt as int,
                t0,
                t1,
                from as int,
                g + k + 1,
                t0,
            );
            assert forall|p: int| 0 <= p < old0.len() implies rows@[p] == done[p] by {
            }
            assert(rows@ =~= done);
        }
        k = k + 1;
    }
}


/// Byte by byte, the first `m` sources into one destination: byte `p` gains
/// the sum of each coefficient times its source's byte `p`.
#[verifier::spinoff_prover]
pub proof fn lemma_gather_bytes<F: Field>(
    dst: Seq<u8>,
    coeffs: Seq<F::Elem>,
    sources: Seq<Seq<u8>>,
    m: nat,
    terms: Seq<(Seq<F::Elem>, Seq<u8>)>,
)
    requires
        m <= terms.len(),
        forall|i: int| 0 <= i < m ==> #[trigger] sources[i].len() == dst.len(),
        forall|i: int| 0 <= i < m ==> #[trigger] terms[i] == (seq![coeffs[i]], sources[i]),
    ensures
        gather_seq::<F>(dst, coeffs, sources, m).len() == dst.len(),
        forall|p: int|
            0 <= p < dst.len() ==> #[trigger] gather_seq::<F>(dst, coeffs, sources, m)[p] == dst[p]
                ^ term_sum::<F>(terms, 0, m, p),
    decreases m,
{
    if m == 0 {
        assert forall|p: int| 0 <= p < dst.len() implies #[trigger] gather_seq::<F>(
            dst,
            coeffs,
            sources,
            m,
        )[p] == dst[p] ^ term_sum::<F>(terms, 0, m, p) by {
            crate::bits::lemma_xor(dst[p], 0, 0);
        }
    } else {
        let k = (m - 1) as nat;
        lemma_gather_bytes::<F>(dst, coeffs, sources, k, terms);
        assert(terms[k as int] == (seq![coeffs[k as int]], sources[k as int]));
        assert(sources[k as int].len() == dst.len());
        assert forall|p: int| 0 <= p < dst.len() implies #[trigger] gather_seq::<F>(
            dst,
            coeffs,
            sources,
            m,
        )[p] == dst[p] ^ term_sum::<F>(terms, 0, m, p) by {
            assert(seq![coeffs[k as int]][0] == coeffs[k as int]);
            lemma_regroup(
                dst[p],
                term_sum::<F>(terms, 0, k, p),
                F::product_byte(coeffs[k as int], sources[k as int], p),
            );
        }
    }
}

/// Byte by byte, the first `count` terms into the first `n` rows, when every
/// term has a coefficient for each of them.
#[verifier::spinoff_prover]
pub proof fn lemma_matrix_bytes<F: Field>(
    rows: Seq<u8>,
    row_len: nat,
    nrows: nat,
    terms: Seq<(Seq<F::Elem>, Seq<u8>)>,
    count: nat,
    n: nat,
)
    requires
        row_len > 0,
        n == min_nat(nrows, rows.len() / row_len),
        count <= terms.len(),
        forall|t: int|
            0 <= t < terms.len() ==> (#[trigger] terms[t]).1.len() == row_len && terms[t].0.len()
                >= n,
    ensures
        matrix_seq::<F>(rows, row_len, nrows, terms, count).len() == rows.len(),
        forall|p: int|
            0 <= p < rows.len() ==> #[trigger] matrix_seq::<F>(rows, row_len, nrows, terms, count)[p]
                == if p < n * row_len {
                rows[p] ^ term_sum::<F>(
                    terms,
                    p / (row_len as int),
                    count,
                    p % (row_len as int),
                )
            } else {
                rows[p]
            },
    decreases count,
{
    let len = row_len as int;
    let total = rows.len() as int;
    assert(n * len <= total) by (nonlinear_arith)
        requires
            n <= total / len,
            len > 0,
            total >= 0,
    {
        lemma_fundamental_div_mod(total, len);
        vstd::arithmetic::div_mod::lemma_mod_bound(total, len);
        assert(n * len <= (total / len) * len);
    }
    if count == 0 {
        assert forall|p: int| 0 <= p < rows.len() implies #[trigger] matrix_seq::<F>(
            rows,
            row_len,
            nrows,
            terms,
            count,
        )[p] == if p < n * row_len {
            rows[p] ^ term_sum::<F>(terms, p / len, count, p % len)
        } else {
            rows[p]
        } by {
            crate::bits::lemma_xor(rows[p], 0, 0);
        }
    } else {
        let k = (count - 1) as nat;
        lemma_matrix_bytes::<F>(rows, row_len, nrows, terms, k, n);
        let prev = matrix_seq::<F>(rows, row_len, nrows, terms, k);
        let term = terms[k as int];
        assert(min_nat(min_nat(nrows, prev.len() / row_len), term.0.len()) == n);
        lemma_scatter_rows::<F>(prev, row_len, term.0, term.1, n);
        assert forall|p: int| 0 <= p < rows.len() implies #[trigger] matrix_seq::<F>(
            rows,
            row_len,
            nrows,
            terms,
            count,
        )[p] == if p < n * row_len {
            rows[p] ^ term_sum::<F>(terms, p / len, count, p % len)
        } else {
            rows[p]
        } by {
            if p < n * len {
                lemma_regroup(
                    rows[p],
                    term_sum::<F>(terms, p / len, k, p % len),
                    F::product_byte(term.0[p / len], term.1, p % len),
                );
            }
        }
    }
}


/// Before any term is folded in, the model is the buffer itself.
pub proof fn lemma_untouched<F: Field>(
    old: Seq<u8>,
    row_len: nat,
    n: nat,
    terms: Seq<(Seq<F::Elem>, Seq<u8>)>,
    t0: nat,
    t1: nat,
    front: int,
    t: nat,
    r: int,
    cnt: int,
)
    requires
        row_len > 0,
        cnt == 0,
    ensures
        rows_model::<F>(old, row_len, n, terms, 0, cnt, t0, t1, front, r, t) == old,
{
    let model = rows_model::<F>(old, row_len, n, terms, 0, cnt, t0, t1, front, r, t);
    assert forall|p: int| 0 <= p < old.len() implies model[p] == old[p] by {
        lemma_split(p, row_len as int);
        crate::bits::lemma_xor(old[p], 0, 0);
    }
    assert(model =~= old);
}

/// `n` whole rows fit in a buffer that holds at least `n` of them.
pub proof fn lemma_rows_fit(total: int, row_len: int, n: int)
    requires
        row_len > 0,
        total >= 0,
        n <= total / row_len,
    ensures
        n * row_len <= total,
{
    lemma_split(total, row_len);
    let q = total / row_len;
    assert(n * row_len <= q * row_len) by (nonlinear_arith)
        requires
            n <= q,
            row_len > 0,
    ;
}

/// How many rows the next group takes: `max` while that many remain; then,
/// with `halving`, a pair and a single row, else all that remain.
pub fn next_group(remaining: usize, max: usize, halving: bool) -> (cnt: usize)
    requires
        remaining > 0,
        max > 0,
    ensures
        0 < cnt <= remaining,
        cnt <= max,
        remaining >= max ==> cnt == max,
        remaining < max && halving ==> cnt == if remaining >= 2 {
            2usize
        } else {
            1usize
        },
        remaining < max && !halving ==> cnt == remaining,
{
    if remaining >= max {
        max
    } else if halving {
        if remaining >= 2 {
            2
        } else {
            1
        }
    } else {
        remaining
    }
}

/// The coefficients `coeffs[start..start + cnt]`, each prepared for `host`.
fn prepare_run<F: ScaleKernels>(
    host: Backend,
    coeffs: &[F::Elem],
    start: usize,
    cnt: usize,
) -> (v: Vec<F::Prepared>)
    requires
        start + cnt <= coeffs@.len(),
    ensures
        v@.len() == cnt,
        forall|k: int| 0 <= k < cnt ==> F::coeff_of(#[trigger] v@[k]) == coeffs@[start + k],
{
    let total = coeffs.len();
    let mut v: Vec<F::Prepared> = Vec::new();
    let mut k: usize = 0;
    while k < cnt
        invariant
            k <= cnt,
            start + cnt <= total,
            total == coeffs@.len(),
            v@.len() == k,
            forall|kk: int| 0 <= kk < k ==> F::coeff_of(#[trigger] v@[kk]) == coeffs@[start + kk],
        decreases cnt - k,
    {
        v.push(F::prepare(host, coeffs[start + k]));
        k = k + 1;
    }
    v
}

/// One source into many rows, a group of rows at a time: `rows[j] ^=
/// coeffs[j] * src` for each row `j` that has a coefficient.
///
/// Each source register is read once per group and feeds every row of it.
/// Groups take `max` rows while that many remain; with `halving` the rest go
/// as a pair and a single row.
#[verifier::spinoff_prover]
#[verifier::loop_isolation(false)]
pub fn scatter_blocked<F: ScaleKernels>(
    host: Backend,
    rows: &mut [u8],
    row_len: usize,
    coeffs: &[F::Elem],
    src: &[u8],
    max: usize,
    halving: bool,
)
    requires
        row_len > 0 ==> src@.len() == row_len,
        (row_len as nat) % F::elem_bytes() == 0,
        max > 0,
    ensures
        row_len > 0 ==> final(rows)@ == scatter_seq::<F>(
            old(rows)@,
            row_len as nat,
            coeffs@,
            src@,
            min_nat(coeffs@.len(), old(rows)@.len() / (row_len as nat)),
        ),
        row_len == 0 ==> final(rows)@ == old(rows)@,
{
    if row_len == 0 {
        return;
    }
    let count = rows.len() / row_len;
    let n = if coeffs.len() < count {
        coeffs.len()
    } else {
        count
    };
    let ghost len = row_len as int;
    let ghost old0 = rows@;
    let ghost terms = seq![(coeffs@, src@)];
    let mut srcs: Vec<&[u8]> = Vec::new();
    srcs.push(src);
    let vector_end = row_len & !15usize;
    proof {
        crate::bits::lemma_round_down(row_len);
        lemma_rows_fit(old0.len() as int, len, n as int);
        assert(terms[0] == (coeffs@, src@));
        lemma_untouched::<F>(old0, row_len as nat, n as nat, terms, 0, 0, 0, 0, 0, 0);
    }
    let mut g: usize = 0;
    while g < n
        invariant
            g <= n,
            rows@ == rows_model::<F>(
                old0,
                row_len as nat,
                n as nat,
                terms,
                g as int,
                0,
                0,
                0,
                0,
                g as int,
                0,
            ),
        decreases n - g,
    {
        let cnt = next_group(n - g, max, halving);
        let mut prep: Vec<Vec<F::Prepared>> = Vec::new();
        prep.push(prepare_run::<F>(host, coeffs, g, cnt));
        proof {
            assert(rows@ =~= rows_model::<F>(
                old0,
                row_len as nat,
                n as nat,
                terms,
                g as int,
                cnt as int,
                0,
                1,
                0,
                g as int,
                0,
            ));
            assert(srcs@[0]@ == terms[0].1);
        }
        let mut pos: usize = 0;
        while pos < vector_end
            invariant
                pos <= vector_end,
                pos % 16 == 0,
                g + cnt <= n,
                prep@.len() == 1,
                srcs@.len() == 1,
                srcs@[0]@ == terms[0].1,
                prep@[0]@.len() == cnt,
                forall|k: int| 0 <= k < cnt ==> F::coeff_of(#[trigger] prep@[0]@[k]) == coeffs@[g + k],
                rows@ == rows_model::<F>(
                    old0,
                    row_len as nat,
                    n as nat,
                    terms,
                    g as int,
                    cnt as int,
                    0,
                    1,
                    pos as int,
                    g as int,
                    0,
                ),
            decreases vector_end - pos,
        {
            fold_tile::<F>(
                rows,
                row_len,
                g,
                cnt,
                pos,
                srcs.as_slice(),
                &prep,
                Ghost(old0),
                Ghost(n as nat),
                Ghost(terms),
                Ghost(0),
            );
            pos = pos + 16;
        }
        fold_tails::<F>(
            rows,
            row_len,
            g,
            cnt,
            vector_end,
            srcs.as_slice(),
            &prep,
            Ghost(old0),
            Ghost(n as nat),
            Ghost(terms),
            Ghost(0),
        );
        proof {
            assert(rows@ =~= rows_model::<F>(
                old0,
                row_len as nat,
                n as nat,
                terms,
                (g + cnt) as int,
                0,
                0,
                0,
                0,
                (g + cnt) as int,
                0,
            ));
        }
        g = g + cnt;
    }
    proof {
        lemma_scatter_rows::<F>(old0, row_len as nat, coeffs@, src@, n as nat);
        let want = scatter_seq::<F>(old0, row_len as nat, coeffs@, src@, n as nat);
        assert forall|p: int| 0 <= p < old0.len() implies rows@[p] == want[p] by {
            if p < n * len {
                lemma_split(p, len);
                lemma_row_of(p, n as int, len);
                let (j, b) = (p / len, p % len);
                assert(term_sum::<F>(terms, j, 0, b) == 0);
                crate::bits::lemma_xor(F::product_byte(coeffs@[j], src@, b), 0, 0);
            }
        }
        assert(rows@ =~= want);
    }
}

/// Many sources into one destination, a block of sources at a time: `dst ^=
/// coeffs[i] * srcs[i]` for each source that has a coefficient.
///
/// Each destination register is read once per block, every source of the
/// block is folded into it, and it is written back once. Blocks take `block`
/// sources while that many remain.
#[verifier::spinoff_prover]
#[verifier::loop_isolation(false)]
pub fn gather_blocked<F: ScaleKernels>(
    host: Backend,
    dst: &mut [u8],
    coeffs: &[F::Elem],
    srcs: &[&[u8]],
    block: usize,
)
    requires
        block > 0,
        old(dst)@.len() % F::elem_bytes() == 0,
        sources_fit(sources_of(srcs@), min_nat(coeffs@.len(), srcs@.len()), old(dst)@.len()),
    ensures
        final(dst)@ == gather_seq::<F>(
            old(dst)@,
            coeffs@,
            sources_of(srcs@),
            min_nat(coeffs@.len(), srcs@.len()),
        ),
{
    let n = if coeffs.len() < srcs.len() {
        coeffs.len()
    } else {
        srcs.len()
    };
    let len = dst.len();
    let ghost old0 = dst@;
    let ghost sources = sources_of(srcs@);
    let ghost terms = Seq::new(n as nat, |i: int| (seq![coeffs@[i]], sources[i]));
    proof {
        lemma_gather_bytes::<F>(old0, coeffs@, sources, n as nat, terms);
    }
    if len == 0 {
        proof {
            assert(dst@ =~= gather_seq::<F>(old0, coeffs@, sources, n as nat));
        }
        return;
    }
    let ghost l = len as int;
    let vector_end = len & !15usize;
    proof {
        crate::bits::lemma_round_down(len);
        assert(1 * l == l);
        lemma_untouched::<F>(old0, len as nat, 1, terms, 0, 0, 0, 0, 0, 0);
        assert(dst@ =~= rows_model::<F>(old0, len as nat, 1, terms, 0, 1, 0, 0, 0, 0, 0));
    }
    let mut b0: usize = 0;
    while b0 < n
        invariant
            b0 <= n,
            dst@ == rows_model::<F>(
                old0,
                len as nat,
                1,
                terms,
                0,
                1,
                b0 as nat,
                b0 as nat,
                0,
                0,
                b0 as nat,
            ),
        decreases n - b0,
    {
        let b1 = if n - b0 <= block {
            n
        } else {
            b0 + block
        };
        let block_srcs = vstd::slice::slice_subrange(srcs, b0, b1);
        let mut prep: Vec<Vec<F::Prepared>> = Vec::new();
        let mut i: usize = b0;
        while i < b1
            invariant
                b0 <= i <= b1,
                b1 <= n,
                prep@.len() == i - b0,
                forall|k: int| 0 <= k < i - b0 ==> (#[trigger] prep@[k])@.len() == 1,
                forall|k: int|
                    0 <= k < i - b0 ==> F::coeff_of(#[trigger] prep@[k]@[0]) == coeffs@[b0 + k],
            decreases b1 - i,
        {
            prep.push(prepare_run::<F>(host, coeffs, i, 1));
            i = i + 1;
        }
        proof {
            assert forall|k: int| 0 <= k < b1 - b0 implies (#[trigger] block_srcs@[k])@ == terms[b0
                + k].1 by {
                assert(block_srcs@[k] == srcs@[b0 + k]);
            }
            assert forall|k: int, r: int| 0 <= k < b1 - b0 && 0 <= r < 1 implies F::coeff_of(
                #[trigger] prep@[k]@[r],
            ) == terms[b0 + k].0[0 + r] by {
                assert(terms[b0 + k].0 == seq![coeffs@[b0 + k]]);
            }
            assert forall|t: int| 0 <= t < terms.len() implies (#[trigger] terms[t]).1.len()
                == len && terms[t].0.len() >= 1 by {
                assert(sources[t].len() == len);
            }
            assert(dst@ =~= rows_model::<F>(
                old0,
                len as nat,
                1,
                terms,
                0,
                1,
                b0 as nat,
                b1 as nat,
                0,
                0,
                b0 as nat,
            ));
        }
        let mut pos: usize = 0;
        while pos < vector_end
            invariant
                pos <= vector_end,
                pos % 16 == 0,
                dst@ == rows_model::<F>(
                    old0,
                    len as nat,
                    1,
                    terms,
                    0,
                    1,
                    b0 as nat,
                    b1 as nat,
                    pos as int,
                    0,
                    b0 as nat,
                ),
            decreases vector_end - pos,
        {
            fold_tile::<F>(
                dst,
                len,
                0,
                1,
                pos,
                block_srcs,
                &prep,
                Ghost(old0),
                Ghost(1),
                Ghost(terms),
                Ghost(b0 as nat),
            );
            pos = pos + 16;
        }
        fold_tails::<F>(
            dst,
            len,
            0,
            1,
            vector_end,
            block_srcs,
            &prep,
            Ghost(old0),
            Ghost(1),
            Ghost(terms),
            Ghost(b0 as nat),
        );
        proof {
            assert(dst@ =~= rows_model::<F>(
                old0,
                len as nat,
                1,
                terms,
                0,
                1,
                b1 as nat,
                b1 as nat,
                0,
                0,
                b1 as nat,
            ));
        }
        b0 = b1;
    }
    proof {
        let want = gather_seq::<F>(old0, coeffs@, sources, n as nat);
        assert forall|p: int| 0 <= p < old0.len() implies dst@[p] == want[p] by {
            lemma_position(0, p, l);
        }
        assert(dst@ =~= want);
    }
}


/// The coefficients for rows `[g, g + cnt)` of the terms `[b0, b1)`, each
/// prepared for `host`, and those terms' sources.
fn prepare_block<'a, F: ScaleKernels>(
    host: Backend,
    terms: &[(&[F::Elem], &'a [u8])],
    g: usize,
    cnt: usize,
    b0: usize,
    b1: usize,
) -> (block: (Vec<Vec<F::Prepared>>, Vec<&'a [u8]>))
    requires
        b0 <= b1 <= terms@.len(),
        forall|t: int| 0 <= t < terms@.len() ==> g + cnt <= (#[trigger] terms@[t]).0@.len(),
    ensures
        block.0@.len() == b1 - b0,
        block.1@.len() == b1 - b0,
        forall|i: int| 0 <= i < b1 - b0 ==> (#[trigger] block.1@[i])@ == terms@[b0 + i].1@,
        forall|i: int| 0 <= i < b1 - b0 ==> (#[trigger] block.0@[i])@.len() == cnt,
        forall|i: int, k: int|
            0 <= i < b1 - b0 && 0 <= k < cnt ==> F::coeff_of(#[trigger] block.0@[i]@[k])
                == terms@[b0 + i].0@[g + k],
{
    let mut prep: Vec<Vec<F::Prepared>> = Vec::new();
    let mut srcs: Vec<&'a [u8]> = Vec::new();
    let mut t: usize = b0;
    while t < b1
        invariant
            b0 <= t <= b1,
            b1 <= terms@.len(),
            forall|tt: int| 0 <= tt < terms@.len() ==> g + cnt <= (#[trigger] terms@[tt]).0@.len(),
            prep@.len() == t - b0,
            srcs@.len() == t - b0,
            forall|i: int| 0 <= i < t - b0 ==> (#[trigger] srcs@[i])@ == terms@[b0 + i].1@,
            forall|i: int| 0 <= i < t - b0 ==> (#[trigger] prep@[i])@.len() == cnt,
            forall|i: int, k: int|
                0 <= i < t - b0 && 0 <= k < cnt ==> F::coeff_of(#[trigger] prep@[i]@[k])
                    == terms@[b0 + i].0@[g + k],
        decreases b1 - t,
    {
        let (coeffs, src) = terms[t];
        proof {
            assert(g + cnt <= terms@[t as int].0@.len());
        }
        prep.push(prepare_run::<F>(host, coeffs, g, cnt));
        srcs.push(src);
        t = t + 1;
    }
    (prep, srcs)
}

/// Many sources into many rows, a group of rows and a block of terms at a
/// time: for each `(coeffs, src)` term, `rows[j] ^= coeffs[j] * src` for every
/// row `j` below `nrows` that the buffer holds.
///
/// A tile of each row of the group is read into accumulators once per block,
/// every term of the block is folded in, and the tile is written back once,
/// so destination traffic does not grow with the number of terms. Groups
/// take `max` rows while that many remain (with `halving`, then a pair and a
/// single row); blocks take `block` terms while that many remain. Every term
/// must cover every row.
#[verifier::spinoff_prover]
#[verifier::loop_isolation(false)]
pub fn matrix_blocked<F: ScaleKernels>(
    host: Backend,
    rows: &mut [u8],
    row_len: usize,
    nrows: usize,
    terms: &[(&[F::Elem], &[u8])],
    max: usize,
    halving: bool,
    block: usize,
)
    requires
        (row_len as nat) % F::elem_bytes() == 0,
        max > 0,
        block > 0,
        row_len > 0 ==> terms_fit(
            terms@.map_values(|t: (&[F::Elem], &[u8])| (t.0@, t.1@)),
            row_len as nat,
        ),
        row_len > 0 ==> forall|t: int|
            0 <= t < terms@.len() ==> min_nat(nrows as nat, old(rows)@.len() / (row_len as nat))
                <= (#[trigger] terms@[t]).0@.len(),
    ensures
        row_len > 0 ==> final(rows)@ == matrix_seq::<F>(
            old(rows)@,
            row_len as nat,
            nrows as nat,
            terms@.map_values(|t: (&[F::Elem], &[u8])| (t.0@, t.1@)),
            terms@.len(),
        ),
        row_len == 0 ==> final(rows)@ == old(rows)@,
{
    if row_len == 0 {
        return;
    }
    let count = rows.len() / row_len;
    let n = if nrows < count {
        nrows
    } else {
        count
    };
    let tn = terms.len();
    let ghost len = row_len as int;
    let ghost old0 = rows@;
    let ghost spec_terms = terms@.map_values(|t: (&[F::Elem], &[u8])| (t.0@, t.1@));
    let vector_end = row_len & !15usize;
    proof {
        crate::bits::lemma_round_down(row_len);
        lemma_rows_fit(old0.len() as int, len, n as int);
        lemma_untouched::<F>(old0, row_len as nat, n as nat, spec_terms, 0, 0, 0, 0, 0, 0);
        assert forall|t: int| 0 <= t < spec_terms.len() implies (#[trigger] spec_terms[t]).1.len()
            == row_len && spec_terms[t].0.len() >= n by {
            assert(spec_terms[t] == (terms@[t].0@, terms@[t].1@));
        }
    }
    let mut g: usize = 0;
    while g < n
        invariant
            g <= n,
            rows@ == rows_model::<F>(
                old0,
                row_len as nat,
                n as nat,
                spec_terms,
                g as int,
                0,
                0,
                0,
                0,
                g as int,
                0,
            ),
        decreases n - g,
    {
        let cnt = next_group(n - g, max, halving);
        proof {
            assert(rows@ =~= rows_model::<F>(
                old0,
                row_len as nat,
                n as nat,
                spec_terms,
                g as int,
                cnt as int,
                0,
                0,
                0,
                g as int,
                0,
            ));
            assert forall|t: int| 0 <= t < terms@.len() implies g + cnt <= (
            #[trigger] terms@[t]).0@.len() by {
                assert(spec_terms[t].0.len() >= n);
            }
        }
        let mut b0: usize = 0;
        while b0 < tn
            invariant
                b0 <= tn,
                g + cnt <= n,
                rows@ == rows_model::<F>(
                    old0,
                    row_len as nat,
                    n as nat,
                    spec_terms,
                    g as int,
                    cnt as int,
                    b0 as nat,
                    b0 as nat,
                    0,
                    g as int,
                    b0 as nat,
                ),
            decreases tn - b0,
        {
            let b1 = if tn - b0 <= block {
                tn
            } else {
                b0 + block
            };
            let (prep, block_srcs) = prepare_block::<F>(host, terms, g, cnt, b0, b1);
            proof {
                assert forall|i: int| 0 <= i < block_srcs@.len() implies (
                #[trigger] block_srcs@[i])@ == spec_terms[b0 + i].1 by {
                    assert(spec_terms[b0 + i] == (terms@[b0 + i].0@, terms@[b0 + i].1@));
                }
                assert forall|i: int, k: int| 0 <= i < prep@.len() && 0 <= k < cnt implies F::coeff_of(
                    #[trigger] prep@[i]@[k],
                ) == spec_terms[b0 + i].0[g + k] by {
                    assert(spec_terms[b0 + i] == (terms@[b0 + i].0@, terms@[b0 + i].1@));
                }
                assert(rows@ =~= rows_model::<F>(
                    old0,
                    row_len as nat,
                    n as nat,
                    spec_terms,
                    g as int,
                    cnt as int,
                    b0 as nat,
                    b1 as nat,
                    0,
                    g as int,
                    b0 as nat,
                ));
            }
            let mut pos: usize = 0;
            while pos < vector_end
                invariant
                    pos <= vector_end,
                    pos % 16 == 0,
                    rows@ == rows_model::<F>(
                        old0,
                        row_len as nat,
                        n as nat,
                        spec_terms,
                        g as int,
                        cnt as int,
                        b0 as nat,
                        b1 as nat,
                        pos as int,
                        g as int,
                        b0 as nat,
                    ),
                decreases vector_end - pos,
            {
                fold_tile::<F>(
                    rows,
                    row_len,
                    g,
                    cnt,
                    pos,
                    block_srcs.as_slice(),
                    &prep,
                    Ghost(old0),
                    Ghost(n as nat),
                    Ghost(spec_terms),
                    Ghost(b0 as nat),
                );
                pos = pos + 16;
            }
            fold_tails::<F>(
                rows,
                row_len,
                g,
                cnt,
                vector_end,
                block_srcs.as_slice(),
                &prep,
                Ghost(old0),
                Ghost(n as nat),
                Ghost(spec_terms),
                Ghost(b0 as nat),
            );
            proof {
                assert(rows@ =~= rows_model::<F>(
                    old0,
                    row_len as nat,
                    n as nat,
                    spec_terms,
                    g as int,
                    cnt as int,
                    b1 as nat,
                    b1 as nat,
                    0,
                    g as int,
                    b1 as nat,
                ));
            }
            b0 = b1;
        }
        proof {
            assert(rows@ =~= rows_model::<F>(
                old0,
                row_len as nat,
                n as nat,
                spec_terms,
                (g + cnt) as int,
                0,
                0,
                0,
                0,
                (g + cnt) as int,
                0,
            ));
        }
        g = g + cnt;
    }
    proof {
        lemma_matrix_bytes::<F>(old0, row_len as nat, nrows as nat, spec_terms, tn as nat, n as nat);
        let want = matrix_seq::<F>(old0, row_len as nat, nrows as nat, spec_terms, tn as nat);
        assert forall|p: int| 0 <= p < old0.len() implies rows@[p] == want[p] by {
            if p < n * len {
                lemma_split(p, len);
                lemma_row_of(p, n as int, len);
            }
        }
        assert(rows@ =~= want);
    }
}


/// Whether every term supplies a coefficient for each of the first `n` rows.
pub fn terms_cover<E>(terms: &[(&[E], &[u8])], n: usize) -> (covered: bool)
    ensures
        covered == forall|t: int| 0 <= t < terms@.len() ==> n <= (#[trigger] terms@[t]).0@.len(),
{
    let mut t: usize = 0;
    while t < terms.len()
        invariant
            t <= terms@.len(),
            forall|tt: int| 0 <= tt < t ==> n <= (#[trigger] terms@[tt]).0@.len(),
        decreases terms@.len() - t,
    {
        let (coeffs, _) = terms[t];
        if coeffs.len() < n {
            return false;
        }
        t = t + 1;
    }
    true
}


/// The buffer `old` of rows of `row_len` bytes after each row `j < n` has
/// had `coeffs[j] * src` added over its first `done[j]` bytes.
pub open spec fn scatter_model<F: Field>(
    old: Seq<u8>,
    row_len: nat,
    n: nat,
    coeffs: Seq<F::Elem>,
    src: Seq<u8>,
    done: Seq<int>,
) -> Seq<u8> {
    Seq::new(
        old.len(),
        |p: int|
            {
                let j = p / (row_len as int);
                let b = p % (row_len as int);
                if p < n * row_len && b < done[j] {
                    old[p] ^ F::product_byte(coeffs[j], src, b)
                } else {
                    old[p]
                }
            },
    )
}

/// Whether row `j` is one of `rows[lo..hi]`.
pub open spec fn listed(rows: Seq<usize>, lo: int, hi: int, j: int) -> bool {
    exists|k: int| lo <= k < hi && rows[k] == j
}

/// `done` with the rows `rows[lo..hi]` set to `v`.
pub open spec fn marked(done: Seq<int>, rows: Seq<usize>, lo: int, hi: int, v: int) -> Seq<int> {
    Seq::new(done.len(), |j: int| if listed(rows, lo, hi, j) { v } else { done[j] })
}

/// The shape the row-at-a-time scatter steps need.
pub open spec fn scatter_fits<F: Field>(
    cur: Seq<u8>,
    row_len: nat,
    old0: Seq<u8>,
    n: nat,
    src: Seq<u8>,
    done: Seq<int>,
) -> bool {
    &&& row_len > 0
    &&& (row_len as int) % (F::elem_bytes() as int) == 0
    &&& n * row_len <= old0.len()
    &&& cur.len() == old0.len()
    &&& src.len() == row_len
    &&& done.len() == n
}

/// Add `coeff * src` to the register at byte `pos` of row `r`, where `x` is
/// that register of the source.
#[verifier::spinoff_prover]
fn scatter_register<F: ScaleKernels>(
    rows: &mut [u8],
    row_len: usize,
    r: usize,
    pos: usize,
    coeff: &F::Prepared,
    x: &[u8; 16],
    Ghost(old0): Ghost<Seq<u8>>,
    Ghost(n): Ghost<nat>,
    Ghost(coeffs): Ghost<Seq<F::Elem>>,
    Ghost(src): Ghost<Seq<u8>>,
    Ghost(done): Ghost<Seq<int>>,
)
    requires
        scatter_fits::<F>(old(rows)@, row_len as nat, old0, n, src, done),
        r < n,
        done[r as int] == pos,
        pos % 16 == 0,
        pos + 16 <= row_len,
        F::coeff_of(*coeff) == coeffs[r as int],
        forall|i: int| 0 <= i < 16 ==> x[i] == src[pos + i],
        old(rows)@ == scatter_model::<F>(old0, row_len as nat, n, coeffs, src, done),
    ensures
        final(rows)@ == scatter_model::<F>(
            old0,
            row_len as nat,
            n,
            coeffs,
            src,
            done.update(r as int, pos + 16),
        ),
{
    let total = rows.len();
    let ghost len = row_len as int;
    proof {
        lemma_row_below(r as int, pos as int, n as int, len);
        lemma_whole_elements::<F>(pos as int);
        F::lemma_register_width();
    }
    let off = r * row_len + pos;
    let d = lanes::load(rows, off);
    let y = F::scale_register(coeff, x);
    let v = lanes::xor(&d, &y);
    let ghost cur = rows@;
    lanes::store(rows, off, &v);
    proof {
        let next = scatter_model::<F>(
            old0,
            row_len as nat,
            n,
            coeffs,
            src,
            done.update(r as int, pos + 16),
        );
        assert forall|p: int| 0 <= p < old0.len() implies rows@[p] == next[p] by {
            if off <= p < off + 16 {
                let i = p - off;
                lemma_position(r as int, pos + i, len);
                lemma_row_below(r as int, pos + i, n as int, len);
                F::lemma_product_window(coeffs[r as int], src, x@, pos as int, i);
                assert(d[i] == cur[p]);
            } else {
                lemma_split(p, len);
                if p < n * len {
                    lemma_row_of(p, n as int, len);
                }
            }
        }
        assert(rows@ =~= next);
    }
}

/// Add `coeff * src` to the bytes of row `r` from `from` to its end.
#[verifier::spinoff_prover]
fn scatter_tail<F: ScaleKernels>(
    rows: &mut [u8],
    row_len: usize,
    r: usize,
    from: usize,
    coeff: &F::Prepared,
    src_slice: &[u8],
    Ghost(old0): Ghost<Seq<u8>>,
    Ghost(n): Ghost<nat>,
    Ghost(coeffs): Ghost<Seq<F::Elem>>,
    Ghost(done): Ghost<Seq<int>>,
)
    requires
        scatter_fits::<F>(old(rows)@, row_len as nat, old0, n, src_slice@, done),
        r < n,
        done[r as int] == from,
        from % 16 == 0,
        from <= row_len,
        F::coeff_of(*coeff) == coeffs[r as int],
        old(rows)@ == scatter_model::<F>(old0, row_len as nat, n, coeffs, src_slice@, done),
    ensures
        final(rows)@ == scatter_model::<F>(
            old0,
            row_len as nat,
            n,
            coeffs,
            src_slice@,
            done.update(r as int, row_len as int),
        ),
{
    let total = rows.len();
    let ghost len = row_len as int;
    let ghost src = src_slice@;
    proof {
        lemma_row_below(r as int, 0, n as int, len);
        lemma_whole_elements::<F>(from as int);
        lemma_element_gap::<F>(len, from as int);
    }
    let sub = vstd::slice::slice_subrange(src_slice, from, row_len);
    let off = r * row_len + from;
    let ghost cur = rows@;
    F::mul_add_at(rows, off, coeff, sub);
    proof {
        let next = scatter_model::<F>(
            old0,
            row_len as nat,
            n,
            coeffs,
            src,
            done.update(r as int, len),
        );
        assert forall|p: int| 0 <= p < old0.len() implies rows@[p] == next[p] by {
            if off <= p < off + (len - from) {
                let i = p - off;
                lemma_position(r as int, from + i, len);
                lemma_row_below(r as int, from + i, n as int, len);
                F::lemma_product_window(coeffs[r as int], src, sub@, from as int, i);
            } else {
                lemma_split(p, len);
                if p < n * len {
                    lemma_row_of(p, n as int, len);
                }
            }
        }
        assert(rows@ =~= next);
    }
}

/// Add `coeffs[j] * src` to each row `j` of `group`, rows none of which has
/// been touched yet: each source register is read once for the whole group.
#[verifier::spinoff_prover]
#[verifier::loop_isolation(false)]
fn scatter_group<F: ScaleKernels>(
    rows: &mut [u8],
    row_len: usize,
    group: &[usize],
    prep: &[F::Prepared],
    src_slice: &[u8],
    Ghost(old0): Ghost<Seq<u8>>,
    Ghost(n): Ghost<nat>,
    Ghost(coeffs): Ghost<Seq<F::Elem>>,
    Ghost(done): Ghost<Seq<int>>,
)
    requires
        scatter_fits::<F>(old(rows)@, row_len as nat, old0, n, src_slice@, done),
        prep@.len() == group@.len(),
        forall|a: int, b: int| 0 <= a < b < group@.len() ==> group@[a] < group@[b],
        forall|k: int|
            0 <= k < group@.len() ==> #[trigger] group@[k] < n && done[group@[k] as int] == 0
                && F::coeff_of(prep@[k]) == coeffs[group@[k] as int],
        old(rows)@ == scatter_model::<F>(old0, row_len as nat, n, coeffs, src_slice@, done),
    ensures
        final(rows)@ == scatter_model::<F>(
            old0,
            row_len as nat,
            n,
            coeffs,
            src_slice@,
            marked(done, group@, 0, group@.len() as int, row_len as int),
        ),
{
    let cnt = group.len();
    let ghost src = src_slice@;
    let ghost g = group@;
    let vector_end = row_len & !15usize;
    proof {
        crate::bits::lemma_round_down(row_len);
        assert(marked(done, g, 0, cnt as int, 0) =~= done);
    }
    let mut pos: usize = 0;
    while pos < vector_end
        invariant
            pos <= vector_end,
            pos % 16 == 0,
            rows@ == scatter_model::<F>(
                old0,
                row_len as nat,
                n,
                coeffs,
                src,
                marked(done, g, 0, cnt as int, pos as int),
            ),
        decreases vector_end - pos,
    {
        let x = lanes::load(src_slice, pos);
        let ghost base = marked(done, g, 0, cnt as int, pos as int);
        proof {
            assert(marked(base, g, 0, 0, pos + 16) =~= base);
        }
        let mut k: usize = 0;
        while k < cnt
            invariant
                k <= cnt,
                pos + 16 <= vector_end,
                base == marked(done, g, 0, cnt as int, pos as int),
                rows@ == scatter_model::<F>(
                    old0,
                    row_len as nat,
                    n,
                    coeffs,
                    src,
                    marked(base, g, 0, k as int, pos + 16),
                ),
            decreases cnt - k,
        {
            let r = group[k];
            let ghost cur = marked(base, g, 0, k as int, pos + 16);
            proof {
                assert(g[k as int] == r);
                assert(!listed(g, 0, k as int, r as int));
                assert(listed(g, 0, cnt as int, r as int));
            }
            scatter_register::<F>(
                rows,
                row_len,
                r,
                pos,
                &prep[k],
                &x,
                Ghost(old0),
                Ghost(n),
                Ghost(coeffs),
                Ghost(src),
                Ghost(cur),
            );
            proof {
                assert(listed(g, 0, k + 1, r as int));
                assert(cur.update(r as int, pos + 16) =~= marked(base, g, 0, k + 1, pos + 16));
            }
            k = k + 1;
        }
        proof {
            assert(marked(base, g, 0, cnt as int, pos + 16) =~= marked(
                done,
                g,
                0,
                cnt as int,
                pos + 16,
            ));
        }
        pos = pos + 16;
    }
    let ghost base = marked(done, g, 0, cnt as int, vector_end as int);
    proof {
        assert(marked(base, g, 0, 0, row_len as int) =~= base);
    }
    let mut k: usize = 0;
    while k < cnt
        invariant
            k <= cnt,
            base == marked(done, g, 0, cnt as int, vector_end as int),
            rows@ == scatter_model::<F>(
                old0,
                row_len as nat,
                n,
                coeffs,
                src,
                marked(base, g, 0, k as int, row_len as int),
            ),
        decreases cnt - k,
    {
        let r = group[k];
        let ghost cur = marked(base, g, 0, k as int, row_len as int);
        proof {
            assert(g[k as int] == r);
            assert(!listed(g, 0, k as int, r as int));
            assert(listed(g, 0, cnt as int, r as int));
        }
        scatter_tail::<F>(
            rows,
            row_len,
            r,
            vector_end,
            &prep[k],
            src_slice,
            Ghost(old0),
            Ghost(n),
            Ghost(coeffs),
            Ghost(cur),
        );
        proof {
            assert(listed(g, 0, k + 1, r as int));
            assert(cur.update(r as int, row_len as int) =~= marked(base, g, 0, k + 1, row_len as int));
        }
        k = k + 1;
    }
    proof {
        assert(marked(base, g, 0, cnt as int, row_len as int) =~= marked(
            done,
            g,
            0,
            cnt as int,
            row_len as int,
        ));
    }
}


/// Once every row is either done or has a zero coefficient, the rows hold
/// the scatter.
proof fn lemma_scatter_complete<F: Field>(
    old: Seq<u8>,
    row_len: nat,
    n: nat,
    coeffs: Seq<F::Elem>,
    src: Seq<u8>,
    done: Seq<int>,
)
    requires
        row_len > 0,
        src.len() == row_len,
        n * row_len <= old.len(),
        done.len() == n,
        forall|r: int| 0 <= r < n ==> done[r] == row_len || coeffs[r] == F::zero(),
    ensures
        scatter_model::<F>(old, row_len, n, coeffs, src, done) == scatter_seq::<F>(
            old,
            row_len,
            coeffs,
            src,
            n,
        ),
{
    let len = row_len as int;
    let model = scatter_model::<F>(old, row_len, n, coeffs, src, done);
    let want = scatter_seq::<F>(old, row_len, coeffs, src, n);
    lemma_scatter_rows::<F>(old, row_len, coeffs, src, n);
    assert forall|p: int| 0 <= p < old.len() implies model[p] == want[p] by {
        if p < n * len {
            lemma_split(p, len);
            lemma_row_of(p, n as int, len);
            let (j, b) = (p / len, p % len);
            F::lemma_zero_product(src, b);
            crate::bits::lemma_xor(old[p], 0, 0);
        }
    }
    assert(model =~= want);
}

/// One source into many rows, dropping the rows whose coefficient is zero
/// before grouping the rest: `rows[j] ^= coeffs[j] * src` for each row `j`
/// that has a coefficient.
///
/// `row ^= 0 * src` is the identity, so a zero row costs no row traffic at
/// all. The surviving rows are batched in fours, then a pair, then a single
/// row, and each batch reads every source register once for all its rows.
#[verifier::spinoff_prover]
#[verifier::loop_isolation(false)]
pub fn scatter_skipping<F: ScaleKernels>(
    host: Backend,
    rows: &mut [u8],
    row_len: usize,
    coeffs: &[F::Elem],
    src: &[u8],
)
    requires
        row_len > 0 ==> src@.len() == row_len,
        (row_len as nat) % F::elem_bytes() == 0,
    ensures
        row_len > 0 ==> final(rows)@ == scatter_seq::<F>(
            old(rows)@,
            row_len as nat,
            coeffs@,
            src@,
            min_nat(coeffs@.len(), old(rows)@.len() / (row_len as nat)),
        ),
        row_len == 0 ==> final(rows)@ == old(rows)@,
{
    if row_len == 0 {
        return;
    }
    let count = rows.len() / row_len;
    let n = if coeffs.len() < count {
        coeffs.len()
    } else {
        count
    };
    let ghost len = row_len as int;
    let ghost old0 = rows@;
    let ghost mut done: Seq<int> = Seq::new(n as nat, |j: int| 0);
    proof {
        lemma_rows_fit(old0.len() as int, len, n as int);
        assert forall|p: int| 0 <= p < old0.len() implies rows@[p] == scatter_model::<F>(
            old0,
            row_len as nat,
            n as nat,
            coeffs@,
            src@,
            done,
        )[p] by {
            if p < n * len {
                lemma_split(p, len);
                lemma_row_of(p, n as int, len);
            }
        }
        assert(rows@ =~= scatter_model::<F>(old0, row_len as nat, n as nat, coeffs@, src@, done));
    }
    let mut group: Vec<usize> = Vec::new();
    let mut prep: Vec<F::Prepared> = Vec::new();
    let mut j: usize = 0;
    while j < n
        invariant
            j <= n,
            n <= coeffs@.len(),
            group@.len() == prep@.len(),
            group@.len() < 4,
            done.len() == n,
            forall|a: int, b: int| 0 <= a < b < group@.len() ==> group@[a] < group@[b],
            forall|k: int|
                0 <= k < group@.len() ==> #[trigger] group@[k] < j && done[group@[k] as int] == 0
                    && F::coeff_of(prep@[k]) == coeffs@[group@[k] as int],
            forall|r: int| j <= r < n ==> done[r] == 0,
            forall|r: int|
                0 <= r < j ==> done[r] == len || coeffs@[r] == F::zero() || listed(
                    group@,
                    0,
                    group@.len() as int,
                    r,
                ),
            rows@ == scatter_model::<F>(old0, row_len as nat, n as nat, coeffs@, src@, done),
        decreases n - j,
    {
        let ghost g0 = group@;
        let ghost d0 = done;
        if !F::is_zero(coeffs[j]) {
            group.push(j);
            prep.push(F::prepare(host, coeffs[j]));
            proof {
                assert forall|r: int|
                    0 <= r < j && listed(g0, 0, g0.len() as int, r) implies listed(
                    group@,
                    0,
                    group@.len() as int,
                    r,
                ) by {
                    let k = choose|k: int| 0 <= k < g0.len() && g0[k] == r;
                    assert(group@[k] == r);
                }
                assert(group@[group@.len() - 1] == j);
                assert(listed(group@, 0, group@.len() as int, j as int));
            }
            if group.len() == 4 {
                let ghost g1 = group@;
                scatter_group::<F>(
                    rows,
                    row_len,
                    group.as_slice(),
                    prep.as_slice(),
                    src,
                    Ghost(old0),
                    Ghost(n as nat),
                    Ghost(coeffs@),
                    Ghost(done),
                );
                proof {
                    done = marked(done, g1, 0, 4, len);
                    assert forall|r: int|
                        0 <= r <= j && listed(g1, 0, 4, r) implies done[r] == len by {}
                    assert forall|r: int| j < r < n implies done[r] == 0 by {
                        if listed(g1, 0, 4, r) {
                            let k = choose|k: int| 0 <= k < 4 && g1[k] == r;
                            assert(g1[k] <= j);
                        }
                    }
                }
                group.clear();
                prep.clear();
            }
        }
        j = j + 1;
    }
    let ghost d_loop = done;
    let ghost g = group@;
    let m = group.len();
    if m >= 2 {
        let pair = vstd::slice::slice_subrange(group.as_slice(), 0, 2);
        let pair_prep = vstd::slice::slice_subrange(prep.as_slice(), 0, 2);
        scatter_group::<F>(
            rows,
            row_len,
            pair,
            pair_prep,
            src,
            Ghost(old0),
            Ghost(n as nat),
            Ghost(coeffs@),
            Ghost(done),
        );
        proof {
            assert(pair@ == g.subrange(0, 2));
            done = marked(done, g.subrange(0, 2), 0, 2, len);
        }
    }
    let ghost d_pair = done;
    if m == 1 || m == 3 {
        let last = m - 1;
        let r = group[last];
        proof {
            if m == 3 {
                assert(!listed(g.subrange(0, 2), 0, 2, r as int)) by {
                    assert(g[0] < g[2] && g[1] < g[2]);
                }
            }
        }
        scatter_tail::<F>(
            rows,
            row_len,
            r,
            0,
            &prep[last],
            src,
            Ghost(old0),
            Ghost(n as nat),
            Ghost(coeffs@),
            Ghost(done),
        );
        proof {
            done = done.update(r as int, len);
        }
    }
    proof {
        assert forall|r: int| 0 <= r < n implies done[r] == len || coeffs@[r] == F::zero() by {
            if d_loop[r] != len && coeffs@[r] != F::zero() {
                let k = choose|k: int| 0 <= k < m && g[k] == r;
                if m >= 2 && k < 2 {
                    assert(g.subrange(0, 2)[k] == r);
                    assert(listed(g.subrange(0, 2), 0, 2, r));
                    assert(d_pair[r] == len);
                } else {
                    assert(k == m - 1);
                }
            } else if d_loop[r] == len {
                assert(d_pair[r] == len);
            }
        }
        lemma_scatter_complete::<F>(old0, row_len as nat, n as nat, coeffs@, src@, done);
    }
}

} // verus!
