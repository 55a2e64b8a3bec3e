//! Coding the chroma of an intra macroblock: one prediction mode for both
//! planes, each plane's four DCs through a 2×2 Hadamard and their own
//! quantizer, the AC of each 4×4 block like luma, and the reconstruction
//! the decoder will make.

use crate::codec::h264::cavlc::ZIGZAG4;
use crate::codec::h264::compress::{
    bestc_scan,
    block_ok,
    chroma_mode_scan,
    chroma_neighbors_of,
    chroma_neighbors_plane,
    chroma_run_avail,
    chroma_sample,
    ctx_ok,
    grid_index,
    spec_avail_chroma,
    spec_grid_index,
    Ctx,
};
use crate::codec::h264::intra::{self, NeighborsC};
use crate::codec::h264::macroblock::{ChromaData, MF0};
use crate::codec::h264::residual::{count_nonzero, dequantized4, lemma_inverse4_bound, nonzero_count, samples8};
use crate::codec::planes::{block_fits, gather, gathered, store, stored};
use crate::codec::h264::transform::{
    bounded,
    chroma_dc_forward,
    chroma_dc_inverse,
    fit_chroma_dc_levels,
    forward4,
    forward4_rows,
    fwd_butterfly,
    dequant4,
    dequant4_fits,
    inverse4,
    quant4,
    spec_dequant,
    spec_forward4,
    spec_inverse4,
    spec_quant,
    chroma_dc_fits,
    chroma_fit_ok,
    ints,
    max_abs,
    shrink,
    spec_chroma_dc_forward,
    spec_chroma_dc_inverse,
    spec_fit_chroma,
    spec_level_scale,
    within,
    MAX_DEQUANT,
};
use crate::num::{abs, clamp, clamp_i32, fits_i32, signum};
use vstd::arithmetic::power2::{lemma2_to64, lemma_pow2_pos, pow2};
use vstd::bits::{lemma_u64_shl_is_mul, lemma_u64_shr_is_div};
use vstd::prelude::*;

verus! {

// ---------------------------------------------------------------- DC quantizer

/// The DC quantizer: `|h|·MF(0,0)` plus a third of the step, shifted down
/// by `15 + qp/6 + extra` bits, with the sign of `h`. `extra` is one bit
/// for the 2×2 chroma Hadamard and two for the 4×4 luma one.
pub open spec fn spec_dc_quant(h: int, qp: int, extra: int) -> int {
    let q = (15 + qp / 6 + extra) as nat;
    let l = (abs(h) * MF0[qp % 6] + pow2(q) as int / 3) / pow2(q) as int;
    if h < 0 {
        -l
    } else {
        l
    }
}

/// Quantize one Hadamard-transformed DC coefficient.
pub fn dc_quant(h: i32, qp: i32, extra: i32) -> (l: i32)
    requires
        0 <= qp <= 51,
        1 <= extra <= 2,
        -0x100_0000 <= h <= 0x100_0000,
    ensures
        l == spec_dc_quant(h as int, qp as int, extra as int),
{
    let m = (qp % 6) as usize;
    let qbits: u64 = (15 + qp / 6 + extra) as u64;
    proof {
        vstd::bits::lemma_u64_pow2_no_overflow(qbits as nat);
        lemma_u64_shl_is_mul(1, qbits);
        lemma_pow2_pos(qbits as nat);
        lemma2_to64();
        vstd::arithmetic::power2::lemma2_to64_rest();
        assert(MF0[m as int] <= 13107 && MF0[m as int] > 0);
    }
    let f: u64 = (1u64 << qbits) / 3;
    let a: u64 = if h < 0 {
        (0 - (h as i64)) as u64
    } else {
        h as u64
    };
    let mf = MF0[m] as u64;
    proof {
        assert(a * mf <= 0x100_0000 * 13107) by (nonlinear_arith)
            requires
                a <= 0x100_0000,
                mf <= 13107,
        ;
    }
    let sum = a * mf + f;
    let l = sum >> qbits;
    proof {
        lemma_u64_shr_is_div(sum, qbits);
        assert(abs(h as int) == a);
        vstd::arithmetic::power2::lemma_pow2_strictly_increases(15, qbits as nat);
        let d = pow2(qbits as nat) as int;
        assert(pow2(15) == 32768);
        assert(d >= 32768);
        assert(l * d <= sum) by (nonlinear_arith)
            requires
                l == sum as int / d,
                d > 0,
                sum >= 0,
        ;
        assert(l * 32768 <= l * d) by (nonlinear_arith)
            requires
                d >= 32768,
                l >= 0,
        ;
        assert(l <= 0x100_0000);
    }
    if h < 0 {
        -(l as i32)
    } else {
        l as i32
    }
}

/// A quantized DC of a coefficient within `hmax` is, scaled back up by the
/// QP's octave, within `hmax·MF/2^(15+extra)` plus one octave.
pub proof fn lemma_dc_quant_bound(h: int, qp: int, extra: int, hmax: int)
    requires
        0 <= qp <= 51,
        1 <= extra <= 2,
        abs(h) <= hmax,
    ensures
        abs(spec_dc_quant(h, qp, extra)) * pow2((qp / 6) as nat) * pow2((15 + extra) as nat) <= hmax * 13107 + pow2(
            (qp / 6) as nat,
        ) * pow2((15 + extra) as nat),
{
    let s = (qp / 6) as nat;
    let e = (15 + extra) as nat;
    let q = (15 + qp / 6 + extra) as nat;
    vstd::arithmetic::power2::lemma_pow2_adds(s, e);
    assert(q == s + e);
    lemma_pow2_pos(s);
    lemma_pow2_pos(e);
    lemma_pow2_pos(q);
    let ps = pow2(s) as int;
    let pe = pow2(e) as int;
    let p = pow2(q) as int;
    let mf = MF0[qp % 6] as int;
    assert(0 < mf <= 13107) by {
        assert(0 <= qp % 6 < 6);
    }
    let a = abs(h);
    let l = (a * mf + p / 3) / p;
    assert(l * p <= a * mf + p / 3) by (nonlinear_arith)
        requires
            p > 0,
            l == (a * mf + p / 3) / p,
    ;
    assert(l >= 0) by (nonlinear_arith)
        requires
            p > 0,
            a >= 0,
            mf > 0,
            l == (a * mf + p / 3) / p,
    ;
    assert(a * mf <= hmax * 13107) by (nonlinear_arith)
        requires
            0 <= a <= hmax,
            0 < mf <= 13107,
    ;
    assert(p == ps * pe);
    assert(l * ps * pe <= hmax * 13107 + ps * pe) by (nonlinear_arith)
        requires
            l * p <= a * mf + p / 3,
            a * mf <= hmax * 13107,
            p == ps * pe,
            p > 0,
    ;
    assert(abs(spec_dc_quant(h, qp, extra)) == l);
}

// ---------------------------------------------------------------- chroma DC fitting

/// Every level, scaled up by the QP's octave, is within `k`.
pub open spec fn dc_small(x: Seq<int>, qp: int, k: int) -> bool {
    forall|i: int| 0 <= i < x.len() ==> #[trigger] abs(x[i]) * pow2((qp / 6) as nat) <= k
}

/// Moving every level one step toward zero keeps them small.
proof fn lemma_shrink_small(x: Seq<int>, qp: int, k: int)
    requires
        dc_small(x, qp, k),
    ensures
        dc_small(shrink(x), qp, k),
        shrink(x).len() == x.len(),
{
    lemma_pow2_pos((qp / 6) as nat);
    let p = pow2((qp / 6) as nat) as int;
    assert forall|i: int| 0 <= i < shrink(x).len() implies #[trigger] abs(shrink(x)[i]) * p <= k by {
        assert(shrink(x)[i] == x[i] - signum(x[i]));
        assert(abs(x[i]) * p <= k);
        assert(abs(shrink(x)[i]) <= abs(x[i]));
        assert(abs(shrink(x)[i]) * p <= abs(x[i]) * p) by (nonlinear_arith)
            requires
                0 <= abs(shrink(x)[i]) <= abs(x[i]),
                p > 0,
        ;
    }
}

/// Small chroma DC levels reconstruct within `i32` at every step.
proof fn lemma_small_chroma_dc_fits(x: Seq<int>, qp: int)
    requires
        x.len() == 4,
        0 <= qp <= 51,
        dc_small(x, qp, 8000),
    ensures
        chroma_dc_fits(x, qp),
        within(x, 0x1000_0000),
        forall|i: int| 0 <= i < 4 ==> -500_000 <= #[trigger] spec_chroma_dc_inverse(x, qp)[i] <= 500_000,
{
    lemma_pow2_pos((qp / 6) as nat);
    let p = pow2((qp / 6) as nat) as int;
    let ls = spec_level_scale(qp % 6, 0, 0);
    assert(160 <= ls <= 464) by {
        assert(0 <= qp % 6 < 6);
    }
    assert forall|i: int| 0 <= i < 4 implies -8000 <= #[trigger] x[i] * p <= 8000 && -8000 <= x[i] <= 8000 by {
        assert(abs(x[i]) * p <= 8000);
        assert(abs(x[i]) <= abs(x[i]) * p) by (nonlinear_arith)
            requires
                p >= 1,
                abs(x[i]) >= 0,
        ;
        if x[i] < 0 {
            assert(x[i] * p == -(abs(x[i]) * p)) by (nonlinear_arith)
                requires
                    abs(x[i]) == -x[i],
            ;
        }
    }
    let f = spec_chroma_dc_forward(x);
    assert forall|i: int| 0 <= i < 4 implies -32000 <= #[trigger] f[i] * p <= 32000 && -32000 <= f[i] <= 32000 by {
        assert(-8000 <= x[0] * p <= 8000 && -8000 <= x[1] * p <= 8000);
        assert(-8000 <= x[2] * p <= 8000 && -8000 <= x[3] * p <= 8000);
        assert(-8000 <= x[0] <= 8000 && -8000 <= x[1] <= 8000 && -8000 <= x[2] <= 8000 && -8000 <= x[3] <= 8000);
        assert((x[0] + x[1] + x[2] + x[3]) * p == x[0] * p + x[1] * p + x[2] * p + x[3] * p) by (nonlinear_arith);
        assert((x[0] - x[1] + x[2] - x[3]) * p == x[0] * p - x[1] * p + x[2] * p - x[3] * p) by (nonlinear_arith);
        assert((x[0] + x[1] - x[2] - x[3]) * p == x[0] * p + x[1] * p - x[2] * p - x[3] * p) by (nonlinear_arith);
        assert((x[0] - x[1] - x[2] + x[3]) * p == x[0] * p - x[1] * p - x[2] * p + x[3] * p) by (nonlinear_arith);
    }
    assert forall|i: int| 0 <= i < 4 implies fits_i32(#[trigger] f[i] * ls) && fits_i32(f[i] * ls * p) && -500_000
        <= spec_chroma_dc_inverse(x, qp)[i] <= 500_000 by {
        let v = f[i];
        assert(-32000 <= v * p <= 32000 && -32000 <= v <= 32000);
        assert(-32000 * 464 <= v * ls <= 32000 * 464) by (nonlinear_arith)
            requires
                -32000 <= v <= 32000,
                160 <= ls <= 464,
        ;
        assert(v * ls * p == (v * p) * ls) by (nonlinear_arith);
        assert(-32000 * 464 <= (v * p) * ls <= 32000 * 464) by (nonlinear_arith)
            requires
                -32000 <= v * p <= 32000,
                160 <= ls <= 464,
        ;
        assert(spec_chroma_dc_inverse(x, qp)[i] == (v * ls * p) / 32);
    }
    assert(within(x, 0x1000_0000));
}

/// Small chroma DC levels pass every fitting round.
proof fn lemma_small_chroma_fit_ok(x: Seq<int>, qp: int, n: nat)
    requires
        x.len() == 4,
        0 <= qp <= 51,
        dc_small(x, qp, 8000),
    ensures
        chroma_fit_ok(x, qp, n),
    decreases n,
{
    if n > 0 {
        lemma_small_chroma_dc_fits(x, qp);
        lemma_shrink_small(x, qp, 8000);
        lemma_small_chroma_fit_ok(shrink(x), qp, (n - 1) as nat);
    }
}

/// Fitting small chroma DC levels keeps them small.
proof fn lemma_fit_chroma_small(x: Seq<int>, qp: int, n: nat)
    requires
        x.len() == 4,
        0 <= qp <= 51,
        dc_small(x, qp, 8000),
    ensures
        dc_small(spec_fit_chroma(x, qp, n), qp, 8000),
        spec_fit_chroma(x, qp, n).len() == 4,
    decreases n,
{
    if n > 0 && max_abs(spec_chroma_dc_inverse(x, qp)) > MAX_DEQUANT {
        lemma_shrink_small(x, qp, 8000);
        lemma_fit_chroma_small(shrink(x), qp, (n - 1) as nat);
    }
}

/// The DC coefficient of a 4×4 block of entries within `b` is within `16·b`.
pub proof fn lemma_forward_dc_bound(x: Seq<int>, b: int)
    requires
        x.len() == 16,
        forall|k: int| 0 <= k < 16 ==> -b <= #[trigger] x[k] <= b,
    ensures
        -16 * b <= spec_forward4(x)[0] <= 16 * b,
{
    let t = forward4_rows(x);
    assert forall|r: int| 0 <= r < 4 implies -4 * b <= #[trigger] t[4 * r] <= 4 * b by {
        assert(-b <= x[4 * r] <= b && -b <= x[4 * r + 1] <= b && -b <= x[4 * r + 2] <= b && -b <= x[4 * r + 3] <= b);
        assert((4 * r) / 4 == r && (4 * r) % 4 == 0);
    }
    assert(-4 * b <= t[0] <= 4 * b && -4 * b <= t[4] <= 4 * b);
    assert(-4 * b <= t[4 * 2int] <= 4 * b && -4 * b <= t[4 * 3int] <= 4 * b);
}

/// The chroma DC levels of one plane: the 2×2 Hadamard of its four block
/// DCs, quantized one bit coarser than luma AC, then moved toward zero
/// while their reconstruction would overflow.
pub open spec fn chroma_dc_levels(dcs: Seq<int>, qp: int) -> Seq<int> {
    let h = spec_chroma_dc_forward(dcs);
    spec_fit_chroma(Seq::new(4, |k: int| spec_dc_quant(h[k], qp, 1)), qp, 24)
}

/// Quantize a plane's four block DCs and reconstruct the DC each block
/// starts from.
pub fn code_chroma_dc(dcs: &[i32; 4], qp: i32) -> (r: ([i32; 4], [i32; 4]))
    requires
        0 <= qp <= 51,
        bounded(dcs@, 4080),
    ensures
        ints(r.0@) == chroma_dc_levels(ints(dcs@), qp as int),
        ints(r.1@) == spec_chroma_dc_inverse(ints(r.0@), qp as int),
        bounded(r.1@, 500_000),
{
    let h = chroma_dc_forward(dcs);
    let ghost hs = spec_chroma_dc_forward(ints(dcs@));
    proof {
        assert forall|k: int| 0 <= k < 4 implies -16320 <= #[trigger] h@[k] <= 16320 by {
            assert(ints(dcs@)[0] == dcs@[0] && ints(dcs@)[1] == dcs@[1]);
            assert(ints(dcs@)[2] == dcs@[2] && ints(dcs@)[3] == dcs@[3]);
            assert(-4080 <= dcs@[0] <= 4080 && -4080 <= dcs@[1] <= 4080);
            assert(-4080 <= dcs@[2] <= 4080 && -4080 <= dcs@[3] <= 4080);
            assert(ints(h@)[k] == h@[k]);
        }
    }
    let mut levels = [0i32; 4];
    let mut k: usize = 0;
    while k < 4
        invariant
            0 <= qp <= 51,
            forall|i: int| 0 <= i < 4 ==> -16320 <= #[trigger] h@[i] <= 16320,
            ints(h@) == hs,
            k <= 4,
            forall|i: int| 0 <= i < k ==> #[trigger] levels@[i] as int == spec_dc_quant(hs[i], qp as int, 1),
            forall|i: int| 0 <= i < k ==> #[trigger] abs(levels@[i] as int) * pow2((qp / 6) as nat) <= 8000,
        decreases 4 - k,
    {
        let l = dc_quant(h[k], qp, 1);
        proof {
            assert(hs[k as int] == h@[k as int]);
            lemma_dc_quant_bound(h@[k as int] as int, qp as int, 1, 16320);
            lemma_pow2_pos((qp / 6) as nat);
            let ps = pow2((qp / 6) as nat) as int;
            let pe = pow2(16) as int;
            lemma2_to64();
            assert(ps <= 256) by {
                if qp / 6 < 8 {
                    vstd::arithmetic::power2::lemma_pow2_strictly_increases((qp / 6) as nat, 8);
                }
            }
            assert(abs(l as int) * ps <= 8000) by (nonlinear_arith)
                requires
                    abs(l as int) * ps * pe <= 16320 * 13107 + ps * pe,
                    pe == 65536,
                    0 < ps <= 256,
            ;
        }
        levels[k] = l;
        k = k + 1;
    }
    let ghost q0 = ints(levels@);
    proof {
        assert(q0 =~= Seq::new(4, |i: int| spec_dc_quant(hs[i], qp as int, 1)));
        assert(dc_small(q0, qp as int, 8000)) by {
            assert forall|i: int| 0 <= i < q0.len() implies #[trigger] abs(q0[i]) * pow2((qp / 6) as nat) <= 8000 by {
                assert(q0[i] == levels@[i]);
            }
        }
        lemma_small_chroma_fit_ok(q0, qp as int, 24);
        lemma_fit_chroma_small(q0, qp as int, 24);
    }
    fit_chroma_dc_levels(&mut levels, qp);
    proof {
        let fitted = ints(levels@);
        lemma_small_chroma_dc_fits(fitted, qp as int);
        assert forall|i: int| 0 <= i < 4 implies -0x1000_0000 <= #[trigger] levels@[i] <= 0x1000_0000 by {
            assert(fitted[i] == levels@[i]);
        }
    }
    let rec = chroma_dc_inverse(&levels, qp);
    proof {
        lemma_small_chroma_dc_fits(ints(levels@), qp as int);
        assert forall|i: int| 0 <= i < 4 implies -500_000 <= #[trigger] rec@[i] <= 500_000 by {
            assert(ints(rec@)[i] == rec@[i]);
        }
    }
    (levels, rec)
}

// ---------------------------------------------------------------- blocks of a plane

/// Entry `k` of chroma 4×4 block `b` within the macroblock's 8×8 block.
pub open spec fn sub_index(b: int, k: int) -> int {
    ((b / 2) * 4 + k / 4) * 8 + (b % 2) * 4 + k % 4
}

/// The residual of chroma 4×4 block `b`.
pub open spec fn chroma_sub_residual(orig: Seq<i32>, pred: Seq<int>, b: int) -> Seq<int> {
    Seq::new(16, |k: int| orig[sub_index(b, k)] - pred[sub_index(b, k)])
}

/// The intra-quantized levels of coefficients `c`, in raster order.
pub open spec fn quant_of(c: Seq<int>, qp: int) -> Seq<int> {
    Seq::new(16, |k: int| spec_quant(c[k], qp, k / 4, k % 4, true))
}

/// The fifteen AC levels of a block in zig-zag order.
pub open spec fn ac_scan15(q: Seq<int>) -> Seq<int> {
    Seq::new(15, |s: int| q[ZIGZAG4[s + 1] as int])
}

/// What the decoder rebuilds of chroma block `b` from its AC `levels` and
/// the DC `dc_rec` the 2×2 inverse gives it, on top of `pred`.
pub open spec fn chroma_block_rec(pred: Seq<int>, b: int, levels: Seq<int>, dc_rec: int, qp: int) -> Seq<int> {
    let d = dequantized4(levels, qp).update(0, dc_rec);
    Seq::new(16, |k: int| clamp(pred[sub_index(b, k)] + spec_inverse4(d)[k], 0, 255))
}

/// Every entry lies in `[0, 255]`.
pub open spec fn preds8(p: Seq<i32>) -> bool {
    forall|k: int| 0 <= k < p.len() ==> 0 <= #[trigger] p[k] <= 255
}

/// Sub-block entries index the 8×8 block.
proof fn lemma_sub_index(b: int, k: int)
    requires
        0 <= b < 4,
        0 <= k < 16,
    ensures
        0 <= sub_index(b, k) < 64,
{
}

/// The transform coefficients of chroma block `b` of an 8-bit original
/// against an 8-bit prediction.
fn chroma_block_coeffs(orig: &[i32], pred: &[i32; 64], b: usize) -> (c: [i32; 16])
    requires
        orig@.len() == 64,
        samples8(orig@),
        preds8(pred@),
        b < 4,
    ensures
        ints(c@) == spec_forward4(chroma_sub_residual(orig@, ints(pred@), b as int)),
        -4080 <= c@[0] <= 4080,
{
    let mut r = [0i32; 16];
    let mut k: usize = 0;
    while k < 16
        invariant
            orig@.len() == 64,
            samples8(orig@),
            preds8(pred@),
            b < 4,
            k <= 16,
            forall|i: int| 0 <= i < k ==> #[trigger] r@[i] as int == chroma_sub_residual(orig@, ints(pred@), b as int)[i],
            forall|i: int| 0 <= i < 16 ==> -255 <= #[trigger] r@[i] <= 255,
        decreases 16 - k,
    {
        let idx = ((b / 2) * 4 + k / 4) * 8 + (b % 2) * 4 + k % 4;
        proof {
            lemma_sub_index(b as int, k as int);
            assert(0 <= orig@[idx as int] <= 255 && 0 <= pred@[idx as int] <= 255);
            assert(ints(pred@)[idx as int] == pred@[idx as int]);
        }
        r[k] = orig[idx] - pred[idx];
        k = k + 1;
    }
    proof {
        assert(ints(r@) =~= chroma_sub_residual(orig@, ints(pred@), b as int));
        assert forall|i: int| 0 <= i < 16 implies -255 <= #[trigger] ints(r@)[i] <= 255 by {}
        lemma_forward_dc_bound(ints(r@), 255);
    }
    let c = forward4(&r);
    c
}

/// Quantize, scan and reconstruct one chroma block from its coefficients
/// and the DC the 2×2 inverse gives it: its AC levels in zig-zag order, how
/// many are non-zero, and the reconstruction.
fn chroma_ac_block(c: &[i32; 16], dc_rec: i32, pred: &[i32; 64], b: usize, qp: i32) -> (r: ([i32; 15], usize, [i32; 16]))
    requires
        preds8(pred@),
        b < 4,
        0 <= qp <= 51,
        -500_000 <= dc_rec <= 500_000,
    ensures
        ints(r.0@) == ac_scan15(quant_of(ints(c@), qp as int)),
        r.1 == nonzero_count(ints(r.0@), 15),
        r.1 <= 15,
        ints(r.2@) == chroma_block_rec(ints(pred@), b as int, quant_of(ints(c@), qp as int), dc_rec as int, qp as int),
        forall|k: int| 0 <= k < 16 ==> 0 <= #[trigger] r.2@[k] <= 255,
{
    let q = quant4(c, qp, true);
    let ghost lv = quant_of(ints(c@), qp as int);
    proof {
        assert(ints(q@) =~= lv);
    }
    proof {
        assert forall|k: int| 0 <= k < 16 implies #[trigger] q@[k] as int == spec_quant(ints(c@)[k], qp as int, k / 4, k % 4, true) by {
            assert(ints(q@)[k] == lv[k]);
        }
        crate::codec::h264::residual::lemma_levels_dequant_fit(ints(c@), qp as int, q@);
    }
    let mut deq = dequant4(&q, qp);
    deq[0] = dc_rec;
    let ghost d = dequantized4(lv, qp as int).update(0, dc_rec as int);
    proof {
        assert forall|k: int| 0 <= k < 16 implies -500_000 <= #[trigger] d[k] <= 500_000 by {
            if k != 0 {
                assert(q@[k] as int == spec_quant(ints(c@)[k], qp as int, k / 4, k % 4, true));
                assert(lv[k] == q@[k]);
            }
        }
        assert(ints(deq@) =~= d) by {
            assert forall|k: int| 0 <= k < 16 implies #[trigger] ints(deq@)[k] == d[k] by {
                if k != 0 {
                    assert(lv[k] == q@[k]);
                }
            }
        }
        lemma_inverse4_bound(d, 500_000);
        assert forall|k: int| 0 <= k < 16 implies -0x800_0000 <= #[trigger] deq@[k] <= 0x800_0000 by {
            assert(ints(deq@)[k] == d[k]);
        }
    }
    let res = inverse4(&deq);
    let mut rec = [0i32; 16];
    let mut k: usize = 0;
    while k < 16
        invariant
            preds8(pred@),
            b < 4,
            ints(deq@) == d,
            forall|j: int| 0 <= j < 16 ==> res[j] == #[trigger] spec_inverse4(d)[j],
            forall|j: int| 0 <= j < 16 ==> -500_000 <= #[trigger] spec_inverse4(d)[j] <= 500_000,
            k <= 16,
            forall|j: int|
                0 <= j < k ==> #[trigger] rec@[j] as int == clamp(
                    ints(pred@)[sub_index(b as int, j)] + spec_inverse4(d)[j],
                    0,
                    255,
                ),
            forall|j: int| 0 <= j < k ==> 0 <= #[trigger] rec@[j] <= 255,
        decreases 16 - k,
    {
        let idx = ((b / 2) * 4 + k / 4) * 8 + (b % 2) * 4 + k % 4;
        proof {
            lemma_sub_index(b as int, k as int);
            assert(0 <= pred@[idx as int] <= 255);
            assert(res[k as int] == spec_inverse4(d)[k as int]);
            assert(-500_000 <= res[k as int] <= 500_000);
            assert(ints(pred@)[idx as int] == pred@[idx as int]);
        }
        rec[k] = clamp_i32(pred[idx] + res[k], 0, 255);
        k = k + 1;
    }
    let mut scan = [0i32; 15];
    let mut s: usize = 1;
    while s < 16
        invariant
            1 <= s <= 16,
            ints(q@) == lv,
            forall|j: int| 0 <= j < s - 1 ==> #[trigger] scan@[j] as int == ac_scan15(lv)[j],
        decreases 16 - s,
    {
        proof {
            crate::codec::h264::residual::lemma_zigzag_in_range();
        }
        scan[s - 1] = q[ZIGZAG4[s]];
        proof {
            assert(ints(q@)[ZIGZAG4[s as int] as int] == q@[ZIGZAG4[s as int] as int]);
        }
        s = s + 1;
    }
    proof {
        assert(ints(scan@) =~= ac_scan15(lv));
    }
    let nnz = count_nonzero(&scan, 15);
    proof {
        assert(ints(rec@) =~= chroma_block_rec(ints(pred@), b as int, lv, dc_rec as int, qp as int));
    }
    (scan, nnz, rec)
}

// ---------------------------------------------------------------- a whole plane

/// The transform coefficients of chroma block `b`.
pub open spec fn chroma_coeffs(orig: Seq<i32>, pred: Seq<int>, b: int) -> Seq<int> {
    spec_forward4(chroma_sub_residual(orig, pred, b))
}

/// The four block DCs of a plane.
pub open spec fn chroma_dcs(orig: Seq<i32>, pred: Seq<int>) -> Seq<int> {
    Seq::new(4, |b: int| chroma_coeffs(orig, pred, b)[0])
}

/// The intra levels of chroma block `b`, in raster order.
pub open spec fn chroma_block_levels(orig: Seq<i32>, pred: Seq<int>, b: int, qp: int) -> Seq<int> {
    quant_of(chroma_coeffs(orig, pred, b), qp)
}

/// The reconstruction of each of the four chroma blocks.
pub open spec fn chroma_recs(orig: Seq<i32>, pred: Seq<int>, qp: int) -> Seq<Seq<int>> {
    let dc_rec = spec_chroma_dc_inverse(chroma_dc_levels(chroma_dcs(orig, pred), qp), qp);
    Seq::new(4, |b: int| chroma_block_rec(pred, b, chroma_block_levels(orig, pred, b, qp), dc_rec[b], qp))
}

/// How many AC levels of each chroma block are non-zero.
pub open spec fn chroma_nnzs(orig: Seq<i32>, pred: Seq<int>, qp: int) -> Seq<int> {
    Seq::new(4, |b: int| nonzero_count(ac_scan15(chroma_block_levels(orig, pred, b, qp)), 15))
}

/// The chroma plane after storing the first `k` reconstructed blocks of the
/// macroblock whose 8×8 block starts at `(cx, cy)`.
pub open spec fn chroma_plane_after(p: Seq<u8>, cwc: int, cx: int, cy: int, recs: Seq<Seq<int>>, k: int) -> Seq<u8>
    decreases k,
{
    if k <= 0 {
        p
    } else {
        stored(
            chroma_plane_after(p, cwc, cx, cy, recs, k - 1),
            cwc,
            cx + ((k - 1) % 2) * 4,
            cy + ((k - 1) / 2) * 4,
            4,
            recs[k - 1].map_values(|v: int| v as i32),
            16,
        )
    }
}

/// The chroma coefficient-count grid after recording the first `k` blocks.
pub open spec fn chroma_grid_after(g: Seq<usize>, cwc: int, cx: int, cy: int, nnz: Seq<int>, k: int) -> Seq<usize>
    decreases k,
{
    if k <= 0 {
        g
    } else {
        chroma_grid_after(g, cwc, cx, cy, nnz, k - 1).update(
            spec_grid_index(cwc, cx + ((k - 1) % 2) * 4, cy + ((k - 1) / 2) * 4),
            nnz[k - 1] as usize,
        )
    }
}

/// Chroma neighbours read from an 8-bit picture are 8-bit samples.
pub proof fn lemma_chroma_neighbors_8bit(c: &Ctx, mbx: int, mby: int, plane: int, n: NeighborsC)
    requires
        chroma_neighbors_of(c, mbx, mby, plane, n),
    ensures
        intra::neighbors_c_8bit(n),
        intra::neighbors_c_ok(n),
{
    if let Some(a) = n.above {
        assert forall|i: int| 0 <= i < 8 implies 0 <= #[trigger] a[i] <= 255 by {
            assert(a[i] == chroma_sample(c, plane, 8 * mbx + i, 8 * mby - 1));
        }
        assert forall|i: int| 0 <= i < a@.len() implies -intra::SAMPLE_BOUND <= #[trigger] a@[i] <= intra::SAMPLE_BOUND by {
            assert(a@[i] == a[i]);
        }
    }
    if let Some(l) = n.left {
        assert forall|i: int| 0 <= i < 8 implies 0 <= #[trigger] l[i] <= 255 by {
            assert(l[i] == chroma_sample(c, plane, 8 * mbx - 1, 8 * mby + i));
        }
        assert forall|i: int| 0 <= i < l@.len() implies -intra::SAMPLE_BOUND <= #[trigger] l@[i] <= intra::SAMPLE_BOUND by {
            assert(l@[i] == l[i]);
        }
    }
}

/// The chroma block `b` of the macroblock at `(mbx, mby)` lies in the
/// chroma planes and their grid.
proof fn lemma_chroma_block_geometry(c: &Ctx, mbx: int, mby: int, b: int)
    requires
        ctx_ok(c),
        0 <= mbx < c.mbw,
        0 <= mby < c.ch / 16,
        0 <= b < 4,
    ensures
        block_fits(c.ru@.len() as int, c.cwc as int, 8 * mbx + (b % 2) * 4, 8 * mby + (b / 2) * 4, 4),
        block_fits((c.cwc * c.chc) as int, c.cwc as int, 8 * mbx + (b % 2) * 4, 8 * mby + (b / 2) * 4, 4),
        0 <= spec_grid_index(c.cwc as int, 8 * mbx + (b % 2) * 4, 8 * mby + (b / 2) * 4) < (c.cwc / 4) * (c.chc / 4),
        (c.cwc / 4) * (c.chc / 4) <= 0x1000_0000,
        8 * mbx + 8 <= c.cwc,
        8 * mby + 8 <= c.chc,
{
    let x = 8 * mbx + (b % 2) * 4;
    let y = 8 * mby + (b / 2) * 4;
    assert(x + 4 <= c.cwc && y + 4 <= c.chc);
    assert((y + 3) * c.cwc + x + 4 <= c.cwc * c.chc) by (nonlinear_arith)
        requires
            x + 4 <= c.cwc,
            y + 4 <= c.chc,
    ;
    assert(c.cwc * c.chc <= 0x8000 * 0x8000) by (nonlinear_arith)
        requires
            c.cwc <= 0x8000,
            c.chc <= 0x8000,
    ;
    crate::codec::h264::compress::lemma_grid_cell(c.cwc as int, c.chc as int, x, y);
}

/// The picture state's geometry and every table but chroma plane
/// `plane`'s samples and counts agree.
pub open spec fn same_but_chroma(c0: Ctx, c1: Ctx, plane: int) -> bool {
    &&& c1.cw == c0.cw
    &&& c1.ch == c0.ch
    &&& c1.cwc == c0.cwc
    &&& c1.chc == c0.chc
    &&& c1.mbw == c0.mbw
    &&& c1.ry@ == c0.ry@
    &&& c1.nnz_y@ == c0.nnz_y@
    &&& c1.modes@ == c0.modes@
    &&& c1.mb@ == c0.mb@
    &&& c1.prev_qp_delta_nonzero == c0.prev_qp_delta_nonzero
    &&& (plane != 0 ==> c1.ru@ == c0.ru@ && c1.nnz_c[0]@ == c0.nnz_c[0]@)
    &&& (plane != 1 ==> c1.rv@ == c0.rv@ && c1.nnz_c[1]@ == c0.nnz_c[1]@)
}

/// Code chroma block `b` of plane `plane` from its coefficients and DC,
/// store its reconstruction and record its AC count.
fn chroma_block_step(
    ctx: &mut Ctx,
    mbx: usize,
    mby: usize,
    plane: usize,
    b: usize,
    c: &[i32; 16],
    dc_rec: i32,
    pred: &[i32; 64],
    qp: i32,
) -> (r: ([i32; 15], usize))
    requires
        ctx_ok(old(ctx)),
        mbx < old(ctx).mbw,
        mby < old(ctx).ch / 16,
        plane < 2,
        b < 4,
        0 <= qp <= 51,
        preds8(pred@),
        -500_000 <= dc_rec <= 500_000,
    ensures
        ctx_ok(final(ctx)),
        same_but_chroma(*old(ctx), *final(ctx), plane as int),
        ({
            let lv = quant_of(ints(c@), qp as int);
            let rec = chroma_block_rec(ints(pred@), b as int, lv, dc_rec as int, qp as int);
            let bx = 8 * mbx + (b % 2) * 4;
            let by = 8 * mby + (b / 2) * 4;
            &&& ints(r.0@) == ac_scan15(lv)
            &&& r.1 == nonzero_count(ints(r.0@), 15)
            &&& (plane == 0 ==> final(ctx).ru@ == stored(
                old(ctx).ru@,
                old(ctx).cwc as int,
                bx,
                by,
                4,
                rec.map_values(|v: int| v as i32),
                16,
            ))
            &&& (plane == 1 ==> final(ctx).rv@ == stored(
                old(ctx).rv@,
                old(ctx).cwc as int,
                bx,
                by,
                4,
                rec.map_values(|v: int| v as i32),
                16,
            ))
            &&& final(ctx).nnz_c[plane as int]@ == old(ctx).nnz_c[plane as int]@.update(
                spec_grid_index(old(ctx).cwc as int, bx, by),
                r.1,
            )
        }),
{
    let ghost c0 = *ctx;
    proof {
        lemma_chroma_block_geometry(ctx, mbx as int, mby as int, b as int);
    }
    let (scan, nnz, rec) = chroma_ac_block(c, dc_rec, pred, b, qp);
    let ghost recs = chroma_block_rec(ints(pred@), b as int, quant_of(ints(c@), qp as int), dc_rec as int, qp as int);
    proof {
        assert(rec@ =~= recs.map_values(|v: int| v as i32)) by {
            assert forall|k: int| 0 <= k < 16 implies rec@[k] == recs.map_values(|v: int| v as i32)[k] by {
                assert(ints(rec@)[k] == rec@[k]);
            }
        }
    }
    let cwc = ctx.cwc;
    let bx = (mbx * 8 + (b % 2) * 4) as u32;
    let by = (mby * 8 + (b / 2) * 4) as u32;
    let gi = grid_index(cwc, bx, by);
    if plane == 0 {
        store(ctx.ru.as_mut_slice(), cwc, bx, by, 4, &rec);
        ctx.nnz_c[0].set(gi, nnz);
        proof {
            crate::codec::planes::lemma_stored_len(c0.ru@, cwc as int, bx as int, by as int, 4, rec@, 16);
        }
    } else {
        store(ctx.rv.as_mut_slice(), cwc, bx, by, 4, &rec);
        ctx.nnz_c[1].set(gi, nnz);
        proof {
            crate::codec::planes::lemma_stored_len(c0.rv@, cwc as int, bx as int, by as int, 4, rec@, 16);
        }
    }
    (scan, nnz)
}

/// Code one chroma plane of the macroblock at `(mbx, mby)` in `mode`
/// against its neighbourhood `n`: the plane's DC levels, the AC levels of
/// its four blocks in zig-zag order, and whether any AC level is non-zero;
/// the reconstruction is stored and each block's AC count recorded.
#[verifier::spinoff_prover]
#[verifier::rlimit(60)]
pub fn code_chroma_plane(
    ctx: &mut Ctx,
    src: &[u8],
    mbx: usize,
    mby: usize,
    plane: usize,
    mode: u8,
    n: &NeighborsC,
    qp: i32,
) -> (r: ([i32; 4], [[i32; 15]; 4], bool))
    requires
        ctx_ok(old(ctx)),
        mbx < old(ctx).mbw,
        mby < old(ctx).ch / 16,
        plane < 2,
        src@.len() == old(ctx).cwc * old(ctx).chc,
        0 <= qp <= 51,
        chroma_neighbors_of(old(ctx), mbx as int, mby as int, plane as int, *n),
    ensures
        ctx_ok(final(ctx)),
        same_but_chroma(*old(ctx), *final(ctx), plane as int),
        ({
            let orig = gathered(src@, old(ctx).cwc as int, 8 * mbx, 8 * mby, 8);
            let pred = intra::spec_predict_chroma(mode, *n);
            let nnz = chroma_nnzs(orig, pred, qp as int);
            &&& ints(r.0@) == chroma_dc_levels(chroma_dcs(orig, pred), qp as int)
            &&& forall|b: int| 0 <= b < 4 ==> ints(#[trigger] r.1[b]@) == ac_scan15(chroma_block_levels(orig, pred, b, qp as int))
            &&& r.2 == (nnz[0] > 0 || nnz[1] > 0 || nnz[2] > 0 || nnz[3] > 0)
            &&& (plane == 0 ==> final(ctx).ru@ == chroma_plane_after(
                old(ctx).ru@,
                old(ctx).cwc as int,
                8 * mbx,
                8 * mby,
                chroma_recs(orig, pred, qp as int),
                4,
            ))
            &&& (plane == 1 ==> final(ctx).rv@ == chroma_plane_after(
                old(ctx).rv@,
                old(ctx).cwc as int,
                8 * mbx,
                8 * mby,
                chroma_recs(orig, pred, qp as int),
                4,
            ))
            &&& final(ctx).nnz_c[plane as int]@ == chroma_grid_after(
                old(ctx).nnz_c[plane as int]@,
                old(ctx).cwc as int,
                8 * mbx,
                8 * mby,
                nnz,
                4,
            )
        }),
{
    let ghost c0 = *ctx;
    proof {
        lemma_chroma_neighbors_8bit(ctx, mbx as int, mby as int, plane as int, *n);
        intra::lemma_predict_chroma_8bit(mode, *n);
        lemma_chroma_block_geometry(ctx, mbx as int, mby as int, 0);
    }
    let pred = intra::predict_chroma(mode, n);
    let ghost p = intra::spec_predict_chroma(mode, *n);
    proof {
        assert forall|k: int| 0 <= k < 64 implies 0 <= #[trigger] pred@[k] <= 255 by {
            assert(pred[k] == p[k]);
        }
        assert(ints(pred@) =~= p);
    }
    let cx = (mbx * 8) as u32;
    let cy = (mby * 8) as u32;
    proof {
        assert((cy + 7) * ctx.cwc + cx + 8 <= ctx.cwc * ctx.chc) by (nonlinear_arith)
            requires
                cx + 8 <= ctx.cwc,
                cy + 8 <= ctx.chc,
        ;
        assert(ctx.cwc * ctx.chc <= 0x8000 * 0x8000) by (nonlinear_arith)
            requires
                ctx.cwc <= 0x8000,
                ctx.chc <= 0x8000,
        ;
    }
    let orig = gather(src, ctx.cwc, cx, cy, 8);
    let ghost o = gathered(src@, c0.cwc as int, 8 * mbx, 8 * mby, 8);
    proof {
        assert(samples8(orig@));
    }
    let mut coeffs = [[0i32; 16]; 4];
    let mut dcs = [0i32; 4];
    let mut b: usize = 0;
    while b < 4
        invariant
            orig@ == o,
            orig@.len() == 64,
            samples8(orig@),
            preds8(pred@),
            ints(pred@) == p,
            b <= 4,
            forall|j: int| 0 <= j < b ==> ints(#[trigger] coeffs[j]@) == chroma_coeffs(o, p, j),
            forall|j: int| 0 <= j < b ==> #[trigger] dcs@[j] as int == chroma_dcs(o, p)[j],
            forall|j: int| 0 <= j < 4 ==> -4080 <= #[trigger] dcs@[j] <= 4080,
        decreases 4 - b,
    {
        let c = chroma_block_coeffs(&orig, &pred, b);
        coeffs[b] = c;
        dcs[b] = c[0];
        proof {
            assert(ints(c@)[0] == c@[0]);
        }
        b = b + 1;
    }
    proof {
        assert(ints(dcs@) =~= chroma_dcs(o, p));
    }
    let (levels, dc_rec) = code_chroma_dc(&dcs, qp);
    let ghost recs = chroma_recs(o, p, qp as int);
    let ghost nnzs = chroma_nnzs(o, p, qp as int);
    let mut ac = [[0i32; 15]; 4];
    let mut any_ac = false;
    let cwc = ctx.cwc;
    let mut b: usize = 0;
    while b < 4
        invariant
            ctx_ok(ctx),
            mbx < ctx.mbw,
            mby < ctx.ch / 16,
            plane < 2,
            0 <= qp <= 51,
            cwc == c0.cwc,
            cx == 8 * mbx,
            cy == 8 * mby,
            same_but_chroma(c0, *ctx, plane as int),
            preds8(pred@),
            ints(pred@) == p,
            bounded(dc_rec@, 500_000),
            ints(dc_rec@) == spec_chroma_dc_inverse(chroma_dc_levels(chroma_dcs(o, p), qp as int), qp as int),
            forall|j: int| 0 <= j < 4 ==> ints(#[trigger] coeffs[j]@) == chroma_coeffs(o, p, j),
            recs == chroma_recs(o, p, qp as int),
            nnzs == chroma_nnzs(o, p, qp as int),
            b <= 4,
            forall|j: int| 0 <= j < b ==> ints(#[trigger] ac[j]@) == ac_scan15(chroma_block_levels(o, p, j, qp as int)),
            any_ac == (exists|j: int| 0 <= j < b && #[trigger] nnzs[j] > 0),
            plane == 0 ==> ctx.ru@ == chroma_plane_after(c0.ru@, c0.cwc as int, 8 * mbx, 8 * mby, recs, b as int),
            plane == 1 ==> ctx.rv@ == chroma_plane_after(c0.rv@, c0.cwc as int, 8 * mbx, 8 * mby, recs, b as int),
            ctx.nnz_c[plane as int]@ == chroma_grid_after(
                c0.nnz_c[plane as int]@,
                c0.cwc as int,
                8 * mbx,
                8 * mby,
                nnzs,
                b as int,
            ),
        decreases 4 - b,
    {
        proof {
            assert(-500_000 <= dc_rec@[b as int] <= 500_000);
            assert(ints(dc_rec@)[b as int] == dc_rec@[b as int]);
        }
        let ghost before = *ctx;
        let (scan, nnz) = chroma_block_step(ctx, mbx, mby, plane, b, &coeffs[b], dc_rec[b], &pred, qp);
        proof {
            assert(ints(coeffs[b as int]@) == chroma_coeffs(o, p, b as int));
            assert(nnz == nnzs[b as int]);
        }
        ac[b] = scan;
        if nnz > 0 {
            any_ac = true;
        }
        b = b + 1;
    }
    (levels, ac, any_ac)
}

// ---------------------------------------------------------------- both planes

/// The 8×8 source block of the macroblock at `(mbx, mby)` in a chroma plane
/// `cwc` wide.
pub open spec fn chroma_orig(src: Seq<u8>, cwc: int, mbx: int, mby: int) -> Seq<i32> {
    gathered(src, cwc, 8 * mbx, 8 * mby, 8)
}

/// Whether any entry of a sequence is non-zero.
pub open spec fn any_nonzero(s: Seq<int>) -> bool {
    exists|i: int| 0 <= i < s.len() && #[trigger] s[i] != 0
}

/// `coded_block_pattern`'s chroma half: 2 when any AC level of either plane
/// is coded, else 1 when any DC level is, else 0.
pub open spec fn chroma_cbp(any_ac: bool, dc0: Seq<int>, dc1: Seq<int>) -> u32 {
    if any_ac {
        2
    } else if any_nonzero(dc0) || any_nonzero(dc1) {
        1
    } else {
        0
    }
}

/// A plane-1 neighbourhood read from one state is the same read from a
/// state whose plane 1 and geometry agree with it.
proof fn lemma_chroma_neighbors_keep(c0: &Ctx, c1: &Ctx, mbx: int, mby: int, plane: int, n: NeighborsC)
    requires
        chroma_neighbors_of(c0, mbx, mby, plane, n),
        c1.cwc == c0.cwc,
        c1.chc == c0.chc,
        c1.mbw == c0.mbw,
        plane == 0 ==> c1.ru@ == c0.ru@,
        plane != 0 ==> c1.rv@ == c0.rv@,
    ensures
        chroma_neighbors_of(c1, mbx, mby, plane, n),
{
    assert forall|x: int, y: int| #[trigger] spec_avail_chroma(c1, x, y, mbx, mby) == spec_avail_chroma(c0, x, y, mbx, mby) by {}
    assert forall|x: int, y: int| #[trigger] chroma_sample(c1, plane, x, y) == chroma_sample(c0, plane, x, y) by {}
    lemma_run_avail_keep(c0, c1, 8 * mbx, 8 * mby - 1, 1, 0, mbx, mby);
    lemma_run_avail_keep(c0, c1, 8 * mbx - 1, 8 * mby, 0, 1, mbx, mby);
}

/// Availability of a run of chroma samples depends on the geometry alone.
proof fn lemma_run_avail_keep(c0: &Ctx, c1: &Ctx, x0: int, y0: int, dx: int, dy: int, mbx: int, mby: int)
    requires
        c1.cwc == c0.cwc,
        c1.chc == c0.chc,
        c1.mbw == c0.mbw,
    ensures
        chroma_run_avail(c1, x0, y0, dx, dy, 8, mbx, mby) == chroma_run_avail(c0, x0, y0, dx, dy, 8, mbx, mby),
{
    assert forall|k: int| 0 <= k < 8 implies #[trigger] spec_avail_chroma(c1, x0 + k * dx, y0 + k * dy, mbx, mby)
        == spec_avail_chroma(c0, x0 + k * dx, y0 + k * dy, mbx, mby) by {}
    if chroma_run_avail(c0, x0, y0, dx, dy, 8, mbx, mby) {
        assert forall|k: int| 0 <= k < 8 implies #[trigger] spec_avail_chroma(c1, x0 + k * dx, y0 + k * dy, mbx, mby) by {
            assert(spec_avail_chroma(c0, x0 + k * dx, y0 + k * dy, mbx, mby));
        }
    }
    if chroma_run_avail(c1, x0, y0, dx, dy, 8, mbx, mby) {
        assert forall|k: int| 0 <= k < 8 implies #[trigger] spec_avail_chroma(c0, x0 + k * dx, y0 + k * dy, mbx, mby) by {
            assert(spec_avail_chroma(c1, x0 + k * dx, y0 + k * dy, mbx, mby));
        }
    }
}

/// Predict, transform, quantize and reconstruct both chroma planes of the
/// macroblock at `(mbx, mby)`: the mode with the least SAD over both
/// source planes `u` and `v` among those both neighbourhoods allow, then
/// each plane coded against its own neighbourhood, which this returns too.
#[verifier::spinoff_prover]
#[verifier::rlimit(60)]
pub fn encode_chroma(ctx: &mut Ctx, u: &[u8], v: &[u8], mbx: usize, mby: usize, qp_c: i32) -> (r: (
    ChromaData,
    NeighborsC,
    NeighborsC,
))
    requires
        ctx_ok(old(ctx)),
        mbx < old(ctx).mbw,
        mby < old(ctx).ch / 16,
        u@.len() == old(ctx).cwc * old(ctx).chc,
        v@.len() == old(ctx).cwc * old(ctx).chc,
        0 <= qp_c <= 51,
    ensures
        ctx_ok(final(ctx)),
        ({
            let c0 = *old(ctx);
            let c1 = *final(ctx);
            let d = r.0;
            let n0 = r.1;
            let n1 = r.2;
            let cwc = c0.cwc as int;
            let ou = chroma_orig(u@, cwc, mbx as int, mby as int);
            let ov = chroma_orig(v@, cwc, mbx as int, mby as int);
            let pu = intra::spec_predict_chroma(d.mode, n0);
            let pv = intra::spec_predict_chroma(d.mode, n1);
            let nu = chroma_nnzs(ou, pu, qp_c as int);
            let nv = chroma_nnzs(ov, pv, qp_c as int);
            let any_ac = nu[0] > 0 || nu[1] > 0 || nu[2] > 0 || nu[3] > 0 || nv[0] > 0 || nv[1] > 0 || nv[2] > 0 || nv[3] > 0;
            &&& chroma_neighbors_of(&c0, mbx as int, mby as int, 0, n0)
            &&& chroma_neighbors_of(&c0, mbx as int, mby as int, 1, n1)
            &&& d.mode == bestc_scan(ou, ov, n0, n1, 4).1
            &&& ints(d.dc[0]@) == chroma_dc_levels(chroma_dcs(ou, pu), qp_c as int)
            &&& ints(d.dc[1]@) == chroma_dc_levels(chroma_dcs(ov, pv), qp_c as int)
            &&& forall|b: int| 0 <= b < 4 ==> ints(#[trigger] d.ac[0][b]@) == ac_scan15(chroma_block_levels(ou, pu, b, qp_c as int))
            &&& forall|b: int| 0 <= b < 4 ==> ints(#[trigger] d.ac[1][b]@) == ac_scan15(chroma_block_levels(ov, pv, b, qp_c as int))
            &&& d.cbp == chroma_cbp(any_ac, ints(d.dc[0]@), ints(d.dc[1]@))
            &&& c1.ru@ == chroma_plane_after(c0.ru@, cwc, 8 * mbx, 8 * mby, chroma_recs(ou, pu, qp_c as int), 4)
            &&& c1.rv@ == chroma_plane_after(c0.rv@, cwc, 8 * mbx, 8 * mby, chroma_recs(ov, pv, qp_c as int), 4)
            &&& c1.nnz_c[0]@ == chroma_grid_after(c0.nnz_c[0]@, cwc, 8 * mbx, 8 * mby, nu, 4)
            &&& c1.nnz_c[1]@ == chroma_grid_after(c0.nnz_c[1]@, cwc, 8 * mbx, 8 * mby, nv, 4)
            &&& c1.cw == c0.cw && c1.ch == c0.ch && c1.cwc == c0.cwc && c1.chc == c0.chc && c1.mbw == c0.mbw
            &&& c1.ry@ == c0.ry@ && c1.nnz_y@ == c0.nnz_y@ && c1.modes@ == c0.modes@ && c1.mb@ == c0.mb@
            &&& c1.prev_qp_delta_nonzero == c0.prev_qp_delta_nonzero
        }),
{
    let ghost c0 = *ctx;
    let n0 = chroma_neighbors_plane(ctx, mbx, mby, 0);
    let n1 = chroma_neighbors_plane(ctx, mbx, mby, 1);
    let cx = (mbx * 8) as u32;
    let cy = (mby * 8) as u32;
    proof {
        lemma_chroma_block_geometry(ctx, mbx as int, mby as int, 0);
        assert((cy + 7) * ctx.cwc + cx + 8 <= ctx.cwc * ctx.chc) by (nonlinear_arith)
            requires
                cx + 8 <= ctx.cwc,
                cy + 8 <= ctx.chc,
        ;
        assert(ctx.cwc * ctx.chc <= 0x8000 * 0x8000) by (nonlinear_arith)
            requires
                ctx.cwc <= 0x8000,
                ctx.chc <= 0x8000,
        ;
    }
    let ou = gather(u, ctx.cwc, cx, cy, 8);
    let ov = gather(v, ctx.cwc, cx, cy, 8);
    proof {
        assert(block_ok(ou@));
        assert(block_ok(ov@));
    }
    let mode = chroma_mode_scan(&ou, &ov, &n0, &n1);
    let (dc0, ac0, any0) = code_chroma_plane(ctx, u, mbx, mby, 0, mode, &n0, qp_c);
    proof {
        lemma_chroma_neighbors_keep(&c0, ctx, mbx as int, mby as int, 1, n1);
    }
    let ghost cmid = *ctx;
    let (dc1, ac1, any1) = code_chroma_plane(ctx, v, mbx, mby, 1, mode, &n1, qp_c);
    let mut cbp: u32 = 0;
    if any0 {
        cbp = 2;
    } else if count_nonzero(&dc0, 4) > 0 && cbp < 1 {
        cbp = 1;
    }
    if any1 {
        cbp = 2;
    } else if count_nonzero(&dc1, 4) > 0 && cbp < 1 {
        cbp = 1;
    }
    proof {
        lemma_any_nonzero_count(ints(dc0@), 4);
        lemma_any_nonzero_count(ints(dc1@), 4);
    }
    let d = ChromaData { mode, dc: [dc0, dc1], ac: [ac0, ac1], cbp };
    (d, n0, n1)
}

/// A count of non-zero entries is positive exactly when one is non-zero.
proof fn lemma_any_nonzero_count(s: Seq<int>, m: int)
    requires
        0 <= m <= s.len(),
    ensures
        (nonzero_count(s, m) > 0) == (exists|i: int| 0 <= i < m && #[trigger] s[i] != 0),
        nonzero_count(s, m) >= 0,
    decreases m,
{
    if m > 0 {
        lemma_any_nonzero_count(s, m - 1);
        if s[m - 1] != 0 {
            assert(0 <= m - 1 < m && s[m - 1] != 0);
        } else {
            assert forall|i: int| 0 <= i < m && #[trigger] s[i] != 0 implies 0 <= i < m - 1 by {}
        }
    }
}

} // verus!
