//! Coding the `I_16x16` candidate of a macroblock: one prediction for all
//! 256 samples, the sixteen block DCs through a 4×4 Hadamard and their own
//! quantizer, and the AC of each block in place.

use crate::codec::h264::chroma::{ac_scan15, dc_quant, dc_small, lemma_dc_quant_bound, lemma_forward_dc_bound, quant_of, spec_dc_quant};
use crate::codec::h264::candidates::{blk_cell, grid_restored, same_but_luma, total, Candidate};
use crate::codec::h264::cavlc::ZIGZAG4;
use crate::codec::h264::compress::{
    best16_scan,
    best_luma16_mode,
    blk_origin,
    block_ok,
    ctx_ok,
    grid_index,
    lemma_hadamard4_bound,
    luma16_neighbors,
    luma16_neighbors_of,
    spec_blk_index,
    Ctx,
    BLK_POS,
};
use crate::codec::h264::intra::{self, Neighbors16};
use crate::codec::h264::macroblock::{blk_px, blk_py, mb_in_picture, I16Luma, LumaCoding};
use crate::codec::planes::{block_fits, gather, gathered, store, stored};
use crate::codec::h264::residual::{count_nonzero, dequantized4, lemma_inverse4_bound, lemma_levels_dequant_fit, nonzero_count, samples8, zigzag};
use crate::codec::h264::transform::{
    bounded,
    dequant4,
    fit_luma_dc_levels,
    forward4,
    inverse4,
    quant4,
    spec_forward4,
    spec_inverse4,
    spec_quant,
    ints,
    luma_dc_fits,
    luma_dc_hadamard,
    luma_dc_inverse,
    luma_fit_ok,
    max_abs,
    shrink,
    spec_fit_luma,
    spec_hadamard4,
    spec_level_scale,
    spec_luma_dc_inverse,
    spec_luma_dc_scale,
    within,
    MAX_DEQUANT,
};
use crate::num::{abs, clamp, clamp_i32, fits_i32, signum};
use vstd::arithmetic::power2::{lemma2_to64, lemma_pow2_pos, pow2};
use vstd::prelude::*;

verus! {

/// The luma DC levels of an `I_16x16` macroblock: the 4×4 Hadamard of its
/// sixteen block DCs (raster order), quantized two bits coarser than AC,
/// then moved toward zero while their reconstruction would overflow.
pub open spec fn luma_dc_levels(dcs: Seq<int>, qp: int) -> Seq<int> {
    let h = spec_hadamard4(dcs);
    spec_fit_luma(Seq::new(16, |k: int| spec_dc_quant(h[k], qp, 2)), qp, 64)
}

/// Moving every level one step toward zero keeps them small.
proof fn lemma_shrink_small16(x: Seq<int>, qp: int, k: int)
    requires
        dc_small(x, qp, k),
    ensures
        dc_small(shrink(x), qp, k),
        shrink(x).len() == x.len(),
{
    lemma_pow2_pos((qp / 6) as nat);
    let p = pow2((qp / 6) as nat) as int;
    assert forall|i: int| 0 <= i < shrink(x).len() implies #[trigger] abs(shrink(x)[i]) * p <= k by {
        assert(shrink(x)[i] == x[i] - signum(x[i]));
        assert(abs(x[i]) * p <= k);
        assert(abs(shrink(x)[i]) <= abs(x[i]));
        assert(abs(shrink(x)[i]) * p <= abs(x[i]) * p) by (nonlinear_arith)
            requires
                0 <= abs(shrink(x)[i]) <= abs(x[i]),
                p > 0,
        ;
    }
}

/// Small luma DC levels reconstruct within `i32` at every step, and within
/// sixty million.
proof fn lemma_small_luma_dc_fits(x: Seq<int>, qp: int)
    requires
        x.len() == 16,
        0 <= qp <= 51,
        dc_small(x, qp, 8000),
    ensures
        luma_dc_fits(x, qp),
        within(x, 0x400_0000),
        forall|i: int| 0 <= i < 16 ==> -60_000_000 <= #[trigger] spec_luma_dc_inverse(x, qp)[i] <= 60_000_000,
{
    let s = qp / 6;
    lemma_pow2_pos(s as nat);
    lemma2_to64();
    let p = pow2(s as nat) as int;
    assert(p <= 256) by {
        if s < 8 {
            vstd::arithmetic::power2::lemma_pow2_strictly_increases(s as nat, 8);
        }
    }
    let b = 8000int / p;
    assert(b * p <= 8000 && b >= 0) by (nonlinear_arith)
        requires
            p > 0,
            b == 8000int / p,
    ;
    assert forall|i: int| 0 <= i < 16 implies -b <= #[trigger] x[i] <= b by {
        assert(abs(x[i]) * p <= 8000);
        assert(abs(x[i]) <= b) by (nonlinear_arith)
            requires
                abs(x[i]) * p <= 8000,
                p > 0,
                b == 8000int / p,
                abs(x[i]) >= 0,
        ;
    }
    lemma_hadamard4_bound(x, b);
    let f = spec_hadamard4(x);
    let ls = spec_level_scale(qp % 6, 0, 0);
    assert forall|i: int| 0 <= i < 16 implies -0x400_0000 <= #[trigger] x[i] <= 0x400_0000 by {
        assert(-b <= x[i] <= b);
    }
    assert forall|k: int| 0 <= k < 16 implies {
        &&& fits_i32(#[trigger] spec_hadamard4(x)[k] * spec_level_scale(qp % 6, 0, 0))
        &&& fits_i32(spec_hadamard4(x)[k] * spec_level_scale(qp % 6, 0, 0) + 32)
        &&& fits_i32(spec_luma_dc_scale(spec_hadamard4(x)[k], qp))
    } by {
        lemma_luma_dc_entry(f[k], qp, b);
    }
    crate::codec::h264::transform::lemma_luma_dc_fits_of(x, qp);
    assert forall|i: int| 0 <= i < 16 implies -60_000_000 <= #[trigger] spec_luma_dc_inverse(x, qp)[i] <= 60_000_000 by {
        lemma_luma_dc_entry(f[i], qp, b);
    }
}

/// One reconstructed DC of a Hadamard coefficient within `16·b`, where
/// `b` scaled up by the QP's octave is at most 8000.
proof fn lemma_luma_dc_entry(v: int, qp: int, b: int)
    requires
        0 <= qp <= 51,
        b >= 0,
        b * pow2((qp / 6) as nat) <= 8000,
        -16 * b <= v <= 16 * b,
    ensures
        fits_i32(v * spec_level_scale(qp % 6, 0, 0)),
        fits_i32(v * spec_level_scale(qp % 6, 0, 0) + 32),
        fits_i32(spec_luma_dc_scale(v, qp)),
        -60_000_000 <= spec_luma_dc_scale(v, qp) <= 60_000_000,
{
    let s = qp / 6;
    lemma_pow2_pos(s as nat);
    lemma2_to64();
    let p = pow2(s as nat) as int;
    let ls = spec_level_scale(qp % 6, 0, 0);
    assert(160 <= ls <= 464) by {
        assert(0 <= qp % 6 < 6);
    }
    assert(16 * b <= 128000) by (nonlinear_arith)
        requires
            b * p <= 8000,
            p >= 1,
            b >= 0,
    ;
    assert(-128000 * 464 <= v * ls <= 128000 * 464) by (nonlinear_arith)
        requires
            -128000 <= v <= 128000,
            160 <= ls <= 464,
    ;
    if s >= 6 {
        let q = pow2((s - 6) as nat) as int;
        lemma_pow2_pos((s - 6) as nat);
        vstd::arithmetic::power2::lemma_pow2_adds((s - 6) as nat, 6);
        assert(p == q * 64);
        assert(-16 * 8000 <= v * p <= 16 * 8000) by (nonlinear_arith)
            requires
                -16 * b <= v <= 16 * b,
                b * p <= 8000,
                p > 0,
                b >= 0,
        ;
        assert(-2000 <= v * q <= 2000) by (nonlinear_arith)
            requires
                -16 * 8000 <= v * p <= 16 * 8000,
                p == q * 64,
                q > 0,
        ;
        assert(v * ls * q == (v * q) * ls) by (nonlinear_arith);
        assert(-2000 * 464 <= (v * q) * ls <= 2000 * 464) by (nonlinear_arith)
            requires
                -2000 <= v * q <= 2000,
                160 <= ls <= 464,
        ;
    } else {
        let d = pow2((6 - s) as nat) as int;
        let r = pow2((5 - s) as nat) as int;
        assert(d == 2 * r && r >= 1) by {
            vstd::arithmetic::power2::lemma_pow2_unfold((6 - s) as nat);
            lemma_pow2_pos((5 - s) as nat);
        }
        assert(r <= 32) by {
            if 5 - s < 5 {
                vstd::arithmetic::power2::lemma_pow2_strictly_increases((5 - s) as nat, 5);
            }
        }
        assert(-60_000_000 <= (v * ls + r) / d <= 60_000_000) by (nonlinear_arith)
            requires
                -128000 * 464 <= v * ls <= 128000 * 464,
                d == 2 * r,
                r >= 1,
                r <= 32,
        ;
    }
}

/// Small luma DC levels pass every fitting round.
proof fn lemma_small_luma_fit_ok(x: Seq<int>, qp: int, n: nat)
    requires
        x.len() == 16,
        0 <= qp <= 51,
        dc_small(x, qp, 8000),
    ensures
        luma_fit_ok(x, qp, n),
    decreases n,
{
    if n > 0 {
        lemma_small_luma_dc_fits(x, qp);
        lemma_shrink_small16(x, qp, 8000);
        lemma_small_luma_fit_ok(shrink(x), qp, (n - 1) as nat);
    }
}

/// Fitting small luma DC levels keeps them small.
proof fn lemma_fit_luma_small(x: Seq<int>, qp: int, n: nat)
    requires
        x.len() == 16,
        0 <= qp <= 51,
        dc_small(x, qp, 8000),
    ensures
        dc_small(spec_fit_luma(x, qp, n), qp, 8000),
        spec_fit_luma(x, qp, n).len() == 16,
    decreases n,
{
    if n > 0 && max_abs(spec_luma_dc_inverse(x, qp)) > MAX_DEQUANT {
        lemma_shrink_small16(x, qp, 8000);
        lemma_fit_luma_small(shrink(x), qp, (n - 1) as nat);
    }
}

/// Quantize the sixteen block DCs of an `I_16x16` macroblock and
/// reconstruct the DC each block starts from.
pub fn code_luma_dc(dcs: &[i32; 16], qp: i32) -> (r: ([i32; 16], [i32; 16]))
    requires
        0 <= qp <= 51,
        bounded(dcs@, 4080),
    ensures
        ints(r.0@) == luma_dc_levels(ints(dcs@), qp as int),
        ints(r.1@) == spec_luma_dc_inverse(ints(r.0@), qp as int),
        bounded(r.1@, 60_000_000),
{
    let h = luma_dc_hadamard(dcs);
    let ghost hs = spec_hadamard4(ints(dcs@));
    proof {
        assert forall|k: int| 0 <= k < 16 implies -4080 <= #[trigger] ints(dcs@)[k] <= 4080 by {
            assert(ints(dcs@)[k] == dcs@[k]);
        }
        lemma_hadamard4_bound(ints(dcs@), 4080);
        assert forall|k: int| 0 <= k < 16 implies -65280 <= #[trigger] h@[k] <= 65280 by {
            assert(h[k] == hs[k]);
        }
    }
    let mut levels = [0i32; 16];
    let mut k: usize = 0;
    while k < 16
        invariant
            0 <= qp <= 51,
            forall|i: int| 0 <= i < 16 ==> -65280 <= #[trigger] h@[i] <= 65280,
            forall|i: int| 0 <= i < 16 ==> h[i] == #[trigger] hs[i],
            k <= 16,
            forall|i: int| 0 <= i < k ==> #[trigger] levels@[i] as int == spec_dc_quant(hs[i], qp as int, 2),
            forall|i: int| 0 <= i < k ==> #[trigger] abs(levels@[i] as int) * pow2((qp / 6) as nat) <= 8000,
        decreases 16 - k,
    {
        let l = dc_quant(h[k], qp, 2);
        proof {
            assert(h[k as int] == hs[k as int]);
            lemma_dc_quant_bound(h@[k as int] as int, qp as int, 2, 65280);
            lemma_pow2_pos((qp / 6) as nat);
            let ps = pow2((qp / 6) as nat) as int;
            let pe = pow2(17) as int;
            lemma2_to64();
            assert(ps <= 256) by {
                if qp / 6 < 8 {
                    vstd::arithmetic::power2::lemma_pow2_strictly_increases((qp / 6) as nat, 8);
                }
            }
            assert(abs(l as int) * ps <= 8000) by (nonlinear_arith)
                requires
                    abs(l as int) * ps * pe <= 65280 * 13107 + ps * pe,
                    pe == 131072,
                    0 < ps <= 256,
            ;
        }
        levels[k] = l;
        k = k + 1;
    }
    let ghost q0 = ints(levels@);
    proof {
        assert(q0 =~= Seq::new(16, |i: int| spec_dc_quant(hs[i], qp as int, 2)));
        assert(dc_small(q0, qp as int, 8000)) by {
            assert forall|i: int| 0 <= i < q0.len() implies #[trigger] abs(q0[i]) * pow2((qp / 6) as nat) <= 8000 by {
                assert(q0[i] == levels@[i]);
            }
        }
        lemma_small_luma_fit_ok(q0, qp as int, 64);
        lemma_fit_luma_small(q0, qp as int, 64);
    }
    fit_luma_dc_levels(&mut levels, qp);
    proof {
        lemma_small_luma_dc_fits(ints(levels@), qp as int);
        assert forall|i: int| 0 <= i < 16 implies -0x400_0000 <= #[trigger] levels@[i] <= 0x400_0000 by {
            assert(ints(levels@)[i] == levels@[i]);
        }
    }
    let rec = luma_dc_inverse(&levels, qp);
    proof {
        assert forall|i: int| 0 <= i < 16 implies -60_000_000 <= #[trigger] rec@[i] <= 60_000_000 by {
            assert(rec[i] == spec_luma_dc_inverse(ints(levels@), qp as int)[i]);
        }
        assert(ints(rec@) =~= spec_luma_dc_inverse(ints(levels@), qp as int)) by {
            assert forall|i: int| 0 <= i < 16 implies #[trigger] ints(rec@)[i] == spec_luma_dc_inverse(ints(levels@), qp as int)[i] by {
                assert(rec[i] == spec_luma_dc_inverse(ints(levels@), qp as int)[i]);
            }
        }
    }
    (levels, rec)
}

// ---------------------------------------------------------------- the blocks

/// Entry `k` of 4×4 block `blk` (coding order) within the macroblock's
/// row-major 16×16 samples.
pub open spec fn mb_index(blk: int, k: int) -> int {
    (BLK_POS[blk].1 * 4 + k / 4) * 16 + BLK_POS[blk].0 * 4 + k % 4
}

/// The residual of block `blk` against the 16×16 prediction.
pub open spec fn i16_sub_residual(orig: Seq<i32>, pred: Seq<int>, blk: int) -> Seq<int> {
    Seq::new(16, |k: int| orig[mb_index(blk, k)] - pred[mb_index(blk, k)])
}

/// The transform coefficients of block `blk`.
pub open spec fn i16_coeffs(orig: Seq<i32>, pred: Seq<int>, blk: int) -> Seq<int> {
    spec_forward4(i16_sub_residual(orig, pred, blk))
}

/// The sixteen block DCs in raster order: entry `r` is the DC of the block
/// at column `r % 4`, row `r / 4`.
pub open spec fn i16_dcs(orig: Seq<i32>, pred: Seq<int>) -> Seq<int> {
    Seq::new(16, |r: int| i16_coeffs(orig, pred, spec_blk_index(r % 4, r / 4))[0])
}

/// The intra levels of block `blk`, raster order (the DC among them is not
/// coded: the Hadamard carries it).
pub open spec fn i16_levels(orig: Seq<i32>, pred: Seq<int>, blk: int, qp: int) -> Seq<int> {
    quant_of(i16_coeffs(orig, pred, blk), qp)
}

/// Raster position of block `blk`'s DC.
pub open spec fn dc_slot(blk: int) -> int {
    BLK_POS[blk].1 * 4 + BLK_POS[blk].0
}

/// What the decoder rebuilds of block `blk` from its AC `levels` and the
/// DC `dc_rec` the Hadamard inverse gives it, on top of `pred`.
pub open spec fn i16_block_rec(pred: Seq<int>, blk: int, levels: Seq<int>, dc_rec: int, qp: int) -> Seq<int> {
    let d = dequantized4(levels, qp).update(0, dc_rec);
    Seq::new(16, |k: int| clamp(pred[mb_index(blk, k)] + spec_inverse4(d)[k], 0, 255))
}

/// The reconstruction of each block.
#[verifier::opaque]
pub open spec fn i16_recs(orig: Seq<i32>, pred: Seq<int>, qp: int) -> Seq<Seq<int>> {
    let dr = spec_luma_dc_inverse(luma_dc_levels(i16_dcs(orig, pred), qp), qp);
    Seq::new(16, |blk: int| i16_block_rec(pred, blk, i16_levels(orig, pred, blk, qp), dr[dc_slot(blk)], qp))
}

/// How many AC levels of each block are non-zero.
#[verifier::opaque]
pub open spec fn i16_nnzs(orig: Seq<i32>, pred: Seq<int>, qp: int) -> Seq<usize> {
    Seq::new(16, |blk: int| nonzero_count(ac_scan15(i16_levels(orig, pred, blk, qp)), 15) as usize)
}

/// `Σ_k (orig[mb_index(blk, k)] − rec[k])²` over the first `m` entries.
pub open spec fn block_sq_err(orig: Seq<i32>, blk: int, rec: Seq<int>, m: int) -> int
    decreases m,
{
    if m <= 0 {
        0
    } else {
        block_sq_err(orig, blk, rec, m - 1) + (orig[mb_index(blk, m - 1)] - rec[m - 1]) * (orig[mb_index(blk, m - 1)]
            - rec[m - 1])
    }
}

/// The squared error each block's reconstruction leaves.
#[verifier::opaque]
pub open spec fn i16_ssds(orig: Seq<i32>, pred: Seq<int>, qp: int) -> Seq<int> {
    Seq::new(16, |blk: int| block_sq_err(orig, blk, i16_recs(orig, pred, qp)[blk], 16))
}

/// The luma plane after storing the first `k` blocks' reconstructions.
pub open spec fn i16_plane_after(p: Seq<u8>, cw: int, mbx: int, mby: int, recs: Seq<Seq<int>>, k: int) -> Seq<u8>
    decreases k,
{
    if k <= 0 {
        p
    } else {
        stored(
            i16_plane_after(p, cw, mbx, mby, recs, k - 1),
            cw,
            blk_px(mbx, k - 1),
            blk_py(mby, k - 1),
            4,
            recs[k - 1].map_values(|v: int| v as i32),
            16,
        )
    }
}

/// Block entries index the macroblock.
proof fn lemma_mb_index(blk: int, k: int)
    requires
        0 <= blk < 16,
        0 <= k < 16,
    ensures
        0 <= mb_index(blk, k) < 256,
        0 <= dc_slot(blk) < 16,
{
    crate::codec::h264::compress::lemma_block_positions_are_a_permutation();
    assert(BLK_POS[blk].0 < 4 && BLK_POS[blk].1 < 4);
}

/// The coefficients of block `blk` of an 8-bit original against an 8-bit
/// prediction.
fn i16_block_coeffs(orig: &[i32], pred: &[i32; 256], blk: usize) -> (c: [i32; 16])
    requires
        orig@.len() == 256,
        samples8(orig@),
        forall|k: int| 0 <= k < 256 ==> 0 <= #[trigger] pred@[k] <= 255,
        blk < 16,
    ensures
        ints(c@) == i16_coeffs(orig@, ints(pred@), blk as int),
        -4080 <= c@[0] <= 4080,
{
    proof {
        crate::codec::h264::compress::lemma_block_positions_are_a_permutation();
    }
    let (bx4, by4) = BLK_POS[blk];
    let mut r = [0i32; 16];
    let mut k: usize = 0;
    while k < 16
        invariant
            orig@.len() == 256,
            samples8(orig@),
            forall|k: int| 0 <= k < 256 ==> 0 <= #[trigger] pred@[k] <= 255,
            blk < 16,
            (bx4, by4) == BLK_POS[blk as int],
            bx4 < 4 && by4 < 4,
            k <= 16,
            forall|i: int| 0 <= i < k ==> #[trigger] r@[i] as int == i16_sub_residual(orig@, ints(pred@), blk as int)[i],
            forall|i: int| 0 <= i < 16 ==> -255 <= #[trigger] r@[i] <= 255,
        decreases 16 - k,
    {
        let idx = (by4 * 4 + k / 4) * 16 + bx4 * 4 + k % 4;
        proof {
            lemma_mb_index(blk as int, k as int);
            assert(idx == mb_index(blk as int, k as int));
            assert(0 <= orig@[idx as int] <= 255 && 0 <= pred@[idx as int] <= 255);
            assert(ints(pred@)[idx as int] == pred@[idx as int]);
        }
        r[k] = orig[idx] - pred[idx];
        k = k + 1;
    }
    proof {
        assert(ints(r@) =~= i16_sub_residual(orig@, ints(pred@), blk as int));
        assert forall|i: int| 0 <= i < 16 implies -255 <= #[trigger] ints(r@)[i] <= 255 by {}
        lemma_forward_dc_bound(ints(r@), 255);
    }
    forward4(&r)
}

/// Quantize, scan and reconstruct block `blk` from its coefficients and
/// the DC the Hadamard inverse gives it, and measure its squared error.
fn i16_block_code(
    c: &[i32; 16],
    dc_rec: i32,
    pred: &[i32; 256],
    orig: &[i32],
    blk: usize,
    qp: i32,
) -> (r: ([i32; 15], usize, [i32; 16], u64))
    requires
        forall|k: int| 0 <= k < 256 ==> 0 <= #[trigger] pred@[k] <= 255,
        orig@.len() == 256,
        samples8(orig@),
        blk < 16,
        0 <= qp <= 51,
        -60_000_000 <= dc_rec <= 60_000_000,
    ensures
        ints(r.0@) == ac_scan15(quant_of(ints(c@), qp as int)),
        r.1 == nonzero_count(ints(r.0@), 15),
        r.1 <= 15,
        ints(r.2@) == i16_block_rec(ints(pred@), blk as int, quant_of(ints(c@), qp as int), dc_rec as int, qp as int),
        forall|k: int| 0 <= k < 16 ==> 0 <= #[trigger] r.2@[k] <= 255,
        r.3 == block_sq_err(orig@, blk as int, ints(r.2@), 16),
        r.3 <= 16 * 65025,
{
    proof {
        crate::codec::h264::compress::lemma_block_positions_are_a_permutation();
    }
    let (bx4, by4) = BLK_POS[blk];
    let q = quant4(c, qp, true);
    let ghost lv = quant_of(ints(c@), qp as int);
    proof {
        assert(ints(q@) =~= lv);
        assert forall|k: int| 0 <= k < 16 implies #[trigger] q@[k] as int == spec_quant(ints(c@)[k], qp as int, k / 4, k % 4, true) by {
            assert(ints(q@)[k] == lv[k]);
        }
        lemma_levels_dequant_fit(ints(c@), qp as int, q@);
    }
    let mut deq = dequant4(&q, qp);
    deq[0] = dc_rec;
    let ghost d = dequantized4(lv, qp as int).update(0, dc_rec as int);
    proof {
        assert forall|k: int| 0 <= k < 16 implies -60_000_000 <= #[trigger] d[k] <= 60_000_000 by {
            if k != 0 {
                assert(lv[k] == q@[k]);
            }
        }
        assert(ints(deq@) =~= d) by {
            assert forall|k: int| 0 <= k < 16 implies #[trigger] ints(deq@)[k] == d[k] by {
                if k != 0 {
                    assert(lv[k] == q@[k]);
                }
            }
        }
        lemma_inverse4_bound(d, 60_000_000);
        assert forall|k: int| 0 <= k < 16 implies -0x800_0000 <= #[trigger] deq@[k] <= 0x800_0000 by {
            assert(ints(deq@)[k] == d[k]);
        }
    }
    let res = inverse4(&deq);
    let mut rec = [0i32; 16];
    let mut ssd: u64 = 0;
    let mut k: usize = 0;
    while k < 16
        invariant
            forall|j: int| 0 <= j < 256 ==> 0 <= #[trigger] pred@[j] <= 255,
            orig@.len() == 256,
            samples8(orig@),
            blk < 16,
            (bx4, by4) == BLK_POS[blk as int],
            bx4 < 4 && by4 < 4,
            forall|j: int| 0 <= j < 16 ==> res[j] == #[trigger] spec_inverse4(d)[j],
            forall|j: int| 0 <= j < 16 ==> -60_000_000 <= #[trigger] spec_inverse4(d)[j] <= 60_000_000,
            k <= 16,
            forall|j: int|
                0 <= j < k ==> #[trigger] rec@[j] as int == clamp(
                    ints(pred@)[mb_index(blk as int, j)] + spec_inverse4(d)[j],
                    0,
                    255,
                ),
            forall|j: int| 0 <= j < k ==> 0 <= #[trigger] rec@[j] <= 255,
            ssd == block_sq_err(orig@, blk as int, ints(rec@), k as int),
            ssd <= k * 65025,
        decreases 16 - k,
    {
        let idx = (by4 * 4 + k / 4) * 16 + bx4 * 4 + k % 4;
        proof {
            lemma_mb_index(blk as int, k as int);
            assert(idx == mb_index(blk as int, k as int));
            assert(0 <= pred@[idx as int] <= 255 && 0 <= orig@[idx as int] <= 255);
            assert(res[k as int] == spec_inverse4(d)[k as int]);
            assert(ints(pred@)[idx as int] == pred@[idx as int]);
        }
        let v = clamp_i32(pred[idx] + res[k], 0, 255);
        let ghost before = ints(rec@);
        rec[k] = v;
        let e = orig[idx] - v;
        proof {
            assert(0 <= e * e <= 65025) by (nonlinear_arith)
                requires
                    -255 <= e <= 255,
            ;
            lemma_block_sq_err_prefix(orig@, blk as int, before, ints(rec@), k as int);
        }
        ssd = ssd + (e * e) as u64;
        k = k + 1;
    }
    proof {
        assert(ints(rec@) =~= i16_block_rec(ints(pred@), blk as int, lv, dc_rec as int, qp as int));
    }
    let mut scan = [0i32; 15];
    let mut s: usize = 1;
    while s < 16
        invariant
            1 <= s <= 16,
            ints(q@) == lv,
            forall|j: int| 0 <= j < s - 1 ==> #[trigger] scan@[j] as int == ac_scan15(lv)[j],
        decreases 16 - s,
    {
        proof {
            crate::codec::h264::residual::lemma_zigzag_in_range();
        }
        scan[s - 1] = q[ZIGZAG4[s]];
        proof {
            assert(ints(q@)[ZIGZAG4[s as int] as int] == q@[ZIGZAG4[s as int] as int]);
        }
        s = s + 1;
    }
    proof {
        assert(ints(scan@) =~= ac_scan15(lv));
    }
    let nnz = count_nonzero(&scan, 15);
    (scan, nnz, rec, ssd)
}

/// The squared error over a prefix reads only that prefix.
proof fn lemma_block_sq_err_prefix(orig: Seq<i32>, blk: int, a: Seq<int>, b: Seq<int>, m: int)
    requires
        forall|j: int| 0 <= j < m ==> a[j] == b[j],
    ensures
        block_sq_err(orig, blk, a, m) == block_sq_err(orig, blk, b, m),
    decreases m,
{
    if m > 0 {
        lemma_block_sq_err_prefix(orig, blk, a, b, m - 1);
    }
}

/// Code block `blk` of an `I_16x16` macroblock, store its reconstruction
/// and record its AC count, with no 4×4 mode.
fn i16_block_step(
    ctx: &mut Ctx,
    mbx: usize,
    mby: usize,
    blk: usize,
    c: &[i32; 16],
    dc_rec: i32,
    pred: &[i32; 256],
    orig: &[i32],
    qp: i32,
) -> (r: ([i32; 15], usize, u64))
    requires
        mb_in_picture(old(ctx), mbx as int, mby as int),
        forall|k: int| 0 <= k < 256 ==> 0 <= #[trigger] pred@[k] <= 255,
        orig@.len() == 256,
        samples8(orig@),
        blk < 16,
        0 <= qp <= 51,
        -60_000_000 <= dc_rec <= 60_000_000,
    ensures
        mb_in_picture(final(ctx), mbx as int, mby as int),
        same_but_luma(*old(ctx), *final(ctx)),
        ({
            let lv = quant_of(ints(c@), qp as int);
            let rec = i16_block_rec(ints(pred@), blk as int, lv, dc_rec as int, qp as int);
            let cell = blk_cell(old(ctx).cw as int, mbx as int, mby as int, blk as int);
            &&& ints(r.0@) == ac_scan15(lv)
            &&& r.1 == nonzero_count(ints(r.0@), 15)
            &&& r.2 == block_sq_err(orig@, blk as int, rec, 16)
            &&& final(ctx).ry@ == stored(
                old(ctx).ry@,
                old(ctx).cw as int,
                blk_px(mbx as int, blk as int),
                blk_py(mby as int, blk as int),
                4,
                rec.map_values(|v: int| v as i32),
                16,
            )
            &&& final(ctx).nnz_y@ == old(ctx).nnz_y@.update(cell, r.1)
            &&& final(ctx).modes@ == old(ctx).modes@.update(cell, None)
        }),
        r.2 <= 16 * 65025,
{
    let ghost c0 = *ctx;
    proof {
        crate::codec::h264::compress::lemma_block_positions_are_a_permutation();
        assert(BLK_POS[blk as int].0 < 4 && BLK_POS[blk as int].1 < 4);
    }
    let (px, py) = blk_origin(mbx, mby, blk);
    proof {
        assert(px + 4 <= ctx.cw && py + 4 <= ctx.ch);
        assert((py + 3) * ctx.cw + px + 4 <= ctx.cw * ctx.ch) by (nonlinear_arith)
            requires
                px + 4 <= ctx.cw,
                py + 4 <= ctx.ch,
        ;
        assert(ctx.cw * ctx.ch <= 0x10000 * 0x10000) by (nonlinear_arith)
            requires
                ctx.cw <= 0x10000,
                ctx.ch <= 0x10000,
        ;
        assert(block_fits(ctx.ry@.len() as int, ctx.cw as int, px as int, py as int, 4));
        crate::codec::h264::compress::lemma_grid_cell(ctx.cw as int, ctx.ch as int, px as int, py as int);
    }
    let (scan, nnz, rec, ssd) = i16_block_code(c, dc_rec, pred, orig, blk, qp);
    let ghost recs = i16_block_rec(ints(pred@), blk as int, quant_of(ints(c@), qp as int), dc_rec as int, qp as int);
    proof {
        assert(rec@ =~= recs.map_values(|v: int| v as i32)) by {
            assert forall|k: int| 0 <= k < 16 implies rec@[k] == recs.map_values(|v: int| v as i32)[k] by {
                assert(ints(rec@)[k] == rec@[k]);
            }
        }
    }
    let cw = ctx.cw;
    store(ctx.ry.as_mut_slice(), cw, px, py, 4, &rec);
    let gi = grid_index(cw, px, py);
    ctx.nnz_y.set(gi, nnz);
    ctx.modes.set(gi, None);
    proof {
        crate::codec::planes::lemma_stored_len(c0.ry@, cw as int, px as int, py as int, 4, rec@, 16);
    }
    (scan, nnz, ssd)
}

/// The `I_16x16` coded block pattern: all four quadrants when any block
/// has an AC level, else none.
pub open spec fn i16_cbp(nnz: Seq<usize>) -> u32 {
    if exists|b: int| 0 <= b < 16 && #[trigger] nnz[b] > 0 {
        15
    } else {
        0
    }
}

/// The coefficients of all sixteen blocks, and their DCs in raster order.
#[verifier::spinoff_prover]
fn i16_transform_blocks(orig: &[i32], pred: &[i32; 256]) -> (r: ([[i32; 16]; 16], [i32; 16]))
    requires
        orig@.len() == 256,
        samples8(orig@),
        forall|k: int| 0 <= k < 256 ==> 0 <= #[trigger] pred@[k] <= 255,
    ensures
        forall|j: int| 0 <= j < 16 ==> ints(#[trigger] r.0[j]@) == i16_coeffs(orig@, ints(pred@), j),
        forall|j: int| 0 <= j < 16 ==> -4080 <= #[trigger] r.0[j]@[0] <= 4080,
        ints(r.1@) == i16_dcs(orig@, ints(pred@)),
        bounded(r.1@, 4080),
{
    let mut coeffs = [[0i32; 16]; 16];
    let mut blk: usize = 0;
    while blk < 16
        invariant
            orig@.len() == 256,
            samples8(orig@),
            forall|k: int| 0 <= k < 256 ==> 0 <= #[trigger] pred@[k] <= 255,
            blk <= 16,
            forall|j: int| 0 <= j < blk ==> ints(#[trigger] coeffs[j]@) == i16_coeffs(orig@, ints(pred@), j),
            forall|j: int| 0 <= j < blk ==> -4080 <= #[trigger] coeffs[j]@[0] <= 4080,
        decreases 16 - blk,
    {
        let c = i16_block_coeffs(orig, pred, blk);
        let ghost before = coeffs;
        coeffs[blk] = c;
        proof {
            assert forall|j: int| 0 <= j < blk implies coeffs[j] == before[j] by {}
        }
        blk = blk + 1;
    }
    let mut dc = [0i32; 16];
    let mut r: usize = 0;
    while r < 16
        invariant
            forall|j: int| 0 <= j < 16 ==> ints(#[trigger] coeffs[j]@) == i16_coeffs(orig@, ints(pred@), j),
            forall|j: int| 0 <= j < 16 ==> -4080 <= #[trigger] coeffs[j]@[0] <= 4080,
            r <= 16,
            forall|i: int| 0 <= i < r ==> #[trigger] dc@[i] as int == i16_dcs(orig@, ints(pred@))[i],
            forall|i: int| 0 <= i < 16 ==> -4080 <= #[trigger] dc@[i] <= 4080,
        decreases 16 - r,
    {
        let b = crate::codec::h264::compress::blk_index(r % 4, r / 4);
        dc[r] = coeffs[b][0];
        proof {
            assert(ints(coeffs[b as int]@)[0] == coeffs[b as int]@[0]);
        }
        r = r + 1;
    }
    proof {
        assert(ints(dc@) =~= i16_dcs(orig@, ints(pred@)));
    }
    (coeffs, dc)
}

/// Sixteen levels in zig-zag order.
fn zigzag16(levels: &[i32; 16]) -> (z: [i32; 16])
    ensures
        ints(z@) == zigzag(ints(levels@)),
{
    let mut z = [0i32; 16];
    let mut s: usize = 0;
    while s < 16
        invariant
            s <= 16,
            forall|j: int| 0 <= j < s ==> #[trigger] z@[j] as int == zigzag(ints(levels@))[j],
        decreases 16 - s,
    {
        proof {
            crate::codec::h264::residual::lemma_zigzag_in_range();
        }
        z[s] = levels[ZIGZAG4[s]];
        proof {
            assert(ints(levels@)[ZIGZAG4[s as int] as int] == levels@[ZIGZAG4[s as int] as int]);
        }
        s = s + 1;
    }
    proof {
        assert(ints(z@) =~= zigzag(ints(levels@)));
    }
    z
}

/// What block `blk` of the macroblock contributes, stated over the
/// block's own coefficients `c` and reconstructed DC `dc`.
proof fn lemma_i16_block_facts(o: Seq<i32>, p: Seq<int>, qp: int, blk: int, c: Seq<int>, dc: int)
    requires
        0 <= blk < 16,
        c == i16_coeffs(o, p, blk),
        dc == spec_luma_dc_inverse(luma_dc_levels(i16_dcs(o, p), qp), qp)[dc_slot(blk)],
    ensures
        i16_recs(o, p, qp)[blk] == i16_block_rec(p, blk, quant_of(c, qp), dc, qp),
        i16_nnzs(o, p, qp)[blk] == nonzero_count(ac_scan15(quant_of(c, qp)), 15) as usize,
        i16_ssds(o, p, qp)[blk] == block_sq_err(o, blk, i16_block_rec(p, blk, quant_of(c, qp), dc, qp), 16),
        i16_levels(o, p, blk, qp) == quant_of(c, qp),
{
    reveal(i16_recs);
    reveal(i16_nnzs);
    reveal(i16_ssds);
}

/// Code block `blk` of the macroblock on top of the first `blk` blocks,
/// which the grids and the plane of `ctx` already hold.
#[verifier::spinoff_prover]
fn i16_code_one(
    ctx: &mut Ctx,
    mbx: usize,
    mby: usize,
    blk: usize,
    c: &[i32; 16],
    dc: i32,
    pred: &[i32; 256],
    orig: &[i32],
    qp: i32,
    Ghost(c0): Ghost<Ctx>,
) -> (r: ([i32; 15], usize, u64))
    requires
        mb_in_picture(old(ctx), mbx as int, mby as int),
        same_but_luma(c0, *old(ctx)),
        forall|k: int| 0 <= k < 256 ==> 0 <= #[trigger] pred@[k] <= 255,
        orig@.len() == 256,
        samples8(orig@),
        blk < 16,
        0 <= qp <= 51,
        -60_000_000 <= dc <= 60_000_000,
        ints(c@) == i16_coeffs(orig@, ints(pred@), blk as int),
        dc == spec_luma_dc_inverse(luma_dc_levels(i16_dcs(orig@, ints(pred@)), qp as int), qp as int)[dc_slot(
            blk as int,
        )],
        old(ctx).ry@ == i16_plane_after(
            c0.ry@,
            c0.cw as int,
            mbx as int,
            mby as int,
            i16_recs(orig@, ints(pred@), qp as int),
            blk as int,
        ),
        old(ctx).nnz_y@ == grid_restored(
            c0.nnz_y@,
            c0.cw as int,
            mbx as int,
            mby as int,
            i16_nnzs(orig@, ints(pred@), qp as int),
            blk as int,
        ),
        old(ctx).modes@ == grid_restored(
            c0.modes@,
            c0.cw as int,
            mbx as int,
            mby as int,
            Seq::new(16, |b: int| None::<u8>),
            blk as int,
        ),
    ensures
        mb_in_picture(final(ctx), mbx as int, mby as int),
        same_but_luma(c0, *final(ctx)),
        ints(r.0@) == ac_scan15(i16_levels(orig@, ints(pred@), blk as int, qp as int)),
        r.1 == i16_nnzs(orig@, ints(pred@), qp as int)[blk as int],
        r.2 == i16_ssds(orig@, ints(pred@), qp as int)[blk as int],
        r.2 <= 16 * 65025,
        final(ctx).ry@ == i16_plane_after(
            c0.ry@,
            c0.cw as int,
            mbx as int,
            mby as int,
            i16_recs(orig@, ints(pred@), qp as int),
            blk + 1,
        ),
        final(ctx).nnz_y@ == grid_restored(
            c0.nnz_y@,
            c0.cw as int,
            mbx as int,
            mby as int,
            i16_nnzs(orig@, ints(pred@), qp as int),
            blk + 1,
        ),
        final(ctx).modes@ == grid_restored(
            c0.modes@,
            c0.cw as int,
            mbx as int,
            mby as int,
            Seq::new(16, |b: int| None::<u8>),
            blk + 1,
        ),
{
    proof {
        lemma_i16_block_facts(orig@, ints(pred@), qp as int, blk as int, ints(c@), dc as int);
    }
    let r = i16_block_step(ctx, mbx, mby, blk, c, dc, pred, orig, qp);
    r
}

/// Code, store and record all sixteen blocks of an `I_16x16` macroblock:
/// their AC levels in zig-zag order, whether any is non-zero, and the
/// total squared error.
#[verifier::spinoff_prover]
#[verifier::rlimit(100)]
fn i16_code_blocks(
    ctx: &mut Ctx,
    mbx: usize,
    mby: usize,
    coeffs: &[[i32; 16]; 16],
    dc_rec: &[i32; 16],
    pred: &[i32; 256],
    orig: &[i32],
    qp: i32,
) -> (r: ([[i32; 15]; 16], bool, u64))
    requires
        mb_in_picture(old(ctx), mbx as int, mby as int),
        forall|k: int| 0 <= k < 256 ==> 0 <= #[trigger] pred@[k] <= 255,
        orig@.len() == 256,
        samples8(orig@),
        0 <= qp <= 51,
        bounded(dc_rec@, 60_000_000),
        forall|j: int| 0 <= j < 16 ==> ints(#[trigger] coeffs[j]@) == i16_coeffs(orig@, ints(pred@), j),
        ints(dc_rec@) == spec_luma_dc_inverse(luma_dc_levels(i16_dcs(orig@, ints(pred@)), qp as int), qp as int),
    ensures
        mb_in_picture(final(ctx), mbx as int, mby as int),
        same_but_luma(*old(ctx), *final(ctx)),
        ({
            let o = orig@;
            let p = ints(pred@);
            let nnzs = i16_nnzs(o, p, qp as int);
            &&& forall|b: int| 0 <= b < 16 ==> ints(#[trigger] r.0[b]@) == ac_scan15(i16_levels(o, p, b, qp as int))
            &&& r.1 == (exists|b: int| 0 <= b < 16 && #[trigger] nnzs[b] > 0)
            &&& r.2 == total(i16_ssds(o, p, qp as int), 16)
            &&& final(ctx).ry@ == i16_plane_after(
                old(ctx).ry@,
                old(ctx).cw as int,
                mbx as int,
                mby as int,
                i16_recs(o, p, qp as int),
                16,
            )
            &&& final(ctx).nnz_y@ == grid_restored(old(ctx).nnz_y@, old(ctx).cw as int, mbx as int, mby as int, nnzs, 16)
            &&& final(ctx).modes@ == grid_restored(
                old(ctx).modes@,
                old(ctx).cw as int,
                mbx as int,
                mby as int,
                Seq::new(16, |b: int| None::<u8>),
                16,
            )
        }),
{
    let ghost c0 = *ctx;
    let ghost o = orig@;
    let ghost p = ints(pred@);
    let ghost recs = i16_recs(o, p, qp as int);
    let ghost nnzs = i16_nnzs(o, p, qp as int);
    let ghost ssds = i16_ssds(o, p, qp as int);
    let ghost nones = Seq::new(16, |b: int| None::<u8>);
    let mut ac = [[0i32; 15]; 16];
    let mut ssd: u64 = 0;
    let mut any = false;
    let mut blk: usize = 0;
    while blk < 16
        invariant
            mb_in_picture(ctx, mbx as int, mby as int),
            same_but_luma(c0, *ctx),
            forall|k: int| 0 <= k < 256 ==> 0 <= #[trigger] pred@[k] <= 255,
            orig@.len() == 256,
            samples8(orig@),
            o == orig@,
            p == ints(pred@),
            0 <= qp <= 51,
            bounded(dc_rec@, 60_000_000),
            forall|j: int| 0 <= j < 16 ==> ints(#[trigger] coeffs[j]@) == i16_coeffs(o, p, j),
            ints(dc_rec@) == spec_luma_dc_inverse(luma_dc_levels(i16_dcs(o, p), qp as int), qp as int),
            recs == i16_recs(o, p, qp as int),
            nnzs == i16_nnzs(o, p, qp as int),
            ssds == i16_ssds(o, p, qp as int),
            nones == Seq::new(16, |b: int| None::<u8>),
            blk <= 16,
            forall|j: int| 0 <= j < blk ==> ints(#[trigger] ac[j]@) == ac_scan15(i16_levels(o, p, j, qp as int)),
            any == (exists|j: int| 0 <= j < blk && #[trigger] nnzs[j] > 0),
            ssd == total(ssds, blk as int),
            ssd <= blk * 16 * 65025,
            ctx.ry@ == i16_plane_after(c0.ry@, c0.cw as int, mbx as int, mby as int, recs, blk as int),
            ctx.nnz_y@ == grid_restored(c0.nnz_y@, c0.cw as int, mbx as int, mby as int, nnzs, blk as int),
            ctx.modes@ == grid_restored(c0.modes@, c0.cw as int, mbx as int, mby as int, nones, blk as int),
        decreases 16 - blk,
    {
        proof {
            lemma_mb_index(blk as int, 0);
        }
        let (bx4, by4) = BLK_POS[blk];
        let slot = by4 * 4 + bx4;
        proof {
            assert(slot == dc_slot(blk as int));
            assert(-60_000_000 <= dc_rec@[slot as int] <= 60_000_000);
            assert(ints(dc_rec@)[slot as int] == dc_rec@[slot as int]);
            assert(ints(coeffs[blk as int]@) == i16_coeffs(o, p, blk as int));
        }
        let ghost acs0 = ac;
        let ghost any0 = any;
        let (scan, nnz, bs) = i16_code_one(ctx, mbx, mby, blk, &coeffs[blk], dc_rec[slot], pred, orig, qp, Ghost(c0));
        ac[blk] = scan;
        if nnz > 0 {
            any = true;
        }
        ssd = ssd + bs;
        proof {
            assert forall|j: int| 0 <= j < blk + 1 implies ints(#[trigger] ac[j]@) == ac_scan15(
                i16_levels(o, p, j, qp as int),
            ) by {
                if j < blk {
                    assert(ac[j] == acs0[j]);
                }
            }
            assert(nnzs[blk as int] == nnz);
            assert(any == (exists|j: int| 0 <= j < blk + 1 && #[trigger] nnzs[j] > 0)) by {
                if nnz > 0 {
                    assert(nnzs[blk as int] > 0);
                } else {
                    assert(any == any0);
                    assert forall|j: int| 0 <= j < blk + 1 && #[trigger] nnzs[j] > 0 implies j < blk by {}
                }
            }
        }
        blk = blk + 1;
    }
    (ac, any, ssd)
}

/// The samples of the macroblock at `(mbx, mby)`, the neighbourhood it is
/// predicted from, the prediction SATD picks and its 256 samples.
#[verifier::spinoff_prover]
fn i16_predict(ctx: &Ctx, y: &[u8], mbx: usize, mby: usize) -> (r: (Vec<i32>, Neighbors16, u8, [i32; 256]))
    requires
        mb_in_picture(ctx, mbx as int, mby as int),
        y@.len() == ctx.cw * ctx.ch,
    ensures
        r.0@ == gathered(y@, ctx.cw as int, 16 * mbx, 16 * mby, 16),
        r.0@.len() == 256,
        samples8(r.0@),
        luma16_neighbors_of(ctx, mbx as int, mby as int, r.1),
        r.2 == best16_scan(r.0@, r.1, 4).1,
        ints(r.3@) == intra::spec_predict16(r.2, r.1),
        forall|k: int| 0 <= k < 256 ==> 0 <= #[trigger] r.3@[k] <= 255,
{
    let n = luma16_neighbors(ctx, mbx, mby);
    let ox = (mbx * 16) as u32;
    let oy = (mby * 16) as u32;
    proof {
        assert(ox + 16 <= ctx.cw && oy + 16 <= ctx.ch);
        assert((oy + 15) * ctx.cw + ox + 16 <= ctx.cw * ctx.ch) by (nonlinear_arith)
            requires
                ox + 16 <= ctx.cw,
                oy + 16 <= ctx.ch,
        ;
        assert(ctx.cw * ctx.ch <= 0x10000 * 0x10000) by (nonlinear_arith)
            requires
                ctx.cw <= 0x10000,
                ctx.ch <= 0x10000,
        ;
    }
    let orig = gather(y, ctx.cw, ox, oy, 16);
    proof {
        assert(samples8(orig@));
        assert(block_ok(orig@));
    }
    let pred_mode = best_luma16_mode(&orig, &n);
    let pred = intra::predict16(pred_mode, &n);
    let ghost p = intra::spec_predict16(pred_mode, n);
    proof {
        crate::codec::h264::compress::lemma_luma16_neighbors_8bit(ctx, mbx as int, mby as int, n);
        intra::lemma_predict16_8bit(pred_mode, n);
        assert forall|k: int| 0 <= k < 256 implies 0 <= #[trigger] pred@[k] <= 255 by {
            assert(pred[k] == p[k]);
        }
        assert(ints(pred@) =~= p);
    }
    (orig, n, pred_mode, pred)
}

/// Build the `I_16x16` candidate of the macroblock at `(mbx, mby)`: one
/// prediction for all 256 samples chosen by SATD, the block DCs through the
/// Hadamard and their own quantizer, the AC of each block in place, each
/// block reconstructed into `ctx` with no 4×4 mode. Returns the
/// neighbourhood the prediction came from too.
#[verifier::spinoff_prover]
#[verifier::rlimit(100)]
pub fn build_i16(ctx: &mut Ctx, y: &[u8], mbx: usize, mby: usize, qp: i32) -> (r: (Candidate, Neighbors16))
    requires
        mb_in_picture(old(ctx), mbx as int, mby as int),
        y@.len() == old(ctx).cw * old(ctx).ch,
        0 <= qp <= 51,
    ensures
        mb_in_picture(final(ctx), mbx as int, mby as int),
        same_but_luma(*old(ctx), *final(ctx)),
        r.0.coding is I16,
        ({
            let c0 = *old(ctx);
            let c1 = *final(ctx);
            let n = r.1;
            let l = r.0.coding->I16_0;
            let orig = gathered(y@, c0.cw as int, 16 * mbx, 16 * mby, 16);
            let pred = intra::spec_predict16(l.pred_mode, n);
            let nnz = i16_nnzs(orig, pred, qp as int);
            &&& luma16_neighbors_of(&c0, mbx as int, mby as int, n)
            &&& l.pred_mode == best16_scan(orig, n, 4).1
            &&& ints(l.dc@) == zigzag(luma_dc_levels(i16_dcs(orig, pred), qp as int))
            &&& forall|b: int| 0 <= b < 16 ==> ints(#[trigger] l.ac[b]@) == ac_scan15(i16_levels(orig, pred, b, qp as int))
            &&& l.cbp_luma == i16_cbp(nnz)
            &&& r.0.ssd == total(i16_ssds(orig, pred, qp as int), 16)
            &&& c1.ry@ == i16_plane_after(c0.ry@, c0.cw as int, mbx as int, mby as int, i16_recs(orig, pred, qp as int), 16)
            &&& c1.nnz_y@ == grid_restored(c0.nnz_y@, c0.cw as int, mbx as int, mby as int, nnz, 16)
            &&& c1.modes@ == grid_restored(
                c0.modes@,
                c0.cw as int,
                mbx as int,
                mby as int,
                Seq::new(16, |b: int| None::<u8>),
                16,
            )
        }),
{
    let (orig, n, pred_mode, pred) = i16_predict(ctx, y, mbx, mby);
    let (coeffs, dc) = i16_transform_blocks(&orig, &pred);
    let (dc_levels, dc_rec) = code_luma_dc(&dc, qp);
    let zdc = zigzag16(&dc_levels);
    let (ac, any, ssd) = i16_code_blocks(ctx, mbx, mby, &coeffs, &dc_rec, &pred, &orig, qp);
    let l = I16Luma {
        pred_mode,
        dc: zdc,
        ac,
        cbp_luma: if any {
            15
        } else {
            0
        },
    };
    (Candidate { coding: LumaCoding::I16(l), ssd }, n)
}

} // verus!
