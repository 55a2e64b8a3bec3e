//! One intra macroblock of the compressing encoder as CAVLC writes it: the
//! header (`mb_type`, prediction modes, `coded_block_pattern`,
//! `mb_qp_delta`) and the residual blocks the pattern says are coded
//! (§7.3.5).

use crate::bitstream::{bits_of, bits_value, lemma_bits_value_of, se_bits, ue_bits, BitWriter};
use crate::codec::h264::cavlc::{block_bits, block_fits, encode_block, BlockKind};
use crate::codec::h264::compress::{
    blk_origin,
    chroma_nc,
    ctx_ok,
    luma_nc,
    mpm,
    spec_chroma_nc,
    spec_luma_nc,
    spec_mpm,
    Ctx,
    BLK_POS,
    CBP_INTRA_CODE,
};
use vstd::prelude::*;

verus! {

/// `mb_type` of an `I_NxN` macroblock (Table 7-11).
pub const MB_TYPE_I_NXN: u32 = 0;

/// The quantizer multiplier at position `(0, 0)` for each `qp % 6`.
pub const MF0: [i32; 6] = [13107, 11916, 10082, 9362, 8192, 7282];

/// The quantizer multiplier for position (0,0) — the only one a DC block
/// needs.
pub fn quant_mf0(m: usize) -> (r: i32)
    requires
        m < 6,
    ensures
        r == MF0[m as int],
{
    MF0[m]
}

/// Sixteen 4×4 luma blocks, each with its own prediction mode.
pub struct NxNLuma {
    /// Prediction mode per block, in coding order.
    pub modes: [u8; 16],
    /// Zig-zag scanned levels per 4×4 block, in coding order.
    pub levels: [[i32; 16]; 16],
    /// One bit per 8×8 quadrant with any non-zero level.
    pub cbp_luma: u32,
}

/// One 16×16 luma prediction, with a Hadamard-coded DC block.
pub struct I16Luma {
    pub pred_mode: u8,
    /// Zig-zag scanned Hadamard DC levels (`Intra16x16DCLevel`), always coded.
    pub dc: [i32; 16],
    /// The 15 AC levels of each 4×4 block, in coding order.
    pub ac: [[i32; 15]; 16],
    /// 0 or 15 — `I_16x16` codes every 8×8 or none of them.
    pub cbp_luma: u32,
}

/// How the luma of a macroblock is coded.
pub enum LumaCoding {
    NxN(NxNLuma),
    I16(I16Luma),
}

/// The chroma of a macroblock, shared by either luma shape.
pub struct ChromaData {
    pub mode: u8,
    /// Quantized 2×2 chroma DC per plane, in the raster order the block uses.
    pub dc: [[i32; 4]; 2],
    /// 15 AC levels per 4×4 chroma block, per plane.
    pub ac: [[[i32; 15]; 4]; 2],
    /// `0` nothing coded, `1` DC only, `2` DC and AC.
    pub cbp: u32,
}

// ---------------------------------------------------------------- mb_qp_delta

/// Whether a macroblock carries `mb_qp_delta` (§7.3.5): always for
/// `I_16x16`, and for `I_NxN` only when some residual is coded.
pub open spec fn spec_sends_qp_delta(luma: LumaCoding, chroma: ChromaData) -> bool {
    match luma {
        LumaCoding::I16(_) => true,
        LumaCoding::NxN(l) => l.cbp_luma != 0 || chroma.cbp != 0,
    }
}

/// Whether this macroblock carries `mb_qp_delta` (§7.3.5).
pub fn sends_qp_delta(luma: &LumaCoding, chroma: &ChromaData) -> (b: bool)
    ensures
        b == spec_sends_qp_delta(*luma, *chroma),
{
    match luma {
        LumaCoding::I16(_) => true,
        LumaCoding::NxN(l) => l.cbp_luma != 0 || chroma.cbp != 0,
    }
}

/// The combined `I_NxN` pattern, luma in the low four bits and chroma above.
pub open spec fn nxn_cbp(cbp_luma: u32, cbp_chroma: u32) -> u32 {
    cbp_luma | (cbp_chroma << 4u32)
}

/// An `I_NxN` macroblock writes `mb_qp_delta` exactly when
/// [`sends_qp_delta`] says it carries one: its combined pattern is non-zero
/// just when either half is.
pub proof fn lemma_qp_delta_sent_as_announced(cbp_luma: u32, cbp_chroma: u32)
    requires
        cbp_luma < 16,
        cbp_chroma < 3,
    ensures
        (nxn_cbp(cbp_luma, cbp_chroma) > 0) == (cbp_luma != 0 || cbp_chroma != 0),
        nxn_cbp(cbp_luma, cbp_chroma) < 48,
{
    assert((cbp_luma | (cbp_chroma << 4u32)) > 0 <==> (cbp_luma != 0 || cbp_chroma != 0)) by (bit_vector)
        requires
            cbp_luma < 16,
            cbp_chroma < 3,
    ;
    assert((cbp_luma | (cbp_chroma << 4u32)) < 48) by (bit_vector)
        requires
            cbp_luma < 16,
            cbp_chroma < 3,
    ;
}

// ---------------------------------------------------------------- header

/// Luma sample column of 4×4 block `blk` of macroblock column `mbx`.
pub open spec fn blk_px(mbx: int, blk: int) -> int {
    mbx * 16 + 4 * BLK_POS[blk].0
}

/// Luma sample row of 4×4 block `blk` of macroblock row `mby`.
pub open spec fn blk_py(mby: int, blk: int) -> int {
    mby * 16 + 4 * BLK_POS[blk].1
}

/// One block's mode against its most probable mode: a set flag when they
/// agree, else a clear flag and the remaining mode in three bits, the
/// most probable one skipped.
pub open spec fn mode_bits(mode: u8, pred: u8) -> Seq<bool> {
    if mode == pred {
        seq![true]
    } else {
        seq![false] + bits_of(
            (if mode > pred {
                mode - 1
            } else {
                mode as int
            }) as nat,
            3,
        )
    }
}

/// The mode bits of the first `k` 4×4 blocks.
pub open spec fn modes_bits(c: &Ctx, modes: Seq<u8>, mbx: int, mby: int, k: int) -> Seq<bool>
    decreases k,
{
    if k <= 0 {
        Seq::empty()
    } else {
        modes_bits(c, modes, mbx, mby, k - 1) + mode_bits(
            modes[k - 1],
            spec_mpm(c, blk_px(mbx, k - 1), blk_py(mby, k - 1)),
        )
    }
}

/// `mb_type` of an `I_16x16` macroblock: it carries the prediction mode and
/// both halves of the coded block pattern (Table 7-11).
pub open spec fn i16_mb_type(l: I16Luma, chroma: ChromaData) -> int {
    1 + l.pred_mode + 4 * chroma.cbp + 12 * (if l.cbp_luma != 0 {
        1int
    } else {
        0
    })
}

/// A decoder gets each 4×4 prediction mode back from its bits (§8.3.1.1):
/// a set `prev_intra4x4_pred_mode_flag` means the predicted mode; otherwise
/// the three-bit `rem_intra4x4_pred_mode` is the mode when below the
/// prediction and one less than it otherwise.
pub proof fn lemma_mode_bits_decode(mode: u8, pred: u8)
    requires
        mode < 9,
        pred < 9,
    ensures
        ({
            let b = mode_bits(mode, pred);
            let rem = bits_value(b.subrange(1, 4));
            &&& b.len() == (if mode == pred {
                1nat
            } else {
                4nat
            })
            &&& b[0] ==> mode == pred
            &&& !b[0] ==> mode == (if rem < pred {
                rem
            } else {
                rem + 1
            })
        }),
{
    if mode != pred {
        let r = (if mode > pred {
            mode - 1
        } else {
            mode as int
        }) as nat;
        lemma_bits_value_of(r, 3);
        vstd::arithmetic::power2::lemma2_to64();
        let b = mode_bits(mode, pred);
        assert(b.subrange(1, 4) =~= bits_of(r, 3));
        assert(r < 8);
    }
}

/// A decoder gets the `I_16x16` macroblock's choices back from its
/// `mb_type` (Table 7-11): the prediction mode, the chroma pattern and
/// whether any luma AC is coded.
pub proof fn lemma_i16_mb_type_decodes(l: I16Luma, chroma: ChromaData)
    requires
        l.pred_mode < 4,
        chroma.cbp < 3,
    ensures
        1 <= i16_mb_type(l, chroma) <= 24,
        (i16_mb_type(l, chroma) - 1) % 4 == l.pred_mode,
        ((i16_mb_type(l, chroma) - 1) / 4) % 3 == chroma.cbp,
        (i16_mb_type(l, chroma) - 1) / 12 == (if l.cbp_luma != 0 {
            1int
        } else {
            0
        }),
{
}

/// The macroblock header (§7.3.5, §7.3.5.1).
pub open spec fn header_bits(c: &Ctx, luma: LumaCoding, chroma: ChromaData, mbx: int, mby: int, qp_delta: i32) -> Seq<bool> {
    match luma {
        LumaCoding::NxN(l) => {
            let cbp = nxn_cbp(l.cbp_luma, chroma.cbp);
            ue_bits(MB_TYPE_I_NXN as nat) + modes_bits(c, l.modes@, mbx, mby, 16) + ue_bits(chroma.mode as nat)
                + ue_bits(CBP_INTRA_CODE[cbp as int] as nat) + if cbp > 0 {
                se_bits(qp_delta as int)
            } else {
                Seq::empty()
            }
        },
        LumaCoding::I16(l) => ue_bits(i16_mb_type(l, chroma) as nat) + ue_bits(chroma.mode as nat) + se_bits(
            qp_delta as int,
        ),
    }
}

// ---------------------------------------------------------------- residual

/// Whether 8×8 quadrant `q` of an `I_NxN` pattern is coded.
pub open spec fn quadrant_coded(cbp_luma: u32, q: int) -> bool {
    cbp_luma & (1u32 << (q as u32)) != 0
}

/// The luma residual of an `I_NxN` macroblock over its first `k` blocks:
/// each block of a coded quadrant, with its neighbours' `nC`.
pub open spec fn nxn_residual_bits(c: &Ctx, l: NxNLuma, mbx: int, mby: int, k: int) -> Seq<bool>
    decreases k,
{
    if k <= 0 {
        Seq::empty()
    } else {
        let blk = k - 1;
        nxn_residual_bits(c, l, mbx, mby, k - 1) + if quadrant_coded(l.cbp_luma, blk / 4) {
            block_bits(l.levels[blk]@, BlockKind::Luma4x4, spec_luma_nc(c, blk_px(mbx, blk), blk_py(mby, blk)) as int)
        } else {
            Seq::empty()
        }
    }
}

/// The AC blocks of an `I_16x16` macroblock over its first `k` blocks.
pub open spec fn i16_ac_bits(c: &Ctx, l: I16Luma, mbx: int, mby: int, k: int) -> Seq<bool>
    decreases k,
{
    if k <= 0 {
        Seq::empty()
    } else {
        let blk = k - 1;
        i16_ac_bits(c, l, mbx, mby, k - 1) + block_bits(
            l.ac[blk]@,
            BlockKind::Luma16x16Ac,
            spec_luma_nc(c, blk_px(mbx, blk), blk_py(mby, blk)) as int,
        )
    }
}

/// The luma residual (§7.3.5.3).
pub open spec fn luma_residual_bits(c: &Ctx, luma: LumaCoding, mbx: int, mby: int) -> Seq<bool> {
    match luma {
        LumaCoding::NxN(l) => nxn_residual_bits(c, l, mbx, mby, 16),
        LumaCoding::I16(l) => block_bits(
            l.dc@,
            BlockKind::Luma16x16Dc,
            spec_luma_nc(c, blk_px(mbx, 0), blk_py(mby, 0)) as int,
        ) + if l.cbp_luma != 0 {
            i16_ac_bits(c, l, mbx, mby, 16)
        } else {
            Seq::empty()
        },
    }
}

/// Column of chroma AC block `b` of macroblock column `mbx`.
pub open spec fn chroma_cx(mbx: int, b: int) -> int {
    mbx * 8 + (b % 2) * 4
}

/// Row of chroma AC block `b` of macroblock row `mby`.
pub open spec fn chroma_cy(mby: int, b: int) -> int {
    mby * 8 + (b / 2) * 4
}

/// The chroma AC blocks over the first `k` of the eight, plane by plane.
pub open spec fn chroma_ac_bits(c: &Ctx, chroma: ChromaData, mbx: int, mby: int, k: int) -> Seq<bool>
    decreases k,
{
    if k <= 0 {
        Seq::empty()
    } else {
        let plane = (k - 1) / 4;
        let b = (k - 1) % 4;
        chroma_ac_bits(c, chroma, mbx, mby, k - 1) + block_bits(
            chroma.ac[plane][b]@,
            BlockKind::ChromaAc,
            spec_chroma_nc(c, plane, chroma_cx(mbx, b), chroma_cy(mby, b)) as int,
        )
    }
}

/// The chroma residual: both DC blocks when any chroma is coded, then all
/// eight AC blocks when AC is.
pub open spec fn chroma_residual_bits(c: &Ctx, chroma: ChromaData, mbx: int, mby: int) -> Seq<bool> {
    (if chroma.cbp & 3 != 0 {
        block_bits(chroma.dc[0]@, BlockKind::ChromaDc, -1) + block_bits(chroma.dc[1]@, BlockKind::ChromaDc, -1)
    } else {
        Seq::empty()
    }) + if chroma.cbp & 2 != 0 {
        chroma_ac_bits(c, chroma, mbx, mby, 8)
    } else {
        Seq::empty()
    }
}

/// Everything one macroblock writes.
pub open spec fn macroblock_bits(c: &Ctx, luma: LumaCoding, chroma: ChromaData, mbx: int, mby: int, qp_delta: i32) -> Seq<bool> {
    header_bits(c, luma, chroma, mbx, mby, qp_delta) + luma_residual_bits(c, luma, mbx, mby) + chroma_residual_bits(
        c,
        chroma,
        mbx,
        mby,
    )
}

/// Every block the macroblock codes can be coded: its levels fit CAVLC's
/// escapes.
pub open spec fn coded_blocks_fit(luma: LumaCoding, chroma: ChromaData) -> bool {
    &&& match luma {
        LumaCoding::NxN(l) => forall|blk: int|
            0 <= blk < 16 && quadrant_coded(l.cbp_luma, blk / 4) ==> #[trigger] block_fits(l.levels[blk]@),
        LumaCoding::I16(l) => {
            &&& block_fits(l.dc@)
            &&& l.cbp_luma != 0 ==> forall|blk: int| 0 <= blk < 16 ==> #[trigger] block_fits(l.ac[blk]@)
        },
    }
    &&& chroma.cbp & 3 != 0 ==> block_fits(chroma.dc[0]@) && block_fits(chroma.dc[1]@)
    &&& chroma.cbp & 2 != 0 ==> forall|plane: int, b: int|
        0 <= plane < 2 && 0 <= b < 4 ==> #[trigger] block_fits(chroma.ac[plane][b]@)
}

/// The macroblock at `(mbx, mby)` lies in the picture `ctx` describes.
pub open spec fn mb_in_picture(c: &Ctx, mbx: int, mby: int) -> bool {
    &&& ctx_ok(c)
    &&& 0 <= mbx < c.mbw
    &&& 0 <= mby < c.ch / 16
}

/// Where block `blk` sits: inside the picture, on the 4×4 grid.
proof fn lemma_blk_geometry(c: &Ctx, mbx: int, mby: int, blk: int)
    requires
        mb_in_picture(c, mbx, mby),
        0 <= blk < 16,
    ensures
        0 <= blk_px(mbx, blk) < c.cw,
        0 <= blk_py(mby, blk) < c.ch,
        blk_px(mbx, blk) % 4 == 0,
        blk_py(mby, blk) % 4 == 0,
        mbx * 16 + 12 <= u32::MAX,
        mby * 16 + 12 <= u32::MAX,
{
    crate::codec::h264::compress::lemma_block_positions_are_a_permutation();
    assert(BLK_POS[blk].0 < 4 && BLK_POS[blk].1 < 4);
}

/// Write the sixteen 4×4 prediction modes, each against its most probable
/// mode.
#[verifier::spinoff_prover]
fn write_modes(w: &mut BitWriter, ctx: &Ctx, modes: &[u8; 16], mbx: usize, mby: usize)
    requires
        mb_in_picture(ctx, mbx as int, mby as int),
    ensures
        final(w)@ == old(w)@ + modes_bits(ctx, modes@, mbx as int, mby as int, 16),
{
    let ghost start = w@;
    let mut blk: usize = 0;
    while blk < 16
        invariant
            mb_in_picture(ctx, mbx as int, mby as int),
            blk <= 16,
            w@ == start + modes_bits(ctx, modes@, mbx as int, mby as int, blk as int),
        decreases 16 - blk,
    {
        proof {
            lemma_blk_geometry(ctx, mbx as int, mby as int, blk as int);
        }
        let (px, py) = blk_origin(mbx, mby, blk);
        let pred = mpm(ctx, px, py);
        let mode = modes[blk];
        let ghost before = w@;
        if mode == pred {
            w.write_bit(1);
            proof {
                assert(seq![1u32 % 2 == 1] =~= seq![true]);
            }
        } else {
            w.write_bit(0);
            let rem: u8 = if mode > pred {
                mode - 1
            } else {
                mode
            };
            w.write_bits(rem as u64, 3);
        }
        proof {
            assert(w@ =~= before + mode_bits(mode, pred));
            assert(w@ =~= start + modes_bits(ctx, modes@, mbx as int, mby as int, blk + 1));
        }
        blk = blk + 1;
    }
}

/// Write the luma residual of an `I_NxN` macroblock.
#[verifier::spinoff_prover]
fn write_nxn_residual(w: &mut BitWriter, ctx: &Ctx, l: &NxNLuma, mbx: usize, mby: usize)
    requires
        mb_in_picture(ctx, mbx as int, mby as int),
        forall|blk: int| 0 <= blk < 16 && quadrant_coded(l.cbp_luma, blk / 4) ==> #[trigger] block_fits(l.levels[blk]@),
    ensures
        final(w)@ == old(w)@ + nxn_residual_bits(ctx, *l, mbx as int, mby as int, 16),
{
    let ghost start = w@;
    let mut blk: usize = 0;
    while blk < 16
        invariant
            mb_in_picture(ctx, mbx as int, mby as int),
            forall|blk: int| 0 <= blk < 16 && quadrant_coded(l.cbp_luma, blk / 4) ==> #[trigger] block_fits(l.levels[blk]@),
            blk <= 16,
            w@ == start + nxn_residual_bits(ctx, *l, mbx as int, mby as int, blk as int),
        decreases 16 - blk,
    {
        let q: u32 = (blk / 4) as u32;
        let ghost before = w@;
        if l.cbp_luma & (1u32 << q) != 0 {
            proof {
                lemma_blk_geometry(ctx, mbx as int, mby as int, blk as int);
                assert(quadrant_coded(l.cbp_luma, blk as int / 4));
                assert(block_fits(l.levels[blk as int]@));
            }
            let (px, py) = blk_origin(mbx, mby, blk);
            let nc = luma_nc(ctx, px, py);
            encode_block(w, &l.levels[blk], BlockKind::Luma4x4, nc);
        }
        proof {
            assert(w@ =~= start + nxn_residual_bits(ctx, *l, mbx as int, mby as int, blk + 1));
        }
        blk = blk + 1;
    }
}

/// Write the AC blocks of an `I_16x16` macroblock.
#[verifier::spinoff_prover]
fn write_i16_ac(w: &mut BitWriter, ctx: &Ctx, l: &I16Luma, mbx: usize, mby: usize)
    requires
        mb_in_picture(ctx, mbx as int, mby as int),
        forall|blk: int| 0 <= blk < 16 ==> #[trigger] block_fits(l.ac[blk]@),
    ensures
        final(w)@ == old(w)@ + i16_ac_bits(ctx, *l, mbx as int, mby as int, 16),
{
    let ghost start = w@;
    let mut blk: usize = 0;
    while blk < 16
        invariant
            mb_in_picture(ctx, mbx as int, mby as int),
            forall|blk: int| 0 <= blk < 16 ==> #[trigger] block_fits(l.ac[blk]@),
            blk <= 16,
            w@ == start + i16_ac_bits(ctx, *l, mbx as int, mby as int, blk as int),
        decreases 16 - blk,
    {
        proof {
            lemma_blk_geometry(ctx, mbx as int, mby as int, blk as int);
            assert(block_fits(l.ac[blk as int]@));
        }
        let (px, py) = blk_origin(mbx, mby, blk);
        let nc = luma_nc(ctx, px, py);
        encode_block(w, &l.ac[blk], BlockKind::Luma16x16Ac, nc);
        proof {
            assert(w@ =~= start + i16_ac_bits(ctx, *l, mbx as int, mby as int, blk + 1));
        }
        blk = blk + 1;
    }
}

/// Write the chroma AC blocks, plane by plane.
#[verifier::spinoff_prover]
#[verifier::rlimit(40)]
fn write_chroma_ac(w: &mut BitWriter, ctx: &Ctx, chroma: &ChromaData, mbx: usize, mby: usize)
    requires
        mb_in_picture(ctx, mbx as int, mby as int),
        forall|plane: int, b: int| 0 <= plane < 2 && 0 <= b < 4 ==> #[trigger] block_fits(chroma.ac[plane][b]@),
    ensures
        final(w)@ == old(w)@ + chroma_ac_bits(ctx, *chroma, mbx as int, mby as int, 8),
{
    let ghost start = w@;
    let mut k: usize = 0;
    while k < 8
        invariant
            mb_in_picture(ctx, mbx as int, mby as int),
            forall|plane: int, b: int| 0 <= plane < 2 && 0 <= b < 4 ==> #[trigger] block_fits(chroma.ac[plane][b]@),
            k <= 8,
            w@ == start + chroma_ac_bits(ctx, *chroma, mbx as int, mby as int, k as int),
        decreases 8 - k,
    {
        let plane = k / 4;
        let b = k % 4;
        let cx = (mbx * 8 + (b % 2) * 4) as u32;
        let cy = (mby * 8 + (b / 2) * 4) as u32;
        proof {
            assert(block_fits(chroma.ac[plane as int][b as int]@));
            assert(cx + 4 <= ctx.cwc);
            assert(cy + 4 <= ctx.chc);
        }
        let nc = chroma_nc(ctx, plane, cx, cy);
        encode_block(w, &chroma.ac[plane][b], BlockKind::ChromaAc, nc);
        proof {
            assert(w@ =~= start + chroma_ac_bits(ctx, *chroma, mbx as int, mby as int, k + 1));
        }
        k = k + 1;
    }
}

/// Write the macroblock header.
fn write_header(w: &mut BitWriter, ctx: &Ctx, luma: &LumaCoding, chroma: &ChromaData, mbx: usize, mby: usize, qp_delta: i32)
    requires
        mb_in_picture(ctx, mbx as int, mby as int),
        chroma.cbp < 3,
        luma matches LumaCoding::NxN(l) ==> l.cbp_luma < 16,
    ensures
        final(w)@ == old(w)@ + header_bits(ctx, *luma, *chroma, mbx as int, mby as int, qp_delta),
{
    let ghost start = w@;
    match luma {
        LumaCoding::NxN(l) => {
            w.write_ue(MB_TYPE_I_NXN);
            write_modes(w, ctx, &l.modes, mbx, mby);
            w.write_ue(chroma.mode as u32);
            let cbp = l.cbp_luma | (chroma.cbp << 4u32);
            proof {
                lemma_qp_delta_sent_as_announced(l.cbp_luma, chroma.cbp);
            }
            w.write_ue(CBP_INTRA_CODE[cbp as usize]);
            if cbp > 0 {
                w.write_se(qp_delta);
            }
        },
        LumaCoding::I16(l) => {
            let coded: u32 = if l.cbp_luma != 0 {
                1
            } else {
                0
            };
            let mb_type = 1 + l.pred_mode as u32 + 4 * chroma.cbp + 12 * coded;
            w.write_ue(mb_type);
            w.write_ue(chroma.mode as u32);
            w.write_se(qp_delta);
        },
    }
    proof {
        assert(w@ =~= start + header_bits(ctx, *luma, *chroma, mbx as int, mby as int, qp_delta));
    }
}

/// Write the luma residual.
fn write_luma_residual(w: &mut BitWriter, ctx: &Ctx, luma: &LumaCoding, chroma: &ChromaData, mbx: usize, mby: usize)
    requires
        mb_in_picture(ctx, mbx as int, mby as int),
        coded_blocks_fit(*luma, *chroma),
    ensures
        final(w)@ == old(w)@ + luma_residual_bits(ctx, *luma, mbx as int, mby as int),
{
    let ghost start = w@;
    match luma {
        LumaCoding::NxN(l) => {
            write_nxn_residual(w, ctx, l, mbx, mby);
        },
        LumaCoding::I16(l) => {
            proof {
                lemma_blk_geometry(ctx, mbx as int, mby as int, 0);
            }
            let (px0, py0) = blk_origin(mbx, mby, 0);
            let nc0 = luma_nc(ctx, px0, py0);
            encode_block(w, &l.dc, BlockKind::Luma16x16Dc, nc0);
            let ghost after_dc = w@;
            if l.cbp_luma != 0 {
                write_i16_ac(w, ctx, l, mbx, mby);
            }
            proof {
                assert(w@ =~= start + luma_residual_bits(ctx, *luma, mbx as int, mby as int));
            }
        },
    }
}

/// Write the chroma residual.
fn write_chroma_residual(w: &mut BitWriter, ctx: &Ctx, luma: &LumaCoding, chroma: &ChromaData, mbx: usize, mby: usize)
    requires
        mb_in_picture(ctx, mbx as int, mby as int),
        coded_blocks_fit(*luma, *chroma),
    ensures
        final(w)@ == old(w)@ + chroma_residual_bits(ctx, *chroma, mbx as int, mby as int),
{
    let ghost start = w@;
    if chroma.cbp & 3 != 0 {
        encode_block(w, &chroma.dc[0], BlockKind::ChromaDc, -1);
        encode_block(w, &chroma.dc[1], BlockKind::ChromaDc, -1);
    }
    let ghost after_dc = w@;
    if chroma.cbp & 2 != 0 {
        write_chroma_ac(w, ctx, chroma, mbx, mby);
    }
    proof {
        assert(w@ =~= start + chroma_residual_bits(ctx, *chroma, mbx as int, mby as int));
    }
}

/// Write one macroblock with CAVLC: its header, then the luma and chroma
/// residual blocks its coded block pattern announces.
pub fn write_macroblock(
    w: &mut BitWriter,
    ctx: &Ctx,
    luma: &LumaCoding,
    chroma: &ChromaData,
    mbx: usize,
    mby: usize,
    qp_delta: i32,
)
    requires
        mb_in_picture(ctx, mbx as int, mby as int),
        chroma.cbp < 3,
        luma matches LumaCoding::NxN(l) ==> l.cbp_luma < 16,
        coded_blocks_fit(*luma, *chroma),
    ensures
        final(w)@ == old(w)@ + macroblock_bits(ctx, *luma, *chroma, mbx as int, mby as int, qp_delta),
{
    let ghost start = w@;
    write_header(w, ctx, luma, chroma, mbx, mby, qp_delta);
    let ghost after_header = w@;
    write_luma_residual(w, ctx, luma, chroma, mbx, mby);
    let ghost after_luma = w@;
    write_chroma_residual(w, ctx, luma, chroma, mbx, mby);
    proof {
        assert(w@ =~= start + macroblock_bits(ctx, *luma, *chroma, mbx as int, mby as int, qp_delta));
    }
}

} // verus!
