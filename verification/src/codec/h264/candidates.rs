//! Building the luma candidates of a macroblock: every block predicted,
//! transformed, quantized and reconstructed into the picture state as it
//! goes, because each block predicts from the ones before it.

use crate::codec::h264::compress::{
    best4_scan,
    best_luma_mode,
    blk_origin,
    block_ok,
    ctx_ok,
    grid_index,
    luma_neighbors,
    luma_neighbors_of,
    spec_grid_index,
    Ctx,
    BLK_POS,
};
use crate::codec::h264::intra::{self, Neighbors4, SAMPLE_BOUND};
use crate::codec::h264::macroblock::{blk_px, blk_py, mb_in_picture, LumaCoding, NxNLuma};
use crate::codec::h264::residual::{
    code_block4,
    nonzero_count,
    quantized4,
    reconstructed4,
    residual4,
    samples8,
    scan4,
    sq_err,
    zigzag,
};
use crate::codec::h264::transform::{bounded, ints};
use crate::codec::planes::{
    block_fits,
    crop,
    cropped,
    gather,
    gathered,
    lemma_paste_of_crop_is_identity,
    paste,
    pasted,
    rect_fits,
    store,
    stored,
};
use vstd::prelude::*;

verus! {

/// The picture state's geometry and every table but the luma ones agree.
pub open spec fn same_but_luma(c0: Ctx, c1: Ctx) -> bool {
    &&& c1.cw == c0.cw
    &&& c1.ch == c0.ch
    &&& c1.cwc == c0.cwc
    &&& c1.chc == c0.chc
    &&& c1.mbw == c0.mbw
    &&& c1.ru@ == c0.ru@
    &&& c1.rv@ == c0.rv@
    &&& c1.nnz_c[0]@ == c0.nnz_c[0]@
    &&& c1.nnz_c[1]@ == c0.nnz_c[1]@
    &&& c1.mb@ == c0.mb@
    &&& c1.prev_qp_delta_nonzero == c0.prev_qp_delta_nonzero
}

/// The results of coding 4×4 block `blk` of the macroblock at
/// `(mbx, mby)` in `I_NxN` from source plane `y` against state `c0`, and
/// the state `c1` it leaves: the mode the SAD search picks among those the
/// neighbourhood `n` allows, the levels of the residual against that
/// mode's prediction in zig-zag order and how many are non-zero, the
/// squared error of the reconstruction, which is stored into the luma
/// plane, and the block's count and mode recorded on the 4×4 grid.
#[verifier::opaque]
pub open spec fn nxn_block_done(
    c0: Ctx,
    c1: Ctx,
    y: Seq<u8>,
    mbx: int,
    mby: int,
    blk: int,
    qp: int,
    n: Neighbors4,
    mode: u8,
    scan: Seq<int>,
    nnz: int,
    ssd: int,
) -> bool {
    let px = blk_px(mbx, blk);
    let py = blk_py(mby, blk);
    let orig = gathered(y, c0.cw as int, px, py, 4);
    let pred = intra::spec_predict4(mode, n);
    let levels = quantized4(residual4(orig, pred), qp);
    let rec = reconstructed4(pred, levels, qp);
    let gi = spec_grid_index(c0.cw as int, px, py);
    &&& luma_neighbors_of(&c0, px, py, n)
    &&& mode == best4_scan(orig, n, 9).1
    &&& scan == zigzag(levels)
    &&& nnz == nonzero_count(scan, 16)
    &&& ssd == sq_err(orig, rec, 16)
    &&& c1.ry@ == stored(c0.ry@, c0.cw as int, px, py, 4, rec.map_values(|v: int| v as i32), 16)
    &&& c1.nnz_y@ == c0.nnz_y@.update(gi, nnz as usize)
    &&& c1.modes@ == c0.modes@.update(gi, Some(mode))
    &&& same_but_luma(c0, c1)
}

/// A block gathered from an 8-bit plane holds 8-bit samples.
proof fn lemma_gathered_samples(plane: Seq<u8>, w: int, x: int, y: int, n: int)
    ensures
        samples8(gathered(plane, w, x, y, n)),
        block_ok(gathered(plane, w, x, y, n)),
{
}

/// The decision and coding of the 4×4 block at `(px, py)` against the
/// state `c`: its neighbourhood, mode, levels (raster order),
/// reconstruction and squared error.
#[verifier::opaque]
pub open spec fn block4_coded(
    c: &Ctx,
    y: Seq<u8>,
    px: int,
    py: int,
    qp: int,
    n: Neighbors4,
    mode: u8,
    levels: Seq<int>,
    rec: Seq<int>,
    ssd: int,
) -> bool {
    let orig = gathered(y, c.cw as int, px, py, 4);
    let pred = intra::spec_predict4(mode, n);
    &&& luma_neighbors_of(c, px, py, n)
    &&& mode == best4_scan(orig, n, 9).1
    &&& levels == quantized4(residual4(orig, pred), qp)
    &&& rec == reconstructed4(pred, levels, qp)
    &&& ssd == sq_err(orig, rec, 16)
}

/// Decide and code the 4×4 block at `(px, py)` without touching the state.
#[verifier::spinoff_prover]
#[verifier::rlimit(80)]
fn decide_block4(ctx: &Ctx, y: &[u8], px: u32, py: u32, qp: i32) -> (r: (u8, [i32; 16], [i32; 16], u64, Neighbors4))
    requires
        ctx_ok(ctx),
        px + 4 <= ctx.cw,
        py + 4 <= ctx.ch,
        y@.len() == ctx.cw * ctx.ch,
        0 <= qp <= 51,
    ensures
        block4_coded(ctx, y@, px as int, py as int, qp as int, r.4, r.0, ints(r.1@), ints(r.2@), r.3 as int),
        forall|k: int| 0 <= k < 16 ==> 0 <= #[trigger] r.2@[k] <= 255,
        r.3 <= 16 * 65025,
{
    proof {
        assert((py + 3) * ctx.cw + px + 4 <= ctx.cw * ctx.ch) by (nonlinear_arith)
            requires
                px + 4 <= ctx.cw,
                py + 4 <= ctx.ch,
        ;
        assert(ctx.cw * ctx.ch <= 0x10000 * 0x10000) by (nonlinear_arith)
            requires
                ctx.cw <= 0x10000,
                ctx.ch <= 0x10000,
        ;
        assert(block_fits(y@.len() as int, ctx.cw as int, px as int, py as int, 4));
    }
    let n = luma_neighbors(ctx, px, py);
    let orig = gather(y, ctx.cw, px, py, 4);
    proof {
        lemma_gathered_samples(y@, ctx.cw as int, px as int, py as int, 4);
    }
    let mode = best_luma_mode(&orig, &n);
    let pred = intra::predict4(mode, &n);
    proof {
        intra::lemma_predict4_in_range(mode, n);
        assert forall|k: int| 0 <= k < 16 implies -SAMPLE_BOUND <= #[trigger] pred@[k] <= SAMPLE_BOUND by {
            assert(pred[k] == intra::spec_predict4(mode, n)[k]);
        }
        assert(ints(pred@) =~= intra::spec_predict4(mode, n));
    }
    let (levels, rec, ssd) = code_block4(&orig, &pred, qp);
    proof {
        assert forall|k: int| 0 <= k < 16 implies 0 <= #[trigger] rec@[k] <= 255 by {
            assert(ints(rec@)[k] == rec@[k]);
        }
        assert(block4_coded(ctx, y@, px as int, py as int, qp as int, n, mode, ints(levels@), ints(rec@), ssd as int)) by {
            reveal(block4_coded);
        }
    }
    (mode, levels, rec, ssd, n)
}

/// Code 4×4 block `blk` of the macroblock at `(mbx, mby)` in `I_NxN`: pick
/// its mode, code its residual, store the reconstruction and record its
/// coefficient count and mode.
#[verifier::spinoff_prover]
#[verifier::rlimit(80)]
pub fn nxn_block(ctx: &mut Ctx, y: &[u8], mbx: usize, mby: usize, blk: usize, qp: i32) -> (r: (u8, [i32; 16], usize, u64, Neighbors4))
    requires
        mb_in_picture(old(ctx), mbx as int, mby as int),
        blk < 16,
        y@.len() == old(ctx).cw * old(ctx).ch,
        0 <= qp <= 51,
    ensures
        ctx_ok(final(ctx)),
        same_but_luma(*old(ctx), *final(ctx)),
        nxn_block_done(
                *old(ctx),
                *final(ctx),
                y@,
                mbx as int,
                mby as int,
                blk as int,
                qp as int,
                r.4,
                r.0,
                ints(r.1@),
                r.2 as int,
                r.3 as int,
            ),
        r.2 <= 16,
        r.3 <= 16 * 65025,
{
    proof {
        crate::codec::h264::compress::lemma_block_positions_are_a_permutation();
    }
    let (px, py) = blk_origin(mbx, mby, blk);
    let ghost c0 = *ctx;
    proof {
        assert(px + 4 <= ctx.cw && py + 4 <= ctx.ch);
        assert((py + 3) * ctx.cw + px + 4 <= ctx.cw * ctx.ch) by (nonlinear_arith)
            requires
                px + 4 <= ctx.cw,
                py + 4 <= ctx.ch,
        ;
        assert(ctx.cw * ctx.ch <= 0x10000 * 0x10000) by (nonlinear_arith)
            requires
                ctx.cw <= 0x10000,
                ctx.ch <= 0x10000,
        ;
        assert(block_fits(ctx.ry@.len() as int, ctx.cw as int, px as int, py as int, 4));
        crate::codec::h264::compress::lemma_grid_cell(ctx.cw as int, ctx.ch as int, px as int, py as int);
    }
    let (mode, levels, rec, ssd, n) = decide_block4(ctx, y, px, py, qp);
    proof {
        reveal(block4_coded);
    }
    let cw = ctx.cw;
    store(ctx.ry.as_mut_slice(), cw, px, py, 4, &rec);
    let (scan, nnz) = scan4(&levels);
    let gi = grid_index(ctx.cw, px, py);
    ctx.nnz_y.set(gi, nnz);
    ctx.modes.set(gi, Some(mode));
    proof {
        reveal(nxn_block_done);
        crate::codec::planes::lemma_stored_len(c0.ry@, c0.cw as int, px as int, py as int, 4, rec@, 16);
        let recs = reconstructed4(
            intra::spec_predict4(mode, n),
            quantized4(residual4(gathered(y@, c0.cw as int, px as int, py as int, 4), intra::spec_predict4(mode, n)), qp as int),
            qp as int,
        );
        assert(rec@ =~= recs.map_values(|v: int| v as i32)) by {
            assert forall|k: int| 0 <= k < 16 implies rec@[k] == recs.map_values(|v: int| v as i32)[k] by {
                assert(ints(rec@)[k] == recs[k]);
            }
        }
        assert(nxn_block_done(
            c0,
            *ctx,
            y@,
            mbx as int,
            mby as int,
            blk as int,
            qp as int,
            n,
            mode,
            ints(scan@),
            nnz as int,
            ssd as int,
        ));
    }
    (mode, scan, nnz, ssd, n)
}

/// A luma candidate and the squared error its reconstruction leaves.
pub struct Candidate {
    pub coding: LumaCoding,
    pub ssd: u64,
}

/// The `I_NxN` coded block pattern after the first `k` blocks: a quadrant's
/// bit is set once any of its blocks has a non-zero level.
pub open spec fn nxn_cbp_after(nnz: Seq<int>, k: int) -> u32
    decreases k,
{
    if k <= 0 {
        0
    } else {
        let prev = nxn_cbp_after(nnz, k - 1);
        if nnz[k - 1] > 0 {
            prev | (1u32 << (((k - 1) / 4) as u32))
        } else {
            prev
        }
    }
}

/// `Σ_{k<m} s[k]`.
pub open spec fn total(s: Seq<int>, m: int) -> int
    decreases m,
{
    if m <= 0 {
        0
    } else {
        total(s, m - 1) + s[m - 1]
    }
}

/// The first `k` blocks of an `I_NxN` candidate were built one after the
/// other from `states[0]`, block `b` against `states[b]` leaving
/// `states[b + 1]`, with the neighbourhoods `nbrs`, the per-block counts
/// `nnz` and errors `ssds`.
#[verifier::opaque]
pub open spec fn nxn_trace(
    states: Seq<Ctx>,
    nbrs: Seq<Neighbors4>,
    nnz: Seq<int>,
    ssds: Seq<int>,
    y: Seq<u8>,
    mbx: int,
    mby: int,
    qp: int,
    l: NxNLuma,
    k: int,
) -> bool {
    &&& states.len() == k + 1
    &&& nbrs.len() == k
    &&& nnz.len() == k
    &&& ssds.len() == k
    &&& forall|b: int|
        0 <= b < k ==> #[trigger] nxn_block_done(
            states[b],
            states[b + 1],
            y,
            mbx,
            mby,
            b,
            qp,
            nbrs[b],
            l.modes[b],
            ints(l.levels[b]@),
            nnz[b],
            ssds[b],
        )
}

/// Build the `I_NxN` candidate of the macroblock at `(mbx, mby)`,
/// reconstructing into `ctx` block by block in coding order, since each
/// block predicts from the ones before it.
#[verifier::spinoff_prover]
#[verifier::rlimit(60)]
pub fn build_nxn(ctx: &mut Ctx, y: &[u8], mbx: usize, mby: usize, qp: i32) -> (c: Candidate)
    requires
        mb_in_picture(old(ctx), mbx as int, mby as int),
        y@.len() == old(ctx).cw * old(ctx).ch,
        0 <= qp <= 51,
    ensures
        mb_in_picture(final(ctx), mbx as int, mby as int),
        same_but_luma(*old(ctx), *final(ctx)),
        c.coding is NxN,
        exists|states: Seq<Ctx>, nbrs: Seq<Neighbors4>, nnz: Seq<int>, ssds: Seq<int>|
            #[trigger] nxn_trace(states, nbrs, nnz, ssds, y@, mbx as int, mby as int, qp as int, c.coding->NxN_0, 16)
                && states[0] == *old(ctx) && states[16] == *final(ctx) && c.coding->NxN_0.cbp_luma == nxn_cbp_after(nnz, 16)
                && c.ssd == total(ssds, 16),
{
    let mut l = NxNLuma { modes: [intra::DC; 16], levels: [[0i32; 16]; 16], cbp_luma: 0 };
    let mut ssd: u64 = 0;
    let ghost c0 = *ctx;
    let ghost mut states: Seq<Ctx> = seq![*ctx];
    let ghost mut nbrs: Seq<Neighbors4> = Seq::empty();
    let ghost mut nnzs: Seq<int> = Seq::empty();
    let ghost mut ssds: Seq<int> = Seq::empty();
    proof {
        reveal(nxn_trace);
    }
    let mut blk: usize = 0;
    while blk < 16
        invariant
            mb_in_picture(ctx, mbx as int, mby as int),
            y@.len() == ctx.cw * ctx.ch,
            0 <= qp <= 51,
            blk <= 16,
            same_but_luma(c0, *ctx),
            states[0] == c0,
            states[blk as int] == *ctx,
            nxn_trace(states, nbrs, nnzs, ssds, y@, mbx as int, mby as int, qp as int, l, blk as int),
            l.cbp_luma == nxn_cbp_after(nnzs, blk as int),
            ssd == total(ssds, blk as int),
            ssd <= blk * 16 * 65025,
            forall|b: int| 0 <= b < blk ==> 0 <= #[trigger] nnzs[b] <= 16,
        decreases 16 - blk,
    {
        let ghost before = *ctx;
        let ghost l0 = l;
        let (mode, scan, nnz, s, n) = nxn_block(ctx, y, mbx, mby, blk, qp);
        l.modes[blk] = mode;
        l.levels[blk] = scan;
        if nnz > 0 {
            l.cbp_luma = l.cbp_luma | (1u32 << ((blk / 4) as u32));
        }
        ssd = ssd + s;
        proof {
            reveal(nxn_trace);
            let nn0 = nnzs;
            let ss0 = ssds;
            lemma_cbp_after_push(nn0, nnz as int, blk as int);
            lemma_total_push(ss0, s as int, blk as int);
            states = states.push(*ctx);
            nbrs = nbrs.push(n);
            nnzs = nnzs.push(nnz as int);
            ssds = ssds.push(s as int);
            assert forall|b: int| 0 <= b < blk + 1 implies #[trigger] nxn_block_done(
                states[b],
                states[b + 1],
                y@,
                mbx as int,
                mby as int,
                b,
                qp as int,
                nbrs[b],
                l.modes[b],
                ints(l.levels[b]@),
                nnzs[b],
                ssds[b],
            ) by {
                if b < blk {
                    assert(l.modes[b] == l0.modes[b]);
                    assert(l.levels[b] == l0.levels[b]);
                }
            }

        }
        blk = blk + 1;
    }
    let c = Candidate { coding: LumaCoding::NxN(l), ssd };
    proof {
        assert(c.coding->NxN_0 == l);
        assert(nxn_trace(states, nbrs, nnzs, ssds, y@, mbx as int, mby as int, qp as int, c.coding->NxN_0, 16));
        assert(states[16] == *ctx);
    }
    c
}

/// Appending a block leaves the pattern over the earlier ones alone, and
/// the pattern after it extends by that block.
proof fn lemma_cbp_after_push(nnz: Seq<int>, v: int, k: int)
    requires
        0 <= k <= nnz.len(),
    ensures
        nxn_cbp_after(nnz.push(v), k) == nxn_cbp_after(nnz, k),
        k == nnz.len() ==> nxn_cbp_after(nnz.push(v), k + 1) == (if v > 0 {
            nxn_cbp_after(nnz, k) | (1u32 << ((k / 4) as u32))
        } else {
            nxn_cbp_after(nnz, k)
        }),
    decreases k,
{
    if k > 0 {
        lemma_cbp_after_push(nnz, v, k - 1);
        assert(nnz.push(v)[k - 1] == nnz[k - 1]);
    }
    assert(nxn_cbp_after(nnz.push(v), k) == nxn_cbp_after(nnz, k));
    if k == nnz.len() {
        assert(nnz.push(v)[k] == v);
    }
}

/// Appending an entry leaves the total over the earlier ones alone.
pub proof fn lemma_total_push(s: Seq<int>, v: int, k: int)
    requires
        0 <= k <= s.len(),
    ensures
        total(s.push(v), k) == total(s, k),
        k == s.len() ==> total(s.push(v), k + 1) == total(s, k) + v,
    decreases k,
{
    if k > 0 {
        lemma_total_push(s, v, k - 1);
        assert(s.push(v)[k - 1] == s[k - 1]);
    }
    assert(total(s.push(v), k) == total(s, k));
    if k == s.len() {
        assert(s.push(v)[k] == v);
    }
}

// ---------------------------------------------------------------- luma snapshots

/// What [`save_luma`] keeps of a macroblock: its reconstructed luma, and the
/// coefficient count and 4×4 mode of each block in coding order.
pub struct LumaState {
    pub rec: Vec<u8>,
    pub nnz: [usize; 16],
    pub modes: [Option<u8>; 16],
}

/// Grid cell of block `blk` of the macroblock at `(mbx, mby)`.
pub open spec fn blk_cell(cw: int, mbx: int, mby: int, blk: int) -> int {
    spec_grid_index(cw, blk_px(mbx, blk), blk_py(mby, blk))
}

/// `g` after writing `vals[b]` into block `b`'s cell for each `b < k`.
pub open spec fn grid_restored<T>(g: Seq<T>, cw: int, mbx: int, mby: int, vals: Seq<T>, k: int) -> Seq<T>
    decreases k,
{
    if k <= 0 {
        g
    } else {
        grid_restored(g, cw, mbx, mby, vals, k - 1).update(blk_cell(cw, mbx, mby, k - 1), vals[k - 1])
    }
}

/// Where the macroblock's blocks sit: inside the luma grid.
proof fn lemma_mb_cells(c: &Ctx, mbx: int, mby: int)
    requires
        mb_in_picture(c, mbx, mby),
    ensures
        forall|b: int|
            0 <= b < 16 ==> 0 <= #[trigger] blk_cell(c.cw as int, mbx, mby, b) < (c.cw / 4) * (c.ch / 4),
        rect_fits(c.ry@.len() as int, c.cw as int, 16 * mbx, 16 * mby, 16, 16),
        16 * mbx + 16 <= c.cw,
        16 * mby + 16 <= c.ch,
        (c.cw / 4) * (c.ch / 4) <= 0x1000_0000,
{
    crate::codec::h264::compress::lemma_block_positions_are_a_permutation();
    assert forall|b: int| 0 <= b < 16 implies 0 <= #[trigger] blk_cell(c.cw as int, mbx, mby, b) < (c.cw / 4) * (c.ch
        / 4) by {
        assert(BLK_POS[b].0 < 4 && BLK_POS[b].1 < 4);
        crate::codec::h264::compress::lemma_grid_cell(c.cw as int, c.ch as int, blk_px(mbx, b), blk_py(mby, b));
    }
    assert(16 * mbx + 16 <= c.cw);
    assert(16 * mby + 16 <= c.ch);
    crate::codec::h264::compress::lemma_grid_cell(c.cw as int, c.ch as int, 0, 0);
    assert((16 * mby + 15) * c.cw + 16 * mbx + 16 <= c.cw * c.ch) by (nonlinear_arith)
        requires
            16 * mbx + 16 <= c.cw,
            16 * mby + 16 <= c.ch,
    ;
    assert(c.cw * c.ch <= 0x10000 * 0x10000) by (nonlinear_arith)
        requires
            c.cw <= 0x10000,
            c.ch <= 0x10000,
    ;
}

/// Snapshot the macroblock's luma state before a candidate overwrites it.
pub fn save_luma(ctx: &Ctx, mbx: usize, mby: usize) -> (s: LumaState)
    requires
        mb_in_picture(ctx, mbx as int, mby as int),
    ensures
        s.rec@ == cropped(ctx.ry@, ctx.cw as int, 16 * mbx, 16 * mby, 16, 16),
        forall|b: int| 0 <= b < 16 ==> s.nnz[b] == ctx.nnz_y@[#[trigger] blk_cell(ctx.cw as int, mbx as int, mby as int, b)],
        forall|b: int| 0 <= b < 16 ==> s.modes[b] == ctx.modes@[#[trigger] blk_cell(ctx.cw as int, mbx as int, mby as int, b)],
        forall|b: int| 0 <= b < 16 ==> #[trigger] s.nnz[b] <= 16,
{
    proof {
        lemma_mb_cells(ctx, mbx as int, mby as int);
        crate::codec::h264::compress::lemma_block_positions_are_a_permutation();
    }
    let ox = (mbx * 16) as u32;
    let oy = (mby * 16) as u32;
    let rec = crop(&ctx.ry, ctx.cw, ox, oy, 16, 16);
    let mut nnz = [0usize; 16];
    let mut modes: [Option<u8>; 16] = [None; 16];
    let mut blk: usize = 0;
    while blk < 16
        invariant
            mb_in_picture(ctx, mbx as int, mby as int),
            forall|b: int|
                0 <= b < 16 ==> 0 <= #[trigger] blk_cell(ctx.cw as int, mbx as int, mby as int, b) < (ctx.cw / 4) * (ctx.ch
                    / 4),
            (ctx.cw / 4) * (ctx.ch / 4) <= 0x1000_0000,
            blk <= 16,
            forall|b: int| 0 <= b < blk ==> nnz[b] == ctx.nnz_y@[#[trigger] blk_cell(ctx.cw as int, mbx as int, mby as int, b)],
            forall|b: int| 0 <= b < blk ==> modes[b] == ctx.modes@[#[trigger] blk_cell(ctx.cw as int, mbx as int, mby as int, b)],
            forall|b: int| 0 <= b < blk ==> #[trigger] nnz[b] <= 16,
        decreases 16 - blk,
    {
        let (px, py) = blk_origin(mbx, mby, blk);
        proof {
            assert(blk_cell(ctx.cw as int, mbx as int, mby as int, blk as int) < (ctx.cw / 4) * (ctx.ch / 4));
            assert(ctx.nnz_y@[blk_cell(ctx.cw as int, mbx as int, mby as int, blk as int)] <= 16);
        }
        let gi = grid_index(ctx.cw, px, py);
        nnz[blk] = ctx.nnz_y[gi];
        modes[blk] = ctx.modes[gi];
        blk = blk + 1;
    }
    LumaState { rec, nnz, modes }
}

/// Put back a snapshot taken by [`save_luma`].
pub fn restore_luma(ctx: &mut Ctx, mbx: usize, mby: usize, s: &LumaState)
    requires
        mb_in_picture(old(ctx), mbx as int, mby as int),
        s.rec@.len() >= 256,
        forall|b: int| 0 <= b < 16 ==> #[trigger] s.nnz[b] <= 16,
    ensures
        mb_in_picture(final(ctx), mbx as int, mby as int),
        same_but_luma(*old(ctx), *final(ctx)),
        final(ctx).ry@ == pasted(old(ctx).ry@, old(ctx).cw as int, s.rec@, 16, 16 * mbx, 16 * mby, 16, 256),
        final(ctx).nnz_y@ == grid_restored(old(ctx).nnz_y@, old(ctx).cw as int, mbx as int, mby as int, s.nnz@, 16),
        final(ctx).modes@ == grid_restored(old(ctx).modes@, old(ctx).cw as int, mbx as int, mby as int, s.modes@, 16),
{
    proof {
        lemma_mb_cells(ctx, mbx as int, mby as int);
    }
    let ghost c0 = *ctx;
    let ox = (mbx * 16) as u32;
    let oy = (mby * 16) as u32;
    let cw = ctx.cw;
    paste(ctx.ry.as_mut_slice(), cw, &s.rec, 16, ox, oy, 16, 16);
    proof {
        crate::codec::planes::lemma_pasted_len(c0.ry@, cw as int, s.rec@, 16, ox as int, oy as int, 16, 16, 256);
    }
    let mut blk: usize = 0;
    while blk < 16
        invariant
            forall|b: int|
                0 <= b < 16 ==> 0 <= #[trigger] blk_cell(c0.cw as int, mbx as int, mby as int, b) < (c0.cw / 4) * (c0.ch
                    / 4),
            forall|b: int| 0 <= b < 16 ==> #[trigger] s.nnz[b] <= 16,
            (c0.cw / 4) * (c0.ch / 4) <= 0x1000_0000,
            mb_in_picture(ctx, mbx as int, mby as int),
            same_but_luma(c0, *ctx),
            ctx.ry@ == pasted(c0.ry@, c0.cw as int, s.rec@, 16, 16 * mbx, 16 * mby, 16, 256),
            blk <= 16,
            ctx.nnz_y@ == grid_restored(c0.nnz_y@, c0.cw as int, mbx as int, mby as int, s.nnz@, blk as int),
            ctx.modes@ == grid_restored(c0.modes@, c0.cw as int, mbx as int, mby as int, s.modes@, blk as int),
        decreases 16 - blk,
    {
        let (px, py) = blk_origin(mbx, mby, blk);
        proof {
            assert(blk_cell(c0.cw as int, mbx as int, mby as int, blk as int) < (c0.cw / 4) * (c0.ch / 4));
            assert(s.nnz[blk as int] <= 16);
        }
        let gi = grid_index(ctx.cw, px, py);
        ctx.nnz_y.set(gi, s.nnz[blk]);
        ctx.modes.set(gi, s.modes[blk]);
        blk = blk + 1;
    }
}

/// Writing back into each cell the value it already holds changes nothing.
proof fn lemma_grid_restored_same<T>(g: Seq<T>, cw: int, mbx: int, mby: int, vals: Seq<T>, k: int)
    requires
        0 <= k <= 16,
        forall|b: int| 0 <= b < k ==> 0 <= #[trigger] blk_cell(cw, mbx, mby, b) < g.len(),
        forall|b: int| 0 <= b < k ==> vals[b] == g[#[trigger] blk_cell(cw, mbx, mby, b)],
    ensures
        grid_restored(g, cw, mbx, mby, vals, k) == g,
    decreases k,
{
    if k > 0 {
        lemma_grid_restored_same(g, cw, mbx, mby, vals, k - 1);
        let i = blk_cell(cw, mbx, mby, k - 1);
        assert(g.update(i, g[i]) =~= g);
    }
}

/// Restoring a snapshot of a macroblock's luma state, with nothing written
/// in between, leaves the luma plane and both grids as they were.
pub proof fn lemma_restore_luma_undoes_save_luma(c: Ctx, mbx: int, mby: int, s: LumaState)
    requires
        mb_in_picture(&c, mbx, mby),
        s.rec@ == cropped(c.ry@, c.cw as int, 16 * mbx, 16 * mby, 16, 16),
        forall|b: int| 0 <= b < 16 ==> s.nnz[b] == c.nnz_y@[#[trigger] blk_cell(c.cw as int, mbx, mby, b)],
        forall|b: int| 0 <= b < 16 ==> s.modes[b] == c.modes@[#[trigger] blk_cell(c.cw as int, mbx, mby, b)],
    ensures
        pasted(c.ry@, c.cw as int, s.rec@, 16, 16 * mbx, 16 * mby, 16, 256) == c.ry@,
        grid_restored(c.nnz_y@, c.cw as int, mbx, mby, s.nnz@, 16) == c.nnz_y@,
        grid_restored(c.modes@, c.cw as int, mbx, mby, s.modes@, 16) == c.modes@,
{
    lemma_mb_cells(&c, mbx, mby);
    lemma_paste_of_crop_is_identity(c.ry@, c.cw, (16 * mbx) as u32, (16 * mby) as u32, 16, 16);
    lemma_grid_restored_same(c.nnz_y@, c.cw as int, mbx, mby, s.nnz@, 16);
    lemma_grid_restored_same(c.modes@, c.cw as int, mbx, mby, s.modes@, 16);
}

} // verus!
