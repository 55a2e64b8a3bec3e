//! Macroblock geometry and the small tables of the compressing H.264 encoder:
//! where each 4×4 luma block sits, how an intra `coded_block_pattern` is
//! numbered, and the chroma quantizer that follows a luma one.

use crate::bitstream::{
    bits_of, bits_value, lemma_bits_value_of, lemma_read_se_of, lemma_read_ue_of, read_se, read_ue, se_bits, ue_bits,
    BitWriter,
};
use crate::codec::h264::cavlc::derive_nc;
use crate::codec::h264::intra::{self, Neighbors16, Neighbors4, NeighborsC, SAMPLE_BOUND};
use crate::codec::h264::transform::{bounded, ints, luma_dc_hadamard, spec_hadamard4};
use crate::codec::planes::{block_fits, gather, gathered};
use crate::num::abs;
use vstd::prelude::*;

verus! {

/// Position of each 4×4 luma block within the macroblock, in 4-sample units,
/// in the order the bitstream visits them (Table 6-3): z-order over the four
/// 8×8 quadrants, and z-order again inside each.
pub const BLK_POS: [(usize, usize); 16] = [
    (0, 0),
    (1, 0),
    (0, 1),
    (1, 1),
    (2, 0),
    (3, 0),
    (2, 1),
    (3, 1),
    (0, 2),
    (1, 2),
    (0, 3),
    (1, 3),
    (2, 2),
    (3, 2),
    (2, 3),
    (3, 3),
];

/// Table 9-4 as printed: the intra `coded_block_pattern` for each `me(v)`
/// code number.
pub const CBP_FROM_CODE: [usize; 48] = [
    47, 31, 15, 0, 23, 27, 29, 30, 7, 11, 13, 14, 39, 43, 45, 46, 16, 3, 5, 10, 12, 19,
    21, 26, 28, 35, 37, 42, 44, 1, 2, 4, 8, 17, 18, 20, 24, 6, 9, 22, 25, 32, 33, 34, 36,
    40, 38, 41,
];

/// `coded_block_pattern` code numbers for intra macroblocks (Table 9-4),
/// indexed by the pattern: the inverse of [`CBP_FROM_CODE`].
pub const CBP_INTRA_CODE: [u32; 48] = [
    3, 29, 30, 17, 31, 18, 37, 8, 32, 38, 19, 9, 20, 10, 11, 2, 16, 33, 34, 21, 35, 22, 39, 4,
    36, 40, 23, 5, 24, 6, 7, 1, 41, 42, 43, 25, 44, 26, 46, 12, 45, 47, 27, 13, 28, 14, 15, 0,
];

/// `QPc` for `qPI` 30 to 51 (Table 8-15); below 30 the two are equal.
pub const CHROMA_QP_HIGH: [i32; 22] = [
    29, 30, 31, 32, 32, 33, 34, 34, 35, 35, 36, 36, 37, 37, 37, 38, 38, 38, 39, 39, 39, 39,
];

/// Coding index of the 4×4 block at `(x4, y4)`: the bit pattern
/// `y1 x1 y0 x0` of its coordinates.
pub open spec fn spec_blk_index(x4: int, y4: int) -> int {
    (y4 / 2) * 8 + (x4 / 2) * 4 + (y4 % 2) * 2 + x4 % 2
}

/// Inverse of [`BLK_POS`]: `(x4, y4)` within a macroblock → block index.
pub fn blk_index(x4: usize, y4: usize) -> (b: usize)
    requires
        x4 < 4,
        y4 < 4,
    ensures
        b < 16,
        b == spec_blk_index(x4 as int, y4 as int),
        BLK_POS[b as int] == (x4, y4),
{
    let b = (y4 / 2) * 8 + (x4 / 2) * 4 + (y4 % 2) * 2 + x4 % 2;
    proof {
        if y4 == 0 {
        } else if y4 == 1 {
        } else if y4 == 2 {
        } else {
        }
    }
    b
}

/// Every position of the macroblock holds exactly one coding index: the two
/// maps are mutually inverse.
pub proof fn lemma_block_positions_are_a_permutation()
    ensures
        forall|b: int| 0 <= b < 16 ==> {
            let (x, y) = #[trigger] BLK_POS[b];
            &&& x < 4 && y < 4
            &&& spec_blk_index(x as int, y as int) == b
        },
        forall|x: int, y: int|
            0 <= x < 4 && 0 <= y < 4 ==> BLK_POS[#[trigger] spec_blk_index(x, y)] == (x as usize, y as usize),
{
    assert forall|x: int, y: int| 0 <= x < 4 && 0 <= y < 4 implies BLK_POS[#[trigger] spec_blk_index(x, y)] == (
    x as usize, y as usize) by {
        if y == 0 {
        } else if y == 1 {
        } else if y == 2 {
        } else {
        }
    }
}

/// Table 9-4 maps code numbers onto patterns one to one: [`CBP_INTRA_CODE`]
/// undoes [`CBP_FROM_CODE`] and the other way round, so both are
/// permutations of `0..48`.
pub proof fn lemma_cbp_tables_are_inverse()
    ensures
        forall|c: int| 0 <= c < 48 ==> #[trigger] CBP_FROM_CODE[c] < 48 && CBP_INTRA_CODE[CBP_FROM_CODE[c] as int] == c,
        forall|p: int| 0 <= p < 48 ==> #[trigger] CBP_INTRA_CODE[p] < 48 && CBP_FROM_CODE[CBP_INTRA_CODE[p] as int] == p,
{
    assert forall|c: int| 0 <= c < 48 implies #[trigger] CBP_FROM_CODE[c] < 48 && CBP_INTRA_CODE[CBP_FROM_CODE[c] as int]
        == c by {
        assert(0 <= c < 48);
    }
    assert forall|p: int| 0 <= p < 48 implies #[trigger] CBP_INTRA_CODE[p] < 48 && CBP_FROM_CODE[CBP_INTRA_CODE[p] as int]
        == p by {
        assert(0 <= p < 48);
    }
}

/// `QPc` for luma `qp` (Table 8-15) with `chroma_qp_index_offset = 0`; `qp`
/// is clamped to `0..=51` first.
pub open spec fn spec_chroma_qp(qp: int) -> int {
    let q = if qp < 0 {
        0
    } else if qp > 51 {
        51
    } else {
        qp
    };
    if q < 30 {
        q
    } else {
        CHROMA_QP_HIGH[q - 30] as int
    }
}

/// Chroma QP from luma QP (Table 8-15) with `chroma_qp_index_offset = 0`.
pub fn chroma_qp(qp: i32) -> (q: i32)
    ensures
        q == spec_chroma_qp(qp as int),
{
    let qpi = if qp < 0 {
        0
    } else if qp > 51 {
        51
    } else {
        qp
    };
    if qpi < 30 {
        qpi
    } else {
        CHROMA_QP_HIGH[(qpi - 30) as usize]
    }
}

/// The chroma quantizer never decreases as the luma one rises, and never
/// exceeds it.
pub proof fn lemma_chroma_qp_is_monotone(a: int, b: int)
    requires
        a <= b,
    ensures
        spec_chroma_qp(a) <= spec_chroma_qp(b),
        0 <= spec_chroma_qp(a) <= 39,
        a >= 0 ==> spec_chroma_qp(a) <= a,
{
    let qa = if a < 0 {
        0
    } else if a > 51 {
        51
    } else {
        a
    };
    let qb = if b < 0 {
        0
    } else if b > 51 {
        51
    } else {
        b
    };
    assert forall|i: int, j: int| 0 <= i <= j < 22 implies #[trigger] CHROMA_QP_HIGH[i] <= #[trigger] CHROMA_QP_HIGH[j]
        by {
        assert(0 <= i < 22);
    }
    assert forall|i: int| 0 <= i < 22 implies 29 <= #[trigger] CHROMA_QP_HIGH[i] <= 39 && CHROMA_QP_HIGH[i] <= i
        + 30 by {
        assert(0 <= i < 22);
    }
    if qa >= 30 && qb >= 30 {
        assert(CHROMA_QP_HIGH[qa - 30] <= CHROMA_QP_HIGH[qb - 30]);
    } else if qa < 30 && qb >= 30 {
        assert(29 <= CHROMA_QP_HIGH[qb - 30]);
    }
}

/// Index of the 4×4 cell holding sample `(px, py)` in a grid over a plane
/// `width` samples wide.
pub open spec fn spec_grid_index(width: int, px: int, py: int) -> int {
    (py / 4) * (width / 4) + px / 4
}

/// Index of the 4×4 cell holding sample `(px, py)` of a plane `width` wide.
pub fn grid_index(width: u32, px: u32, py: u32) -> (i: usize)
    requires
        (py / 4) * (width / 4) + px / 4 <= usize::MAX,
        (py / 4) * (width / 4) + px / 4 <= u32::MAX,
    ensures
        i == spec_grid_index(width as int, px as int, py as int),
{
    ((py / 4) * (width / 4) + px / 4) as usize
}

/// Picture-space origin of a macroblock's 4×4 luma block, by coding index.
pub fn blk_origin(mbx: usize, mby: usize, blk: usize) -> (o: (u32, u32))
    requires
        blk < 16,
        mbx * 16 + 12 <= u32::MAX,
        mby * 16 + 12 <= u32::MAX,
    ensures
        o.0 == mbx * 16 + 4 * BLK_POS[blk as int].0,
        o.1 == mby * 16 + 4 * BLK_POS[blk as int].1,
{
    let (bx4, by4) = BLK_POS[blk];
    proof {
        assert(bx4 < 4 && by4 < 4) by {
            lemma_block_positions_are_a_permutation();
        }
    }
    ((mbx * 16 + bx4 * 4) as u32, (mby * 16 + by4 * 4) as u32)
}

// ---------------------------------------------------------------- picture state

/// The macroblock's summary that the next macroblocks' CABAC context
/// derivations read.
#[derive(Clone, Copy)]
pub struct MbNeighbor {
    pub avail: bool,
    pub i16: bool,
    pub cbp_luma: u32,
    pub cbp_chroma: u32,
    pub chroma_mode: u8,
    /// `coded_block_flag` of the `Intra16x16DCLevel` block, if this
    /// macroblock had one.
    pub dc_cbf: bool,
    /// `coded_block_flag` of each chroma DC block. Distinct from
    /// `cbp_chroma != 0`, which only says the block was present.
    pub chroma_dc_cbf: [bool; 2],
}

/// What an absent neighbour reads as: unavailable, nothing coded.
pub open spec fn no_neighbor() -> MbNeighbor {
    MbNeighbor {
        avail: false,
        i16: false,
        cbp_luma: 0,
        cbp_chroma: 0,
        chroma_mode: 0,
        dc_cbf: false,
        chroma_dc_cbf: [false, false],
    }
}

impl Default for MbNeighbor {
    fn default() -> (n: Self)
        ensures
            n == no_neighbor(),
    {
        MbNeighbor {
            avail: false,
            i16: false,
            cbp_luma: 0,
            cbp_chroma: 0,
            chroma_mode: 0,
            dc_cbf: false,
            chroma_dc_cbf: [false, false],
        }
    }
}

/// Per-picture state the neighbour derivations read.
pub struct Ctx {
    /// Reconstructed planes at coded (macroblock-aligned) size.
    pub ry: Vec<u8>,
    pub ru: Vec<u8>,
    pub rv: Vec<u8>,
    pub cw: u32,
    pub ch: u32,
    pub cwc: u32,
    pub chc: u32,
    pub mbw: usize,
    /// Non-zero coefficient counts per 4×4 luma block, on the picture's 4×4
    /// grid: what `nC` is derived from.
    pub nnz_y: Vec<usize>,
    /// The same for the two chroma planes, on their 4×4 grid.
    pub nnz_c: [Vec<usize>; 2],
    /// Intra 4×4 prediction mode per luma block, for the MPM derivation;
    /// `None` where no intra 4×4 block has been coded.
    pub modes: Vec<Option<u8>>,
    /// Per-macroblock summary the CABAC context derivations read.
    pub mb: Vec<MbNeighbor>,
    /// Whether the previous macroblock in decoding order sent a non-zero
    /// `mb_qp_delta`.
    pub prev_qp_delta_nonzero: bool,
}

/// The picture state's tables match its geometry: a whole number of
/// macroblocks, chroma at half size, and every sample index within `u32`.
pub open spec fn ctx_ok(c: &Ctx) -> bool {
    &&& c.cw % 16 == 0
    &&& c.ch % 16 == 0
    &&& c.cw <= 0x10000
    &&& c.ch <= 0x10000
    &&& c.cwc == c.cw / 2
    &&& c.chc == c.ch / 2
    &&& c.mbw == c.cw / 16
    &&& c.ry@.len() == c.cw * c.ch
    &&& c.ru@.len() == c.cwc * c.chc
    &&& c.rv@.len() == c.cwc * c.chc
    &&& c.nnz_y@.len() == (c.cw / 4) * (c.ch / 4)
    &&& c.nnz_c[0]@.len() == (c.cwc / 4) * (c.chc / 4)
    &&& c.nnz_c[1]@.len() == (c.cwc / 4) * (c.chc / 4)
    &&& c.modes@.len() == (c.cw / 4) * (c.ch / 4)
    &&& c.mb@.len() == (c.cw / 16) * (c.ch / 16)
    &&& forall|i: int| 0 <= i < c.nnz_y@.len() ==> #[trigger] c.nnz_y@[i] <= 16
    &&& forall|i: int| 0 <= i < c.nnz_c[0]@.len() ==> #[trigger] c.nnz_c[0]@[i] <= 16
    &&& forall|i: int| 0 <= i < c.nnz_c[1]@.len() ==> #[trigger] c.nnz_c[1]@[i] <= 16
}

/// Decoding order of luma sample `(px, py)`: its macroblock in raster order,
/// then its 4×4 block in z-order.
pub open spec fn spec_order_luma(mbw: int, px: int, py: int) -> (int, int) {
    ((py / 16) * mbw + px / 16, spec_blk_index((px % 16) / 4, (py % 16) / 4))
}

/// Lexicographic `a < b`.
pub open spec fn lex_lt(a: (int, int), b: (int, int)) -> bool {
    a.0 < b.0 || (a.0 == b.0 && a.1 < b.1)
}

/// Whether luma sample `(px, py)` lies in the `cw`×`ch` picture and is
/// reconstructed before the block at `(bx, by)`.
pub open spec fn spec_avail_luma(c: &Ctx, px: int, py: int, bx: int, by: int) -> bool {
    &&& 0 <= px < c.cw
    &&& 0 <= py < c.ch
    &&& lex_lt(spec_order_luma(c.mbw as int, px, py), spec_order_luma(c.mbw as int, bx, by))
}

/// Whether chroma sample `(px, py)` lies in the chroma picture and belongs
/// to a macroblock before `(mbx, mby)`.
pub open spec fn spec_avail_chroma(c: &Ctx, px: int, py: int, mbx: int, mby: int) -> bool {
    &&& 0 <= px < c.cwc
    &&& 0 <= py < c.chc
    &&& (py / 8) * c.mbw + px / 8 < mby * c.mbw + mbx
}

/// `(py / 16) * mbw + px / 16` stays within the picture's macroblock count.
proof fn lemma_mb_index(c: &Ctx, px: int, py: int)
    requires
        ctx_ok(c),
        0 <= px < c.cw,
        0 <= py < c.ch,
    ensures
        0 <= (py / 16) * c.mbw + px / 16 < (c.cw / 16) * (c.ch / 16),
        (c.cw / 16) * (c.ch / 16) <= 0x100_0000,
{
    let mbw = c.mbw as int;
    assert(0 <= (py / 16) * mbw + px / 16 < mbw * (c.ch / 16)) by (nonlinear_arith)
        requires
            0 <= px < c.cw,
            0 <= py < c.ch,
            mbw == c.cw / 16,
            c.cw % 16 == 0,
            c.ch % 16 == 0,
    ;
    assert((c.cw / 16) * (c.ch / 16) <= 0x100_0000) by (nonlinear_arith)
        requires
            c.cw <= 0x10000,
            c.ch <= 0x10000,
    ;
}

impl Ctx {
    /// Decoding order of luma sample `(px, py)`.
    pub fn order_luma(&self, px: u32, py: u32) -> (o: (usize, usize))
        requires
            ctx_ok(self),
            px < self.cw,
            py < self.ch,
        ensures
            (o.0 as int, o.1 as int) == spec_order_luma(self.mbw as int, px as int, py as int),
    {
        proof {
            lemma_mb_index(self, px as int, py as int);
        }
        let mbx = (px / 16) as usize;
        let mby = (py / 16) as usize;
        let x4 = ((px % 16) / 4) as usize;
        let y4 = ((py % 16) / 4) as usize;
        (mby * self.mbw + mbx, blk_index(x4, y4))
    }

    /// Whether the sample at `(px, py)` is already reconstructed when coding
    /// the block at `(bx, by)`.
    ///
    /// Macroblocks go in raster order and 4×4 blocks in z-order inside them,
    /// so comparing (macroblock index, block index) lexicographically is
    /// decoding order. This is what makes the above-right neighbour come out
    /// right: available from the macroblock above-right, unavailable from a
    /// later block in this one.
    pub fn avail_luma(&self, px: i32, py: i32, bx: u32, by: u32) -> (b: bool)
        requires
            ctx_ok(self),
            bx < self.cw,
            by < self.ch,
        ensures
            b == spec_avail_luma(self, px as int, py as int, bx as int, by as int),
    {
        if px < 0 || py < 0 || px as i64 >= self.cw as i64 || py as i64 >= self.ch as i64 {
            return false;
        }
        let a = self.order_luma(px as u32, py as u32);
        let b = self.order_luma(bx, by);
        a.0 < b.0 || (a.0 == b.0 && a.1 < b.1)
    }

    /// Chroma availability is macroblock-granular: the whole 8×8 is predicted
    /// at once, so only whole neighbouring macroblocks matter.
    pub fn avail_chroma(&self, px: i32, py: i32, mbx: usize, mby: usize) -> (b: bool)
        requires
            ctx_ok(self),
            mbx < self.mbw,
            mby < self.ch / 16,
        ensures
            b == spec_avail_chroma(self, px as int, py as int, mbx as int, mby as int),
    {
        if px < 0 || py < 0 || px as i64 >= self.cwc as i64 || py as i64 >= self.chc as i64 {
            return false;
        }
        proof {
            lemma_mb_index(self, 2 * (px as int), 2 * (py as int));
            lemma_mb_index(self, 16 * (mbx as int), 16 * (mby as int));
            assert((2 * (px as int)) / 16 == (px as int) / 8 && (2 * (py as int)) / 16 == (py as int) / 8);
        }
        let nx = (px as u32 / 8) as usize;
        let ny = (py as u32 / 8) as usize;
        ny * self.mbw + nx < mby * self.mbw + mbx
    }

    /// The summary of the macroblock at offset `(dx, dy)` from
    /// `(mbx, mby)`, or an unavailable one outside the picture.
    pub fn neighbor(&self, mbx: usize, mby: usize, dx: i64, dy: i64) -> (n: MbNeighbor)
        requires
            ctx_ok(self),
            mbx < self.mbw,
            mby < self.ch / 16,
            -1 <= dx <= 1,
            -1 <= dy <= 1,
        ensures
            n == ({
                let x = mbx + dx;
                let y = mby + dy;
                if x < 0 || y < 0 || x >= self.mbw || y * self.mbw + x >= self.mb@.len() {
                    no_neighbor()
                } else {
                    self.mb@[y * self.mbw + x]
                }
            }),
    {
        proof {
            lemma_mb_index(self, 16 * (mbx as int), 16 * (mby as int));
        }
        let x = mbx as i64 + dx;
        let y = mby as i64 + dy;
        if x < 0 || y < 0 || x >= self.mbw as i64 {
            return MbNeighbor::default();
        }
        proof {
            assert(y * self.mbw + x <= (self.ch / 16) * self.mbw + self.mbw) by (nonlinear_arith)
                requires
                    0 <= y <= self.ch / 16,
                    0 <= x < self.mbw,
            ;
        }
        let i = y as usize * self.mbw + x as usize;
        if i >= self.mb.len() {
            return MbNeighbor::default();
        }
        self.mb[i]
    }
}

/// Whether chroma 4×4 block `(nx, ny)` is coded before block `(cx, cy)`:
/// chroma 4×4 blocks go in raster order inside a macroblock, so ordering is
/// (macroblock, raster index).
pub open spec fn spec_chroma_block_done(mbw: int, nx: int, ny: int, cx: int, cy: int) -> bool {
    lex_lt(
        ((ny / 8) * mbw + nx / 8, ((ny % 8) / 4) * 2 + (nx % 8) / 4),
        ((cy / 8) * mbw + cx / 8, ((cy % 8) / 4) * 2 + (cx % 8) / 4),
    )
}

/// Chroma 4×4 blocks are coded in raster order inside a macroblock, so
/// ordering is (macroblock, raster index).
pub fn chroma_block_done(ctx: &Ctx, nx: u32, ny: u32, cx: u32, cy: u32) -> (b: bool)
    requires
        ctx_ok(ctx),
        nx < ctx.cwc,
        ny < ctx.chc,
        cx < ctx.cwc,
        cy < ctx.chc,
    ensures
        b == spec_chroma_block_done(ctx.mbw as int, nx as int, ny as int, cx as int, cy as int),
{
    proof {
        lemma_mb_index(ctx, 2 * (nx as int), 2 * (ny as int));
        lemma_mb_index(ctx, 2 * (cx as int), 2 * (cy as int));
        assert((2 * (nx as int)) / 16 == (nx as int) / 8 && (2 * (ny as int)) / 16 == (ny as int) / 8);
        assert((2 * (cx as int)) / 16 == (cx as int) / 8 && (2 * (cy as int)) / 16 == (cy as int) / 8);
    }
    let ka = ((ny / 8) as usize * ctx.mbw + (nx / 8) as usize, (((ny % 8) / 4) * 2 + (nx % 8) / 4) as usize);
    let kb = ((cy / 8) as usize * ctx.mbw + (cx / 8) as usize, (((cy % 8) / 4) * 2 + (cx % 8) / 4) as usize);
    ka.0 < kb.0 || (ka.0 == kb.0 && ka.1 < kb.1)
}

/// A 4×4 block origin of a `w`×`h` plane indexes its 4×4 grid.
pub proof fn lemma_grid_cell(w: int, h: int, px: int, py: int)
    requires
        0 <= px < w <= 0x10000,
        0 <= py < h <= 0x10000,
        w % 4 == 0,
        h % 4 == 0,
    ensures
        0 <= spec_grid_index(w, px, py) < (w / 4) * (h / 4),
        (w / 4) * (h / 4) <= 0x1000_0000,
{
    let a = px / 4;
    let b = py / 4;
    let ww = w / 4;
    let hh = h / 4;
    assert(0 <= a < ww && 0 <= b < hh);
    assert(0 <= b * ww + a < hh * ww) by (nonlinear_arith)
        requires
            0 <= a < ww,
            0 <= b < hh,
    ;
    assert(hh * ww == ww * hh) by (nonlinear_arith);
    assert(ww * hh <= 0x1000_0000) by (nonlinear_arith)
        requires
            0 <= ww <= 0x4000,
            0 <= hh <= 0x4000,
    ;
}

/// A neighbouring luma block's value, if it is available from `(px, py)`.
pub open spec fn luma_neighbor_at<T>(c: &Ctx, table: Seq<T>, nx: int, ny: int, px: int, py: int) -> Option<T> {
    if spec_avail_luma(c, nx, ny, px, py) {
        Some(table[spec_grid_index(c.cw as int, nx, ny)])
    } else {
        None
    }
}

/// Most probable intra 4×4 mode (§8.3.1.1): the smaller of the left and
/// above blocks' modes, DC when either is missing. A neighbour coded without
/// a 4×4 mode counts as DC, which is not the same as it being missing.
pub open spec fn spec_mpm(c: &Ctx, px: int, py: int) -> u8 {
    let left = luma_neighbor_at(c, c.modes@, px - 4, py, px, py);
    let above = luma_neighbor_at(c, c.modes@, px, py - 4, px, py);
    match (left, above) {
        (Some(a), Some(b)) => {
            let a = a.unwrap_or(intra::DC);
            let b = b.unwrap_or(intra::DC);
            if a < b {
                a
            } else {
                b
            }
        },
        _ => intra::DC,
    }
}

/// The left neighbour of a 4×4 block is available from it exactly when the
/// sample left of its origin is, and its grid cell is the cell of that sample.
proof fn lemma_left_block(c: &Ctx, px: int, py: int)
    requires
        ctx_ok(c),
        0 <= px < c.cw,
        0 <= py < c.ch,
        px % 4 == 0,
        py % 4 == 0,
    ensures
        spec_avail_luma(c, px - 1, py, px, py) ==> px >= 4,
        px >= 4 ==> spec_grid_index(c.cw as int, px - 1, py) == spec_grid_index(c.cw as int, px - 4, py),
        spec_avail_luma(c, px, py - 1, px, py) ==> py >= 4,
        py >= 4 ==> spec_grid_index(c.cw as int, px, py - 1) == spec_grid_index(c.cw as int, px, py - 4),
        px >= 4 ==> spec_avail_luma(c, px - 1, py, px, py) == spec_avail_luma(c, px - 4, py, px, py),
        py >= 4 ==> spec_avail_luma(c, px, py - 1, px, py) == spec_avail_luma(c, px, py - 4, px, py),
{
}

/// Most probable intra 4×4 mode of the block at `(px, py)` (§8.3.1.1).
pub fn mpm(ctx: &Ctx, px: u32, py: u32) -> (m: u8)
    requires
        ctx_ok(ctx),
        px < ctx.cw,
        py < ctx.ch,
        px % 4 == 0,
        py % 4 == 0,
    ensures
        m == spec_mpm(ctx, px as int, py as int),
{
    proof {
        lemma_left_block(ctx, px as int, py as int);
    }
    let left = if ctx.avail_luma(px as i32 - 1, py as i32, px, py) {
        proof {
            lemma_grid_cell(ctx.cw as int, ctx.ch as int, px - 4, py as int);
        }
        let m = ctx.modes[grid_index(ctx.cw, px - 4, py)];
        Some(
            match m {
                Some(v) => v,
                None => intra::DC,
            },
        )
    } else {
        None
    };
    let above = if ctx.avail_luma(px as i32, py as i32 - 1, px, py) {
        proof {
            lemma_grid_cell(ctx.cw as int, ctx.ch as int, px as int, py - 4);
        }
        let m = ctx.modes[grid_index(ctx.cw, px, py - 4)];
        Some(
            match m {
                Some(v) => v,
                None => intra::DC,
            },
        )
    } else {
        None
    };
    match (left, above) {
        (Some(a), Some(b)) => if a < b {
            a
        } else {
            b
        },
        _ => intra::DC,
    }
}

/// `nC` of the luma block at `(px, py)` from its available neighbours'
/// coefficient counts.
pub open spec fn spec_luma_nc(c: &Ctx, px: int, py: int) -> i32 {
    let left = luma_neighbor_at(c, c.nnz_y@, px - 4, py, px, py);
    let above = luma_neighbor_at(c, c.nnz_y@, px, py - 4, px, py);
    match (left, above) {
        (Some(a), Some(b)) => ((a + b + 1) / 2) as i32,
        (Some(a), None) => a as i32,
        (None, Some(b)) => b as i32,
        (None, None) => 0i32,
    }
}

/// `nC` for the luma 4×4 block at `(px, py)` (§9.2.1).
pub fn luma_nc(ctx: &Ctx, px: u32, py: u32) -> (nc: i32)
    requires
        ctx_ok(ctx),
        px < ctx.cw,
        py < ctx.ch,
        px % 4 == 0,
        py % 4 == 0,
    ensures
        nc == spec_luma_nc(ctx, px as int, py as int),
{
    proof {
        lemma_left_block(ctx, px as int, py as int);
    }
    let left = if ctx.avail_luma(px as i32 - 1, py as i32, px, py) {
        proof {
            lemma_grid_cell(ctx.cw as int, ctx.ch as int, px - 4, py as int);
        }
        Some(ctx.nnz_y[grid_index(ctx.cw, px - 4, py)])
    } else {
        None
    };
    let above = if ctx.avail_luma(px as i32, py as i32 - 1, px, py) {
        proof {
            lemma_grid_cell(ctx.cw as int, ctx.ch as int, px as int, py - 4);
        }
        Some(ctx.nnz_y[grid_index(ctx.cw, px, py - 4)])
    } else {
        None
    };
    derive_nc(left, above)
}

/// A neighbouring chroma block's count, if it is already coded.
pub open spec fn chroma_neighbor_at(c: &Ctx, plane: int, nx: int, ny: int, cx: int, cy: int) -> Option<usize> {
    if nx >= 0 && ny >= 0 && spec_chroma_block_done(c.mbw as int, nx, ny, cx, cy) {
        Some(c.nnz_c[plane]@[spec_grid_index(c.cwc as int, nx, ny)])
    } else {
        None
    }
}

/// `nC` of chroma AC block `(cx, cy)` of `plane`.
pub open spec fn spec_chroma_nc(c: &Ctx, plane: int, cx: int, cy: int) -> i32 {
    let left = chroma_neighbor_at(c, plane, cx - 4, cy, cx, cy);
    let above = chroma_neighbor_at(c, plane, cx, cy - 4, cx, cy);
    match (left, above) {
        (Some(a), Some(b)) => ((a + b + 1) / 2) as i32,
        (Some(a), None) => a as i32,
        (None, Some(b)) => b as i32,
        (None, None) => 0i32,
    }
}

/// `nC` for the chroma AC block at `(cx, cy)` of `plane` (§9.2.1).
pub fn chroma_nc(ctx: &Ctx, plane: usize, cx: u32, cy: u32) -> (nc: i32)
    requires
        ctx_ok(ctx),
        plane < 2,
        cx < ctx.cwc,
        cy < ctx.chc,
        cx % 4 == 0,
        cy % 4 == 0,
    ensures
        nc == spec_chroma_nc(ctx, plane as int, cx as int, cy as int),
{
    let left = if cx >= 4 && chroma_block_done(ctx, cx - 4, cy, cx, cy) {
        proof {
            lemma_grid_cell(ctx.cwc as int, ctx.chc as int, cx - 4, cy as int);
        }
        Some(ctx.nnz_c[plane][grid_index(ctx.cwc, cx - 4, cy)])
    } else {
        None
    };
    let above = if cy >= 4 && chroma_block_done(ctx, cx, cy - 4, cx, cy) {
        proof {
            lemma_grid_cell(ctx.cwc as int, ctx.chc as int, cx as int, cy - 4);
        }
        Some(ctx.nnz_c[plane][grid_index(ctx.cwc, cx, cy - 4)])
    } else {
        None
    };
    proof {
        if cx < 4 {
            assert(cx - 4 < 0);
        }
    }
    derive_nc(left, above)
}

// ---------------------------------------------------------------- reference samples

/// Reconstructed luma sample `(x, y)`.
pub open spec fn luma_sample(c: &Ctx, x: int, y: int) -> int {
    c.ry@[y * c.cw + x] as int
}

/// Reconstructed chroma sample `(x, y)` of `plane`.
pub open spec fn chroma_sample(c: &Ctx, plane: int, x: int, y: int) -> int {
    if plane == 0 {
        c.ru@[y * c.cwc + x] as int
    } else {
        c.rv@[y * c.cwc + x] as int
    }
}

/// `(x, y)` lies inside the luma picture.
pub open spec fn inside_luma(c: &Ctx, x: int, y: int) -> bool {
    0 <= x < c.cw && 0 <= y < c.ch
}

/// `(x, y)` lies inside the chroma picture.
pub open spec fn inside_chroma(c: &Ctx, x: int, y: int) -> bool {
    0 <= x < c.cwc && 0 <= y < c.chc
}

/// A sample inside a `w`×`h` plane indexes it within `u32`.
proof fn lemma_sample_index(w: int, h: int, x: int, y: int)
    requires
        0 <= x < w <= 0x10000,
        0 <= y < h <= 0x10000,
    ensures
        0 <= y * w + x < w * h,
        w * h <= 0x1_0000_0000,
{
    assert(0 <= y * w + x < w * h) by (nonlinear_arith)
        requires
            0 <= x < w,
            0 <= y < h,
    ;
    assert(w * h <= 0x1_0000_0000) by (nonlinear_arith)
        requires
            0 <= w <= 0x10000,
            0 <= h <= 0x10000,
    ;
}

/// The luma sample at `(x, y)`, inside the picture.
fn read_luma(ctx: &Ctx, x: i32, y: i32) -> (v: i32)
    requires
        ctx_ok(ctx),
        0 <= x < ctx.cw,
        0 <= y < ctx.ch,
    ensures
        v == luma_sample(ctx, x as int, y as int),
        0 <= v <= 255,
{
    proof {
        lemma_sample_index(ctx.cw as int, ctx.ch as int, x as int, y as int);
    }
    ctx.ry[(y as u32 * ctx.cw + x as u32) as usize] as i32
}

/// The chroma sample at `(x, y)` of `plane`, inside the picture.
fn read_chroma(ctx: &Ctx, plane: usize, x: i32, y: i32) -> (v: i32)
    requires
        ctx_ok(ctx),
        plane < 2,
        0 <= x < ctx.cwc,
        0 <= y < ctx.chc,
    ensures
        v == chroma_sample(ctx, plane as int, x as int, y as int),
        0 <= v <= 255,
{
    proof {
        lemma_sample_index(ctx.cwc as int, ctx.chc as int, x as int, y as int);
    }
    let i = (y as u32 * ctx.cwc + x as u32) as usize;
    if plane == 0 {
        ctx.ru[i] as i32
    } else {
        ctx.rv[i] as i32
    }
}

/// Whether `n` luma samples from `(x0, y0)` stepping by `(dx, dy)` are all
/// available from the block at `(px, py)`.
pub open spec fn luma_run_avail(c: &Ctx, x0: int, y0: int, dx: int, dy: int, n: int, px: int, py: int) -> bool {
    forall|k: int| 0 <= k < n ==> #[trigger] spec_avail_luma(c, x0 + k * dx, y0 + k * dy, px, py)
}

/// `n` is what [`luma_neighbors`] finds around the 4×4 block at
/// `(px, py)`: each edge and the corner present exactly when available,
/// holding the reconstructed samples, the above-right half substituted
/// from the last above sample when it is not available.
pub open spec fn luma_neighbors_of(c: &Ctx, px: int, py: int, n: Neighbors4) -> bool {
    &&& (n.left is Some) == luma_run_avail(c, px - 1, py, 0, 1, 4, px, py)
    &&& (n.left matches Some(l) ==> forall|k: int| 0 <= k < 4 ==> #[trigger] l[k] == luma_sample(c, px - 1, py + k))
    &&& (n.corner is Some) == spec_avail_luma(c, px - 1, py - 1, px, py)
    &&& (n.corner matches Some(v) ==> v == luma_sample(c, px - 1, py - 1))
    &&& (n.above is Some) == luma_run_avail(c, px, py - 1, 1, 0, 4, px, py)
    &&& (n.above matches Some(a) ==> (forall|k: int| 0 <= k < 4 ==> #[trigger] a[k] == luma_sample(c, px + k, py - 1))
        && (forall|k: int|
        4 <= k < 8 ==> #[trigger] a[k] == if luma_run_avail(c, px + 4, py - 1, 1, 0, 4, px, py) {
            luma_sample(c, px + k, py - 1)
        } else {
            luma_sample(c, px + 3, py - 1)
        }))
}

/// `n` is what [`luma16_neighbors`] finds around the macroblock at
/// `(mbx, mby)`: each edge and the corner present exactly when available,
/// holding the reconstructed samples.
pub open spec fn luma16_neighbors_of(c: &Ctx, mbx: int, mby: int, n: Neighbors16) -> bool {
    &&& (n.above is Some) == luma_run_avail(c, 16 * mbx, 16 * mby - 1, 1, 0, 16, 16 * mbx, 16 * mby)
    &&& (n.above matches Some(a) ==> forall|k: int|
        0 <= k < 16 ==> #[trigger] a[k] == luma_sample(c, 16 * mbx + k, 16 * mby - 1))
    &&& (n.left is Some) == luma_run_avail(c, 16 * mbx - 1, 16 * mby, 0, 1, 16, 16 * mbx, 16 * mby)
    &&& (n.left matches Some(l) ==> forall|k: int|
        0 <= k < 16 ==> #[trigger] l[k] == luma_sample(c, 16 * mbx - 1, 16 * mby + k))
    &&& (n.corner is Some) == spec_avail_luma(c, 16 * mbx - 1, 16 * mby - 1, 16 * mbx, 16 * mby)
    &&& (n.corner matches Some(v) ==> v == luma_sample(c, 16 * mbx - 1, 16 * mby - 1))
}

/// Neighbours read from an 8-bit picture are 8-bit samples.
pub proof fn lemma_luma16_neighbors_8bit(c: &Ctx, mbx: int, mby: int, n: Neighbors16)
    requires
        luma16_neighbors_of(c, mbx, mby, n),
    ensures
        intra::neighbors16_8bit(n),
{
    if let Some(a) = n.above {
        assert forall|i: int| 0 <= i < 16 implies 0 <= #[trigger] a[i] <= 255 by {
            assert(a[i] == luma_sample(c, 16 * mbx + i, 16 * mby - 1));
        }
    }
    if let Some(l) = n.left {
        assert forall|i: int| 0 <= i < 16 implies 0 <= #[trigger] l[i] <= 255 by {
            assert(l[i] == luma_sample(c, 16 * mbx - 1, 16 * mby + i));
        }
    }
}

/// [`luma_run_avail`], computed.
fn luma_run_available(ctx: &Ctx, x0: i32, y0: i32, dx: i32, dy: i32, n: i32, px: u32, py: u32) -> (b: bool)
    requires
        ctx_ok(ctx),
        px < ctx.cw,
        py < ctx.ch,
        -1 <= x0 <= 0x10010,
        -1 <= y0 <= 0x10010,
        0 <= dx <= 1,
        0 <= dy <= 1,
        0 <= n <= 16,
    ensures
        b == luma_run_avail(ctx, x0 as int, y0 as int, dx as int, dy as int, n as int, px as int, py as int),
{
    let mut k: i32 = 0;
    while k < n
        invariant
            ctx_ok(ctx),
            px < ctx.cw,
            py < ctx.ch,
            -1 <= x0 <= 0x10010,
            -1 <= y0 <= 0x10010,
            0 <= dx <= 1,
            0 <= dy <= 1,
            0 <= k <= n <= 16,
            forall|j: int| 0 <= j < k ==> #[trigger] spec_avail_luma(ctx, x0 + j * dx, y0 + j * dy, px as int, py as int),
        decreases n - k,
    {
        if !ctx.avail_luma(x0 + k * dx, y0 + k * dy, px, py) {
            return false;
        }
        k = k + 1;
    }
    true
}

/// Whether `n` chroma samples from `(x0, y0)` stepping by `(dx, dy)` all
/// belong to macroblocks before `(mbx, mby)`.
pub open spec fn chroma_run_avail(c: &Ctx, x0: int, y0: int, dx: int, dy: int, n: int, mbx: int, mby: int) -> bool {
    forall|k: int| 0 <= k < n ==> #[trigger] spec_avail_chroma(c, x0 + k * dx, y0 + k * dy, mbx, mby)
}

/// `n` is what [`chroma_neighbors_plane`] finds around the macroblock at
/// `(mbx, mby)` in chroma plane `plane`: each edge and the corner present
/// exactly when available, holding the reconstructed samples.
pub open spec fn chroma_neighbors_of(c: &Ctx, mbx: int, mby: int, plane: int, n: NeighborsC) -> bool {
    &&& (n.above is Some) == chroma_run_avail(c, 8 * mbx, 8 * mby - 1, 1, 0, 8, mbx, mby)
    &&& (n.above matches Some(a) ==> forall|k: int|
        0 <= k < 8 ==> #[trigger] a[k] == chroma_sample(c, plane, 8 * mbx + k, 8 * mby - 1))
    &&& (n.left is Some) == chroma_run_avail(c, 8 * mbx - 1, 8 * mby, 0, 1, 8, mbx, mby)
    &&& (n.left matches Some(l) ==> forall|k: int|
        0 <= k < 8 ==> #[trigger] l[k] == chroma_sample(c, plane, 8 * mbx - 1, 8 * mby + k))
    &&& (n.corner is Some) == spec_avail_chroma(c, 8 * mbx - 1, 8 * mby - 1, mbx, mby)
    &&& (n.corner matches Some(v) ==> v == chroma_sample(c, plane, 8 * mbx - 1, 8 * mby - 1))
}

/// [`chroma_run_avail`], computed.
fn chroma_run_available(ctx: &Ctx, x0: i32, y0: i32, dx: i32, dy: i32, n: i32, mbx: usize, mby: usize) -> (b: bool)
    requires
        ctx_ok(ctx),
        mbx < ctx.mbw,
        mby < ctx.ch / 16,
        -1 <= x0 <= 0x10010,
        -1 <= y0 <= 0x10010,
        0 <= dx <= 1,
        0 <= dy <= 1,
        0 <= n <= 16,
    ensures
        b == chroma_run_avail(ctx, x0 as int, y0 as int, dx as int, dy as int, n as int, mbx as int, mby as int),
{
    let mut k: i32 = 0;
    while k < n
        invariant
            ctx_ok(ctx),
            mbx < ctx.mbw,
            mby < ctx.ch / 16,
            -1 <= x0 <= 0x10010,
            -1 <= y0 <= 0x10010,
            0 <= dx <= 1,
            0 <= dy <= 1,
            0 <= k <= n <= 16,
            forall|j: int|
                0 <= j < k ==> #[trigger] spec_avail_chroma(ctx, x0 + j * dx, y0 + j * dy, mbx as int, mby as int),
        decreases n - k,
    {
        if !ctx.avail_chroma(x0 + k * dx, y0 + k * dy, mbx, mby) {
            return false;
        }
        k = k + 1;
    }
    true
}

/// `n` luma samples from `(x0, y0)` stepping by `(dx, dy)`, all inside.
fn luma_run(ctx: &Ctx, x0: i32, y0: i32, dx: i32, dy: i32, n: i32) -> (v: Vec<i32>)
    requires
        ctx_ok(ctx),
        0 <= dx <= 1,
        0 <= dy <= 1,
        0 <= n <= 16,
        forall|k: int| 0 <= k < n ==> #[trigger] inside_luma(ctx, x0 + k * dx, y0 + k * dy),
    ensures
        v@.len() == n,
        forall|k: int| 0 <= k < n ==> #[trigger] v@[k] == luma_sample(ctx, x0 + k * dx, y0 + k * dy),
        forall|k: int| 0 <= k < n ==> 0 <= #[trigger] v@[k] <= 255,
{
    let mut v: Vec<i32> = Vec::new();
    let mut k: i32 = 0;
    while k < n
        invariant
            ctx_ok(ctx),
            0 <= dx <= 1,
            0 <= dy <= 1,
            0 <= k <= n <= 16,
            forall|j: int| 0 <= j < n ==> #[trigger] inside_luma(ctx, x0 + j * dx, y0 + j * dy),
            v@.len() == k,
            forall|j: int| 0 <= j < k ==> #[trigger] v@[j] == luma_sample(ctx, x0 + j * dx, y0 + j * dy),
            forall|j: int| 0 <= j < k ==> 0 <= #[trigger] v@[j] <= 255,
        decreases n - k,
    {
        assert(inside_luma(ctx, x0 + k * dx, y0 + k * dy));
        v.push(read_luma(ctx, x0 + k * dx, y0 + k * dy));
        k = k + 1;
    }
    v
}

/// `n` chroma samples of `plane` from `(x0, y0)` stepping by `(dx, dy)`.
fn chroma_run(ctx: &Ctx, plane: usize, x0: i32, y0: i32, dx: i32, dy: i32, n: i32) -> (v: Vec<i32>)
    requires
        ctx_ok(ctx),
        plane < 2,
        0 <= dx <= 1,
        0 <= dy <= 1,
        0 <= n <= 16,
        forall|k: int| 0 <= k < n ==> #[trigger] inside_chroma(ctx, x0 + k * dx, y0 + k * dy),
    ensures
        v@.len() == n,
        forall|k: int| 0 <= k < n ==> #[trigger] v@[k] == chroma_sample(ctx, plane as int, x0 + k * dx, y0 + k * dy),
        forall|k: int| 0 <= k < n ==> 0 <= #[trigger] v@[k] <= 255,
{
    let mut v: Vec<i32> = Vec::new();
    let mut k: i32 = 0;
    while k < n
        invariant
            ctx_ok(ctx),
            plane < 2,
            0 <= dx <= 1,
            0 <= dy <= 1,
            0 <= k <= n <= 16,
            forall|j: int| 0 <= j < n ==> #[trigger] inside_chroma(ctx, x0 + j * dx, y0 + j * dy),
            v@.len() == k,
            forall|j: int| 0 <= j < k ==> #[trigger] v@[j] == chroma_sample(ctx, plane as int, x0 + j * dx, y0 + j * dy),
            forall|j: int| 0 <= j < k ==> 0 <= #[trigger] v@[j] <= 255,
        decreases n - k,
    {
        assert(inside_chroma(ctx, x0 + k * dx, y0 + k * dy));
        v.push(read_chroma(ctx, plane, x0 + k * dx, y0 + k * dy));
        k = k + 1;
    }
    v
}

/// Reference samples of the 4×4 luma block at `(px, py)`: the row above
/// with the four above-right, the column to the left and the corner, each
/// present only where every sample of it is reconstructed already.
pub fn luma_neighbors(ctx: &Ctx, px: u32, py: u32) -> (n: Neighbors4)
    requires
        ctx_ok(ctx),
        px < ctx.cw,
        py < ctx.ch,
    ensures
        intra::neighbors4_ok(n),
        (n.left is Some) == luma_run_avail(ctx, px - 1, py as int, 0, 1, 4, px as int, py as int),
        n.left matches Some(l) ==> forall|k: int| 0 <= k < 4 ==> #[trigger] l[k] == luma_sample(ctx, px - 1, py + k),
        (n.corner is Some) == spec_avail_luma(ctx, px - 1, py - 1, px as int, py as int),
        n.corner matches Some(c) ==> c == luma_sample(ctx, px - 1, py - 1),
        (n.above is Some) == luma_run_avail(ctx, px as int, py - 1, 1, 0, 4, px as int, py as int),
        n.above matches Some(a) ==> (forall|k: int| 0 <= k < 4 ==> #[trigger] a[k] == luma_sample(ctx, px + k, py - 1))
            && (forall|k: int|
            4 <= k < 8 ==> #[trigger] a[k] == if luma_run_avail(ctx, px + 4, py - 1, 1, 0, 4, px as int, py as int) {
                luma_sample(ctx, px + k, py - 1)
            } else {
                luma_sample(ctx, px + 3, py - 1)
            }),
        luma_neighbors_of(ctx, px as int, py as int, n),
{
    let xi = px as i32;
    let yi = py as i32;
    let above = if luma_run_available(ctx, xi, yi - 1, 1, 0, 4, px, py) {
        proof {
            assert forall|k: int| 0 <= k < 4 implies #[trigger] inside_luma(ctx, xi + k * 1, (yi - 1) + k * 0) by {
                assert(spec_avail_luma(ctx, xi + k * 1, (yi - 1) + k * 0, px as int, py as int));
            }
        }
        let v = luma_run(ctx, xi, yi - 1, 1, 0, 4);
        Some([v[0], v[1], v[2], v[3]])
    } else {
        None
    };
    let above_right = if luma_run_available(ctx, xi + 4, yi - 1, 1, 0, 4, px, py) {
        proof {
            assert forall|k: int| 0 <= k < 4 implies #[trigger] inside_luma(ctx, (xi + 4) + k * 1, (yi - 1) + k * 0) by {
                assert(spec_avail_luma(ctx, (xi + 4) + k * 1, (yi - 1) + k * 0, px as int, py as int));
            }
        }
        let v = luma_run(ctx, xi + 4, yi - 1, 1, 0, 4);
        Some([v[0], v[1], v[2], v[3]])
    } else {
        None
    };
    let left = if luma_run_available(ctx, xi - 1, yi, 0, 1, 4, px, py) {
        proof {
            assert forall|k: int| 0 <= k < 4 implies #[trigger] inside_luma(ctx, (xi - 1) + k * 0, yi + k * 1) by {
                assert(spec_avail_luma(ctx, (xi - 1) + k * 0, yi + k * 1, px as int, py as int));
            }
        }
        let v = luma_run(ctx, xi - 1, yi, 0, 1, 4);
        Some([v[0], v[1], v[2], v[3]])
    } else {
        None
    };
    let corner = if ctx.avail_luma(xi - 1, yi - 1, px, py) {
        Some(read_luma(ctx, xi - 1, yi - 1))
    } else {
        None
    };
    let n = Neighbors4::new(above, above_right, left, corner);
    proof {
        if let Some(a) = n.above {
            let a4 = above.unwrap();
            assert(forall|k: int| 0 <= k < 4 ==> 0 <= #[trigger] a4[k] <= 255);
            if let Some(ar) = above_right {
                assert(forall|k: int| 0 <= k < 4 ==> 0 <= #[trigger] ar[k] <= 255);
            }
            assert forall|k: int| 0 <= k < 8 implies -intra::SAMPLE_BOUND <= #[trigger] a@[k] <= intra::SAMPLE_BOUND by {
                assert(a@[k] == a[k]);
                if k >= 4 {
                    if let Some(ar) = above_right {
                        assert(0 <= ar[k - 4] <= 255);
                    } else {
                        assert(0 <= a4[3] <= 255);
                    }
                }
            }
            assert forall|k: int| 0 <= k < 4 implies #[trigger] a[k] == luma_sample(ctx, px + k, py - 1) by {
                assert(above.unwrap()[k] == luma_sample(ctx, xi + k * 1, (yi - 1) + k * 0));
            }
        }
        if let Some(l) = n.left {
            assert forall|k: int| 0 <= k < 4 implies -intra::SAMPLE_BOUND <= #[trigger] l@[k] <= intra::SAMPLE_BOUND by {
                assert(l@[k] == l[k]);
            }
            assert forall|k: int| 0 <= k < 4 implies #[trigger] l[k] == luma_sample(ctx, px - 1, py + k) by {
                assert(left.unwrap()[k] == luma_sample(ctx, (xi - 1) + k * 0, yi + k * 1));
            }
        }
    }
    n
}

/// Reference samples along the top and left edges of the whole macroblock
/// at `(mbx, mby)`, and its corner.
pub fn luma16_neighbors(ctx: &Ctx, mbx: usize, mby: usize) -> (n: Neighbors16)
    requires
        ctx_ok(ctx),
        mbx < ctx.mbw,
        mby < ctx.ch / 16,
    ensures
        intra::neighbors16_ok(n),
        (n.above is Some) == luma_run_avail(ctx, 16 * mbx, 16 * mby - 1, 1, 0, 16, 16 * mbx, 16 * mby),
        n.above matches Some(a) ==> forall|k: int| 0 <= k < 16 ==> #[trigger] a[k] == luma_sample(ctx, 16 * mbx + k, 16 * mby - 1),
        (n.left is Some) == luma_run_avail(ctx, 16 * mbx - 1, 16 * mby, 0, 1, 16, 16 * mbx, 16 * mby),
        n.left matches Some(l) ==> forall|k: int| 0 <= k < 16 ==> #[trigger] l[k] == luma_sample(ctx, 16 * mbx - 1, 16 * mby + k),
        (n.corner is Some) == spec_avail_luma(ctx, 16 * mbx - 1, 16 * mby - 1, 16 * mbx, 16 * mby),
        n.corner matches Some(c) ==> c == luma_sample(ctx, 16 * mbx - 1, 16 * mby - 1),
        luma16_neighbors_of(ctx, mbx as int, mby as int, n),
{
    proof {
        assert(16 * mbx < ctx.cw && 16 * mby < ctx.ch);
    }
    let xi = (mbx * 16) as i32;
    let yi = (mby * 16) as i32;
    let bx = xi as u32;
    let by = yi as u32;
    let above = if luma_run_available(ctx, xi, yi - 1, 1, 0, 16, bx, by) {
        proof {
            assert forall|k: int| 0 <= k < 16 implies #[trigger] inside_luma(ctx, xi + k * 1, (yi - 1) + k * 0) by {
                assert(spec_avail_luma(ctx, xi + k * 1, (yi - 1) + k * 0, bx as int, by as int));
            }
        }
        let v = luma_run(ctx, xi, yi - 1, 1, 0, 16);
        Some([v[0], v[1], v[2], v[3], v[4], v[5], v[6], v[7], v[8], v[9], v[10], v[11], v[12], v[13], v[14], v[15]])
    } else {
        None
    };
    let left = if luma_run_available(ctx, xi - 1, yi, 0, 1, 16, bx, by) {
        proof {
            assert forall|k: int| 0 <= k < 16 implies #[trigger] inside_luma(ctx, (xi - 1) + k * 0, yi + k * 1) by {
                assert(spec_avail_luma(ctx, (xi - 1) + k * 0, yi + k * 1, bx as int, by as int));
            }
        }
        let v = luma_run(ctx, xi - 1, yi, 0, 1, 16);
        Some([v[0], v[1], v[2], v[3], v[4], v[5], v[6], v[7], v[8], v[9], v[10], v[11], v[12], v[13], v[14], v[15]])
    } else {
        None
    };
    let corner = if ctx.avail_luma(xi - 1, yi - 1, bx, by) {
        Some(read_luma(ctx, xi - 1, yi - 1))
    } else {
        None
    };
    let n = Neighbors16 { above, left, corner };
    proof {
        if let Some(a) = n.above {
            assert forall|k: int| 0 <= k < 16 implies -intra::SAMPLE_BOUND <= #[trigger] a@[k] <= intra::SAMPLE_BOUND by {
                assert(a@[k] == a[k]);
            }
        }
        if let Some(l) = n.left {
            assert forall|k: int| 0 <= k < 16 implies -intra::SAMPLE_BOUND <= #[trigger] l@[k] <= intra::SAMPLE_BOUND by {
                assert(l@[k] == l[k]);
            }
        }
    }
    n
}

/// Reference samples of one chroma plane around the macroblock at
/// `(mbx, mby)`: its 8×8 block's top and left edges and corner.
pub fn chroma_neighbors_plane(ctx: &Ctx, mbx: usize, mby: usize, plane: usize) -> (n: NeighborsC)
    requires
        ctx_ok(ctx),
        mbx < ctx.mbw,
        mby < ctx.ch / 16,
        plane < 2,
    ensures
        intra::neighbors_c_ok(n),
        (n.above is Some) == chroma_run_avail(ctx, 8 * mbx, 8 * mby - 1, 1, 0, 8, mbx as int, mby as int),
        n.above matches Some(a) ==> forall|k: int|
            0 <= k < 8 ==> #[trigger] a[k] == chroma_sample(ctx, plane as int, 8 * mbx + k, 8 * mby - 1),
        (n.left is Some) == chroma_run_avail(ctx, 8 * mbx - 1, 8 * mby, 0, 1, 8, mbx as int, mby as int),
        n.left matches Some(l) ==> forall|k: int|
            0 <= k < 8 ==> #[trigger] l[k] == chroma_sample(ctx, plane as int, 8 * mbx - 1, 8 * mby + k),
        (n.corner is Some) == spec_avail_chroma(ctx, 8 * mbx - 1, 8 * mby - 1, mbx as int, mby as int),
        n.corner matches Some(c) ==> c == chroma_sample(ctx, plane as int, 8 * mbx - 1, 8 * mby - 1),
        chroma_neighbors_of(ctx, mbx as int, mby as int, plane as int, n),
{
    let xi = (mbx * 8) as i32;
    let yi = (mby * 8) as i32;
    let above = if chroma_run_available(ctx, xi, yi - 1, 1, 0, 8, mbx, mby) {
        proof {
            assert forall|k: int| 0 <= k < 8 implies #[trigger] inside_chroma(ctx, xi + k * 1, (yi - 1) + k * 0) by {
                assert(spec_avail_chroma(ctx, xi + k * 1, (yi - 1) + k * 0, mbx as int, mby as int));
            }
        }
        let v = chroma_run(ctx, plane, xi, yi - 1, 1, 0, 8);
        Some([v[0], v[1], v[2], v[3], v[4], v[5], v[6], v[7]])
    } else {
        None
    };
    let left = if chroma_run_available(ctx, xi - 1, yi, 0, 1, 8, mbx, mby) {
        proof {
            assert forall|k: int| 0 <= k < 8 implies #[trigger] inside_chroma(ctx, (xi - 1) + k * 0, yi + k * 1) by {
                assert(spec_avail_chroma(ctx, (xi - 1) + k * 0, yi + k * 1, mbx as int, mby as int));
            }
        }
        let v = chroma_run(ctx, plane, xi - 1, yi, 0, 1, 8);
        Some([v[0], v[1], v[2], v[3], v[4], v[5], v[6], v[7]])
    } else {
        None
    };
    let corner = if ctx.avail_chroma(xi - 1, yi - 1, mbx, mby) {
        Some(read_chroma(ctx, plane, xi - 1, yi - 1))
    } else {
        None
    };
    let n = NeighborsC { above, left, corner };
    proof {
        if let Some(a) = n.above {
            assert forall|k: int| 0 <= k < 8 implies -intra::SAMPLE_BOUND <= #[trigger] a@[k] <= intra::SAMPLE_BOUND by {
                assert(a@[k] == a[k]);
            }
        }
        if let Some(l) = n.left {
            assert forall|k: int| 0 <= k < 8 implies -intra::SAMPLE_BOUND <= #[trigger] l@[k] <= intra::SAMPLE_BOUND by {
                assert(l@[k] == l[k]);
            }
        }
    }
    n
}

/// The chroma reference samples used to choose the shared chroma mode: the
/// first plane's, since both planes are scored together and the bitstream
/// signals one mode for both.
pub fn chroma_neighbors(ctx: &Ctx, mbx: usize, mby: usize) -> (n: NeighborsC)
    requires
        ctx_ok(ctx),
        mbx < ctx.mbw,
        mby < ctx.ch / 16,
    ensures
        intra::neighbors_c_ok(n),
        (n.above is Some) == chroma_run_avail(ctx, 8 * mbx, 8 * mby - 1, 1, 0, 8, mbx as int, mby as int),
        n.above matches Some(a) ==> forall|k: int|
            0 <= k < 8 ==> #[trigger] a[k] == chroma_sample(ctx, 0, 8 * mbx + k, 8 * mby - 1),
        (n.left is Some) == chroma_run_avail(ctx, 8 * mbx - 1, 8 * mby, 0, 1, 8, mbx as int, mby as int),
        n.left matches Some(l) ==> forall|k: int|
            0 <= k < 8 ==> #[trigger] l[k] == chroma_sample(ctx, 0, 8 * mbx - 1, 8 * mby + k),
        (n.corner is Some) == spec_avail_chroma(ctx, 8 * mbx - 1, 8 * mby - 1, mbx as int, mby as int),
        n.corner matches Some(c) ==> c == chroma_sample(ctx, 0, 8 * mbx - 1, 8 * mby - 1),
{
    chroma_neighbors_plane(ctx, mbx, mby, 0)
}

// ---------------------------------------------------------------- CABAC context increments

/// The neighbouring macroblock summary at offset `(dx, dy)`, as
/// [`Ctx::neighbor`] reads it.
pub open spec fn spec_neighbor(c: &Ctx, mbx: int, mby: int, dx: int, dy: int) -> MbNeighbor {
    let x = mbx + dx;
    let y = mby + dy;
    if x < 0 || y < 0 || x >= c.mbw || y * c.mbw + x >= c.mb@.len() {
        no_neighbor()
    } else {
        c.mb@[y * c.mbw + x]
    }
}

/// Whether the 8×8 luma block `idx` of a pattern `cbp` has no coefficients.
pub open spec fn cbp_zero(cbp: u32, idx: int) -> bool {
    (cbp >> (idx as u32)) & 1 == 0
}

/// `ctxIdxInc` of the luma bin of `coded_block_pattern` for 8×8 block `b8`
/// (§9.3.3.1.1.4): the left and above 8×8 blocks each count when present
/// and without coefficients — inside this macroblock they come from the
/// pattern decided so far.
pub open spec fn spec_cbp_luma_ctx_inc(c: &Ctx, mbx: int, mby: int, b8: int, cbp_here: u32) -> int {
    let left = if b8 % 2 == 1 {
        cbp_zero(cbp_here, b8 - 1)
    } else {
        let n = spec_neighbor(c, mbx, mby, -1, 0);
        n.avail && cbp_zero(n.cbp_luma, b8 + 1)
    };
    let above = if b8 >= 2 {
        cbp_zero(cbp_here, b8 - 2)
    } else {
        let n = spec_neighbor(c, mbx, mby, 0, -1);
        n.avail && cbp_zero(n.cbp_luma, b8 + 2)
    };
    (if left {
        1int
    } else {
        0
    }) + 2 * (if above {
        1int
    } else {
        0
    })
}

/// `ctxIdxInc` for the luma bins of `coded_block_pattern`.
pub fn cbp_luma_ctx_inc(ctx: &Ctx, mbx: usize, mby: usize, b8: usize, cbp_here: u32) -> (inc: usize)
    requires
        ctx_ok(ctx),
        mbx < ctx.mbw,
        mby < ctx.ch / 16,
        b8 < 4,
    ensures
        inc == spec_cbp_luma_ctx_inc(ctx, mbx as int, mby as int, b8 as int, cbp_here),
{
    let left = if b8 % 2 == 1 {
        (cbp_here >> ((b8 - 1) as u32)) & 1 == 0
    } else {
        let n = ctx.neighbor(mbx, mby, -1, 0);
        n.avail && (n.cbp_luma >> ((b8 + 1) as u32)) & 1 == 0
    };
    let above = if b8 >= 2 {
        (cbp_here >> ((b8 - 2) as u32)) & 1 == 0
    } else {
        let n = ctx.neighbor(mbx, mby, 0, -1);
        n.avail && (n.cbp_luma >> ((b8 + 2) as u32)) & 1 == 0
    };
    let l: usize = if left {
        1
    } else {
        0
    };
    let a: usize = if above {
        1
    } else {
        0
    };
    l + 2 * a
}

/// One neighbour's share of a luma `coded_block_flag` context: 1 when it is
/// unavailable (an intra macroblock reads absence as "expect coefficients"),
/// else whether it has coefficients.
pub open spec fn luma_cbf_flag(c: &Ctx, nx: int, ny: int, px: int, py: int) -> int {
    if !spec_avail_luma(c, nx, ny, px, py) {
        1
    } else if c.nnz_y@[spec_grid_index(c.cw as int, nx, ny)] > 0 {
        1
    } else {
        0
    }
}

/// `ctxIdxInc` for a luma 4×4 block's `coded_block_flag` (§9.3.3.1.1.9).
pub fn luma_cbf_inc(ctx: &Ctx, px: u32, py: u32) -> (inc: usize)
    requires
        ctx_ok(ctx),
        px < ctx.cw,
        py < ctx.ch,
    ensures
        inc == luma_cbf_flag(ctx, px - 1, py as int, px as int, py as int) + 2 * luma_cbf_flag(
            ctx,
            px as int,
            py - 1,
            px as int,
            py as int,
        ),
{
    let l: usize = if !ctx.avail_luma(px as i32 - 1, py as i32, px, py) {
        1
    } else {
        proof {
            lemma_grid_cell(ctx.cw as int, ctx.ch as int, px - 1, py as int);
        }
        if ctx.nnz_y[grid_index(ctx.cw, px - 1, py)] > 0 {
            1
        } else {
            0
        }
    };
    let a: usize = if !ctx.avail_luma(px as i32, py as i32 - 1, px, py) {
        1
    } else {
        proof {
            lemma_grid_cell(ctx.cw as int, ctx.ch as int, px as int, py - 1);
        }
        if ctx.nnz_y[grid_index(ctx.cw, px, py - 1)] > 0 {
            1
        } else {
            0
        }
    };
    l + 2 * a
}

/// One neighbour's share of the `I_16x16` luma DC context: 1 when it is
/// missing, else whether it was itself `I_16x16` with DC coefficients.
pub open spec fn dc_cbf_flag(n: MbNeighbor) -> int {
    if !n.avail {
        1
    } else if n.i16 && n.dc_cbf {
        1
    } else {
        0
    }
}

/// `ctxIdxInc` for the `I_16x16` luma DC block. Against an `I_NxN`
/// neighbour there is no DC block to consult, which scores zero rather than
/// the missing neighbour's one.
pub fn dc_cbf_inc(ctx: &Ctx, mbx: usize, mby: usize) -> (inc: usize)
    requires
        ctx_ok(ctx),
        mbx < ctx.mbw,
        mby < ctx.ch / 16,
    ensures
        inc == dc_cbf_flag(spec_neighbor(ctx, mbx as int, mby as int, -1, 0)) + 2 * dc_cbf_flag(
            spec_neighbor(ctx, mbx as int, mby as int, 0, -1),
        ),
{
    let l = ctx.neighbor(mbx, mby, -1, 0);
    let a = ctx.neighbor(mbx, mby, 0, -1);
    let fl: usize = if !l.avail {
        1
    } else if l.i16 && l.dc_cbf {
        1
    } else {
        0
    };
    let fa: usize = if !a.avail {
        1
    } else if a.i16 && a.dc_cbf {
        1
    } else {
        0
    };
    fl + 2 * fa
}

/// One neighbour's share of a chroma DC `coded_block_flag` context: 1 when
/// missing, 0 when it had no chroma DC block, else whether that block of
/// `plane` carried coefficients.
pub open spec fn chroma_dc_cbf_flag(n: MbNeighbor, plane: int) -> int {
    if !n.avail {
        1
    } else if n.cbp_chroma == 0 {
        0
    } else if n.chroma_dc_cbf[plane] {
        1
    } else {
        0
    }
}

/// `ctxIdxInc` for a chroma DC block's `coded_block_flag`: what counts is
/// whether the neighbour's DC block carried coefficients, not only that it
/// was present.
pub fn chroma_dc_cbf_inc(ctx: &Ctx, mbx: usize, mby: usize, plane: usize) -> (inc: usize)
    requires
        ctx_ok(ctx),
        mbx < ctx.mbw,
        mby < ctx.ch / 16,
        plane < 2,
    ensures
        inc == chroma_dc_cbf_flag(spec_neighbor(ctx, mbx as int, mby as int, -1, 0), plane as int) + 2
            * chroma_dc_cbf_flag(spec_neighbor(ctx, mbx as int, mby as int, 0, -1), plane as int),
{
    let l = ctx.neighbor(mbx, mby, -1, 0);
    let a = ctx.neighbor(mbx, mby, 0, -1);
    let fl: usize = if !l.avail {
        1
    } else if l.cbp_chroma == 0 {
        0
    } else if l.chroma_dc_cbf[plane] {
        1
    } else {
        0
    };
    let fa: usize = if !a.avail {
        1
    } else if a.cbp_chroma == 0 {
        0
    } else if a.chroma_dc_cbf[plane] {
        1
    } else {
        0
    };
    fl + 2 * fa
}

/// One neighbour's share of a chroma AC `coded_block_flag` context: 1 when
/// it is outside the picture or not coded yet, 0 when its macroblock carried
/// no chroma AC, else whether it has coefficients.
pub open spec fn chroma_ac_cbf_flag(c: &Ctx, plane: int, nx: int, ny: int, cx: int, cy: int, mbx: int, mby: int, cur_cbp_chroma: u32) -> int {
    if nx < 0 || ny < 0 || !spec_chroma_block_done(c.mbw as int, nx, ny, cx, cy) {
        1
    } else {
        let mx = nx / 8;
        let my = ny / 8;
        let cbp = if mx == mbx && my == mby {
            cur_cbp_chroma
        } else {
            c.mb@[my * c.mbw + mx].cbp_chroma
        };
        if cbp != 2 {
            0
        } else if c.nnz_c[plane]@[spec_grid_index(c.cwc as int, nx, ny)] > 0 {
            1
        } else {
            0
        }
    }
}

/// `ctxIdxInc` for a chroma AC block's `coded_block_flag`. This
/// macroblock's own `cbp_chroma` is passed in: three of the four blocks have
/// a neighbour inside the current macroblock, whose summary is only recorded
/// once it is written.
pub fn chroma_ac_cbf_inc(
    ctx: &Ctx,
    plane: usize,
    cx: u32,
    cy: u32,
    mbx: usize,
    mby: usize,
    cur_cbp_chroma: u32,
) -> (inc: usize)
    requires
        ctx_ok(ctx),
        plane < 2,
        cx < ctx.cwc,
        cy < ctx.chc,
    ensures
        inc == chroma_ac_cbf_flag(ctx, plane as int, cx - 1, cy as int, cx as int, cy as int, mbx as int, mby as int, cur_cbp_chroma)
            + 2 * chroma_ac_cbf_flag(ctx, plane as int, cx as int, cy - 1, cx as int, cy as int, mbx as int, mby as int, cur_cbp_chroma),
{
    let l = chroma_ac_flag(ctx, plane, cx as i32 - 1, cy as i32, cx, cy, mbx, mby, cur_cbp_chroma);
    let a = chroma_ac_flag(ctx, plane, cx as i32, cy as i32 - 1, cx, cy, mbx, mby, cur_cbp_chroma);
    l + 2 * a
}

/// One neighbour's share of [`chroma_ac_cbf_inc`].
fn chroma_ac_flag(
    ctx: &Ctx,
    plane: usize,
    nx: i32,
    ny: i32,
    cx: u32,
    cy: u32,
    mbx: usize,
    mby: usize,
    cur_cbp_chroma: u32,
) -> (f: usize)
    requires
        ctx_ok(ctx),
        plane < 2,
        cx < ctx.cwc,
        cy < ctx.chc,
        cx - 1 <= nx <= cx,
        cy - 1 <= ny <= cy,
    ensures
        f == chroma_ac_cbf_flag(ctx, plane as int, nx as int, ny as int, cx as int, cy as int, mbx as int, mby as int, cur_cbp_chroma),
{
    if nx < 0 || ny < 0 {
        return 1;
    }
    let nxu = nx as u32;
    let nyu = ny as u32;
    if !chroma_block_done(ctx, nxu, nyu, cx, cy) {
        return 1;
    }
    let mx = (nxu / 8) as usize;
    let my = (nyu / 8) as usize;
    proof {
        lemma_mb_index(ctx, 2 * (nxu as int), 2 * (nyu as int));
        assert((2 * (nxu as int)) / 16 == (nxu as int) / 8 && (2 * (nyu as int)) / 16 == (nyu as int) / 8);
    }
    let cbp = if mx == mbx && my == mby {
        cur_cbp_chroma
    } else {
        ctx.mb[my * ctx.mbw + mx].cbp_chroma
    };
    if cbp != 2 {
        return 0;
    }
    proof {
        lemma_grid_cell(ctx.cwc as int, ctx.chc as int, nxu as int, nyu as int);
    }
    if ctx.nnz_c[plane][grid_index(ctx.cwc, nxu, nyu)] > 0 {
        1
    } else {
        0
    }
}

// ---------------------------------------------------------------- mode decision

/// `Σ_{k<m} |orig[k] − pred[k]|`.
pub open spec fn sad_prefix(orig: Seq<i32>, pred: Seq<int>, m: int) -> int
    decreases m,
{
    if m <= 0 {
        0
    } else {
        sad_prefix(orig, pred, m - 1) + abs(orig[m - 1] - pred[m - 1])
    }
}

/// The 4×4 mode decision after trying modes `0..m` in order: the best SAD
/// so far and its mode, starting from `(u32::MAX, DC)` and replaced only by
/// an allowed mode with a strictly smaller SAD.
pub open spec fn best4_scan(orig: Seq<i32>, n: Neighbors4, m: int) -> (int, u8)
    decreases m,
{
    if m <= 0 {
        (0xffff_ffff, intra::DC)
    } else {
        let prev = best4_scan(orig, n, m - 1);
        let mode = (m - 1) as u8;
        let sad = sad_prefix(orig, intra::spec_predict4(mode, n), 16);
        if intra::spec_allowed(mode, n) && sad < prev.0 {
            (sad, mode)
        } else {
            prev
        }
    }
}

/// Every sample of `s` lies within [`SAMPLE_BOUND`].
pub open spec fn block_ok(s: Seq<i32>) -> bool {
    forall|k: int| 0 <= k < s.len() ==> -SAMPLE_BOUND <= #[trigger] s[k] <= SAMPLE_BOUND
}

/// The SAD of an in-range block against an in-range prediction, over its
/// first `m` samples.
fn sad_of(orig: &[i32], pred: &[i32], m: usize) -> (s: u32)
    requires
        m <= 256,
        orig@.len() >= m,
        pred@.len() >= m,
        block_ok(orig@),
        block_ok(pred@),
    ensures
        s == sad_prefix(orig@, pred@.map_values(|v: i32| v as int), m as int),
        s <= m * 0x20_0000,
{
    let ghost p = pred@.map_values(|v: i32| v as int);
    let mut s: u32 = 0;
    let mut k: usize = 0;
    while k < m
        invariant
            m <= 256,
            orig@.len() >= m,
            pred@.len() >= m,
            block_ok(orig@),
            block_ok(pred@),
            p == pred@.map_values(|v: i32| v as int),
            k <= m,
            s == sad_prefix(orig@, p, k as int),
            s <= k * 0x20_0000,
        decreases m - k,
    {
        let d = orig[k] - pred[k];
        let a: u32 = if d < 0 {
            (-d) as u32
        } else {
            d as u32
        };
        proof {
            assert(p[k as int] == pred@[k as int]);
        }
        s = s + a;
        k = k + 1;
    }
    s
}

/// Try the nine 4×4 modes in order and keep the first with the least SAD
/// against the original among those the neighbourhood allows.
pub fn best_luma_mode(orig: &[i32], n: &Neighbors4) -> (m: u8)
    requires
        orig@.len() == 16,
        block_ok(orig@),
        intra::neighbors4_ok(*n),
    ensures
        m == best4_scan(orig@, *n, 9).1,
{
    let mut best_sad: u32 = 0xffff_ffff;
    let mut best_mode: u8 = intra::DC;
    let mut mode: u8 = 0;
    while mode <= 8
        invariant
            orig@.len() == 16,
            block_ok(orig@),
            intra::neighbors4_ok(*n),
            mode <= 9,
            (best_sad as int, best_mode) == best4_scan(orig@, *n, mode as int),
        decreases 9 - mode,
    {
        if intra::allowed(mode, n) {
            let p = intra::predict4(mode, n);
            proof {
                intra::lemma_predict4_in_range(mode, *n);
                assert forall|k: int| 0 <= k < p@.len() implies -SAMPLE_BOUND <= #[trigger] p@[k] <= SAMPLE_BOUND by {
                    assert(p[k] == intra::spec_predict4(mode, *n)[k]);
                }
                assert(p@.map_values(|v: i32| v as int) =~= intra::spec_predict4(mode, *n));
            }
            let sad = sad_of(orig, &p, 16);
            if sad < best_sad {
                best_sad = sad;
                best_mode = mode;
            }
        }
        mode = mode + 1;
    }
    best_mode
}

/// The scan over modes `0..m` ends on an allowed mode whose SAD no allowed
/// mode beats, first among those that tie with it, when every SAD is below
/// the starting bound.
proof fn lemma_best4_scan(orig: Seq<i32>, n: Neighbors4, m: int)
    requires
        0 <= m <= 9,
        forall|k: int| 0 <= k < 9 ==> sad_prefix(orig, #[trigger] intra::spec_predict4(k as u8, n), 16) < 0xffff_ffff,
    ensures
        (best4_scan(orig, n, m).0 == 0xffff_ffff && best4_scan(orig, n, m).1 == intra::DC) || (intra::spec_allowed(
            best4_scan(orig, n, m).1,
            n,
        ) && best4_scan(orig, n, m).0 == sad_prefix(orig, intra::spec_predict4(best4_scan(orig, n, m).1, n), 16)
            && best4_scan(orig, n, m).1 < m),
        m > intra::DC ==> intra::spec_allowed(best4_scan(orig, n, m).1, n),
        m > intra::DC ==> best4_scan(orig, n, m).0 == sad_prefix(orig, intra::spec_predict4(best4_scan(orig, n, m).1, n), 16),
        forall|k: int|
            0 <= k < m && intra::spec_allowed(k as u8, n) ==> best4_scan(orig, n, m).0 <= sad_prefix(
                orig,
                #[trigger] intra::spec_predict4(k as u8, n),
                16,
            ),
        forall|k: int|
            0 <= k < m && intra::spec_allowed(k as u8, n) && sad_prefix(orig, #[trigger] intra::spec_predict4(k as u8, n), 16)
                == best4_scan(orig, n, m).0 ==> best4_scan(orig, n, m).1 <= k,
    decreases m,
{
    if m > 0 {
        lemma_best4_scan(orig, n, m - 1);
        let mode = (m - 1) as u8;
        assert(mode as int == m - 1);
        assert(intra::spec_allowed(intra::DC, n));
        assert(sad_prefix(orig, intra::spec_predict4(((m - 1) as int) as u8, n), 16) < 0xffff_ffff);
        assert(sad_prefix(orig, intra::spec_predict4((2int) as u8, n), 16) < 0xffff_ffff);
        assert((2int) as u8 == intra::DC);
    }
}

/// A SAD of in-range samples is at most `2^21` per sample.
proof fn lemma_sad_bound(orig: Seq<i32>, pred: Seq<int>, m: int)
    requires
        0 <= m <= orig.len(),
        m <= pred.len(),
        block_ok(orig),
        forall|k: int| 0 <= k < pred.len() ==> -SAMPLE_BOUND <= #[trigger] pred[k] <= SAMPLE_BOUND,
    ensures
        0 <= sad_prefix(orig, pred, m) <= m * 0x20_0000,
    decreases m,
{
    if m > 0 {
        lemma_sad_bound(orig, pred, m - 1);
        assert(-SAMPLE_BOUND <= orig[m - 1] <= SAMPLE_BOUND);
        assert(-SAMPLE_BOUND <= pred[m - 1] <= SAMPLE_BOUND);
    }
}

/// The 4×4 mode decision picks an allowed mode whose SAD against the
/// original no allowed mode beats, and the first such mode in mode order.
pub proof fn lemma_best_luma_mode_is_least_sad(orig: Seq<i32>, n: Neighbors4)
    requires
        orig.len() == 16,
        block_ok(orig),
        intra::neighbors4_ok(n),
    ensures
        intra::spec_allowed(best4_scan(orig, n, 9).1, n),
        forall|k: int|
            0 <= k < 9 && intra::spec_allowed(k as u8, n) ==> sad_prefix(
                orig,
                intra::spec_predict4(best4_scan(orig, n, 9).1, n),
                16,
            ) <= sad_prefix(orig, #[trigger] intra::spec_predict4(k as u8, n), 16),
        forall|k: int|
            0 <= k < 9 && intra::spec_allowed(k as u8, n) && sad_prefix(orig, #[trigger] intra::spec_predict4(k as u8, n), 16)
                == sad_prefix(orig, intra::spec_predict4(best4_scan(orig, n, 9).1, n), 16) ==> best4_scan(orig, n, 9).1 <= k,
{
    assert forall|k: int| 0 <= k < 9 implies sad_prefix(orig, #[trigger] intra::spec_predict4(k as u8, n), 16)
        < 0xffff_ffff by {
        intra::lemma_predict4_in_range(k as u8, n);
        lemma_sad_bound(orig, intra::spec_predict4(k as u8, n), 16);
    }
    lemma_best4_scan(orig, n, 9);
}

// ---------------------------------------------------------------- 16×16 mode decision

/// `Σ_{k<m} |t[k]|`.
pub open spec fn abs_sum(t: Seq<int>, m: int) -> int
    decreases m,
{
    if m <= 0 {
        0
    } else {
        abs_sum(t, m - 1) + abs(t[m - 1])
    }
}

/// The SATD of a 4×4 block: its absolute Hadamard coefficients summed and
/// brought back to SAD scale.
pub open spec fn spec_hadamard_sad(b: Seq<int>) -> int {
    abs_sum(spec_hadamard4(b), 16) / 4
}

/// Every Hadamard coefficient of entries within `m` is within `16·m`.
pub proof fn lemma_hadamard4_bound(x: Seq<int>, m: int)
    requires
        x.len() == 16,
        m >= 0,
        forall|k: int| 0 <= k < 16 ==> -m <= #[trigger] x[k] <= m,
    ensures
        forall|k: int| 0 <= k < 16 ==> -16 * m <= #[trigger] spec_hadamard4(x)[k] <= 16 * m,
{
    let t = Seq::new(
        16,
        |k: int|
            crate::codec::h264::transform::had_butterfly(
                x[4 * (k / 4)],
                x[4 * (k / 4) + 1],
                x[4 * (k / 4) + 2],
                x[4 * (k / 4) + 3],
                k % 4,
            ),
    );
    assert forall|k: int| 0 <= k < 16 implies -4 * m <= #[trigger] t[k] <= 4 * m by {
        let r = 4 * (k / 4);
        assert(0 <= r && r + 3 < 16);
        assert(-m <= x[r] <= m);
        assert(-m <= x[r + 1] <= m);
        assert(-m <= x[r + 2] <= m);
        assert(-m <= x[r + 3] <= m);
    }
    assert forall|k: int| 0 <= k < 16 implies -16 * m <= #[trigger] spec_hadamard4(x)[k] <= 16 * m by {
        let c = k % 4;
        assert(-4 * m <= t[c] <= 4 * m);
        assert(-4 * m <= t[4 + c] <= 4 * m);
        assert(-4 * m <= t[8 + c] <= 4 * m);
        assert(-4 * m <= t[12 + c] <= 4 * m);
    }
}

/// A sum of `m` magnitudes each at most `b` is at most `m·b`.
proof fn lemma_abs_sum_bound(t: Seq<int>, m: int, b: int)
    requires
        0 <= m <= t.len(),
        forall|k: int| 0 <= k < t.len() ==> -b <= #[trigger] t[k] <= b,
    ensures
        0 <= abs_sum(t, m) <= m * b,
    decreases m,
{
    if m > 0 {
        lemma_abs_sum_bound(t, m - 1, b);
        assert(-b <= t[m - 1] <= b);
        assert((m - 1) * b + b == m * b) by (nonlinear_arith);
    }
}

/// Sum of the absolute 4×4 Hadamard coefficients of `b`, divided by four.
pub fn hadamard_sad(b: &[i32; 16]) -> (s: u64)
    requires
        bounded(b@, 0x400_0000),
    ensures
        s == spec_hadamard_sad(ints(b@)),
        s <= 0x1_0000_0000,
{
    let t = luma_dc_hadamard(b);
    let ghost h = spec_hadamard4(ints(b@));
    proof {
        assert forall|k: int| 0 <= k < 16 implies -0x400_0000 <= #[trigger] ints(b@)[k] <= 0x400_0000 by {
            assert(ints(b@)[k] == b@[k]);
        }
        lemma_hadamard4_bound(ints(b@), 0x400_0000);
    }
    let mut sum: u64 = 0;
    let mut k: usize = 0;
    while k < 16
        invariant
            k <= 16,
            h == spec_hadamard4(ints(b@)),
            forall|i: int| 0 <= i < 16 ==> t[i] == #[trigger] h[i],
            forall|i: int| 0 <= i < 16 ==> -0x4000_0000 <= #[trigger] h[i] <= 0x4000_0000,
            sum == abs_sum(h, k as int),
            sum <= k * 0x4000_0000,
        decreases 16 - k,
    {
        let v = t[k];
        assert(v == h[k as int]);
        let a: u64 = if v < 0 {
            (-(v as i64)) as u64
        } else {
            v as u64
        };
        sum = sum + a;
        k = k + 1;
    }
    sum / 4
}

/// The difference `orig − pred` over 4×4 sub-block `(bx, by)` of a 16×16
/// macroblock, row-major.
pub open spec fn sub_diff(orig: Seq<i32>, pred: Seq<int>, bx: int, by: int) -> Seq<int> {
    Seq::new(
        16,
        |k: int| orig[(by * 4 + k / 4) * 16 + bx * 4 + k % 4] - pred[(by * 4 + k / 4) * 16 + bx * 4 + k % 4],
    )
}

/// SATD of `orig` against `pred` over the first `m` sub-blocks in raster
/// order.
pub open spec fn satd_prefix(orig: Seq<i32>, pred: Seq<int>, m: int) -> int
    decreases m,
{
    if m <= 0 {
        0
    } else {
        satd_prefix(orig, pred, m - 1) + spec_hadamard_sad(sub_diff(orig, pred, (m - 1) % 4, (m - 1) / 4))
    }
}

/// The 16×16 mode decision after trying modes `0..m` in order: the best
/// SATD so far and its mode, starting from `(u64::MAX, I16_DC)` and replaced
/// only by an allowed mode with a strictly smaller SATD.
pub open spec fn best16_scan(orig: Seq<i32>, n: Neighbors16, m: int) -> (int, u8)
    decreases m,
{
    if m <= 0 {
        (0xffff_ffff_ffff_ffff, intra::I16_DC)
    } else {
        let prev = best16_scan(orig, n, m - 1);
        let mode = (m - 1) as u8;
        let satd = satd_prefix(orig, intra::spec_predict16(mode, n), 16);
        if intra::spec_allowed16(mode, n) && satd < prev.0 {
            (satd, mode)
        } else {
            prev
        }
    }
}

/// The difference block of sub-block `(bx, by)`.
fn sub_block(orig: &[i32], p: &[i32; 256], bx: usize, by: usize) -> (blk: [i32; 16])
    requires
        orig@.len() == 256,
        bx < 4,
        by < 4,
        block_ok(orig@),
        block_ok(p@),
    ensures
        ints(blk@) == sub_diff(orig@, ints(p@), bx as int, by as int),
        bounded(blk@, 0x20_0000),
{
    let mut blk = [0i32; 16];
    let mut k: usize = 0;
    while k < 16
        invariant
            orig@.len() == 256,
            bx < 4,
            by < 4,
            block_ok(orig@),
            block_ok(p@),
            k <= 16,
            forall|i: int|
                0 <= i < k ==> #[trigger] blk@[i] as int == sub_diff(orig@, ints(p@), bx as int, by as int)[i],
            forall|i: int| 0 <= i < 16 ==> -0x20_0000 <= #[trigger] blk@[i] <= 0x20_0000,
        decreases 16 - k,
    {
        let idx = (by * 4 + k / 4) * 16 + bx * 4 + k % 4;
        let d = orig[idx] - p[idx];
        blk[k] = d;
        proof {
            assert(ints(p@)[idx as int] == p@[idx as int]);
        }
        k = k + 1;
    }
    proof {
        assert(ints(blk@) =~= sub_diff(orig@, ints(p@), bx as int, by as int));
    }
    blk
}

/// The SATD of a macroblock against a prediction, sub-block by sub-block.
fn satd16(orig: &[i32], p: &[i32; 256]) -> (satd: u64)
    requires
        orig@.len() == 256,
        block_ok(orig@),
        block_ok(p@),
    ensures
        satd == satd_prefix(orig@, ints(p@), 16),
{
    let mut satd: u64 = 0;
    let mut b: usize = 0;
    while b < 16
        invariant
            orig@.len() == 256,
            block_ok(orig@),
            block_ok(p@),
            b <= 16,
            satd == satd_prefix(orig@, ints(p@), b as int),
            satd <= b * 0x1_0000_0000,
        decreases 16 - b,
    {
        let blk = sub_block(orig, p, b % 4, b / 4);
        let s = hadamard_sad(&blk);
        satd = satd + s;
        b = b + 1;
    }
    satd
}

/// Pick the 16×16 mode with the least SATD against the original, the first
/// in mode order among ties, of those the neighbourhood allows.
pub fn best_luma16_mode(orig: &[i32], n: &Neighbors16) -> (m: u8)
    requires
        orig@.len() == 256,
        block_ok(orig@),
        intra::neighbors16_ok(*n),
    ensures
        m == best16_scan(orig@, *n, 4).1,
{
    let mut best_satd: u64 = 0xffff_ffff_ffff_ffff;
    let mut best_mode: u8 = intra::I16_DC;
    let mut mode: u8 = 0;
    while mode <= 3
        invariant
            orig@.len() == 256,
            block_ok(orig@),
            intra::neighbors16_ok(*n),
            mode <= 4,
            (best_satd as int, best_mode) == best16_scan(orig@, *n, mode as int),
        decreases 4 - mode,
    {
        if intra::allowed16(mode, n) {
            let p = intra::predict16(mode, n);
            let ghost pred = intra::spec_predict16(mode, *n);
            proof {
                assert(p@.len() == 256);
                intra::lemma_predict16_in_range(mode, *n);
                assert forall|k: int| 0 <= k < p@.len() implies -SAMPLE_BOUND <= #[trigger] p@[k] <= SAMPLE_BOUND by {
                    assert(p[k] == pred[k]);
                }
                assert(ints(p@) =~= pred);
            }
            let satd = satd16(orig, &p);
            if satd < best_satd {
                best_satd = satd;
                best_mode = mode;
            }
        }
        mode = mode + 1;
    }
    best_mode
}

/// The scan over modes `0..m` ends on an allowed mode whose SATD no allowed
/// mode beats, first among ties, when every SATD is below the starting
/// bound.
proof fn lemma_best16_scan(orig: Seq<i32>, n: Neighbors16, m: int)
    requires
        0 <= m <= 4,
        forall|k: int|
            0 <= k < 4 ==> satd_prefix(orig, #[trigger] intra::spec_predict16(k as u8, n), 16) < 0xffff_ffff_ffff_ffff,
    ensures
        m > intra::I16_DC ==> intra::spec_allowed16(best16_scan(orig, n, m).1, n),
        m > intra::I16_DC ==> best16_scan(orig, n, m).0 == satd_prefix(orig, intra::spec_predict16(best16_scan(orig, n, m).1, n), 16),
        (best16_scan(orig, n, m).0 == 0xffff_ffff_ffff_ffff && best16_scan(orig, n, m).1 == intra::I16_DC) || (
        intra::spec_allowed16(best16_scan(orig, n, m).1, n) && best16_scan(orig, n, m).0 == satd_prefix(
            orig,
            intra::spec_predict16(best16_scan(orig, n, m).1, n),
            16,
        ) && best16_scan(orig, n, m).1 < m),
        forall|k: int|
            0 <= k < m && intra::spec_allowed16(k as u8, n) ==> best16_scan(orig, n, m).0 <= satd_prefix(
                orig,
                #[trigger] intra::spec_predict16(k as u8, n),
                16,
            ),
        forall|k: int|
            0 <= k < m && intra::spec_allowed16(k as u8, n) && satd_prefix(orig, #[trigger] intra::spec_predict16(k as u8, n), 16)
                == best16_scan(orig, n, m).0 ==> best16_scan(orig, n, m).1 <= k,
    decreases m,
{
    if m > 0 {
        lemma_best16_scan(orig, n, m - 1);
        let mode = (m - 1) as u8;
        assert(mode as int == m - 1);
        assert(intra::spec_allowed16(intra::I16_DC, n));
        assert(satd_prefix(orig, intra::spec_predict16(((m - 1) as int) as u8, n), 16) < 0xffff_ffff_ffff_ffff);
        assert(satd_prefix(orig, intra::spec_predict16((2int) as u8, n), 16) < 0xffff_ffff_ffff_ffff);
        assert((2int) as u8 == intra::I16_DC);
    }
}

/// A SATD of in-range samples over `m` sub-blocks is at most `2^32` per
/// sub-block.
proof fn lemma_satd_bound(orig: Seq<i32>, pred: Seq<int>, m: int)
    requires
        0 <= m <= 16,
        orig.len() == 256,
        pred.len() == 256,
        block_ok(orig),
        forall|k: int| 0 <= k < 256 ==> -SAMPLE_BOUND <= #[trigger] pred[k] <= SAMPLE_BOUND,
    ensures
        0 <= satd_prefix(orig, pred, m) <= m * 0x1_0000_0000,
    decreases m,
{
    if m > 0 {
        lemma_satd_bound(orig, pred, m - 1);
        let bx = (m - 1) % 4;
        let by = (m - 1) / 4;
        let d = sub_diff(orig, pred, bx, by);
        assert forall|k: int| 0 <= k < 16 implies -0x400_0000 <= #[trigger] d[k] <= 0x400_0000 by {
            let i = (by * 4 + k / 4) * 16 + bx * 4 + k % 4;
            assert(0 <= i < 256);
            assert(-SAMPLE_BOUND <= orig[i] <= SAMPLE_BOUND);
            assert(-SAMPLE_BOUND <= pred[i] <= SAMPLE_BOUND);
        }
        lemma_hadamard4_bound(d, 0x400_0000);
        lemma_abs_sum_bound(spec_hadamard4(d), 16, 0x4000_0000);
    }
}

/// The 16×16 mode decision picks an allowed mode whose SATD against the
/// original no allowed mode beats, and the first such mode in mode order.
pub proof fn lemma_best_luma16_mode_is_least_satd(orig: Seq<i32>, n: Neighbors16)
    requires
        orig.len() == 256,
        block_ok(orig),
        intra::neighbors16_ok(n),
    ensures
        intra::spec_allowed16(best16_scan(orig, n, 4).1, n),
        forall|k: int|
            0 <= k < 4 && intra::spec_allowed16(k as u8, n) ==> satd_prefix(
                orig,
                intra::spec_predict16(best16_scan(orig, n, 4).1, n),
                16,
            ) <= satd_prefix(orig, #[trigger] intra::spec_predict16(k as u8, n), 16),
        forall|k: int|
            0 <= k < 4 && intra::spec_allowed16(k as u8, n) && satd_prefix(orig, #[trigger] intra::spec_predict16(k as u8, n), 16)
                == satd_prefix(orig, intra::spec_predict16(best16_scan(orig, n, 4).1, n), 16) ==> best16_scan(orig, n, 4).1 <= k,
{
    assert forall|k: int| 0 <= k < 4 implies satd_prefix(orig, #[trigger] intra::spec_predict16(k as u8, n), 16)
        < 0xffff_ffff_ffff_ffff by {
        intra::lemma_predict16_in_range(k as u8, n);
        lemma_satd_bound(orig, intra::spec_predict16(k as u8, n), 16);
    }
    lemma_best16_scan(orig, n, 4);
}

// ---------------------------------------------------------------- chroma mode decision

/// The SAD of both chroma planes against `mode`'s predictions from their
/// own neighbourhoods.
pub open spec fn chroma_sad(ou: Seq<i32>, ov: Seq<i32>, n0: NeighborsC, n1: NeighborsC, mode: u8) -> int {
    sad_prefix(ou, intra::spec_predict_chroma(mode, n0), 64) + sad_prefix(ov, intra::spec_predict_chroma(mode, n1), 64)
}

/// A chroma mode is usable when both planes' neighbourhoods allow it.
pub open spec fn chroma_usable(mode: u8, n0: NeighborsC, n1: NeighborsC) -> bool {
    intra::spec_chroma_allowed(mode, n0) && intra::spec_chroma_allowed(mode, n1)
}

/// The chroma mode decision after trying modes `0..m` in order: the best SAD
/// so far and its mode, starting from `(u32::MAX, DC)` and replaced only by
/// a usable mode with a strictly smaller SAD.
pub open spec fn bestc_scan(ou: Seq<i32>, ov: Seq<i32>, n0: NeighborsC, n1: NeighborsC, m: int) -> (int, u8)
    decreases m,
{
    if m <= 0 {
        (0xffff_ffff, intra::C_DC)
    } else {
        let prev = bestc_scan(ou, ov, n0, n1, m - 1);
        let mode = (m - 1) as u8;
        let sad = chroma_sad(ou, ov, n0, n1, mode);
        if chroma_usable(mode, n0, n1) && sad < prev.0 {
            (sad, mode)
        } else {
            prev
        }
    }
}

/// The prediction of an allowed mode, and the fact that it is in range.
fn predict_chroma_checked(mode: u8, n: &NeighborsC) -> (p: [i32; 64])
    requires
        intra::neighbors_c_ok(*n),
    ensures
        block_ok(p@),
        p@.map_values(|v: i32| v as int) == intra::spec_predict_chroma(mode, *n),
{
    let p = intra::predict_chroma(mode, n);
    proof {
        intra::lemma_predict_chroma_in_range(mode, *n);
        assert forall|k: int| 0 <= k < p@.len() implies -SAMPLE_BOUND <= #[trigger] p@[k] <= SAMPLE_BOUND by {
            assert(p[k] == intra::spec_predict_chroma(mode, *n)[k]);
        }
        assert(p@.map_values(|v: i32| v as int) =~= intra::spec_predict_chroma(mode, *n));
    }
    p
}

/// Try the four chroma modes in order on both planes' originals `ou`, `ov`
/// and keep the first with the least summed SAD among those both
/// neighbourhoods allow.
pub fn chroma_mode_scan(ou: &[i32], ov: &[i32], n0: &NeighborsC, n1: &NeighborsC) -> (m: u8)
    requires
        ou@.len() == 64,
        ov@.len() == 64,
        block_ok(ou@),
        block_ok(ov@),
        intra::neighbors_c_ok(*n0),
        intra::neighbors_c_ok(*n1),
    ensures
        m == bestc_scan(ou@, ov@, *n0, *n1, 4).1,
{
    let mut best_sad: u32 = 0xffff_ffff;
    let mut best_mode: u8 = intra::C_DC;
    let mut mode: u8 = 0;
    while mode <= 3
        invariant
            ou@.len() == 64,
            ov@.len() == 64,
            block_ok(ou@),
            block_ok(ov@),
            intra::neighbors_c_ok(*n0),
            intra::neighbors_c_ok(*n1),
            mode <= 4,
            (best_sad as int, best_mode) == bestc_scan(ou@, ov@, *n0, *n1, mode as int),
        decreases 4 - mode,
    {
        if intra::chroma_allowed(mode, n0) && intra::chroma_allowed(mode, n1) {
            let p0 = predict_chroma_checked(mode, n0);
            let p1 = predict_chroma_checked(mode, n1);
            let s0 = sad_of(ou, &p0, 64);
            let s1 = sad_of(ov, &p1, 64);
            let sad = s0 + s1;
            if sad < best_sad {
                best_sad = sad;
                best_mode = mode;
            }
        }
        mode = mode + 1;
    }
    best_mode
}

/// Every sample of a block gathered from an 8-bit plane is in range.
proof fn lemma_gathered_ok(plane: Seq<u8>, w: int, x: int, y: int, n: int)
    ensures
        block_ok(gathered(plane, w, x, y, n)),
{
}

/// Choose the chroma prediction mode of the macroblock at `(mbx, mby)`: the
/// one with the least SAD over both source planes `u` and `v` against its
/// predictions from the reconstructed neighbourhood, first in mode order
/// among ties, of those both planes' neighbourhoods allow.
pub fn best_chroma_mode(ctx: &Ctx, u: &[u8], v: &[u8], mbx: usize, mby: usize, _hint: &NeighborsC) -> (m: u8)
    requires
        ctx_ok(ctx),
        mbx < ctx.mbw,
        mby < ctx.ch / 16,
        u@.len() == ctx.cwc * ctx.chc,
        v@.len() == ctx.cwc * ctx.chc,
    ensures
        exists|n0: NeighborsC, n1: NeighborsC|
            #![trigger chroma_neighbors_of(ctx, mbx as int, mby as int, 0, n0), chroma_neighbors_of(ctx, mbx as int, mby as int, 1, n1)]
            chroma_neighbors_of(ctx, mbx as int, mby as int, 0, n0) && chroma_neighbors_of(ctx, mbx as int, mby as int, 1, n1)
                && m == bestc_scan(
                gathered(u@, ctx.cwc as int, 8 * mbx, 8 * mby, 8),
                gathered(v@, ctx.cwc as int, 8 * mbx, 8 * mby, 8),
                n0,
                n1,
                4,
            ).1,
{
    let cx = (mbx * 8) as u32;
    let cy = (mby * 8) as u32;
    proof {
        assert(8 * mbx + 8 <= ctx.cwc);
        assert(8 * mby + 8 <= ctx.chc);
        assert((8 * mby + 7) * ctx.cwc + 8 * mbx + 8 <= ctx.cwc * ctx.chc) by (nonlinear_arith)
            requires
                8 * mbx + 8 <= ctx.cwc,
                8 * mby + 8 <= ctx.chc,
        ;
        assert(ctx.cwc * ctx.chc <= 0x8000 * 0x8000) by (nonlinear_arith)
            requires
                ctx.cwc <= 0x8000,
                ctx.chc <= 0x8000,
        ;
        assert(block_fits(u@.len() as int, ctx.cwc as int, cx as int, cy as int, 8));
        assert(block_fits(v@.len() as int, ctx.cwc as int, cx as int, cy as int, 8));
    }
    let n0 = chroma_neighbors_plane(ctx, mbx, mby, 0);
    let n1 = chroma_neighbors_plane(ctx, mbx, mby, 1);
    let ou = gather(u, ctx.cwc, cx, cy, 8);
    let ov = gather(v, ctx.cwc, cx, cy, 8);
    proof {
        lemma_gathered_ok(u@, ctx.cwc as int, cx as int, cy as int, 8);
        lemma_gathered_ok(v@, ctx.cwc as int, cx as int, cy as int, 8);
    }
    let m = chroma_mode_scan(&ou, &ov, &n0, &n1);
    proof {
        assert(chroma_neighbors_of(ctx, mbx as int, mby as int, 0, n0));
        assert(chroma_neighbors_of(ctx, mbx as int, mby as int, 1, n1));
    }
    m
}

/// The scan over modes `0..m` ends on a usable mode whose SAD no usable
/// mode beats, first among ties, when every SAD is below the starting bound.
proof fn lemma_bestc_scan(ou: Seq<i32>, ov: Seq<i32>, n0: NeighborsC, n1: NeighborsC, m: int)
    requires
        0 <= m <= 4,
        forall|k: int| 0 <= k < 4 ==> #[trigger] chroma_sad(ou, ov, n0, n1, k as u8) < 0xffff_ffff,
    ensures
        m > intra::C_DC ==> chroma_usable(bestc_scan(ou, ov, n0, n1, m).1, n0, n1),
        m > intra::C_DC ==> bestc_scan(ou, ov, n0, n1, m).0 == chroma_sad(ou, ov, n0, n1, bestc_scan(ou, ov, n0, n1, m).1),
        (bestc_scan(ou, ov, n0, n1, m).0 == 0xffff_ffff && bestc_scan(ou, ov, n0, n1, m).1 == intra::C_DC) || (
        chroma_usable(bestc_scan(ou, ov, n0, n1, m).1, n0, n1) && bestc_scan(ou, ov, n0, n1, m).0 == chroma_sad(
            ou,
            ov,
            n0,
            n1,
            bestc_scan(ou, ov, n0, n1, m).1,
        ) && bestc_scan(ou, ov, n0, n1, m).1 < m),
        forall|k: int|
            0 <= k < m && chroma_usable(k as u8, n0, n1) ==> bestc_scan(ou, ov, n0, n1, m).0 <= #[trigger] chroma_sad(
                ou,
                ov,
                n0,
                n1,
                k as u8,
            ),
        forall|k: int|
            0 <= k < m && chroma_usable(k as u8, n0, n1) && #[trigger] chroma_sad(ou, ov, n0, n1, k as u8) == bestc_scan(
                ou,
                ov,
                n0,
                n1,
                m,
            ).0 ==> bestc_scan(ou, ov, n0, n1, m).1 <= k,
    decreases m,
{
    if m > 0 {
        lemma_bestc_scan(ou, ov, n0, n1, m - 1);
        let mode = (m - 1) as u8;
        assert(mode as int == m - 1);
        assert(chroma_usable(intra::C_DC, n0, n1));
        assert(chroma_sad(ou, ov, n0, n1, ((m - 1) as int) as u8) < 0xffff_ffff);
        assert(chroma_sad(ou, ov, n0, n1, (0int) as u8) < 0xffff_ffff);
        assert((0int) as u8 == intra::C_DC);
    }
}

/// The chroma mode decision picks a mode both neighbourhoods allow whose
/// summed SAD no such mode beats, and the first such mode in mode order.
pub proof fn lemma_chroma_mode_is_least_sad(ou: Seq<i32>, ov: Seq<i32>, n0: NeighborsC, n1: NeighborsC)
    requires
        ou.len() == 64,
        ov.len() == 64,
        block_ok(ou),
        block_ok(ov),
        intra::neighbors_c_ok(n0),
        intra::neighbors_c_ok(n1),
    ensures
        chroma_usable(bestc_scan(ou, ov, n0, n1, 4).1, n0, n1),
        forall|k: int|
            0 <= k < 4 && chroma_usable(k as u8, n0, n1) ==> chroma_sad(ou, ov, n0, n1, bestc_scan(ou, ov, n0, n1, 4).1)
                <= #[trigger] chroma_sad(ou, ov, n0, n1, k as u8),
        forall|k: int|
            0 <= k < 4 && chroma_usable(k as u8, n0, n1) && #[trigger] chroma_sad(ou, ov, n0, n1, k as u8) == chroma_sad(
                ou,
                ov,
                n0,
                n1,
                bestc_scan(ou, ov, n0, n1, 4).1,
            ) ==> bestc_scan(ou, ov, n0, n1, 4).1 <= k,
{
    assert forall|k: int| 0 <= k < 4 implies #[trigger] chroma_sad(ou, ov, n0, n1, k as u8) < 0xffff_ffff by {
        intra::lemma_predict_chroma_in_range(k as u8, n0);
        intra::lemma_predict_chroma_in_range(k as u8, n1);
        lemma_sad_bound(ou, intra::spec_predict_chroma(k as u8, n0), 64);
        lemma_sad_bound(ov, intra::spec_predict_chroma(k as u8, n1), 64);
    }
    lemma_bestc_scan(ou, ov, n0, n1, 4);
}

// ---------------------------------------------------------------- picture start

impl Ctx {
    /// The picture state before the first macroblock of a `cw`×`ch` coded
    /// picture: mid-grey reconstruction, no coefficients, no 4×4 modes, no
    /// macroblock summaries yet.
    pub fn new(cw: u32, ch: u32) -> (c: Ctx)
        requires
            cw % 16 == 0,
            ch % 16 == 0,
            cw <= 0x10000,
            ch <= 0x10000,
            cw * ch <= u32::MAX,
        ensures
            ctx_ok(&c),
            c.cw == cw,
            c.ch == ch,
            forall|i: int| 0 <= i < c.ry@.len() ==> #[trigger] c.ry@[i] == 128,
            forall|i: int| 0 <= i < c.ru@.len() ==> #[trigger] c.ru@[i] == 128,
            forall|i: int| 0 <= i < c.rv@.len() ==> #[trigger] c.rv@[i] == 128,
            forall|i: int| 0 <= i < c.nnz_y@.len() ==> #[trigger] c.nnz_y@[i] == 0,
            forall|i: int| 0 <= i < c.nnz_c[0]@.len() ==> #[trigger] c.nnz_c[0]@[i] == 0,
            forall|i: int| 0 <= i < c.nnz_c[1]@.len() ==> #[trigger] c.nnz_c[1]@[i] == 0,
            forall|i: int| 0 <= i < c.modes@.len() ==> #[trigger] c.modes@[i] is None,
            forall|i: int| 0 <= i < c.mb@.len() ==> #[trigger] c.mb@[i] == no_neighbor(),
            !c.prev_qp_delta_nonzero,
    {
        let cwc = cw / 2;
        let chc = ch / 2;
        let mbw = (cw / 16) as usize;
        let mbh = (ch / 16) as usize;
        proof {
            assert(cwc * chc <= cw * ch) by (nonlinear_arith)
                requires
                    cwc <= cw,
                    chc <= ch,
            ;
            assert((cw / 4) * (ch / 4) <= cw * ch) by (nonlinear_arith)
                requires
                    cw / 4 <= cw,
                    ch / 4 <= ch,
            ;
            assert((cwc / 4) * (chc / 4) <= cwc * chc) by (nonlinear_arith)
                requires
                    cwc / 4 <= cwc,
                    chc / 4 <= chc,
            ;
            assert((cw / 16) * (ch / 16) <= cw * ch) by (nonlinear_arith)
                requires
                    cw / 16 <= cw,
                    ch / 16 <= ch,
            ;
        }
        let n_mb = mbw * mbh;
        let mut mb: Vec<MbNeighbor> = Vec::new();
        let mut i: usize = 0;
        while i < n_mb
            invariant
                i <= n_mb,
                mb@.len() == i,
                forall|k: int| 0 <= k < i ==> #[trigger] mb@[k] == no_neighbor(),
            decreases n_mb - i,
        {
            mb.push(MbNeighbor::default());
            i = i + 1;
        }
        let c = Ctx {
            ry: vec![128u8; (cw * ch) as usize],
            ru: vec![128u8; (cwc * chc) as usize],
            rv: vec![128u8; (cwc * chc) as usize],
            cw,
            ch,
            cwc,
            chc,
            mbw,
            nnz_y: vec![0usize; (cw / 4 * (ch / 4)) as usize],
            nnz_c: [vec![0usize; (cwc / 4 * (chc / 4)) as usize], vec![0usize; (cwc / 4 * (chc / 4)) as usize]],
            modes: vec![None; (cw / 4 * (ch / 4)) as usize],
            mb,
            prev_qp_delta_nonzero: false,
        };
        c
    }
}

/// The I-slice header the compressing encoder writes (§7.3.3): the first
/// macroblock, slice type 7, parameter set 0, `frame_num` 0, `idr_pic_id`
/// 0, both reference flags clear, the QP as a delta from 26, and the
/// deblocking filter switched on with zero offsets or off.
pub open spec fn slice_header_bits(qp: i32, deblock: bool) -> Seq<bool> {
    ue_bits(0) + ue_bits(7) + ue_bits(0) + bits_of(0, 4) + ue_bits(0) + seq![false, false] + se_bits(qp - 26) + if deblock {
        ue_bits(0) + se_bits(0) + se_bits(0)
    } else {
        ue_bits(1)
    }
}

/// What a decoder parses from the slice header (§7.3.3): the first
/// macroblock 0, `slice_type` 7 (all I), PPS 0, `frame_num` 0, `idr_pic_id`
/// 0, both reference-marking flags clear, `slice_qp_delta = qp − 26`, and
/// `disable_deblocking_filter_idc` 0 with zero offsets when the filter is
/// on, 1 when it is off.
#[verifier::spinoff_prover]
#[verifier::rlimit(60)]
pub proof fn lemma_slice_header_parses_back(qp: i32, deblock: bool)
    ensures
        ({
            let s = slice_header_bits(qp, deblock);
            let (first_mb, p1) = read_ue(s, 0);
            let (slice_type, p2) = read_ue(s, p1);
            let (pps_id, p3) = read_ue(s, p2);
            let (idr_pic_id, p4) = read_ue(s, p3 + 4);
            let (qp_delta, p5) = read_se(s, p4 + 2);
            let (idc, p6) = read_ue(s, p5);
            let (alpha_div2, p7) = read_se(s, p6);
            let (beta_div2, p8) = read_se(s, p7);
            &&& first_mb == 0 && slice_type == 7 && pps_id == 0
            &&& bits_value(s.subrange(p3, p3 + 4)) == 0
            &&& idr_pic_id == 0
            &&& !s[p4] && !s[p4 + 1]
            &&& qp_delta == qp - 26
            &&& idc == (if deblock {
                0nat
            } else {
                1nat
            })
            &&& deblock ==> alpha_div2 == 0 && beta_div2 == 0 && s.len() == p8
            &&& !deblock ==> s.len() == p6
        }),
{
    let s = slice_header_bits(qp, deblock);
    let u0 = ue_bits(0);
    let u7 = ue_bits(7);
    let f4 = bits_of(0, 4);
    let fl = seq![false, false];
    let sq = se_bits(qp - 26);
    let tail = if deblock {
        ue_bits(0) + se_bits(0) + se_bits(0)
    } else {
        ue_bits(1)
    };
    lemma_bits_value_of(0, 4);
    vstd::arithmetic::power2::lemma2_to64();
    assert(bits_value(f4) == 0);
    assert(s =~= u0 + u7 + u0 + f4 + u0 + fl + sq + tail);
    let e = Seq::<bool>::empty();
    lemma_read_ue_of(e, 0, u7 + u0 + f4 + u0 + fl + sq + tail);
    assert(s =~= e + u0 + (u7 + u0 + f4 + u0 + fl + sq + tail));
    let a1 = u0;
    lemma_read_ue_of(a1, 7, u0 + f4 + u0 + fl + sq + tail);
    assert(s =~= a1 + u7 + (u0 + f4 + u0 + fl + sq + tail));
    let a2 = a1 + u7;
    lemma_read_ue_of(a2, 0, f4 + u0 + fl + sq + tail);
    assert(s =~= a2 + u0 + (f4 + u0 + fl + sq + tail));
    let a3 = a2 + u0;
    assert(s.subrange(a3.len() as int, a3.len() + 4int) =~= f4);
    let a4 = a3 + f4;
    lemma_read_ue_of(a4, 0, fl + sq + tail);
    assert(s =~= a4 + u0 + (fl + sq + tail));
    let a5 = a4 + u0;
    assert(s =~= a5 + fl + sq + tail);
    let a6 = a5 + fl;
    lemma_read_se_of(a6, qp - 26, tail);
    assert(s =~= a6 + sq + tail);
    let a7 = a6 + sq;
    if deblock {
        let z = se_bits(0);
        lemma_read_ue_of(a7, 0, z + z);
        assert(s =~= a7 + u0 + (z + z));
        let a8 = a7 + u0;
        lemma_read_se_of(a8, 0, z);
        assert(s =~= a8 + z + z);
        let a9 = a8 + z;
        lemma_read_se_of(a9, 0, Seq::empty());
        assert(s =~= a9 + z + Seq::<bool>::empty());
    } else {
        lemma_read_ue_of(a7, 1, Seq::empty());
        assert(s =~= a7 + ue_bits(1) + Seq::<bool>::empty());
    }
    let (first_mb, p1) = read_ue(s, 0);
    assert(first_mb == 0 && p1 == a1.len());
    let (slice_type, p2) = read_ue(s, p1);
    assert(slice_type == 7 && p2 == a2.len());
    let (pps_id, p3) = read_ue(s, p2);
    assert(pps_id == 0 && p3 == a3.len());
    assert(bits_value(s.subrange(p3, p3 + 4)) == 0);
    let (idr_pic_id, p4) = read_ue(s, p3 + 4);
    assert(idr_pic_id == 0 && p4 == a5.len());
    assert(!s[p4] && !s[p4 + 1]);
    let (qp_delta, p5) = read_se(s, p4 + 2);
    assert(qp_delta == qp - 26 && p5 == a7.len());
}

/// Write the I-slice header.
pub fn write_slice_header(w: &mut BitWriter, qp: i32, deblock: bool)
    requires
        -0x4000_0000 <= qp <= 0x4000_0000,
    ensures
        final(w)@ == old(w)@ + slice_header_bits(qp, deblock),
{
    let ghost start = w@;
    w.write_ue(0);
    w.write_ue(7);
    w.write_ue(0);
    w.write_bits(0, 4);
    w.write_ue(0);
    w.flag(false);
    w.flag(false);
    w.write_se(qp - 26);
    if deblock {
        w.write_ue(0);
        w.write_se(0);
        w.write_se(0);
    } else {
        w.write_ue(1);
    }
    proof {
        assert(w@ =~= start + slice_header_bits(qp, deblock));
    }
}

/// Pad with one bits to the next byte boundary (`cabac_alignment_one_bit`).
pub fn align_with_ones(w: &mut BitWriter)
    ensures
        final(w)@.len() % 8 == 0,
        final(w)@.len() - old(w)@.len() < 8,
        final(w)@.subrange(0, old(w)@.len() as int) == old(w)@,
        forall|i: int| old(w)@.len() <= i < final(w)@.len() ==> #[trigger] final(w)@[i],
{
    let ghost start = w@;
    let ghost g = start.len() as int;
    let ghost t = if g % 8 == 0 {
        g
    } else {
        g + 8 - g % 8
    };
    while !w.is_byte_aligned()
        invariant
            g == start.len(),
            t == (if g % 8 == 0 {
                g
            } else {
                g + 8 - g % 8
            }),
            g <= w@.len() <= t,
            w@.subrange(0, g) == start,
            forall|i: int| g <= i < w@.len() ==> #[trigger] w@[i],
        decreases t - w@.len(),
    {
        w.write_bit(1);
        proof {
            assert(w@.subrange(0, g) =~= start);
        }
    }
}

} // verus!
