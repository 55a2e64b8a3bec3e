//! IDR I-slice of `I_PCM` macroblocks (ISO/IEC 14496-10 §7.3.3, §7.3.4).
//!
//! Each macroblock signals `mb_type = I_PCM` as `ue(25)`, aligns to a byte
//! boundary and carries its raw samples: 256 luma, then 64 Cb, then 64 Cr.

use crate::bitstream::{
    align, bits_of, packed, rbsp_trailing_bits, se_bits, ue_bits, with_trailing_bits, BitWriter,
};
use crate::codec::h264::params::{H264Config, MB_SIZE};
use vstd::prelude::*;

verus! {

/// A planar picture padded to the coded (macroblock-aligned) size.
pub struct PaddedYuv<'a> {
    pub y: &'a [u8],
    pub u: &'a [u8],
    pub v: &'a [u8],
    pub coded_width: u32,
    pub coded_height: u32,
}

/// `mb_type` for I_PCM in an I slice (Table 7-11).
pub const MB_TYPE_I_PCM: u32 = 25;

/// Bytes written most significant bit first.
pub open spec fn bytes_bits(b: Seq<u8>) -> Seq<bool>
    decreases b.len(),
{
    if b.len() == 0 {
        Seq::empty()
    } else {
        bytes_bits(b.drop_last()) + bits_of(b.last() as nat, 8)
    }
}

/// The `size`×`size` block of `plane` at `(x0, y0)`, row by row.
pub open spec fn block_bytes(plane: Seq<u8>, stride: int, x0: int, y0: int, size: int) -> Seq<u8> {
    Seq::new((size * size) as nat, |k: int| plane[(y0 + k / size) * stride + x0 + k % size])
}

/// The raw samples of macroblock `(mbx, mby)`: luma, then Cb, then Cr.
pub open spec fn mb_bytes(
    y: Seq<u8>,
    u: Seq<u8>,
    v: Seq<u8>,
    cw: int,
    mbx: int,
    mby: int,
) -> Seq<u8> {
    block_bytes(y, cw, 16 * mbx, 16 * mby, 16) + block_bytes(u, cw / 2, 8 * mbx, 8 * mby, 8)
        + block_bytes(v, cw / 2, 8 * mbx, 8 * mby, 8)
}

/// The slice data after `n` macroblocks in raster order, `nx` per row,
/// following `prefix`.
pub open spec fn pcm_data(
    prefix: Seq<bool>,
    y: Seq<u8>,
    u: Seq<u8>,
    v: Seq<u8>,
    cw: int,
    nx: int,
    n: nat,
) -> Seq<bool>
    decreases n,
{
    if n == 0 {
        prefix
    } else {
        let prev = pcm_data(prefix, y, u, v, cw, nx, (n - 1) as nat);
        align(prev + ue_bits(25)) + bytes_bits(
            mb_bytes(y, u, v, cw, (n - 1) % nx, (n - 1) / nx),
        )
    }
}

/// The slice header: first MB 0, slice type 7 (I), PPS 0, `frame_num` 0,
/// `idr_pic_id` 0, both `dec_ref_pic_marking` flags clear, `slice_qp_delta` 0.
pub open spec fn pcm_slice_header() -> Seq<bool> {
    ue_bits(0) + ue_bits(7) + ue_bits(0) + bits_of(0, 4) + ue_bits(0) + seq![false, false]
        + se_bits(0)
}

/// The slice RBSP of a padded picture.
pub open spec fn spec_idr_slice(y: Seq<u8>, u: Seq<u8>, v: Seq<u8>, cw: int, ch: int) -> Seq<u8> {
    packed(
        with_trailing_bits(
            pcm_data(pcm_slice_header(), y, u, v, cw, cw / 16, ((cw / 16) * (ch / 16)) as nat),
        ),
    )
}

/// The planes are large enough for the coded size, and every sample offset
/// fits in 32 bits.
pub open spec fn padded_ok(yuv: PaddedYuv) -> bool {
    let cw = yuv.coded_width as int;
    let ch = yuv.coded_height as int;
    &&& cw * ch <= u32::MAX
    &&& yuv.y@.len() >= cw * ch
    &&& yuv.u@.len() >= (cw / 2) * (ch / 2)
    &&& yuv.v@.len() >= (cw / 2) * (ch / 2)
}

/// Appending one more byte.
proof fn lemma_bytes_bits_push(b: Seq<u8>, k: int)
    requires
        0 <= k < b.len(),
    ensures
        bytes_bits(b.take(k + 1)) == bytes_bits(b.take(k)) + bits_of(b[k] as nat, 8),
{
    assert(b.take(k + 1).drop_last() =~= b.take(k));
}

/// Write the `size`×`size` block at `(x0, y0)` byte by byte.
pub fn emit_block(w: &mut BitWriter, plane: &[u8], stride: u32, x0: u32, y0: u32, size: u32)
    requires
        1 <= size <= 16,
        x0 + size <= stride,
        (y0 + size) * stride <= plane@.len(),
        (y0 + size) * stride <= u32::MAX,
    ensures
        final(w)@ == old(w)@ + bytes_bits(
            block_bytes(plane@, stride as int, x0 as int, y0 as int, size as int),
        ),
{
    let ghost blk = block_bytes(plane@, stride as int, x0 as int, y0 as int, size as int);
    let ghost start = w@;
    proof {
        assert(blk.take(0) =~= Seq::<u8>::empty());
    }
    let mut yy: u32 = 0;
    while yy < size
        invariant
            1 <= size <= 16,
            x0 + size <= stride,
            (y0 + size) * stride <= plane@.len(),
            (y0 + size) * stride <= u32::MAX,
            blk == block_bytes(plane@, stride as int, x0 as int, y0 as int, size as int),
            yy <= size,
            w@ == start + bytes_bits(blk.take((yy * size) as int)),
        decreases size - yy,
    {
        proof {
            assert((y0 + yy + 1) * stride <= (y0 + size) * stride) by (nonlinear_arith)
                requires
                    yy < size,
            ;
            assert((y0 + yy) * stride + stride == (y0 + yy + 1) * stride) by (nonlinear_arith);
            assert(y0 + yy <= (y0 + yy) * stride) by (nonlinear_arith)
                requires
                    stride >= 1,
            ;
        }
        let row = (y0 + yy) * stride + x0;
        let mut xx: u32 = 0;
        while xx < size
            invariant
                1 <= size <= 16,
                x0 + size <= stride,
                yy < size,
                row == (y0 + yy) * stride + x0,
                row + size <= plane@.len(),
                row + size <= u32::MAX,
                blk == block_bytes(plane@, stride as int, x0 as int, y0 as int, size as int),
                xx <= size,
                w@ == start + bytes_bits(blk.take((yy * size + xx) as int)),
            decreases size - xx,
        {
            let ghost k = (yy * size + xx) as int;
            proof {
                assert(yy * size + xx < size * size) by (nonlinear_arith)
                    requires
                        yy < size,
                        xx < size,
                ;
                assert(k / size as int == yy && k % size as int == xx) by (nonlinear_arith)
                    requires
                        k == yy * size + xx,
                        xx < size,
                ;
                lemma_bytes_bits_push(blk, k);
                assert(blk[k] == plane@[row as int + xx as int]);
            }
            w.write_byte(plane[(row + xx) as usize]);
            xx = xx + 1;
        }
        yy = yy + 1;
        proof {
            assert((yy - 1) * size + size == yy * size) by (nonlinear_arith);
        }
    }
    proof {
        assert(blk.take((size * size) as int) =~= blk);
    }
}

/// Encode the whole picture as one IDR slice referencing PPS 0.
pub fn idr_slice_rbsp(cfg: &H264Config, yuv: &PaddedYuv) -> (out: Vec<u8>)
    requires
        padded_ok(*yuv),
    ensures
        out@ == spec_idr_slice(
            yuv.y@,
            yuv.u@,
            yuv.v@,
            yuv.coded_width as int,
            yuv.coded_height as int,
        ),
{
    let mut w = BitWriter::new();
    w.write_ue(0);
    w.write_ue(7);
    w.write_ue(0);
    w.write_bits(0, 4);
    w.write_ue(0);
    w.flag(false);
    w.flag(false);
    w.write_se(0);
    let ghost header = w@;
    proof {
        assert(header =~= pcm_slice_header());
    }
    let cw = yuv.coded_width;
    let ch = yuv.coded_height;
    let cwc = cw / 2;
    let half = MB_SIZE / 2;
    let nx = cw / MB_SIZE;
    let ny = ch / MB_SIZE;
    let ghost (ys, us, vs) = (yuv.y@, yuv.u@, yuv.v@);
    let mut mb_y: u32 = 0;
    while mb_y < ny
        invariant
            padded_ok(*yuv),
            ys == yuv.y@,
            us == yuv.u@,
            vs == yuv.v@,
            cw == yuv.coded_width,
            ch == yuv.coded_height,
            cwc == cw / 2,
            half == 8,
            nx == cw / 16,
            ny == ch / 16,
            mb_y <= ny,
            w@ == pcm_data(header, ys, us, vs, cw as int, nx as int, (mb_y * nx) as nat),
        decreases ny - mb_y,
    {
        let mut mb_x: u32 = 0;
        while mb_x < nx
            invariant
                padded_ok(*yuv),
                ys == yuv.y@,
                us == yuv.u@,
                vs == yuv.v@,
                cw == yuv.coded_width,
                ch == yuv.coded_height,
                cwc == cw / 2,
                half == 8,
                nx == cw / 16,
                ny == ch / 16,
                mb_y < ny,
                mb_x <= nx,
                w@ == pcm_data(header, ys, us, vs, cw as int, nx as int, (mb_y * nx + mb_x) as nat),
            decreases nx - mb_x,
        {
            let cx = mb_x * MB_SIZE;
            let cy = mb_y * MB_SIZE;
            proof {
                assert(cy + 16 <= ch) by (nonlinear_arith)
                    requires
                        mb_y < ny,
                        ny == ch / 16,
                        cy == mb_y * 16,
                ;
                assert(cx + 16 <= cw) by (nonlinear_arith)
                    requires
                        mb_x < nx,
                        nx == cw / 16,
                        cx == mb_x * 16,
                ;
                assert((cy + 16) * cw <= cw * ch) by (nonlinear_arith)
                    requires
                        cy + 16 <= ch,
                ;
                assert(cx / 2 + 8 <= cwc);
                assert(cy / 2 + 8 <= ch / 2);
                assert((cy / 2 + 8) * cwc <= cwc * (ch / 2)) by (nonlinear_arith)
                    requires
                        cy / 2 + 8 <= ch / 2,
                ;
                assert(cwc * (ch / 2) <= cw * ch) by (nonlinear_arith)
                    requires
                        cwc == cw / 2,
                ;
            }
            let ghost n = (mb_y * nx + mb_x) as nat;
            proof {
                assert((n as int) % (nx as int) == mb_x && (n as int) / (nx as int) == mb_y) by (nonlinear_arith)
                    requires
                        n == mb_y * nx + mb_x,
                        mb_x < nx,
                ;
            }
            w.write_ue(MB_TYPE_I_PCM);
            w.align_zero();
            let ghost before = w@;
            emit_block(&mut w, yuv.y, cw, cx, cy, MB_SIZE);
            let (ccx, ccy) = (cx / 2, cy / 2);
            emit_block(&mut w, yuv.u, cwc, ccx, ccy, half);
            emit_block(&mut w, yuv.v, cwc, ccx, ccy, half);
            proof {
                lemma_bytes_bits_concat3(
                    block_bytes(ys, cw as int, cx as int, cy as int, 16),
                    block_bytes(us, cwc as int, ccx as int, ccy as int, 8),
                    block_bytes(vs, cwc as int, ccx as int, ccy as int, 8),
                );
                assert(w@ =~= pcm_data(header, ys, us, vs, cw as int, nx as int, n + 1));
            }
            mb_x = mb_x + 1;
        }
        mb_y = mb_y + 1;
        proof {
            assert((mb_y - 1) * nx + nx == mb_y * nx) by (nonlinear_arith);
        }
    }
    proof {
        assert(ny * nx == nx * ny) by (nonlinear_arith);
    }
    let _ = cfg;
    rbsp_trailing_bits(&mut w);
    w.finish()
}

/// Writing bytes is a homomorphism from concatenation to concatenation.
pub proof fn lemma_bytes_bits_concat(a: Seq<u8>, b: Seq<u8>)
    ensures
        bytes_bits(a + b) == bytes_bits(a) + bytes_bits(b),
    decreases b.len(),
{
    if b.len() == 0 {
        assert(a + b =~= a);
        assert(bytes_bits(a) + bytes_bits(b) =~= bytes_bits(a));
    } else {
        lemma_bytes_bits_concat(a, b.drop_last());
        assert((a + b).drop_last() =~= a + b.drop_last());
        assert(bytes_bits(a + b) == bytes_bits(a + b.drop_last()) + bits_of(b.last() as nat, 8));
        assert(bytes_bits(a) + bytes_bits(b) =~= bytes_bits(a) + bytes_bits(b.drop_last()) + bits_of(
            b.last() as nat,
            8,
        ));
    }
}

/// Three blocks in a row.
proof fn lemma_bytes_bits_concat3(a: Seq<u8>, b: Seq<u8>, c: Seq<u8>)
    ensures
        bytes_bits(a + b + c) == bytes_bits(a) + bytes_bits(b) + bytes_bits(c),
{
    lemma_bytes_bits_concat(a + b, c);
    lemma_bytes_bits_concat(a, b);
}

} // verus!
