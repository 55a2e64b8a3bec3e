//! Moving square blocks and rectangles between sample planes and the
//! encoders' working buffers.

use crate::num::clamp;
use vstd::prelude::*;

verus! {

/// Index of sample `(x + k % n, y + k / n)` of a plane `w` wide: entry `k`
/// of the row-major `n`×`n` block at `(x, y)`.
pub open spec fn block_index(w: int, x: int, y: int, n: int, k: int) -> int {
    (y + k / n) * w + x + k % n
}

/// The `n`×`n` block at `(x, y)` of a plane `w` wide fits in `len` samples
/// and every index of it in `u32`.
pub open spec fn block_fits(len: int, w: int, x: int, y: int, n: int) -> bool {
    n == 0 || ((y + n - 1) * w + x + n <= len && (y + n - 1) * w + x + n <= u32::MAX + 1 && y + n <= u32::MAX + 1)
}

/// Every entry of an `n`×`n` block in a plane that holds it indexes the plane.
proof fn lemma_block_index(len: int, w: int, x: int, y: int, n: int, k: int)
    requires
        0 <= w,
        0 <= x,
        0 <= y,
        n > 0,
        block_fits(len, w, x, y, n),
        0 <= k < n * n,
    ensures
        0 <= block_index(w, x, y, n, k) < len,
        block_index(w, x, y, n, k) <= u32::MAX,
        (y + k / n) * w <= block_index(w, x, y, n, k),
        y + k / n <= u32::MAX,
        k % n < n,
{
    let r = k / n;
    let c = k % n;
    assert(0 <= r < n) by (nonlinear_arith)
        requires
            0 <= k < n * n,
            n > 0,
            r == k / n,
    ;
    assert((y + r) * w <= (y + n - 1) * w) by (nonlinear_arith)
        requires
            r <= n - 1,
            w >= 0,
    ;
    assert(0 <= (y + r) * w) by (nonlinear_arith)
        requires
            y + r >= 0,
            w >= 0,
    ;
    assert((y + n - 1) * w <= (y + n) * w) by (nonlinear_arith)
        requires
            w >= 0,
    ;
}

/// Entry `(r, c)` of an `n`×`n` block is entry `r·n + c` of its row-major
/// list, and back.
proof fn lemma_block_entry(n: int, r: int, c: int)
    requires
        0 <= r,
        0 <= c < n,
    ensures
        (r * n + c) / n == r,
        (r * n + c) % n == c,
{
    vstd::arithmetic::div_mod::lemma_fundamental_div_mod_converse(r * n + c, n, r, c);
}

/// Copy the `n`×`n` block at `(x, y)` of a plane `w` wide into the first
/// `n²` entries of `out`, row-major.
pub fn gather_into(plane: &[u8], w: u32, x: u32, y: u32, n: u32, out: &mut [i32])
    requires
        block_fits(plane@.len() as int, w as int, x as int, y as int, n as int),
        n <= 256,
        old(out)@.len() >= n * n,
    ensures
        final(out)@.len() == old(out)@.len(),
        forall|k: int| 0 <= k < n * n ==> #[trigger] final(out)@[k] == plane@[block_index(w as int, x as int, y as int, n as int, k)] as i32,
        forall|k: int| n * n <= k < old(out)@.len() ==> #[trigger] final(out)@[k] == old(out)@[k],
{
    let mut yy: u32 = 0;
    while yy < n
        invariant
            block_fits(plane@.len() as int, w as int, x as int, y as int, n as int),
            n <= 256,
            yy <= n,
            out@.len() == old(out)@.len(),
            old(out)@.len() >= n * n,
            forall|k: int| 0 <= k < yy * n ==> #[trigger] out@[k] == plane@[block_index(w as int, x as int, y as int, n as int, k)] as i32,
            forall|k: int| yy * n <= k < old(out)@.len() ==> #[trigger] out@[k] == old(out)@[k],
        decreases n - yy,
    {
        let mut xx: u32 = 0;
        while xx < n
            invariant
                block_fits(plane@.len() as int, w as int, x as int, y as int, n as int),
                n <= 256,
                yy < n,
                xx <= n,
                out@.len() == old(out)@.len(),
                old(out)@.len() >= n * n,
                forall|k: int|
                    0 <= k < yy * n + xx ==> #[trigger] out@[k] == plane@[block_index(w as int, x as int, y as int, n as int, k)] as i32,
                forall|k: int| yy * n + xx <= k < old(out)@.len() ==> #[trigger] out@[k] == old(out)@[k],
            decreases n - xx,
        {
            let ghost k = yy * n + xx;
            proof {
                assert(0 <= yy * n + xx < n * n && n * n <= 65536) by (nonlinear_arith)
                    requires
                        yy < n,
                        xx < n,
                        n <= 256,
                ;
                lemma_block_entry(n as int, yy as int, xx as int);
                lemma_block_index(plane@.len() as int, w as int, x as int, y as int, n as int, k);
                assert(block_index(w as int, x as int, y as int, n as int, k) == (y + yy) * w + x + xx);
            }
            let src = ((y + yy) * w + x + xx) as usize;
            let dst = (yy * n + xx) as usize;
            out[dst] = plane[src] as i32;
            xx = xx + 1;
        }
        proof {
            assert(yy * n + n == (yy + 1) * n) by (nonlinear_arith);
        }
        yy = yy + 1;
    }
}

/// The `n`×`n` block at `(x, y)` of a plane `w` wide, row-major, as `i32`s.
pub open spec fn gathered(plane: Seq<u8>, w: int, x: int, y: int, n: int) -> Seq<i32> {
    Seq::new((n * n) as nat, |k: int| plane[block_index(w, x, y, n, k)] as i32)
}

/// The `n`×`n` block at `(x, y)` of a plane `w` wide, row-major.
pub fn gather(plane: &[u8], w: u32, x: u32, y: u32, n: u32) -> (b: Vec<i32>)
    requires
        block_fits(plane@.len() as int, w as int, x as int, y as int, n as int),
        n <= 256,
    ensures
        b@.len() == n * n,
        forall|k: int| 0 <= k < n * n ==> #[trigger] b@[k] == plane@[block_index(w as int, x as int, y as int, n as int, k)] as i32,
        b@ == gathered(plane@, w as int, x as int, y as int, n as int),
{
    proof {
        assert(n * n <= 65536) by (nonlinear_arith)
            requires
                n <= 256,
        ;
    }
    let mut b = vec![0i32; (n * n) as usize];
    gather_into(plane, w, x, y, n, b.as_mut_slice());
    proof {
        assert(b@ =~= gathered(plane@, w as int, x as int, y as int, n as int));
    }
    b
}

/// The plane after the first `k` writes of storing `block` as an `n`×`n`
/// block at `(x, y)`, each sample clamped to 8 bits.
pub open spec fn stored(plane: Seq<u8>, w: int, x: int, y: int, n: int, block: Seq<i32>, k: int) -> Seq<u8>
    decreases k,
{
    if k <= 0 {
        plane
    } else {
        stored(plane, w, x, y, n, block, k - 1).update(
            block_index(w, x, y, n, k - 1),
            clamp(block[k - 1] as int, 0, 255) as u8,
        )
    }
}

/// Write `block` (row-major, `n`×`n`) into a plane `w` wide at `(x, y)`,
/// clamping each sample to 8 bits.
pub fn store(plane: &mut [u8], w: u32, x: u32, y: u32, n: u32, block: &[i32])
    requires
        block_fits(old(plane)@.len() as int, w as int, x as int, y as int, n as int),
        n <= 256,
        block@.len() >= n * n,
    ensures
        final(plane)@ == stored(old(plane)@, w as int, x as int, y as int, n as int, block@, n * n),
{
    let mut yy: u32 = 0;
    while yy < n
        invariant
            block_fits(old(plane)@.len() as int, w as int, x as int, y as int, n as int),
            n <= 256,
            block@.len() >= n * n,
            yy <= n,
            plane@ == stored(old(plane)@, w as int, x as int, y as int, n as int, block@, yy * n),
        decreases n - yy,
    {
        let mut xx: u32 = 0;
        while xx < n
            invariant
                block_fits(old(plane)@.len() as int, w as int, x as int, y as int, n as int),
                n <= 256,
                block@.len() >= n * n,
                yy < n,
                xx <= n,
                plane@ == stored(old(plane)@, w as int, x as int, y as int, n as int, block@, yy * n + xx),
            decreases n - xx,
        {
            let ghost k = yy * n + xx;
            proof {
                assert(0 <= yy * n + xx < n * n && n * n <= 65536) by (nonlinear_arith)
                    requires
                        yy < n,
                        xx < n,
                        n <= 256,
                ;
                lemma_block_entry(n as int, yy as int, xx as int);
                lemma_block_index(old(plane)@.len() as int, w as int, x as int, y as int, n as int, k);
                assert(block_index(w as int, x as int, y as int, n as int, k) == (y + yy) * w + x + xx);
                assert(plane@.len() == old(plane)@.len()) by {
                    lemma_stored_len(old(plane)@, w as int, x as int, y as int, n as int, block@, k);
                }
            }
            let dst = ((y + yy) * w + x + xx) as usize;
            let src = (yy * n + xx) as usize;
            let v = block[src];
            plane[dst] = crate::num::clip_u8(v);
            xx = xx + 1;
        }
        proof {
            assert(yy * n + n == (yy + 1) * n) by (nonlinear_arith);
        }
        yy = yy + 1;
    }
}

/// Storing keeps the plane's length.
pub proof fn lemma_stored_len(plane: Seq<u8>, w: int, x: int, y: int, n: int, block: Seq<i32>, k: int)
    requires
        0 <= w,
        0 <= x,
        0 <= y,
        n > 0,
        block_fits(plane.len() as int, w, x, y, n),
        k <= n * n,
    ensures
        stored(plane, w, x, y, n, block, k).len() == plane.len(),
    decreases k,
{
    if k > 0 {
        lemma_stored_len(plane, w, x, y, n, block, k - 1);
        lemma_block_index(plane.len() as int, w, x, y, n, k - 1);
    }
}

// ---------------------------------------------------------------- rectangles

/// A `w`×`h` rectangle at `(x, y)` of a plane `stride` wide lies in `len`
/// samples, and every offset the copy computes fits in `u32`.
pub open spec fn rect_fits(len: int, stride: int, x: int, y: int, w: int, h: int) -> bool {
    h == 0 || ((y + h - 1) * stride + x + w <= len && (y + h - 1) * stride + x + w <= u32::MAX + 1 && y + h <= u32::MAX
        + 1)
}

/// Sample `(c, r)` of a rectangle that fits is inside the plane, and its
/// offset is entry `r·w + c` of the rectangle's row-major list.
proof fn lemma_rect_index(len: int, stride: int, x: int, y: int, w: int, h: int, r: int, c: int)
    requires
        0 <= stride,
        0 <= x,
        0 <= y,
        rect_fits(len, stride, x, y, w, h),
        0 <= r < h,
        0 <= c < w,
    ensures
        0 <= (y + r) * stride + x + c < len,
        (y + r) * stride + x + c <= u32::MAX,
        y + r <= u32::MAX,
        block_index(stride, x, y, w, r * w + c) == (y + r) * stride + x + c,
        0 <= r * w + c < w * h,
{
    assert((y + r) * stride <= (y + h - 1) * stride) by (nonlinear_arith)
        requires
            r <= h - 1,
            stride >= 0,
    ;
    assert(0 <= (y + r) * stride) by (nonlinear_arith)
        requires
            y + r >= 0,
            stride >= 0,
    ;
    assert((y + h - 1) * stride <= (y + h) * stride) by (nonlinear_arith)
        requires
            stride >= 0,
    ;
    assert(0 <= r * w + c < w * h) by (nonlinear_arith)
        requires
            0 <= r < h,
            0 <= c < w,
    ;
    lemma_block_entry(w, r, c);
}

/// The `w`×`h` rectangle at `(x, y)` of a plane `stride` wide, row-major.
pub open spec fn cropped(plane: Seq<u8>, stride: int, x: int, y: int, w: int, h: int) -> Seq<u8> {
    Seq::new((w * h) as nat, |k: int| plane[block_index(stride, x, y, w, k)])
}

/// Copy the `w`×`h` rectangle at `(x, y)` out of a plane `stride` wide, row
/// by row.
pub fn crop(plane: &[u8], stride: u32, x: u32, y: u32, w: u32, h: u32) -> (out: Vec<u8>)
    requires
        rect_fits(plane@.len() as int, stride as int, x as int, y as int, w as int, h as int),
        w * h <= u32::MAX,
    ensures
        out@.len() == w * h,
        forall|k: int| 0 <= k < w * h ==> #[trigger] out@[k] == plane@[block_index(stride as int, x as int, y as int, w as int, k)],
        out@ == cropped(plane@, stride as int, x as int, y as int, w as int, h as int),
{
    let mut out: Vec<u8> = Vec::new();
    let mut r: u32 = 0;
    while r < h
        invariant
            rect_fits(plane@.len() as int, stride as int, x as int, y as int, w as int, h as int),
            r <= h,
            out@.len() == r * w,
            forall|k: int| 0 <= k < r * w ==> #[trigger] out@[k] == plane@[block_index(stride as int, x as int, y as int, w as int, k)],
        decreases h - r,
    {
        let mut c: u32 = 0;
        while c < w
            invariant
                rect_fits(plane@.len() as int, stride as int, x as int, y as int, w as int, h as int),
                r < h,
                c <= w,
                out@.len() == r * w + c,
                forall|k: int|
                    0 <= k < r * w + c ==> #[trigger] out@[k] == plane@[block_index(stride as int, x as int, y as int, w as int, k)],
            decreases w - c,
        {
            proof {
                lemma_rect_index(plane@.len() as int, stride as int, x as int, y as int, w as int, h as int, r as int, c as int);
            }
            let o = (y + r) * stride + x + c;
            out.push(plane[o as usize]);
            c = c + 1;
        }
        proof {
            assert(r * w + w == (r + 1) * w) by (nonlinear_arith);
        }
        r = r + 1;
    }
    proof {
        assert(h * w == w * h) by (nonlinear_arith);
        assert(out@ =~= cropped(plane@, stride as int, x as int, y as int, w as int, h as int));
    }
    out
}

/// The plane after the first `k` writes of pasting the `w`-wide rectangle
/// `src` (rows `src_stride` apart) at `(x, y)`.
pub open spec fn pasted(dst: Seq<u8>, stride: int, src: Seq<u8>, src_stride: int, x: int, y: int, w: int, k: int) -> Seq<u8>
    decreases k,
{
    if k <= 0 {
        dst
    } else {
        pasted(dst, stride, src, src_stride, x, y, w, k - 1).update(
            block_index(stride, x, y, w, k - 1),
            src[(k - 1) / w * src_stride + (k - 1) % w],
        )
    }
}

/// The source rows of a `w`×`h` paste lie in `len` samples, and every
/// offset into them fits in `u32`.
pub open spec fn rows_fit(len: int, src_stride: int, w: int, h: int) -> bool {
    h == 0 || ((h - 1) * src_stride + w <= len && (h - 1) * src_stride + w <= u32::MAX)
}

/// Pasting keeps the plane's length.
pub proof fn lemma_pasted_len(dst: Seq<u8>, stride: int, src: Seq<u8>, src_stride: int, x: int, y: int, w: int, h: int, k: int)
    requires
        0 <= stride,
        0 <= x,
        0 <= y,
        w > 0,
        rect_fits(dst.len() as int, stride, x, y, w, h),
        0 <= k <= w * h,
    ensures
        pasted(dst, stride, src, src_stride, x, y, w, k).len() == dst.len(),
    decreases k,
{
    if k > 0 {
        lemma_pasted_len(dst, stride, src, src_stride, x, y, w, h, k - 1);
        let r = (k - 1) / w;
        let c = (k - 1) % w;
        assert(0 <= r < h && 0 <= c < w && k - 1 == r * w + c) by (nonlinear_arith)
            requires
                0 <= k - 1 < w * h,
                w > 0,
                r == (k - 1) / w,
                c == (k - 1) % w,
        ;
        lemma_rect_index(dst.len() as int, stride, x, y, w, h, r, c);
    }
}

/// Paste the `w`×`h` rectangle `src` (rows `src_stride` apart) into a plane
/// `stride` wide at `(x, y)`, row by row.
pub fn paste(dst: &mut [u8], stride: u32, src: &[u8], src_stride: u32, x: u32, y: u32, w: u32, h: u32)
    requires
        rect_fits(old(dst)@.len() as int, stride as int, x as int, y as int, w as int, h as int),
        rows_fit(src@.len() as int, src_stride as int, w as int, h as int),
    ensures
        final(dst)@ == pasted(old(dst)@, stride as int, src@, src_stride as int, x as int, y as int, w as int, w * h),
{
    let mut r: u32 = 0;
    while r < h
        invariant
            rect_fits(old(dst)@.len() as int, stride as int, x as int, y as int, w as int, h as int),
            rows_fit(src@.len() as int, src_stride as int, w as int, h as int),
            r <= h,
            dst@ == pasted(old(dst)@, stride as int, src@, src_stride as int, x as int, y as int, w as int, r * w),
        decreases h - r,
    {
        let mut c: u32 = 0;
        while c < w
            invariant
                rect_fits(old(dst)@.len() as int, stride as int, x as int, y as int, w as int, h as int),
                rows_fit(src@.len() as int, src_stride as int, w as int, h as int),
                r < h,
                c <= w,
                dst@ == pasted(old(dst)@, stride as int, src@, src_stride as int, x as int, y as int, w as int, r * w + c),
            decreases w - c,
        {
            proof {
                lemma_rect_index(old(dst)@.len() as int, stride as int, x as int, y as int, w as int, h as int, r as int, c as int);
                lemma_pasted_len(old(dst)@, stride as int, src@, src_stride as int, x as int, y as int, w as int, h as int, r * w + c);
                assert(r * src_stride <= (h - 1) * src_stride) by (nonlinear_arith)
                    requires
                        r <= h - 1,
                ;
                lemma_block_entry(w as int, r as int, c as int);
            }
            let d = (y + r) * stride + x + c;
            let s = r * src_stride + c;
            dst[d as usize] = src[s as usize];
            c = c + 1;
        }
        proof {
            assert(r * w + w == (r + 1) * w) by (nonlinear_arith);
        }
        r = r + 1;
    }
    proof {
        assert(h * w == w * h) by (nonlinear_arith);
    }
}

// ---------------------------------------------------------------- read-back

/// Entries of a rectangle no wider than its plane land on distinct samples.
proof fn lemma_block_index_injective(stride: int, x: int, y: int, w: int, j: int, k: int)
    requires
        0 < w <= stride,
        0 <= j < k,
    ensures
        block_index(stride, x, y, w, j) != block_index(stride, x, y, w, k),
{
    let rj = j / w;
    let cj = j % w;
    let rk = k / w;
    let ck = k % w;
    assert(j == rj * w + cj && k == rk * w + ck && 0 <= cj < w && 0 <= ck < w && rj <= rk) by (nonlinear_arith)
        requires
            0 < w,
            0 <= j < k,
            rj == j / w,
            cj == j % w,
            rk == k / w,
            ck == k % w,
    ;
    if rj == rk {
        assert(cj != ck);
    } else {
        assert((rk - rj) * stride >= stride) by (nonlinear_arith)
            requires
                rk - rj >= 1,
                stride > 0,
        ;
        assert((y + rk) * stride - (y + rj) * stride == (rk - rj) * stride) by (nonlinear_arith);
    }
}

/// After the first `m` writes of a paste, each written sample holds its
/// source sample.
proof fn lemma_pasted_reads_back(dst: Seq<u8>, stride: int, src: Seq<u8>, src_stride: int, x: int, y: int, w: int, h: int, m: int)
    requires
        0 <= x,
        0 <= y,
        0 < w <= stride,
        rect_fits(dst.len() as int, stride, x, y, w, h),
        0 <= m <= w * h,
    ensures
        forall|j: int|
            0 <= j < m ==> #[trigger] pasted(dst, stride, src, src_stride, x, y, w, m)[block_index(stride, x, y, w, j)] == src[j
                / w * src_stride + j % w],
    decreases m,
{
    if m > 0 {
        lemma_pasted_reads_back(dst, stride, src, src_stride, x, y, w, h, m - 1);
        lemma_pasted_len(dst, stride, src, src_stride, x, y, w, h, m - 1);
        let r = (m - 1) / w;
        let c = (m - 1) % w;
        assert(0 <= r < h && 0 <= c < w && m - 1 == r * w + c) by (nonlinear_arith)
            requires
                0 <= m - 1 < w * h,
                w > 0,
                r == (m - 1) / w,
                c == (m - 1) % w,
        ;
        lemma_rect_index(dst.len() as int, stride, x, y, w, h, r, c);
        assert forall|j: int| 0 <= j < m implies #[trigger] pasted(dst, stride, src, src_stride, x, y, w, m)[block_index(
            stride,
            x,
            y,
            w,
            j,
        )] == src[j / w * src_stride + j % w] by {
            if j < m - 1 {
                lemma_block_index_injective(stride, x, y, w, j, m - 1);
                let rj = j / w;
                let cj = j % w;
                assert(0 <= rj < h && 0 <= cj < w && j == rj * w + cj) by (nonlinear_arith)
                    requires
                        0 <= j < w * h,
                        w > 0,
                        rj == j / w,
                        cj == j % w,
                ;
                lemma_rect_index(dst.len() as int, stride, x, y, w, h, rj, cj);
            }
        }
    }
}

/// Cropping the rectangle just pasted gives back the pasted samples, when
/// the rectangle is no wider than the plane.
pub proof fn lemma_crop_after_paste_reads_back(
    dst: Seq<u8>,
    stride: u32,
    src: Seq<u8>,
    src_stride: u32,
    x: u32,
    y: u32,
    w: u32,
    h: u32,
)
    requires
        w <= stride,
        rect_fits(dst.len() as int, stride as int, x as int, y as int, w as int, h as int),
        rows_fit(src.len() as int, src_stride as int, w as int, h as int),
    ensures
        forall|k: int|
            0 <= k < w * h ==> #[trigger] pasted(dst, stride as int, src, src_stride as int, x as int, y as int, w as int, w * h)[block_index(
                stride as int,
                x as int,
                y as int,
                w as int,
                k,
            )] == src[k / (w as int) * src_stride + k % (w as int)],
{
    if w > 0 {
        lemma_pasted_reads_back(dst, stride as int, src, src_stride as int, x as int, y as int, w as int, h as int, w * h);
    }
}

/// After the first `m` writes of a store, each written sample holds its
/// block entry clamped to 8 bits.
proof fn lemma_stored_reads_back(plane: Seq<u8>, w: int, x: int, y: int, n: int, block: Seq<i32>, m: int)
    requires
        0 <= x,
        0 <= y,
        0 < n <= w,
        block_fits(plane.len() as int, w, x, y, n),
        0 <= m <= n * n,
    ensures
        forall|j: int|
            0 <= j < m ==> #[trigger] stored(plane, w, x, y, n, block, m)[block_index(w, x, y, n, j)] == clamp(
                block[j] as int,
                0,
                255,
            ) as u8,
    decreases m,
{
    if m > 0 {
        lemma_stored_reads_back(plane, w, x, y, n, block, m - 1);
        lemma_stored_len(plane, w, x, y, n, block, m - 1);
        lemma_block_index(plane.len() as int, w, x, y, n, m - 1);
        assert forall|j: int| 0 <= j < m implies #[trigger] stored(plane, w, x, y, n, block, m)[block_index(
            w,
            x,
            y,
            n,
            j,
        )] == clamp(block[j] as int, 0, 255) as u8 by {
            if j < m - 1 {
                lemma_block_index_injective(w, x, y, n, j, m - 1);
                lemma_block_index(plane.len() as int, w, x, y, n, j);
            }
        }
    }
}

/// Gathering the block just stored gives back its samples clamped to 8
/// bits, when the block is no wider than the plane.
pub proof fn lemma_gather_after_store_reads_back(plane: Seq<u8>, w: u32, x: u32, y: u32, n: u32, block: Seq<i32>)
    requires
        n <= w,
        block_fits(plane.len() as int, w as int, x as int, y as int, n as int),
    ensures
        forall|k: int|
            0 <= k < n * n ==> #[trigger] stored(plane, w as int, x as int, y as int, n as int, block, n * n)[block_index(
                w as int,
                x as int,
                y as int,
                n as int,
                k,
            )] == clamp(block[k] as int, 0, 255) as u8,
{
    if n > 0 {
        lemma_stored_reads_back(plane, w as int, x as int, y as int, n as int, block, n * n);
    }
}

/// Pasting back, row-major, samples that already sit where they are pasted
/// leaves the plane as it was.
proof fn lemma_paste_in_place(dst: Seq<u8>, stride: int, src: Seq<u8>, x: int, y: int, w: int, h: int, k: int)
    requires
        0 <= stride,
        0 <= x,
        0 <= y,
        w > 0,
        rect_fits(dst.len() as int, stride, x, y, w, h),
        0 <= k <= w * h,
        forall|j: int| 0 <= j < w * h ==> #[trigger] src[j] == dst[block_index(stride, x, y, w, j)],
    ensures
        pasted(dst, stride, src, w, x, y, w, k) == dst,
    decreases k,
{
    if k > 0 {
        lemma_paste_in_place(dst, stride, src, x, y, w, h, k - 1);
        let r = (k - 1) / w;
        let c = (k - 1) % w;
        assert(0 <= r < h && 0 <= c < w && k - 1 == r * w + c && (k - 1) / w * w + (k - 1) % w == k - 1)
            by (nonlinear_arith)
            requires
                0 <= k - 1 < w * h,
                w > 0,
                r == (k - 1) / w,
                c == (k - 1) % w,
        ;
        lemma_rect_index(dst.len() as int, stride, x, y, w, h, r, c);
        assert(src[k - 1] == dst[block_index(stride, x, y, w, k - 1)]);
        assert(dst.update(block_index(stride, x, y, w, k - 1), dst[block_index(stride, x, y, w, k - 1)]) =~= dst);
    }
}

/// Pasting a crop of a plane back where it came from leaves the plane as it
/// was.
pub proof fn lemma_paste_of_crop_is_identity(dst: Seq<u8>, stride: u32, x: u32, y: u32, w: u32, h: u32)
    requires
        rect_fits(dst.len() as int, stride as int, x as int, y as int, w as int, h as int),
    ensures
        pasted(
            dst,
            stride as int,
            cropped(dst, stride as int, x as int, y as int, w as int, h as int),
            w as int,
            x as int,
            y as int,
            w as int,
            w * h,
        ) == dst,
{
    if w > 0 {
        lemma_paste_in_place(
            dst,
            stride as int,
            cropped(dst, stride as int, x as int, y as int, w as int, h as int),
            x as int,
            y as int,
            w as int,
            h as int,
            w * h,
        );
    } else {
        assert(w * h == 0) by (nonlinear_arith)
            requires
                w == 0,
        ;
    }
}

} // verus!
