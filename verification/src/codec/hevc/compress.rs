//! Decisions of the HEVC intra encoder that need no entropy coder: the
//! most-probable-mode list, reference-sample availability in decoding order,
//! the substituted and smoothed reference chain, and the coefficient scan a
//! block uses.

use crate::codec::planes::{crop, cropped, lemma_paste_of_crop_is_identity, paste, pasted, rect_fits};
use vstd::arithmetic::power2::{lemma_pow2_pos, pow2};
use vstd::bits::{lemma_u32_low_bits_mask_is_mod, lemma_u32_pow2_no_overflow, lemma_u32_shl_is_mul, lemma_u32_shr_is_div, low_bits_mask};
use vstd::prelude::*;

verus! {

/// `INTRA_PLANAR` (§8.4.2).
pub const PLANAR: u8 = 0;

/// `INTRA_DC`.
pub const DC: u8 = 1;

/// The pure vertical angular mode.
pub const VERTICAL: u8 = 26;

/// The pure horizontal angular mode.
pub const HORIZONTAL: u8 = 10;

// ---------------------------------------------------------------- MPM list

/// The three most probable modes for a block whose left and above
/// candidates are `a` and `b` (§8.4.2).
pub open spec fn spec_mpm_list(a: u8, b: u8) -> (u8, u8, u8) {
    if a == b {
        if a < 2 {
            (PLANAR, DC, VERTICAL)
        } else {
            (a, (2 + (a + 29) % 32) as u8, (2 + (a - 1) % 32) as u8)
        }
    } else if a != PLANAR && b != PLANAR {
        (a, b, PLANAR)
    } else if a != DC && b != DC {
        (a, b, DC)
    } else {
        (a, b, VERTICAL)
    }
}

/// Build the 3-entry most-probable-mode list (§8.4.2).
pub fn mpm_list(a: u8, b: u8) -> (l: [u8; 3])
    ensures
        (l[0], l[1], l[2]) == spec_mpm_list(a, b),
{
    if a == b {
        if a < 2 {
            [PLANAR, DC, VERTICAL]
        } else {
            [a, 2 + ((a as i32 + 29) % 32) as u8, 2 + ((a as i32 - 2 + 1) % 32) as u8]
        }
    } else {
        let mut l = [a, b, 0];
        l[2] = if a != PLANAR && b != PLANAR {
            PLANAR
        } else if a != DC && b != DC {
            DC
        } else {
            VERTICAL
        };
        l
    }
}

/// For two candidate modes, the list holds three distinct modes, all valid,
/// led by the left candidate and holding the above one; two equal angular
/// candidates bring in their two angular neighbours.
pub proof fn lemma_mpm_list_is_three_distinct_modes(a: u8, b: u8)
    requires
        a <= 34,
        b <= 34,
    ensures
        ({
            let (m0, m1, m2) = spec_mpm_list(a, b);
            &&& m0 != m1 && m0 != m2 && m1 != m2
            &&& m0 <= 34 && m1 <= 34 && m2 <= 34
            &&& (a >= 2 ==> m0 == a)
            &&& (b == m0 || b == m1 || b == m2)
            &&& (a == b && a >= 2 ==> m1 >= 2 && m2 >= 2)
        }),
{
}

/// Two equal angular candidates bring in their two angular neighbours
/// (§8.4.2), taken round the 32 modes `2..=33`: `a − 1`, with 2 going to
/// 33, and `a + 1`, with 33 going to 2 and 34 to 3.
pub proof fn lemma_mpm_neighbours_of_an_angular_mode(a: u8)
    requires
        2 <= a <= 34,
    ensures
        spec_mpm_list(a, a).0 == a,
        spec_mpm_list(a, a).1 == if a == 2 {
            33
        } else {
            a - 1
        },
        spec_mpm_list(a, a).2 == if a >= 33 {
            a - 31
        } else {
            a + 1
        },
{
}

// ---------------------------------------------------------------- smoothing

/// Whether a block of `n` samples predicted in `mode` has its reference
/// samples smoothed (§8.4.4.2.3): never for DC or 4×4, and otherwise when
/// the mode is farther from both pure directions than the size allows.
pub open spec fn spec_filter_flag(mode: u8, n: usize) -> bool {
    if mode == DC || n == 4 {
        false
    } else {
        let dv: int = if mode >= 26 {
            mode - 26
        } else {
            26 - mode
        };
        let dh: int = if mode >= 10 {
            mode - 10
        } else {
            10 - mode
        };
        let min_dist = if dv < dh {
            dv
        } else {
            dh
        };
        let thres: int = if n == 8 {
            7
        } else if n == 16 {
            1
        } else if n == 32 {
            0
        } else {
            8
        };
        min_dist > thres
    }
}

/// Reference-sample smoothing decision (§8.4.4.2.3): the `[1 2 1]` filter
/// applies for larger blocks and modes far from horizontal and vertical.
pub fn filter_flag(mode: u8, n: usize) -> (f: bool)
    ensures
        f == spec_filter_flag(mode, n),
{
    if mode == DC || n == 4 {
        return false;
    }
    let dv: i32 = if mode as i32 >= 26 {
        mode as i32 - 26
    } else {
        26 - mode as i32
    };
    let dh: i32 = if mode as i32 >= 10 {
        mode as i32 - 10
    } else {
        10 - mode as i32
    };
    let min_dist = if dv < dh {
        dv
    } else {
        dh
    };
    let thres: i32 = if n == 8 {
        7
    } else if n == 16 {
        1
    } else if n == 32 {
        0
    } else {
        8
    };
    min_dist > thres
}

/// `scanIdx` (§7.4.9.11): 0 diagonal, 1 horizontal, 2 vertical.
pub open spec fn spec_scan_idx(mode: u8, log2: u32, chroma: bool) -> u8 {
    if !(log2 == 2 || (log2 == 3 && !chroma)) {
        0
    } else if 6 <= mode <= 14 {
        2
    } else if 22 <= mode <= 30 {
        1
    } else {
        0
    }
}

/// `scanIdx` (§7.4.9.11). 4×4 blocks and 8×8 luma pick their coefficient
/// scan from the prediction mode: near-horizontal prediction scans
/// vertically and near-vertical horizontally; everything larger scans
/// diagonally.
pub fn scan_idx(mode: u8, log2: u32, chroma: bool) -> (s: u8)
    ensures
        s == spec_scan_idx(mode, log2, chroma),
{
    if !(log2 == 2 || (log2 == 3 && !chroma)) {
        return 0;
    }
    if 6 <= mode && mode <= 14 {
        2
    } else if 22 <= mode && mode <= 30 {
        1
    } else {
        0
    }
}

// ---------------------------------------------------------------- z-order

/// `v`'s bits moved to the even positions: bit `i` of `v` becomes bit `2i`.
pub open spec fn spread_bits(v: nat) -> nat
    decreases v,
{
    if v == 0 {
        0
    } else {
        4 * spread_bits(v / 2) + v % 2
    }
}

/// The z-order (Morton) code of `(x, y)` over their low sixteen bits: the
/// bits of `x` in the even positions and those of `y` in the odd ones.
pub open spec fn spec_morton(x: nat, y: nat) -> nat {
    spread_bits(x % 0x10000) + 2 * spread_bits(y % 0x10000)
}

/// The doubling-and-masking ladder of [`spread`].
pub open spec fn ladder(v: u32) -> u32 {
    let v0 = v & 0xFFFF;
    let v1 = (v0 | (v0 << 8u32)) & 0x00FF_00FF;
    let v2 = (v1 | (v1 << 4u32)) & 0x0F0F_0F0F;
    let v3 = (v2 | (v2 << 2u32)) & 0x3333_3333;
    (v3 | (v3 << 1u32)) & 0x5555_5555
}

/// One rung of the ladder peels off the lowest bit.
proof fn lemma_ladder_step(w: u32)
    by (bit_vector)
    requires
        w < 0x10000,
    ensures
        ladder(w) == 4 * ladder(w >> 1u32) + (w & 1),
        w >> 1u32 == w / 2,
        w & 1 == w % 2,
        ladder(w) & 0xAAAA_AAAA == 0,
        ladder(w) <= 0x5555_5555,
        ladder(w & 0xFFFF) == ladder(w),
        w & 0xFFFF == w,
{
}

/// Two spread values interleave without carries.
proof fn lemma_interleave(a: u32, b: u32)
    by (bit_vector)
    requires
        a & 0xAAAA_AAAA == 0,
        b & 0xAAAA_AAAA == 0,
        b <= 0x5555_5555,
    ensures
        a | (b << 1u32) == a + 2 * b,
{
}

/// The ladder spreads the low sixteen bits.
proof fn lemma_ladder_spreads(w: u32)
    requires
        w < 0x10000,
    ensures
        ladder(w) == spread_bits(w as nat),
    decreases w,
{
    lemma_ladder_step(w);
    if w != 0 {
        lemma_ladder_step(w >> 1u32);
        lemma_ladder_spreads(w >> 1u32);
    }
}

/// Move each of the low 16 bits of `v` into an even position and zero the
/// odd ones.
pub fn spread(v: u32) -> (r: u32)
    ensures
        r == spread_bits(v as nat % 0x10000),
        r & 0xAAAA_AAAA == 0,
        r <= 0x5555_5555,
{
    let ghost input = v;
    let mut v = v & 0xFFFF;
    v = (v | (v << 8)) & 0x00FF_00FF;
    v = (v | (v << 4)) & 0x0F0F_0F0F;
    v = (v | (v << 2)) & 0x3333_3333;
    v = (v | (v << 1)) & 0x5555_5555;
    proof {
        let w = input & 0xFFFF;
        assert(w == input % 0x10000 && w < 0x10000) by (bit_vector)
            requires
                w == input & 0xFFFF,
        ;
        assert(v == ladder(input));
        lemma_ladder_step(w);
        lemma_ladder_spreads(w);
    }
    v
}

/// Interleave the bits of `x` and `y` (`y` in the odd positions): the
/// z-order curve HEVC scans transform blocks along.
pub fn morton(x: u32, y: u32) -> (m: u32)
    ensures
        m == spec_morton(x as nat, y as nat),
{
    let a = spread(x);
    let b = spread(y);
    proof {
        lemma_interleave(a, b);
    }
    a | (b << 1)
}

/// `c` is a power of two.
pub open spec fn is_pow2(c: u32) -> bool {
    c != 0 && c & ((c - 1) as u32) == 0
}

/// Every CTB index of a picture `w`×`h` with `nx` CTBs a row fits in `u32`.
pub open spec fn grid_fits(w: u32, h: u32, ctb: u32, nx: u32) -> bool {
    (h / ctb) * nx + w / ctb <= u32::MAX
}

/// Place of sample `(px, py)` in decoding order: its CTB's raster index, then
/// its z-order code inside the CTB.
pub open spec fn spec_decode_order(px: u32, py: u32, ctb: u32, nx: u32) -> (int, int) {
    ((py / ctb) * nx + px / ctb, spec_morton((px % ctb) as nat, (py % ctb) as nat) as int)
}

/// `a` comes strictly before `b` in lexicographic order.
pub open spec fn before(a: (int, int), b: (int, int)) -> bool {
    a.0 < b.0 || (a.0 == b.0 && a.1 < b.1)
}

/// A power of two shifts and masks as it divides.
proof fn lemma_pow2_shift(ctb: u32, px: u32, py: u32) -> (t: u32)
    requires
        is_pow2(ctb),
    ensures
        t < 32,
        px >> t == px / ctb,
        py >> t == py / ctb,
        px & ((ctb - 1) as u32) == px % ctb,
        py & ((ctb - 1) as u32) == py % ctb,
        t == ctb.trailing_zeros(),
{
    vstd::std_specs::bits::axiom_u32_trailing_zeros(ctb);
    let t = ctb.trailing_zeros();
    assert(ctb == 1u32 << t) by (bit_vector)
        requires
            ctb != 0,
            ctb & ((ctb - 1) as u32) == 0,
            t < 32,
            (ctb >> t) & 1u32 == 1u32,
    ;
    lemma_u32_pow2_no_overflow(t as nat);
    lemma_u32_shl_is_mul(1u32, t);
    assert(ctb == pow2(t as nat));
    lemma_u32_shr_is_div(px, t);
    lemma_u32_shr_is_div(py, t);
    lemma_u32_low_bits_mask_is_mod(px, t as nat);
    lemma_u32_low_bits_mask_is_mod(py, t as nat);
    assert(low_bits_mask(t as nat) == ctb - 1);
    t
}

/// A sample inside the picture has a CTB index that fits.
proof fn lemma_grid_index_fits(px: u32, py: u32, w: u32, h: u32, ctb: u32, nx: u32)
    requires
        ctb > 0,
        px <= w,
        py <= h,
        grid_fits(w, h, ctb, nx),
    ensures
        (py / ctb) * nx + px / ctb <= u32::MAX,
{
    vstd::arithmetic::div_mod::lemma_div_is_ordered(py as int, h as int, ctb as int);
    vstd::arithmetic::div_mod::lemma_div_is_ordered(px as int, w as int, ctb as int);
    vstd::arithmetic::mul::lemma_mul_inequality((py / ctb) as int, (h / ctb) as int, nx as int);
}

/// Place of sample `(px, py)` in decoding order, for CTBs of `ctb` samples
/// (a power of two) laid `nx` to a row.
pub fn decode_order(px: u32, py: u32, ctb: u32, nx: u32) -> (o: (u32, u32))
    requires
        is_pow2(ctb),
        (py / ctb) * nx + px / ctb <= u32::MAX,
    ensures
        (o.0 as int, o.1 as int) == spec_decode_order(px, py, ctb, nx),
{
    let sh = ctb.trailing_zeros();
    let mask = ctb - 1;
    proof {
        let t = lemma_pow2_shift(ctb, px, py);
    }
    ((py >> sh) * nx + (px >> sh), morton(px & mask, py & mask))
}

/// Whether sample `(px, py)` lies in the `w`×`h` picture and comes before
/// `here` in decoding order.
pub open spec fn spec_available_at(px: i32, py: i32, here: (int, int), w: u32, h: u32, ctb: u32, nx: u32) -> bool {
    &&& 0 <= px < w as i32
    &&& 0 <= py < h as i32
    &&& before(spec_decode_order(px as u32, py as u32, ctb, nx), here)
}

/// Whether the sample at `(px, py)` is inside the picture and already
/// reconstructed when the block at decoding place `here` is coded.
pub fn available_at(px: i32, py: i32, here: (u32, u32), w: u32, h: u32, ctb: u32, nx: u32) -> (b: bool)
    requires
        is_pow2(ctb),
        grid_fits(w, h, ctb, nx),
    ensures
        b == spec_available_at(px, py, (here.0 as int, here.1 as int), w, h, ctb, nx),
{
    if px < 0 || py < 0 || px >= w as i32 || py >= h as i32 {
        return false;
    }
    proof {
        lemma_grid_index_fits(px as u32, py as u32, w, h, ctb, nx);
    }
    let o = decode_order(px as u32, py as u32, ctb, nx);
    o.0 < here.0 || (o.0 == here.0 && o.1 < here.1)
}

/// Whether the sample at `(px, py)` has already been reconstructed when
/// coding the block whose origin is `(bx, by)`.
///
/// CTBs are coded in raster order and blocks inside a CTB in z order, so a
/// lexicographic compare of (CTB index, z-order code) is decoding order.
pub fn available(px: i32, py: i32, bx: u32, by: u32, w: u32, h: u32, ctb: u32, nx: u32) -> (b: bool)
    requires
        is_pow2(ctb),
        grid_fits(w, h, ctb, nx),
        bx <= w,
        by <= h,
    ensures
        b == spec_available_at(px, py, spec_decode_order(bx, by, ctb, nx), w, h, ctb, nx),
{
    proof {
        lemma_grid_index_fits(bx, by, w, h, ctb, nx);
    }
    let here = decode_order(bx, by, ctb, nx);
    available_at(px, py, here, w, h, ctb, nx)
}

// ---------------------------------------------------------------- reference chain

/// Magnitude bound on reference samples that keeps the smoothing sums in
/// range.
pub const REF_BOUND: i32 = 0x1000_0000;

/// Every value of `s` lies within [`REF_BOUND`].
pub open spec fn refs_ok(s: Seq<i32>) -> bool {
    forall|k: int| 0 <= k < s.len() ==> -REF_BOUND <= #[trigger] s[k] <= REF_BOUND
}

/// Entry `i` of the `[1 2 1]` smoothing of `v` (§8.4.4.2.3); the two ends
/// are kept.
pub open spec fn spec_smooth_at(v: Seq<i32>, i: int) -> int {
    if i == 0 || i == v.len() - 1 {
        v[i] as int
    } else {
        (v[i - 1] + 2 * v[i] + v[i + 1] + 2) / 4
    }
}

/// The `[1 2 1]` smoothing of §8.4.4.2.3, applied to the whole reference
/// chain into `out`.
pub fn smooth_refs_into(vals: &[i32], out: &mut [i32])
    requires
        vals@.len() >= 1,
        old(out)@.len() >= vals@.len(),
        refs_ok(vals@),
    ensures
        final(out)@.len() == old(out)@.len(),
        forall|i: int| 0 <= i < vals@.len() ==> final(out)@[i] == spec_smooth_at(vals@, i),
        forall|i: int| vals@.len() <= i < old(out)@.len() ==> final(out)@[i] == old(out)@[i],
{
    let last = vals.len() - 1;
    out[0] = vals[0];
    out[last] = vals[last];
    let mut i: usize = 1;
    while i < last
        invariant
            last == vals@.len() - 1,
            1 <= i <= last || (last == 0 && i == 1),
            out@.len() == old(out)@.len(),
            old(out)@.len() >= vals@.len(),
            refs_ok(vals@),
            out@[0] == spec_smooth_at(vals@, 0),
            out@[last as int] == spec_smooth_at(vals@, last as int),
            forall|j: int| 1 <= j < i ==> out@[j] == spec_smooth_at(vals@, j),
            forall|j: int| vals@.len() <= j < old(out)@.len() ==> out@[j] == old(out)@[j],
        decreases last - i,
    {
        let s = vals[i - 1] + 2 * vals[i] + vals[i + 1] + 2;
        out[i] = crate::num::shr_floor(s, 2);
        proof {
            vstd::arithmetic::power2::lemma2_to64();
        }
        i = i + 1;
    }
}

/// The `[1 2 1]` smoothing of a reference chain.
pub fn smooth_refs(vals: &[i32]) -> (f: Vec<i32>)
    requires
        vals@.len() >= 1,
        refs_ok(vals@),
    ensures
        f@.len() == vals@.len(),
        forall|i: int| 0 <= i < vals@.len() ==> f@[i] == spec_smooth_at(vals@, i),
{
    let mut f = vec![0i32; vals.len()];
    smooth_refs_into(vals, f.as_mut_slice());
    f
}

/// Split the reference chain `src` of a block of `n` into the above and
/// left rays, both starting at the corner `src[2n]`.
pub fn split_refs_into(src: &[i32], n: usize, above: &mut [i32], left: &mut [i32])
    requires
        4 * n + 1 <= src@.len(),
        2 * n + 1 <= old(above)@.len(),
        2 * n + 1 <= old(left)@.len(),
    ensures
        final(above)@.len() == old(above)@.len(),
        final(left)@.len() == old(left)@.len(),
        forall|k: int| 0 <= k <= 2 * n ==> final(above)@[k] == src@[2 * n + k],
        forall|k: int| 0 <= k <= 2 * n ==> final(left)@[k] == src@[2 * n - k],
        forall|k: int| 2 * n < k < old(above)@.len() ==> final(above)@[k] == old(above)@[k],
        forall|k: int| 2 * n < k < old(left)@.len() ==> final(left)@[k] == old(left)@[k],
{
    let len = src.len();
    let corner = 2 * n;
    above[0] = src[corner];
    left[0] = src[corner];
    let mut k: usize = 1;
    while k <= 2 * n
        invariant
            corner == 2 * n,
            len == src@.len(),
            4 * n + 1 <= len,
            1 <= k <= 2 * n + 1,
            above@.len() == old(above)@.len(),
            left@.len() == old(left)@.len(),
            2 * n + 1 <= above@.len(),
            2 * n + 1 <= left@.len(),
            forall|j: int| 0 <= j < k ==> above@[j] == src@[2 * n + j],
            forall|j: int| 0 <= j < k ==> left@[j] == src@[2 * n - j],
            forall|j: int| 2 * n < j < old(above)@.len() ==> above@[j] == old(above)@[j],
            forall|j: int| 2 * n < j < old(left)@.len() ==> left@[j] == old(left)@[j],
        decreases 2 * n + 1 - k,
    {
        above[k] = src[corner + k];
        left[k] = src[corner - k];
        k = k + 1;
    }
}

/// Split the reference chain into freshly allocated above and left rays.
pub fn split_refs(src: &[i32], n: usize) -> (r: (Vec<i32>, Vec<i32>))
    requires
        4 * n + 1 <= src@.len(),
    ensures
        r.0@.len() == 2 * n + 1,
        r.1@.len() == 2 * n + 1,
        forall|k: int| 0 <= k <= 2 * n ==> r.0@[k] == src@[2 * n + k],
        forall|k: int| 0 <= k <= 2 * n ==> r.1@[k] == src@[2 * n - k],
{
    let len = src.len();
    let mut a = vec![0i32; 2 * n + 1];
    let mut l = vec![0i32; 2 * n + 1];
    split_refs_into(src, n, a.as_mut_slice(), l.as_mut_slice());
    (a, l)
}

/// The reference chain a `mode` prediction of an `n`-block reads: smoothed
/// for luma where [`spec_filter_flag`] asks for it. Chroma reference samples
/// are never filtered in 4:2:0 (§8.4.4.2.1).
pub open spec fn spec_filtered_at(vals: Seq<i32>, n: usize, mode: u8, luma: bool, i: int) -> int {
    if luma && spec_filter_flag(mode, n) {
        spec_smooth_at(vals, i)
    } else {
        vals[i] as int
    }
}

/// Apply mode-dependent smoothing to the reference chain, then split it
/// into the above and left rays the predictor consumes.
pub fn extract_into(vals: &[i32], n: usize, mode: u8, luma: bool, above: &mut [i32], left: &mut [i32])
    requires
        vals@.len() == 4 * n + 1,
        refs_ok(vals@),
        2 * n + 1 <= old(above)@.len(),
        2 * n + 1 <= old(left)@.len(),
    ensures
        final(above)@.len() == old(above)@.len(),
        final(left)@.len() == old(left)@.len(),
        forall|k: int| 0 <= k <= 2 * n ==> final(above)@[k] == spec_filtered_at(vals@, n, mode, luma, 2 * n + k),
        forall|k: int| 0 <= k <= 2 * n ==> final(left)@[k] == spec_filtered_at(vals@, n, mode, luma, 2 * n - k),
        forall|k: int| 2 * n < k < old(above)@.len() ==> final(above)@[k] == old(above)@[k],
        forall|k: int| 2 * n < k < old(left)@.len() ==> final(left)@[k] == old(left)@[k],
{
    if luma && filter_flag(mode, n) {
        let f = smooth_refs(vals);
        split_refs_into(f.as_slice(), n, above, left);
    } else {
        split_refs_into(vals, n, above, left);
    }
}

/// [`extract_into`] into freshly allocated rays.
pub fn extract(vals: &[i32], n: usize, mode: u8, luma: bool) -> (r: (Vec<i32>, Vec<i32>))
    requires
        vals@.len() == 4 * n + 1,
        refs_ok(vals@),
    ensures
        r.0@.len() == 2 * n + 1,
        r.1@.len() == 2 * n + 1,
        forall|k: int| 0 <= k <= 2 * n ==> r.0@[k] == spec_filtered_at(vals@, n, mode, luma, 2 * n + k),
        forall|k: int| 0 <= k <= 2 * n ==> r.1@[k] == spec_filtered_at(vals@, n, mode, luma, 2 * n - k),
{
    let len = vals.len();
    let mut a = vec![0i32; 2 * n + 1];
    let mut l = vec![0i32; 2 * n + 1];
    extract_into(vals, n, mode, luma, a.as_mut_slice(), l.as_mut_slice());
    (a, l)
}

/// Position of entry `k` of the reference chain of the `n`-block at
/// `(x, y)`, in the order bottom-left → left → corner → top → top-right
/// (§8.4.4.2.2).
pub open spec fn ref_pos(x: u32, y: u32, n: u32, k: int) -> (int, int) {
    if k < 2 * n {
        (x - 1, y + (2 * n - 1 - k))
    } else if k == 2 * n {
        (x - 1, y - 1)
    } else {
        (x + (k - 2 * n - 1), y - 1)
    }
}

/// Whether entry `k` of the chain is a reconstructed sample.
pub open spec fn ref_avail(x: u32, y: u32, n: u32, w: u32, h: u32, ctb: u32, nx: u32, k: int) -> bool {
    let p = ref_pos(x, y, n, k);
    spec_available_at(p.0 as i32, p.1 as i32, spec_decode_order(x, y, ctb, nx), w, h, ctb, nx)
}

/// The reconstructed sample at `p` of a plane `w` wide.
pub open spec fn sample_at(recon: Seq<u8>, w: u32, p: (int, int)) -> int {
    recon[p.1 * w + p.0] as int
}

/// First available chain entry at or after `k`; `4n + 1` when none is.
pub open spec fn first_avail(x: u32, y: u32, n: u32, w: u32, h: u32, ctb: u32, nx: u32, k: int) -> int
    decreases 4 * n + 1 - k,
{
    if k >= 4 * n + 1 || k < 0 {
        4 * n + 1
    } else if ref_avail(x, y, n, w, h, ctb, nx, k) {
        k
    } else {
        first_avail(x, y, n, w, h, ctb, nx, k + 1)
    }
}

/// Chain entry `k` after substitution (§8.4.4.2.2): an unavailable entry
/// copies the one before it; the first, if unavailable, copies the first
/// available entry; with none available every entry is 128.
pub open spec fn ref_value(recon: Seq<u8>, x: u32, y: u32, n: u32, w: u32, h: u32, ctb: u32, nx: u32, k: int) -> int
    decreases k,
{
    if k <= 0 {
        let f = first_avail(x, y, n, w, h, ctb, nx, 0);
        if f < 4 * n + 1 {
            sample_at(recon, w, ref_pos(x, y, n, f))
        } else {
            128
        }
    } else if ref_avail(x, y, n, w, h, ctb, nx, k) {
        sample_at(recon, w, ref_pos(x, y, n, k))
    } else {
        ref_value(recon, x, y, n, w, h, ctb, nx, k - 1)
    }
}

/// Every chain position of the `n`-block at `(x, y)` stays within `i32`,
/// and every sample of the `w`×`h` plane indexes `recon` within `u32`.
pub open spec fn refs_geometry_ok(recon_len: nat, w: u32, h: u32, x: u32, y: u32, n: u32, ctb: u32, nx: u32) -> bool {
    &&& is_pow2(ctb)
    &&& grid_fits(w, h, ctb, nx)
    &&& x <= w && y <= h
    &&& w <= i32::MAX && h <= i32::MAX
    &&& x + 2 * n <= i32::MAX && y + 2 * n <= i32::MAX
    &&& w * h <= u32::MAX
    &&& w * h <= recon_len
}

/// A sample inside the plane lies inside `recon`.
proof fn lemma_sample_in_plane(px: int, py: int, w: u32, h: u32)
    requires
        0 <= px < w,
        0 <= py < h,
    ensures
        0 <= py * w + px < w * h,
{
    assert(0 <= py * w + px < w * h) by (nonlinear_arith)
        requires
            0 <= px < w,
            0 <= py < h,
    ;
}

/// Read the sample at `(px, py)`, known to be inside the plane.
fn read_sample(recon: &[u8], w: u32, h: u32, px: i32, py: i32) -> (v: i32)
    requires
        0 <= px < w,
        0 <= py < h,
        w * h <= u32::MAX,
        w * h <= recon@.len(),
    ensures
        v == sample_at(recon@, w, (px as int, py as int)),
{
    proof {
        lemma_sample_in_plane(px as int, py as int, w, h);
    }
    recon[(py as u32 * w + px as u32) as usize] as i32
}

/// [`first_avail`] finds the first available entry at or after `k`.
proof fn lemma_first_avail(x: u32, y: u32, n: u32, w: u32, h: u32, ctb: u32, nx: u32, k: int)
    requires
        0 <= k <= 4 * n + 1,
    ensures
        k <= first_avail(x, y, n, w, h, ctb, nx, k) <= 4 * n + 1,
        first_avail(x, y, n, w, h, ctb, nx, k) < 4 * n + 1 ==> ref_avail(
            x,
            y,
            n,
            w,
            h,
            ctb,
            nx,
            first_avail(x, y, n, w, h, ctb, nx, k),
        ),
        forall|q: int| k <= q < first_avail(x, y, n, w, h, ctb, nx, k) ==> !ref_avail(x, y, n, w, h, ctb, nx, q),
    decreases 4 * n + 1 - k,
{
    if k < 4 * n + 1 && !ref_avail(x, y, n, w, h, ctb, nx, k) {
        lemma_first_avail(x, y, n, w, h, ctb, nx, k + 1);
    }
}

/// Build the substituted reference chain of the `n`-block at `(x, y)` into
/// `out`: `4n + 1` samples, bottom-left → left → corner → top → top-right
/// (§8.4.4.2.2). Smoothing and the above/left split come later, since they
/// depend on the mode.
pub fn refs_generic_into(
    recon: &[u8],
    w: u32,
    h: u32,
    x: u32,
    y: u32,
    n: u32,
    ctb: u32,
    nx: u32,
    out: &mut [i32],
)
    requires
        refs_geometry_ok(recon@.len(), w, h, x, y, n, ctb, nx),
        old(out)@.len() == 4 * n + 1,
    ensures
        final(out)@.len() == 4 * n + 1,
        forall|k: int| 0 <= k <= 4 * n ==> final(out)@[k] == ref_value(recon@, x, y, n, w, h, ctb, nx, k),
{
    let ni = n as i32;
    let xi = x as i32;
    let yi = y as i32;
    proof {
        lemma_grid_index_fits(x, y, w, h, ctb, nx);
    }
    let here = decode_order(x, y, ctb, nx);
    let len = out.len();
    let mut avail: Vec<bool> = vec![false; len];
    let mut k: usize = 0;
    while k < 2 * n as usize
        invariant
            refs_geometry_ok(recon@.len(), w, h, x, y, n, ctb, nx),
            len == 4 * n + 1,
            out@.len() == len,
            avail@.len() == len,
            ni == n,
            xi == x,
            yi == y,
            (here.0 as int, here.1 as int) == spec_decode_order(x, y, ctb, nx),
            k <= 2 * n,
            forall|j: int| 0 <= j < k ==> avail@[j] == ref_avail(x, y, n, w, h, ctb, nx, j),
            forall|j: int|
                0 <= j < k && #[trigger] avail@[j] ==> out@[j] == sample_at(recon@, w, ref_pos(x, y, n, j)),
        decreases 2 * n - k,
    {
        let py = yi + (2 * ni - 1 - k as i32);
        let a = available_at(xi - 1, py, here, w, h, ctb, nx);
        if a {
            out[k] = read_sample(recon, w, h, xi - 1, py);
        }
        avail.set(k, a);
        k = k + 1;
    }
    let c = available_at(xi - 1, yi - 1, here, w, h, ctb, nx);
    if c {
        out[2 * n as usize] = read_sample(recon, w, h, xi - 1, yi - 1);
    }
    avail.set(2 * n as usize, c);
    let mut k: usize = 0;
    while k < 2 * n as usize
        invariant
            refs_geometry_ok(recon@.len(), w, h, x, y, n, ctb, nx),
            len == 4 * n + 1,
            out@.len() == len,
            avail@.len() == len,
            ni == n,
            xi == x,
            yi == y,
            (here.0 as int, here.1 as int) == spec_decode_order(x, y, ctb, nx),
            k <= 2 * n,
            forall|j: int| 0 <= j < 2 * n + 1 + k ==> avail@[j] == ref_avail(x, y, n, w, h, ctb, nx, j),
            forall|j: int|
                0 <= j < 2 * n + 1 + k && #[trigger] avail@[j] ==> out@[j] == sample_at(
                    recon@,
                    w,
                    ref_pos(x, y, n, j),
                ),
        decreases 2 * n - k,
    {
        let px = xi + k as i32;
        let a = available_at(px, yi - 1, here, w, h, ctb, nx);
        let idx = 2 * n as usize + 1 + k;
        if a {
            out[idx] = read_sample(recon, w, h, px, yi - 1);
        }
        avail.set(idx, a);
        k = k + 1;
    }
    // Substitution.
    let mut any = false;
    let mut first: usize = 0;
    let mut i: usize = len;
    while i > 0
        invariant
            len == 4 * n + 1,
            avail@.len() == len,
            i <= len,
            forall|j: int| 0 <= j < len ==> avail@[j] == ref_avail(x, y, n, w, h, ctb, nx, j),
            any ==> i <= first < len && first_avail(x, y, n, w, h, ctb, nx, i as int) == first,
            !any ==> first_avail(x, y, n, w, h, ctb, nx, i as int) == 4 * n + 1,
        decreases i,
    {
        i = i - 1;
        if avail[i] {
            any = true;
            first = i;
        }
    }
    proof {
        lemma_first_avail(x, y, n, w, h, ctb, nx, 0);
        assert(ref_value(recon@, x, y, n, w, h, ctb, nx, 0) == if any {
            sample_at(recon@, w, ref_pos(x, y, n, first as int))
        } else {
            128
        });
    }
    if !any {
        let mut j: usize = 0;
        while j < len
            invariant
                len == 4 * n + 1,
                out@.len() == len,
                j <= len,
                first_avail(x, y, n, w, h, ctb, nx, 0) == 4 * n + 1,
                forall|q: int| 0 <= q < len ==> !ref_avail(x, y, n, w, h, ctb, nx, q),
                forall|q: int| 0 <= q < j ==> out@[q] == 128,
                forall|q: int| 0 <= q < j ==> ref_value(recon@, x, y, n, w, h, ctb, nx, q) == 128,
            decreases len - j,
        {
            out[j] = 128;
            proof {
                if j > 0 {
                    assert(ref_value(recon@, x, y, n, w, h, ctb, nx, j - 1) == 128);
                }
            }
            j = j + 1;
        }
        return;
    }
    proof {
        assert(avail@[first as int]);
        assert(out@[first as int] == sample_at(recon@, w, ref_pos(x, y, n, first as int)));
        if avail@[0] {
            assert(first == 0);
        }
    }
    if !avail[0] {
        out[0] = out[first];
    }
    assert(out@[0] == ref_value(recon@, x, y, n, w, h, ctb, nx, 0));
    let mut i: usize = 1;
    while i < len
        invariant
            len == 4 * n + 1,
            out@.len() == len,
            avail@.len() == len,
            1 <= i <= len,
            forall|j: int| 0 <= j < len ==> avail@[j] == ref_avail(x, y, n, w, h, ctb, nx, j),
            forall|j: int| 0 <= j < i ==> out@[j] == ref_value(recon@, x, y, n, w, h, ctb, nx, j),
            forall|j: int|
                i <= j < len && #[trigger] avail@[j] ==> out@[j] == sample_at(recon@, w, ref_pos(x, y, n, j)),
        decreases len - i,
    {
        if !avail[i] {
            out[i] = out[i - 1];
        }
        i = i + 1;
    }
}

/// Build the substituted reference chain of the `n`-block at `(x, y)`.
pub fn refs_generic(recon: &[u8], w: u32, h: u32, x: u32, y: u32, n: u32, ctb: u32, nx: u32) -> (out: Vec<i32>)
    requires
        refs_geometry_ok(recon@.len(), w, h, x, y, n, ctb, nx),
    ensures
        out@.len() == 4 * n + 1,
        forall|k: int| 0 <= k <= 4 * n ==> out@[k] == ref_value(recon@, x, y, n, w, h, ctb, nx, k),
{
    let mut out = vec![0i32; (4 * n + 1) as usize];
    refs_generic_into(recon, w, h, x, y, n, ctb, nx, out.as_mut_slice());
    out
}

/// The luma reference chain of the `n`-block at `(x, y)`: the generic chain
/// over the reconstructed luma plane, its coded-block grid `nx` wide.
pub fn refs_luma(recon: &[u8], w: u32, h: u32, x: u32, y: u32, n: u32, nx: u32, ctb: u32) -> (out: Vec<i32>)
    requires
        refs_geometry_ok(recon@.len(), w, h, x, y, n, ctb, nx),
    ensures
        out@.len() == 4 * n + 1,
        forall|k: int| 0 <= k <= 4 * n ==> out@[k] == ref_value(recon@, x, y, n, w, h, ctb, nx, k),
{
    refs_generic(recon, w, h, x, y, n, ctb, nx)
}

// ---------------------------------------------------------------- chroma QP

/// `QpC` from luma `qp` (§8.6.1, 4:2:0, offset 0): `qp` is clamped to
/// `0..=51`, kept below 30, looked up from 30 to 43 and lowered by six above.
pub open spec fn spec_chroma_qp(qp: int) -> int {
    let q = if qp < 0 {
        0
    } else if qp > 51 {
        51
    } else {
        qp
    };
    if q < 30 {
        q
    } else if q <= 43 {
        CHROMA_QP_MID[q - 30] as int
    } else {
        q - 6
    }
}

/// `QpC` for `qPi` 30 to 43 (Table 8-10).
pub const CHROMA_QP_MID: [i32; 14] = [29, 30, 31, 32, 33, 33, 34, 34, 35, 35, 36, 36, 37, 37];

/// Chroma QP from luma QP (4:2:0, offset 0) — the §8.6.1 mapping. Identity
/// below 30.
pub fn chroma_qp(qp_luma: i32) -> (q: i32)
    ensures
        q == spec_chroma_qp(qp_luma as int),
{
    let qpi = if qp_luma < 0 {
        0
    } else if qp_luma > 51 {
        51
    } else {
        qp_luma
    };
    if qpi < 30 {
        qpi
    } else if qpi <= 43 {
        CHROMA_QP_MID[(qpi - 30) as usize]
    } else {
        qpi - 6
    }
}

/// The chroma quantizer never decreases as the luma one rises, and never
/// exceeds it.
pub proof fn lemma_chroma_qp_is_monotone(a: int, b: int)
    requires
        a <= b,
    ensures
        spec_chroma_qp(a) <= spec_chroma_qp(b),
        0 <= spec_chroma_qp(a) <= 45,
        a >= 0 ==> spec_chroma_qp(a) <= a,
{
    assert forall|i: int, j: int| 0 <= i <= j < 14 implies #[trigger] CHROMA_QP_MID[i] <= #[trigger] CHROMA_QP_MID[j]
        by {
        assert(0 <= i < 14);
    }
    assert forall|i: int| 0 <= i < 14 implies 29 <= #[trigger] CHROMA_QP_MID[i] <= 37 && CHROMA_QP_MID[i] <= i + 30
        by {
        assert(0 <= i < 14);
    }
}

// ---------------------------------------------------------------- tiles

/// The first CTB and the count of part `i` when `n` CTBs are split into
/// `parts`: `(i·n)/parts` up to `((i+1)·n)/parts`.
pub open spec fn spec_tile_span(n: int, parts: int, i: int) -> (int, int) {
    ((i * n) / parts, ((i + 1) * n) / parts - (i * n) / parts)
}

/// Column `i` spans `((i+1)·n)/parts − (i·n)/parts` CTBs, which distributes
/// the remainder over the leading columns rather than dumping it on the last
/// one.
pub fn tile_spans(n: u32, parts: u32) -> (spans: Vec<(u32, u32)>)
    requires
        parts > 0,
        parts * n <= u32::MAX,
    ensures
        spans@.len() == parts,
        forall|i: int| 0 <= i < parts ==> (#[trigger] spans@[i].0 as int, spans@[i].1 as int) == spec_tile_span(n as int, parts as int, i),
{
    let mut spans: Vec<(u32, u32)> = Vec::new();
    let mut i: u32 = 0;
    while i < parts
        invariant
            parts > 0,
            parts * n <= u32::MAX,
            i <= parts,
            spans@.len() == i,
            forall|j: int| 0 <= j < i ==> (#[trigger] spans@[j].0 as int, spans@[j].1 as int) == spec_tile_span(n as int, parts as int, j),
        decreases parts - i,
    {
        proof {
            assert((i + 1) * n <= parts * n) by (nonlinear_arith)
                requires
                    i + 1 <= parts,
            ;
            assert(i * n <= (i + 1) * n) by (nonlinear_arith);
            assert((i * n) / (parts as int) <= ((i + 1) * n) / (parts as int)) by (nonlinear_arith)
                requires
                    i * n <= (i + 1) * n,
                    parts > 0,
            ;
        }
        let a = (i * n) / parts;
        let b = ((i + 1) * n) / parts;
        spans.push((a, b - a));
        i = i + 1;
    }
    spans
}

/// The tiles cover the row: consecutive spans meet, the first starts at 0
/// and the last ends at `n`, and no span is more than one CTB longer than
/// another.
pub proof fn lemma_tile_spans_partition(n: int, parts: int, i: int)
    requires
        parts > 0,
        n >= 0,
        0 <= i < parts,
    ensures
        spec_tile_span(n, parts, 0).0 == 0,
        spec_tile_span(n, parts, i).0 + spec_tile_span(n, parts, i).1 == if i + 1 < parts {
            spec_tile_span(n, parts, i + 1).0
        } else {
            n
        },
        n / parts <= spec_tile_span(n, parts, i).1 <= n / parts + 1,
{
    assert((0 * n) / parts == 0) by (nonlinear_arith)
        requires
            parts > 0,
    ;
    assert((parts * n) / parts == n) by (nonlinear_arith)
        requires
            parts > 0,
    ;
    let lo = (i * n) / parts;
    let hi = ((i + 1) * n) / parts;
    assert(n / parts <= hi - lo <= n / parts + 1) by (nonlinear_arith)
        requires
            parts > 0,
            n >= 0,
            i >= 0,
            lo == (i * n) / parts,
            hi == ((i + 1) * n) / parts,
    {
        let q = n / parts;
        let r = n % parts;
        assert(n == q * parts + r && 0 <= r < parts);
        assert((i + 1) * n == i * n + n);
    }
}

/// The widths of the first `k` spans added up.
pub open spec fn span_total(n: int, parts: int, k: int) -> int
    decreases k,
{
    if k <= 0 {
        0
    } else {
        span_total(n, parts, k - 1) + spec_tile_span(n, parts, k - 1).1
    }
}

/// The first `k` spans cover exactly the CTBs before span `k`; all of them
/// together cover the `n` CTBs of the row.
pub proof fn lemma_tile_spans_sum(n: int, parts: int, k: int)
    requires
        parts > 0,
        n >= 0,
        0 <= k <= parts,
    ensures
        span_total(n, parts, k) == (k * n) / parts,
        span_total(n, parts, parts) == n,
{
    lemma_tile_spans_sum_all(n, parts, k);
    lemma_tile_spans_sum_all(n, parts, parts);
    assert((parts * n) / parts == n) by (nonlinear_arith)
        requires
            parts > 0,
    ;
}

/// [`span_total`] up to `k` is `(k·n)/parts`.
proof fn lemma_tile_spans_sum_all(n: int, parts: int, k: int)
    requires
        parts > 0,
        n >= 0,
        0 <= k <= parts,
    ensures
        span_total(n, parts, k) == (k * n) / parts,
    decreases k,
{
    if k > 0 {
        lemma_tile_spans_sum_all(n, parts, k - 1);
    } else {
        assert((0 * n) / parts == 0) by (nonlinear_arith)
            requires
                parts > 0,
        ;
    }
}

// ---------------------------------------------------------------- grid

/// Per-minimum-coding-block state that later blocks derive their contexts
/// from: the chosen luma mode (255 where nothing has been coded yet), the
/// quadtree depth of the covering coding unit, and its `QpY`.
///
/// All of it is read by neighbours, so a candidate that loses a
/// rate-distortion comparison has to leave no trace: [`Grid::save`] and
/// [`Grid::restore`] cover exactly the square a candidate may write.
pub struct Grid {
    modes: Vec<u8>,
    depth: Vec<u8>,
    qp: Vec<i8>,
    log2: u32,
    w: usize,
    h: usize,
}

/// The cells of the square of side `2^cu_log2` at `(x, y)` on a grid of
/// `2^log2` blocks `w`×`h`: the first block column and row it touches, and
/// how many columns and rows of it lie inside the grid.
pub open spec fn rect_of(x: u32, y: u32, cu_log2: u32, log2: u32, w: int, h: int) -> (int, int, int, int) {
    let g = pow2(log2 as nat) as int;
    let n = pow2(cu_log2 as nat) as int;
    let cnt = (n + g - 1) / g;
    let gx = x as int / g;
    let gy = y as int / g;
    let cols = if gx >= w {
        0
    } else if gx + cnt > w {
        w - gx
    } else {
        cnt
    };
    let rows = if gy >= h {
        0
    } else if gy + cnt > h {
        h - gy
    } else {
        cnt
    };
    (gx, gy, cols, rows)
}

/// Whether cell `i` of a grid `w` wide lies in the rectangle `r`.
pub open spec fn in_rect(r: (int, int, int, int), w: int, i: int) -> bool {
    r.0 <= i % w < r.0 + r.2 && r.1 <= i / w < r.1 + r.3
}

/// The cells of rectangle `r`, row by row.
pub open spec fn rect_cells(r: (int, int, int, int), w: int) -> Seq<int> {
    Seq::new((r.2 * r.3) as nat, |k: int| (r.1 + k / r.2) * w + r.0 + k % r.2)
}

impl Grid {
    /// Luma modes, one per block, row-major.
    pub closed spec fn modes(&self) -> Seq<u8> {
        self.modes@
    }

    /// Quadtree depths.
    pub closed spec fn depths(&self) -> Seq<u8> {
        self.depth@
    }

    /// Quantizers.
    pub closed spec fn qps(&self) -> Seq<i8> {
        self.qp@
    }

    /// `log2` of the block size.
    pub closed spec fn block_log2(&self) -> u32 {
        self.log2
    }

    /// Width in blocks.
    pub closed spec fn width(&self) -> nat {
        self.w as nat
    }

    /// Height in blocks.
    pub closed spec fn height(&self) -> nat {
        self.h as nat
    }

    /// The three tables each hold one entry per block, and blocks are at
    /// most 2^16 samples wide.
    pub closed spec fn wf(&self) -> bool {
        &&& self.modes@.len() == self.w * self.h
        &&& self.depth@.len() == self.w * self.h
        &&& self.qp@.len() == self.w * self.h
        &&& self.log2 <= 16
    }

    /// An empty grid of `2^log2` blocks over a `cw`×`ch` picture: no mode
    /// coded anywhere, depth and quantizer zero.
    pub fn new(cw: u32, ch: u32, log2: u32) -> (g: Self)
        requires
            log2 <= 16,
            (cw as int / pow2(log2 as nat) as int) * (ch as int / pow2(log2 as nat) as int) <= usize::MAX,
        ensures
            g.wf(),
            g.block_log2() == log2,
            g.width() == cw as int / pow2(log2 as nat) as int,
            g.height() == ch as int / pow2(log2 as nat) as int,
            g.modes() == Seq::new(g.width() * g.height(), |i: int| 255u8),
            g.depths() == Seq::new(g.width() * g.height(), |i: int| 0u8),
            g.qps() == Seq::new(g.width() * g.height(), |i: int| 0i8),
    {
        proof {
            lemma_u32_shr_is_div(cw, log2);
            lemma_u32_shr_is_div(ch, log2);
        }
        let w = (cw >> log2) as usize;
        let h = (ch >> log2) as usize;
        let modes = vec![255u8; w * h];
        let depth = vec![0u8; w * h];
        let qp = vec![0i8; w * h];
        let g = Grid { modes, depth, qp, log2, w, h };
        proof {
            assert(g.modes@ =~= Seq::new(g.width() * g.height(), |i: int| 255u8));
            assert(g.depth@ =~= Seq::new(g.width() * g.height(), |i: int| 0u8));
            assert(g.qp@ =~= Seq::new(g.width() * g.height(), |i: int| 0i8));
        }
        g
    }

    /// Index of the block holding sample `(x, y)`.
    pub fn idx(&self, x: u32, y: u32) -> (i: usize)
        requires
            self.wf(),
            (y as int / pow2(self.block_log2() as nat) as int) * self.width() + x as int / pow2(
                self.block_log2() as nat,
            ) as int <= usize::MAX,
        ensures
            i == (y as int / pow2(self.block_log2() as nat) as int) * self.width() + x as int / pow2(
                self.block_log2() as nat,
            ) as int,
    {
        proof {
            lemma_u32_shr_is_div(x, self.log2);
            lemma_u32_shr_is_div(y, self.log2);
        }
        (y >> self.log2) as usize * self.w + (x >> self.log2) as usize
    }

    /// The block index of a sample inside the grid.
    pub open spec fn block_at(&self, x: u32, y: u32) -> int {
        (y as int / pow2(self.block_log2() as nat) as int) * self.width() + x as int / pow2(self.block_log2() as nat) as int
    }

    /// Sample `(x, y)` lies on a block of the grid.
    pub open spec fn covers(&self, x: u32, y: u32) -> bool {
        &&& (x as int / pow2(self.block_log2() as nat) as int) < self.width()
        &&& (y as int / pow2(self.block_log2() as nat) as int) < self.height()
    }

    /// A covered sample's block is one of the grid's.
    proof fn lemma_block_in_grid(&self, x: u32, y: u32)
        requires
            self.wf(),
            self.covers(x, y),
        ensures
            0 <= self.block_at(x, y) < self.width() * self.height(),
    {
        lemma_pow2_pos(self.block_log2() as nat);
        let gx = x as int / pow2(self.block_log2() as nat) as int;
        let gy = y as int / pow2(self.block_log2() as nat) as int;
        assert(0 <= gy * self.width() + gx < self.width() * self.height()) by (nonlinear_arith)
            requires
                0 <= gx < self.width(),
                0 <= gy < self.height(),
        ;
    }

    /// Prediction mode at a sample position, DC where nothing was coded.
    pub fn mode_at(&self, x: u32, y: u32) -> (m: u8)
        requires
            self.wf(),
            self.covers(x, y),
        ensures
            m == if self.modes()[self.block_at(x, y)] == 255 {
                DC
            } else {
                self.modes()[self.block_at(x, y)]
            },
    {
        proof {
            self.lemma_block_in_grid(x, y);
        }
        let len = self.modes.len();
        let i = self.idx(x, y);
        let m = self.modes[i];
        if m == 255 {
            DC
        } else {
            m
        }
    }

    /// `CtDepth` of the coding unit covering a sample.
    pub fn depth_at(&self, x: u32, y: u32) -> (d: u32)
        requires
            self.wf(),
            self.covers(x, y),
        ensures
            d == self.depths()[self.block_at(x, y)],
    {
        proof {
            self.lemma_block_in_grid(x, y);
        }
        let len = self.modes.len();
        let i = self.idx(x, y);
        self.depth[i] as u32
    }

    /// `QpY` of the coding unit covering a sample.
    pub fn qp_at(&self, x: u32, y: u32) -> (q: i32)
        requires
            self.wf(),
            self.covers(x, y),
        ensures
            q == self.qps()[self.block_at(x, y)],
    {
        proof {
            self.lemma_block_in_grid(x, y);
        }
        let len = self.modes.len();
        let i = self.idx(x, y);
        self.qp[i] as i32
    }

    /// The quantizer table, for the deblocking filter.
    pub fn into_qp(self) -> (q: Vec<i8>)
        ensures
            q@ == self.qps(),
    {
        self.qp
    }
}

/// Position `k` of rectangle `r`'s cell list, for a cell `i` inside it.
pub open spec fn rect_pos(r: (int, int, int, int), w: int, i: int) -> int {
    (i / w - r.1) * r.2 + (i % w - r.0)
}

/// Cell `(gx, gy)` of a grid `w` wide, as an index, and back.
proof fn lemma_cell_index(w: int, gx: int, gy: int)
    requires
        0 <= gx < w,
        0 <= gy,
    ensures
        (gy * w + gx) / w == gy,
        (gy * w + gx) % w == gx,
{
    vstd::arithmetic::div_mod::lemma_fundamental_div_mod_converse(gy * w + gx, w, gy, gx);
}

/// Stepping by whole blocks moves one block at a time.
proof fn lemma_step_blocks(x: u32, k: int, g: int)
    requires
        g > 0,
        k >= 0,
    ensures
        (x + k * g) / g == x as int / g + k,
{
    assert((x + k * g) / g == x as int / g + k) by (nonlinear_arith)
        requires
            g > 0,
            k >= 0,
            x >= 0,
    ;
}

/// Cells `rect_cells(r, w)` list each cell of the rectangle once, at its
/// [`rect_pos`].
proof fn lemma_rect_cells(r: (int, int, int, int), w: int, k: int)
    requires
        0 <= r.0,
        0 <= r.1,
        r.2 > 0,
        r.0 + r.2 <= w,
        0 <= k < r.2 * r.3,
    ensures
        in_rect(r, w, rect_cells(r, w)[k]),
        rect_pos(r, w, rect_cells(r, w)[k]) == k,
{
    let row = k / r.2;
    let col = k % r.2;
    assert(0 <= col < r.2);
    assert(0 <= row < r.3) by (nonlinear_arith)
        requires
            0 <= k < r.2 * r.3,
            r.2 > 0,
            row == k / r.2,
    ;
    lemma_cell_index(w, r.0 + col, r.1 + row);
    assert(row * r.2 + col == k) by (nonlinear_arith)
        requires
            r.2 > 0,
            row == k / r.2,
            col == k % r.2,
    ;
}

/// A cell inside the rectangle sits at its [`rect_pos`] in the list.
proof fn lemma_rect_pos(r: (int, int, int, int), w: int, i: int)
    requires
        0 <= r.0,
        0 <= r.1,
        r.0 + r.2 <= w,
        0 <= i,
        in_rect(r, w, i),
    ensures
        0 <= rect_pos(r, w, i) < r.2 * r.3,
        rect_cells(r, w)[rect_pos(r, w, i)] == i,
{
    let row = i / w - r.1;
    let col = i % w - r.0;
    assert(w > 0);
    assert(0 <= row < r.3 && 0 <= col < r.2);
    let k = row * r.2 + col;
    assert(0 <= k < r.2 * r.3) by (nonlinear_arith)
        requires
            0 <= row < r.3,
            0 <= col < r.2,
            k == row * r.2 + col,
    ;
    vstd::arithmetic::div_mod::lemma_fundamental_div_mod_converse(k, r.2, row, col);
    vstd::arithmetic::div_mod::lemma_fundamental_div_mod(i, w);
    assert((r.1 + row) * w + r.0 + col == (i / w) * w + i % w) by (nonlinear_arith)
        requires
            row == i / w - r.1,
            col == i % w - r.0,
    ;
}

/// The rectangle of cells a square of `n` samples at `(x, y)` covers on a
/// grid of `g`-sample blocks `w`×`h`, with `cnt` the blocks per side.
pub open spec fn rect_shape(r: (int, int, int, int), x: int, y: int, n: int, g: int, w: int, h: int) -> bool {
    let cnt = (n + g - 1) / g;
    &&& r.0 == x / g
    &&& r.1 == y / g
    &&& r.2 == (if r.0 >= w {
        0
    } else if r.0 + cnt > w {
        w - r.0
    } else {
        cnt
    })
    &&& r.3 == (if r.1 >= h {
        0
    } else if r.1 + cnt > h {
        h - r.1
    } else {
        cnt
    })
}

/// Blocks visited while the offset is inside the square are counted by
/// `cnt`, and stepping past its end visits no more.
proof fn lemma_block_count(k: int, g: int, n: int)
    requires
        g > 0,
        n > 0,
        k >= 0,
    ensures
        k * g < n ==> k < (n + g - 1) / g,
        k * g >= n ==> k >= (n + g - 1) / g,
{
    assert(k * g < n ==> k < (n + g - 1) / g) by (nonlinear_arith)
        requires
            g > 0,
            k >= 0,
    ;
    assert(k * g >= n ==> k >= (n + g - 1) / g) by (nonlinear_arith)
        requires
            g > 0,
            n > 0,
            k >= 0,
    ;
}

impl Grid {
    /// Whether cell `i` has been reached by the stamping loops of a
    /// rectangle `r` after `ky` whole rows and `kx` cells of the next.
    spec fn reached(r: (int, int, int, int), w: int, i: int, ky: int, kx: int) -> bool {
        in_rect(r, w, i) && (i / w < r.1 + ky || (i / w == r.1 + ky && i % w < r.0 + kx))
    }

    /// Stamp a coding unit's mode, depth and quantizer across every block
    /// of the grid it covers.
    pub fn set_cu(&mut self, x: u32, y: u32, log2: u32, mode: u8, depth: u32, qp: i32)
        requires
            old(self).wf(),
            log2 <= 16,
            x + pow2(log2 as nat) <= u32::MAX,
            y + pow2(log2 as nat) <= u32::MAX,
        ensures
            final(self).wf(),
            final(self).block_log2() == old(self).block_log2(),
            final(self).width() == old(self).width(),
            final(self).height() == old(self).height(),
            ({
                let r = rect_of(x, y, log2, old(self).block_log2(), old(self).width() as int, old(self).height() as int);
                let w = old(self).width() as int;
                &&& forall|i: int|
                    0 <= i < old(self).modes().len() ==> #[trigger] final(self).modes()[i] == if in_rect(r, w, i) {
                        mode
                    } else {
                        old(self).modes()[i]
                    }
                &&& forall|i: int|
                    0 <= i < old(self).depths().len() ==> #[trigger] final(self).depths()[i] == if in_rect(r, w, i) {
                        #[verifier::truncate] (depth as u8)
                    } else {
                        old(self).depths()[i]
                    }
                &&& forall|i: int|
                    0 <= i < old(self).qps().len() ==> #[trigger] final(self).qps()[i] == if in_rect(r, w, i) {
                        #[verifier::truncate] (qp as i8)
                    } else {
                        old(self).qps()[i]
                    }
            }),
    {
        proof {
            lemma_pow2_pos(log2 as nat);
            lemma_pow2_pos(self.log2 as nat);
            lemma_u32_pow2_no_overflow(log2 as nat);
            lemma_u32_pow2_no_overflow(self.log2 as nat);
            lemma_u32_shl_is_mul(1u32, log2);
            lemma_u32_shl_is_mul(1u32, self.log2);
            vstd::arithmetic::power2::lemma2_to64();
            if log2 < 16 {
                vstd::arithmetic::power2::lemma_pow2_strictly_increases(log2 as nat, 16);
            }
            if self.log2 < 16 {
                vstd::arithmetic::power2::lemma_pow2_strictly_increases(self.log2 as nat, 16);
            }
        }
        let ghost w = self.w as int;
        let ghost hh = self.h as int;
        let ghost g = pow2(self.log2 as nat) as int;
        let ghost r = rect_of(x, y, log2, self.log2, w, hh);
        assert(rect_shape(r, x as int, y as int, pow2(log2 as nat) as int, g, w, hh));
        let ghost m0 = self.modes@;
        let ghost d0 = self.depth@;
        let ghost q0 = self.qp@;
        let n: u32 = 1u32 << log2;
        let step: u32 = 1u32 << self.log2;
        let len = self.modes.len();
        let d8 = #[verifier::truncate] (depth as u8);
        let q8 = #[verifier::truncate] (qp as i8);
        let mut dy: u32 = 0;
        let ghost mut ky: int = 0;
        while dy < n
            invariant
                self.wf(),
                self.w == w,
                self.h == hh,
                len == w * hh,
                self.log2 == old(self).log2,
                self.log2 <= 16,
                g == pow2(self.log2 as nat),
                step == g,
                g > 0,
                n == pow2(log2 as nat),
                0 < n <= 0x10000,
                g <= 0x10000,
                y + n <= u32::MAX,
                x + n <= u32::MAX,
                r == rect_of(x, y, log2, self.log2, w, hh),
                rect_shape(r, x as int, y as int, n as int, g, w, hh),
                dy == ky * g,
                0 <= ky,
                dy < n + g,
                forall|i: int| 0 <= i < len ==> #[trigger] self.modes@[i] == if Self::reached(r, w, i, ky, 0) {
                    mode
                } else {
                    m0[i]
                },
                forall|i: int| 0 <= i < len ==> #[trigger] self.depth@[i] == if Self::reached(r, w, i, ky, 0) {
                    d8
                } else {
                    d0[i]
                },
                forall|i: int| 0 <= i < len ==> #[trigger] self.qp@[i] == if Self::reached(r, w, i, ky, 0) {
                    q8
                } else {
                    q0[i]
                },
            decreases n + g - dy,
        {
            let mut dx: u32 = 0;
            let ghost mut kx: int = 0;
            let gy = (y + dy) >> self.log2;
            proof {
                lemma_u32_shr_is_div((y + dy) as u32, self.log2);
                lemma_step_blocks(y, ky, g);
            }
            while dx < n
                invariant
                    self.wf(),
                    self.w == w,
                    self.h == hh,
                    len == w * hh,
                    self.log2 == old(self).log2,
                    self.log2 <= 16,
                    g == pow2(self.log2 as nat),
                    step == g,
                    g > 0,
                    n == pow2(log2 as nat),
                    0 < n <= 0x10000,
                    g <= 0x10000,
                    y + n <= u32::MAX,
                    x + n <= u32::MAX,
                    r == rect_of(x, y, log2, self.log2, w, hh),
                    rect_shape(r, x as int, y as int, n as int, g, w, hh),
                    dy == ky * g,
                    dy < n,
                    0 <= ky,
                    gy == y as int / g + ky,
                    dx == kx * g,
                    0 <= kx,
                    dx < n + g,
                    forall|i: int| 0 <= i < len ==> #[trigger] self.modes@[i] == if Self::reached(r, w, i, ky, kx) {
                        mode
                    } else {
                        m0[i]
                    },
                    forall|i: int| 0 <= i < len ==> #[trigger] self.depth@[i] == if Self::reached(r, w, i, ky, kx) {
                        d8
                    } else {
                        d0[i]
                    },
                    forall|i: int| 0 <= i < len ==> #[trigger] self.qp@[i] == if Self::reached(r, w, i, ky, kx) {
                        q8
                    } else {
                        q0[i]
                    },
                decreases n + g - dx,
            {
                let gx = (x + dx) >> self.log2;
                proof {
                    lemma_u32_shr_is_div((x + dx) as u32, self.log2);
                    lemma_step_blocks(x, kx, g);
                }
                let ghost before_m = self.modes@;
                let ghost before_d = self.depth@;
                let ghost before_q = self.qp@;
                if (gx as usize) < self.w && (gy as usize) < self.h {
                    proof {
                        assert(gy * w + gx < w * hh) by (nonlinear_arith)
                            requires
                                gx < w,
                                gy < hh,
                        ;
                    }
                    let i = gy as usize * self.w + gx as usize;
                    self.modes.set(i, mode);
                    self.depth.set(i, d8);
                    self.qp.set(i, q8);
                    proof {
                        lemma_cell_index(w, gx as int, gy as int);
                    }
                }
                proof {
                    lemma_block_count(kx, g, n as int);
                    lemma_block_count(ky, g, n as int);
                    assert(gx == r.0 + kx);
                    assert(gy == r.1 + ky);
                    assert(kx < (n + g - 1) / g);
                    assert(ky < (n + g - 1) / g);
                    assert forall|i: int| 0 <= i < len implies #[trigger] Self::reached(r, w, i, ky, kx + 1) == (
                    Self::reached(r, w, i, ky, kx) || (i == gy * w + gx && gx < w && gy < hh)) by {
                        assert(w > 0);
                        vstd::arithmetic::div_mod::lemma_fundamental_div_mod(i, w);
                        if gx < w {
                            lemma_cell_index(w, gx as int, gy as int);
                        }
                        if i / w == gy && i % w == gx {
                            assert(w * gy == gy * w) by (nonlinear_arith);
                            assert(i == gy * w + gx);
                        }
                    }
                }
                dx = dx + step;
                proof {
                    assert((kx + 1) * g == kx * g + g) by (nonlinear_arith);
                    kx = kx + 1;
                }
            }
            proof {
                lemma_block_count(kx, g, n as int);
                assert forall|i: int| 0 <= i < len implies #[trigger] Self::reached(r, w, i, ky, kx) == Self::reached(
                    r,
                    w,
                    i,
                    ky + 1,
                    0,
                ) by {}
            }
            dy = dy + step;
            proof {
                assert((ky + 1) * g == ky * g + g) by (nonlinear_arith);
                ky = ky + 1;
            }
        }
        proof {
            lemma_block_count(ky, g, n as int);
            assert forall|i: int| 0 <= i < len implies #[trigger] Self::reached(r, w, i, ky, 0) == in_rect(r, w, i) by {}
            assert(self.modes@ =~= self.modes@);
        }
    }
}

/// Entry `ky·cols + kx` of a rectangle's cell list is cell `(r.0 + kx, r.1 + ky)`.
proof fn lemma_rect_cell_at(r: (int, int, int, int), w: int, ky: int, kx: int)
    requires
        0 <= kx < r.2,
        0 <= ky < r.3,
    ensures
        0 <= ky * r.2 + kx < r.2 * r.3,
        rect_cells(r, w)[ky * r.2 + kx] == (r.1 + ky) * w + r.0 + kx,
{
    vstd::arithmetic::div_mod::lemma_fundamental_div_mod_converse(ky * r.2 + kx, r.2, ky, kx);
    assert(0 <= ky * r.2 + kx < r.2 * r.3) by (nonlinear_arith)
        requires
            0 <= kx < r.2,
            0 <= ky < r.3,
    ;
}

impl Grid {
    /// What a candidate coding unit at `(x, y)` of side `2^log2` may
    /// overwrite: the mode, depth and quantizer of each block it covers, row
    /// by row.
    pub fn save(&self, x: u32, y: u32, log2: u32) -> (saved: Vec<(u8, u8, i8)>)
        requires
            self.wf(),
            log2 <= 16,
            x + pow2(log2 as nat) <= u32::MAX,
            y + pow2(log2 as nat) <= u32::MAX,
        ensures
            ({
                let r = rect_of(x, y, log2, self.block_log2(), self.width() as int, self.height() as int);
                let cells = rect_cells(r, self.width() as int);
                &&& saved@.len() == r.2 * r.3
                &&& forall|k: int|
                    0 <= k < saved@.len() ==> #[trigger] saved@[k] == (
                        self.modes()[cells[k]],
                        self.depths()[cells[k]],
                        self.qps()[cells[k]],
                    )
            }),
    {
        proof {
            lemma_pow2_pos(log2 as nat);
            lemma_pow2_pos(self.log2 as nat);
            lemma_u32_pow2_no_overflow(log2 as nat);
            lemma_u32_pow2_no_overflow(self.log2 as nat);
            lemma_u32_shl_is_mul(1u32, log2);
            lemma_u32_shl_is_mul(1u32, self.log2);
            vstd::arithmetic::power2::lemma2_to64();
            if log2 < 16 {
                vstd::arithmetic::power2::lemma_pow2_strictly_increases(log2 as nat, 16);
            }
            if self.log2 < 16 {
                vstd::arithmetic::power2::lemma_pow2_strictly_increases(self.log2 as nat, 16);
            }
        }
        let ghost w = self.w as int;
        let ghost hh = self.h as int;
        let ghost g = pow2(self.log2 as nat) as int;
        let ghost r = rect_of(x, y, log2, self.log2, w, hh);
        assert(rect_shape(r, x as int, y as int, pow2(log2 as nat) as int, g, w, hh));
        let ghost cells = rect_cells(r, w);
        let n: u32 = 1u32 << log2;
        let step: u32 = 1u32 << self.log2;
        let len = self.modes.len();
        let mut out: Vec<(u8, u8, i8)> = Vec::new();
        let mut dy: u32 = 0;
        let ghost mut ky: int = 0;
        assert(0 * r.2 == 0) by (nonlinear_arith);
        while dy < n
            invariant
                self.wf(),
                self.w == w,
                self.h == hh,
                len == w * hh,
                g == pow2(self.log2 as nat),
                step == g,
                g > 0,
                n == pow2(log2 as nat),
                0 < n <= 0x10000,
                g <= 0x10000,
                y + n <= u32::MAX,
                x + n <= u32::MAX,
                r == rect_of(x, y, log2, self.log2, w, hh),
                rect_shape(r, x as int, y as int, n as int, g, w, hh),
                cells == rect_cells(r, w),
                dy == ky * g,
                0 <= ky,
                dy < n + g,
                out@.len() == (if ky <= r.3 {
                    ky
                } else {
                    r.3
                }) * r.2,
                forall|k: int|
                    0 <= k < out@.len() ==> #[trigger] out@[k] == (
                        self.modes@[cells[k]],
                        self.depth@[cells[k]],
                        self.qp@[cells[k]],
                    ),
            decreases n + g - dy,
        {
            proof {
                lemma_block_count(ky, g, n as int);
            }
            let mut dx: u32 = 0;
            let ghost mut kx: int = 0;
            let gy = (y + dy) >> self.log2;
            proof {
                lemma_u32_shr_is_div((y + dy) as u32, self.log2);
                lemma_step_blocks(y, ky, g);
                assert(gy == r.1 + ky);
                assert((gy < hh) == (ky < r.3));
            }
            let ghost base = out@.len() as int;
            proof {
                if ky < r.3 {
                    assert(base == ky * r.2);
                }
            }
            while dx < n
                invariant
                    self.wf(),
                    self.w == w,
                    self.h == hh,
                    len == w * hh,
                    g == pow2(self.log2 as nat),
                    step == g,
                    g > 0,
                    n == pow2(log2 as nat),
                    0 < n <= 0x10000,
                    g <= 0x10000,
                    y + n <= u32::MAX,
                    x + n <= u32::MAX,
                    r == rect_of(x, y, log2, self.log2, w, hh),
                    rect_shape(r, x as int, y as int, n as int, g, w, hh),
                    cells == rect_cells(r, w),
                    dy == ky * g,
                    dy < n,
                    0 <= ky < (n + g - 1) / g,
                    gy == r.1 + ky,
                    (gy < hh) == (ky < r.3),
                    ky < r.3 ==> base == ky * r.2,
                    dx == kx * g,
                    0 <= kx,
                    dx < n + g,
                    out@.len() == base + (if gy < hh {
                        if kx <= r.2 {
                            kx
                        } else {
                            r.2
                        }
                    } else {
                        0
                    }),
                    base == (if ky <= r.3 {
                        ky
                    } else {
                        r.3
                    }) * r.2,
                    forall|k: int|
                        0 <= k < out@.len() ==> #[trigger] out@[k] == (
                            self.modes@[cells[k]],
                            self.depth@[cells[k]],
                            self.qp@[cells[k]],
                        ),
                decreases n + g - dx,
            {
                let gx = (x + dx) >> self.log2;
                proof {
                    lemma_u32_shr_is_div((x + dx) as u32, self.log2);
                    lemma_step_blocks(x, kx, g);
                    lemma_block_count(kx, g, n as int);
                    assert(gx == r.0 + kx);
                    assert((gx < w) == (kx < r.2));
                }
                if (gx as usize) < self.w && (gy as usize) < self.h {
                    proof {
                        assert(gy * w + gx < w * hh) by (nonlinear_arith)
                            requires
                                gx < w,
                                gy < hh,
                        ;
                        lemma_rect_cell_at(r, w, ky, kx);
                        assert(out@.len() == ky * r.2 + kx);
                    }
                    let i = gy as usize * self.w + gx as usize;
                    out.push((self.modes[i], self.depth[i], self.qp[i]));
                }
                dx = dx + step;
                proof {
                    assert((kx + 1) * g == kx * g + g) by (nonlinear_arith);
                    kx = kx + 1;
                }
            }
            proof {
                lemma_block_count(kx, g, n as int);
                if ky < r.3 {
                    assert(out@.len() == (ky + 1) * r.2) by (nonlinear_arith)
                        requires
                            out@.len() == base + r.2,
                            base == ky * r.2,
                    ;
                }
            }
            dy = dy + step;
            proof {
                assert((ky + 1) * g == ky * g + g) by (nonlinear_arith);
                ky = ky + 1;
            }
        }
        proof {
            lemma_block_count(ky, g, n as int);
            assert(r.3 * r.2 == r.2 * r.3) by (nonlinear_arith);
        }
        out
    }

    /// Put back what [`Grid::save`] took for the same square.
    pub fn restore(&mut self, x: u32, y: u32, log2: u32, saved: &[(u8, u8, i8)])
        requires
            old(self).wf(),
            log2 <= 16,
            x + pow2(log2 as nat) <= u32::MAX,
            y + pow2(log2 as nat) <= u32::MAX,
            ({
                let r = rect_of(x, y, log2, old(self).block_log2(), old(self).width() as int, old(self).height() as int);
                saved@.len() >= r.2 * r.3
            }),
        ensures
            final(self).wf(),
            final(self).block_log2() == old(self).block_log2(),
            final(self).width() == old(self).width(),
            final(self).height() == old(self).height(),
            ({
                let r = rect_of(x, y, log2, old(self).block_log2(), old(self).width() as int, old(self).height() as int);
                let w = old(self).width() as int;
                forall|i: int|
                    #![trigger final(self).modes()[i]]
                    #![trigger final(self).depths()[i]]
                    #![trigger final(self).qps()[i]]
                    0 <= i < old(self).modes().len() ==> (
                        final(self).modes()[i],
                        final(self).depths()[i],
                        final(self).qps()[i],
                    ) == if in_rect(r, w, i) {
                        saved@[rect_pos(r, w, i)]
                    } else {
                        (old(self).modes()[i], old(self).depths()[i], old(self).qps()[i])
                    }
            }),
    {
        proof {
            lemma_pow2_pos(log2 as nat);
            lemma_pow2_pos(self.log2 as nat);
            lemma_u32_pow2_no_overflow(log2 as nat);
            lemma_u32_pow2_no_overflow(self.log2 as nat);
            lemma_u32_shl_is_mul(1u32, log2);
            lemma_u32_shl_is_mul(1u32, self.log2);
            vstd::arithmetic::power2::lemma2_to64();
            if log2 < 16 {
                vstd::arithmetic::power2::lemma_pow2_strictly_increases(log2 as nat, 16);
            }
            if self.log2 < 16 {
                vstd::arithmetic::power2::lemma_pow2_strictly_increases(self.log2 as nat, 16);
            }
        }
        let ghost w = self.w as int;
        let ghost hh = self.h as int;
        let ghost g = pow2(self.log2 as nat) as int;
        let ghost r = rect_of(x, y, log2, self.log2, w, hh);
        assert(rect_shape(r, x as int, y as int, pow2(log2 as nat) as int, g, w, hh));
        let ghost m0 = self.modes@;
        let ghost d0 = self.depth@;
        let ghost q0 = self.qp@;
        let n: u32 = 1u32 << log2;
        let step: u32 = 1u32 << self.log2;
        let len = self.modes.len();
        let mut k: usize = 0;
        let mut dy: u32 = 0;
        let ghost mut ky: int = 0;
        while dy < n
            invariant
                self.wf(),
                self.w == w,
                self.h == hh,
                len == w * hh,
                self.log2 == old(self).log2,
                g == pow2(self.log2 as nat),
                step == g,
                g > 0,
                n == pow2(log2 as nat),
                0 < n <= 0x10000,
                g <= 0x10000,
                y + n <= u32::MAX,
                x + n <= u32::MAX,
                r == rect_of(x, y, log2, self.log2, w, hh),
                rect_shape(r, x as int, y as int, n as int, g, w, hh),
                saved@.len() >= r.2 * r.3,
                dy == ky * g,
                0 <= ky,
                dy < n + g,
                k == (if ky <= r.3 {
                    ky
                } else {
                    r.3
                }) * r.2,
                forall|i: int|
                    #![trigger self.modes@[i]]
                    #![trigger self.depth@[i]]
                    #![trigger self.qp@[i]]
                    0 <= i < len ==> (self.modes@[i], self.depth@[i], self.qp@[i]) == if Self::reached(
                        r,
                        w,
                        i,
                        ky,
                        0,
                    ) {
                        saved@[rect_pos(r, w, i)]
                    } else {
                        (m0[i], d0[i], q0[i])
                    },
            decreases n + g - dy,
        {
            proof {
                lemma_block_count(ky, g, n as int);
            }
            let mut dx: u32 = 0;
            let ghost mut kx: int = 0;
            let gy = (y + dy) >> self.log2;
            proof {
                lemma_u32_shr_is_div((y + dy) as u32, self.log2);
                lemma_step_blocks(y, ky, g);
                assert(gy == r.1 + ky);
                assert((gy < hh) == (ky < r.3));
            }
            let ghost base = k as int;
            while dx < n
                invariant
                    self.wf(),
                    self.w == w,
                    self.h == hh,
                    len == w * hh,
                    self.log2 == old(self).log2,
                    g == pow2(self.log2 as nat),
                    step == g,
                    g > 0,
                    n == pow2(log2 as nat),
                    0 < n <= 0x10000,
                    g <= 0x10000,
                    y + n <= u32::MAX,
                    x + n <= u32::MAX,
                    r == rect_of(x, y, log2, self.log2, w, hh),
                    rect_shape(r, x as int, y as int, n as int, g, w, hh),
                    saved@.len() >= r.2 * r.3,
                    dy == ky * g,
                    dy < n,
                    0 <= ky < (n + g - 1) / g,
                    gy == r.1 + ky,
                    (gy < hh) == (ky < r.3),
                    dx == kx * g,
                    0 <= kx,
                    dx < n + g,
                    base == (if ky <= r.3 {
                        ky
                    } else {
                        r.3
                    }) * r.2,
                    k == base + (if gy < hh {
                        if kx <= r.2 {
                            kx
                        } else {
                            r.2
                        }
                    } else {
                        0
                    }),
                    forall|i: int|
                        #![trigger self.modes@[i]]
                        #![trigger self.depth@[i]]
                        #![trigger self.qp@[i]]
                        0 <= i < len ==> (self.modes@[i], self.depth@[i], self.qp@[i]) == if Self::reached(
                            r,
                            w,
                            i,
                            ky,
                            kx,
                        ) {
                            saved@[rect_pos(r, w, i)]
                        } else {
                            (m0[i], d0[i], q0[i])
                        },
                decreases n + g - dx,
            {
                let gx = (x + dx) >> self.log2;
                proof {
                    lemma_u32_shr_is_div((x + dx) as u32, self.log2);
                    lemma_step_blocks(x, kx, g);
                    lemma_block_count(kx, g, n as int);
                    assert(gx == r.0 + kx);
                    assert((gx < w) == (kx < r.2));
                }
                if (gx as usize) < self.w && (gy as usize) < self.h {
                    proof {
                        assert(gy * w + gx < w * hh) by (nonlinear_arith)
                            requires
                                gx < w,
                                gy < hh,
                        ;
                        lemma_rect_cell_at(r, w, ky, kx);
                        lemma_cell_index(w, gx as int, gy as int);
                        assert(k == ky * r.2 + kx);
                        assert(rect_pos(r, w, gy * w + gx) == k);
                    }
                    let i = gy as usize * self.w + gx as usize;
                    let (m, d, q) = saved[k];
                    self.modes.set(i, m);
                    self.depth.set(i, d);
                    self.qp.set(i, q);
                    k = k + 1;
                }
                proof {
                    assert forall|i: int| 0 <= i < len implies #[trigger] Self::reached(r, w, i, ky, kx + 1) == (
                    Self::reached(r, w, i, ky, kx) || (i == gy * w + gx && gx < w && gy < hh)) by {
                        assert(w > 0);
                        vstd::arithmetic::div_mod::lemma_fundamental_div_mod(i, w);
                        if gx < w {
                            lemma_cell_index(w, gx as int, gy as int);
                        }
                        if i / w == gy && i % w == gx {
                            assert(w * gy == gy * w) by (nonlinear_arith);
                            assert(i == gy * w + gx);
                        }
                    }
                }
                dx = dx + step;
                proof {
                    assert((kx + 1) * g == kx * g + g) by (nonlinear_arith);
                    kx = kx + 1;
                }
            }
            proof {
                lemma_block_count(kx, g, n as int);
                assert forall|i: int| 0 <= i < len implies #[trigger] Self::reached(r, w, i, ky, kx) == Self::reached(
                    r,
                    w,
                    i,
                    ky + 1,
                    0,
                ) by {}
                if ky < r.3 {
                    assert(k == (ky + 1) * r.2) by (nonlinear_arith)
                        requires
                            k == base + r.2,
                            base == ky * r.2,
                    ;
                }
            }
            dy = dy + step;
            proof {
                assert((ky + 1) * g == ky * g + g) by (nonlinear_arith);
                ky = ky + 1;
            }
        }
        proof {
            lemma_block_count(ky, g, n as int);
            assert forall|i: int| 0 <= i < len implies #[trigger] Self::reached(r, w, i, ky, 0) == in_rect(r, w, i) by {}
        }
    }
}

/// One table of the grid: writing back the values a rectangle held undoes
/// any change made inside it.
proof fn lemma_table_round_trip<T>(
    t0: Seq<T>,
    t1: Seq<T>,
    t2: Seq<T>,
    saved: Seq<T>,
    r: (int, int, int, int),
    w: int,
)
    requires
        0 <= r.0,
        0 <= r.1,
        r.2 > 0 ==> r.0 + r.2 <= w,
        t1.len() == t0.len(),
        t2.len() == t0.len(),
        saved.len() == r.2 * r.3,
        forall|k: int| 0 <= k < saved.len() ==> #[trigger] saved[k] == t0[rect_cells(r, w)[k]],
        forall|i: int| 0 <= i < t0.len() && !in_rect(r, w, i) ==> #[trigger] t1[i] == t0[i],
        forall|i: int|
            0 <= i < t0.len() ==> #[trigger] t2[i] == if in_rect(r, w, i) {
                saved[rect_pos(r, w, i)]
            } else {
                t1[i]
            },
    ensures
        t2 == t0,
{
    assert forall|i: int| 0 <= i < t0.len() implies #[trigger] t2[i] == t0[i] by {
        if in_rect(r, w, i) {
            lemma_rect_pos(r, w, i);
        }
    }
    assert(t2 =~= t0);
}

/// Saving the square a candidate coding unit covers and restoring it after
/// the candidate lost leaves no trace of it: whatever the candidate wrote
/// inside the square, the grid comes back exactly as it was.
pub proof fn lemma_save_restore_undoes_a_candidate(
    before: Grid,
    during: Grid,
    after: Grid,
    x: u32,
    y: u32,
    log2: u32,
    saved: Seq<(u8, u8, i8)>,
)
    requires
        before.wf(),
        during.wf(),
        during.width() == before.width() && during.height() == before.height(),
        during.block_log2() == before.block_log2(),
        ({
            let r = rect_of(x, y, log2, before.block_log2(), before.width() as int, before.height() as int);
            let w = before.width() as int;
            let cells = rect_cells(r, w);
            &&& saved.len() == r.2 * r.3
            &&& forall|k: int|
                0 <= k < saved.len() ==> #[trigger] saved[k] == (
                    before.modes()[cells[k]],
                    before.depths()[cells[k]],
                    before.qps()[cells[k]],
                )
            &&& forall|i: int|
                #![trigger during.modes()[i]]
                #![trigger during.depths()[i]]
                #![trigger during.qps()[i]]
                0 <= i < before.modes().len() && !in_rect(r, w, i) ==> during.modes()[i] == before.modes()[i]
                    && during.depths()[i] == before.depths()[i] && during.qps()[i] == before.qps()[i]
            &&& after.wf()
            &&& after.width() == before.width()
            &&& after.height() == before.height()
            &&& forall|i: int|
                #![trigger after.modes()[i]]
                #![trigger after.depths()[i]]
                #![trigger after.qps()[i]]
                0 <= i < before.modes().len() ==> (after.modes()[i], after.depths()[i], after.qps()[i]) == if in_rect(
                    r,
                    w,
                    i,
                ) {
                    saved[rect_pos(r, w, i)]
                } else {
                    (during.modes()[i], during.depths()[i], during.qps()[i])
                }
        }),
    ensures
        after.modes() == before.modes(),
        after.depths() == before.depths(),
        after.qps() == before.qps(),
{
    let r = rect_of(x, y, log2, before.block_log2(), before.width() as int, before.height() as int);
    let w = before.width() as int;
    let g = pow2(before.block_log2() as nat) as int;
    lemma_pow2_pos(before.block_log2() as nat);
    lemma_pow2_pos(log2 as nat);
    let len = before.modes().len();
    assert(before.wf() && during.wf() && after.wf());
    assert(after.modes().len() == len && during.modes().len() == len);
    assert(before.depths().len() == len && during.depths().len() == len && after.depths().len() == len);
    assert(before.qps().len() == len && during.qps().len() == len && after.qps().len() == len);
    let s0 = Seq::new(saved.len(), |k: int| saved[k].0);
    let s1 = Seq::new(saved.len(), |k: int| saved[k].1);
    let s2 = Seq::new(saved.len(), |k: int| saved[k].2);
    assert forall|i: int| 0 <= i < len implies #[trigger] after.modes()[i] == if in_rect(r, w, i) {
        s0[rect_pos(r, w, i)]
    } else {
        during.modes()[i]
    } by {
        if in_rect(r, w, i) {
            lemma_rect_pos(r, w, i);
        }
    }
    assert forall|i: int| 0 <= i < len implies #[trigger] after.depths()[i] == if in_rect(r, w, i) {
        s1[rect_pos(r, w, i)]
    } else {
        during.depths()[i]
    } by {
        assert(after.modes()[i] == after.modes()[i]);
        if in_rect(r, w, i) {
            lemma_rect_pos(r, w, i);
        }
    }
    assert forall|i: int| 0 <= i < len implies #[trigger] after.qps()[i] == if in_rect(r, w, i) {
        s2[rect_pos(r, w, i)]
    } else {
        during.qps()[i]
    } by {
        assert(after.modes()[i] == after.modes()[i]);
        if in_rect(r, w, i) {
            lemma_rect_pos(r, w, i);
        }
    }
    assert forall|i: int| 0 <= i < len && !in_rect(r, w, i) implies #[trigger] during.depths()[i] == before.depths()[i] by {
        assert(during.modes()[i] == during.modes()[i]);
    }
    assert forall|i: int| 0 <= i < len && !in_rect(r, w, i) implies #[trigger] during.qps()[i] == before.qps()[i] by {
        assert(during.modes()[i] == during.modes()[i]);
    }
    lemma_table_round_trip(before.modes(), during.modes(), after.modes(), s0, r, w);
    lemma_table_round_trip(before.depths(), during.depths(), after.depths(), s1, r, w);
    lemma_table_round_trip(before.qps(), during.qps(), after.qps(), s2, r, w);
}

/// Picture geometry the coding quadtree consults constantly: the coded
/// size, the CTB size and the CTBs per row.
#[derive(Clone, Copy)]
pub struct Geo {
    pub cw: u32,
    pub ch: u32,
    pub ctb: u32,
    pub nx: u32,
}

/// The geometry is one `available` can work on, and the grid's blocks
/// cover the whole coded picture.
pub open spec fn geo_ok(grid: Grid, g: Geo) -> bool {
    &&& grid.wf()
    &&& is_pow2(g.ctb)
    &&& grid_fits(g.cw, g.ch, g.ctb, g.nx)
    &&& g.cw <= grid.width() * pow2(grid.block_log2() as nat)
    &&& g.ch <= grid.height() * pow2(grid.block_log2() as nat)
}

/// Whether the neighbour at `(px, py)` of the block at `(x, y)` is
/// available and lies deeper in the quadtree than `depth`.
pub open spec fn deeper_neighbour(grid: Grid, g: Geo, px: i32, py: i32, x: u32, y: u32, depth: u32) -> bool {
    spec_available_at(px, py, spec_decode_order(x, y, g.ctb, g.nx), g.cw, g.ch, g.ctb, g.nx)
        && grid.depths()[grid.block_at(px as u32, py as u32)] > depth
}

/// A sample inside the coded picture lies on a block of the grid.
proof fn lemma_geo_covers(grid: Grid, g: Geo, px: u32, py: u32)
    requires
        geo_ok(grid, g),
        px < g.cw,
        py < g.ch,
    ensures
        grid.covers(px, py),
{
    let b = pow2(grid.block_log2() as nat) as int;
    lemma_pow2_pos(grid.block_log2() as nat);
    assert(px as int / b < grid.width()) by (nonlinear_arith)
        requires
            b > 0,
            px < g.cw,
            g.cw <= grid.width() * b,
    ;
    assert(py as int / b < grid.height()) by (nonlinear_arith)
        requires
            b > 0,
            py < g.ch,
            g.ch <= grid.height() * b,
    ;
}

/// `split_cu_flag`'s context: how many of the two neighbours sit deeper in
/// the quadtree than this node (§9.3.4.2.2). A neighbourhood of small
/// blocks is evidence that this one should be small too.
pub fn split_ctx(grid: &Grid, g: Geo, x: u32, y: u32, depth: u32) -> (c: usize)
    requires
        geo_ok(*grid, g),
        x <= g.cw,
        y <= g.ch,
        x <= i32::MAX,
        y <= i32::MAX,
        g.cw <= i32::MAX,
        g.ch <= i32::MAX,
    ensures
        c == (if deeper_neighbour(*grid, g, (x as i32 - 1) as i32, y as i32, x, y, depth) {
            1int
        } else {
            0
        }) + (if deeper_neighbour(*grid, g, x as i32, (y as i32 - 1) as i32, x, y, depth) {
            1int
        } else {
            0
        }),
{
    let xi = x as i32;
    let yi = y as i32;
    let left = if available(xi - 1, yi, x, y, g.cw, g.ch, g.ctb, g.nx) {
        proof {
            lemma_geo_covers(*grid, g, (x - 1) as u32, y);
        }
        grid.depth_at(x - 1, y) > depth
    } else {
        false
    };
    let above = if available(xi, yi - 1, x, y, g.cw, g.ch, g.ctb, g.nx) {
        proof {
            lemma_geo_covers(*grid, g, x, (y - 1) as u32);
        }
        grid.depth_at(x, y - 1) > depth
    } else {
        false
    };
    let l: usize = if left {
        1
    } else {
        0
    };
    let a: usize = if above {
        1
    } else {
        0
    };
    l + a
}

/// Chroma mode for `DM_CHROMA` in 4:2:0: the luma mode itself, since no
/// 4:2:2 remap applies.
pub fn chroma_mode_from_luma(luma: u8) -> (c: u8)
    ensures
        c == luma,
{
    luma
}

// ---------------------------------------------------------------- reconstruction snapshots

/// Side of a coding unit of size `log2`.
pub open spec fn cu_side(log2: u32) -> u32 {
    1u32 << log2
}

/// The three reconstruction planes of a picture `cw` wide (chroma `cwc`)
/// hold the coding unit of size `log2` at `(x, y)`.
pub open spec fn cu_fits(ry: Seq<u8>, ru: Seq<u8>, rv: Seq<u8>, cw: u32, cwc: u32, x: u32, y: u32, log2: u32) -> bool {
    let n = cu_side(log2) as int;
    &&& log2 <= 6
    &&& rect_fits(ry.len() as int, cw as int, x as int, y as int, n, n)
    &&& rect_fits(ru.len() as int, cwc as int, (x / 2) as int, (y / 2) as int, n / 2, n / 2)
    &&& rect_fits(rv.len() as int, cwc as int, (x / 2) as int, (y / 2) as int, n / 2, n / 2)
}

/// What [`save_rect`] keeps: the unit's luma, then its two chroma blocks,
/// each row-major.
pub open spec fn saved_rect(ry: Seq<u8>, ru: Seq<u8>, rv: Seq<u8>, cw: u32, cwc: u32, x: u32, y: u32, log2: u32) -> Seq<u8> {
    let n = cu_side(log2) as int;
    cropped(ry, cw as int, x as int, y as int, n, n) + cropped(ru, cwc as int, (x / 2) as int, (y / 2) as int, n / 2, n / 2) + cropped(
        rv,
        cwc as int,
        (x / 2) as int,
        (y / 2) as int,
        n / 2,
        n / 2,
    )
}

/// A side of at most 64.
proof fn lemma_cu_side(log2: u32)
    requires
        log2 <= 6,
    ensures
        1 <= cu_side(log2) <= 64,
{
    assert(log2 <= 6 ==> 1 <= (1u32 << log2) <= 64) by (bit_vector);
}

/// Snapshot the reconstruction of the coding unit of size `log2` at
/// `(x, y)`: luma, then both chroma blocks.
pub fn save_rect(ry: &[u8], ru: &[u8], rv: &[u8], cw: u32, cwc: u32, x: u32, y: u32, log2: u32) -> (out: Vec<u8>)
    requires
        cu_fits(ry@, ru@, rv@, cw, cwc, x, y, log2),
    ensures
        out@ == saved_rect(ry@, ru@, rv@, cw, cwc, x, y, log2),
{
    proof {
        lemma_cu_side(log2);
    }
    let n: u32 = 1u32 << log2;
    let cn = n / 2;
    proof {
        assert(n * n <= 4096 && cn * cn <= 1024) by (nonlinear_arith)
            requires
                n <= 64,
                cn <= 32,
        ;
    }
    let mut out = crop(ry, cw, x, y, n, n);
    let mut u = crop(ru, cwc, x / 2, y / 2, cn, cn);
    let mut v = crop(rv, cwc, x / 2, y / 2, cn, cn);
    out.append(&mut u);
    out.append(&mut v);
    out
}

/// Put back a snapshot taken by [`save_rect`].
pub fn restore_rect(
    ry: &mut [u8],
    ru: &mut [u8],
    rv: &mut [u8],
    cw: u32,
    cwc: u32,
    x: u32,
    y: u32,
    log2: u32,
    saved: &[u8],
)
    requires
        cu_fits(old(ry)@, old(ru)@, old(rv)@, cw, cwc, x, y, log2),
        saved@.len() >= cu_side(log2) * cu_side(log2) + 2 * ((cu_side(log2) / 2) * (cu_side(log2) / 2)),
    ensures
        final(ry)@ == pasted(
            old(ry)@,
            cw as int,
            saved@,
            cu_side(log2) as int,
            x as int,
            y as int,
            cu_side(log2) as int,
            cu_side(log2) * cu_side(log2),
        ),
        final(ru)@ == pasted(
            old(ru)@,
            cwc as int,
            saved@.subrange(cu_side(log2) * cu_side(log2), saved@.len() as int),
            (cu_side(log2) / 2) as int,
            (x / 2) as int,
            (y / 2) as int,
            (cu_side(log2) / 2) as int,
            ((cu_side(log2) / 2) * (cu_side(log2) / 2)) as int,
        ),
        final(rv)@ == pasted(
            old(rv)@,
            cwc as int,
            saved@.subrange(
                cu_side(log2) * cu_side(log2) + (cu_side(log2) / 2) * (cu_side(log2) / 2),
                saved@.len() as int,
            ),
            (cu_side(log2) / 2) as int,
            (x / 2) as int,
            (y / 2) as int,
            (cu_side(log2) / 2) as int,
            ((cu_side(log2) / 2) * (cu_side(log2) / 2)) as int,
        ),
{
    proof {
        lemma_cu_side(log2);
    }
    let n: u32 = 1u32 << log2;
    let cn = n / 2;
    proof {
        assert(n * n <= 4096 && cn * cn <= 1024) by (nonlinear_arith)
            requires
                n <= 64,
                cn <= 32,
        ;
        assert((n - 1) * n + n == n * n) by (nonlinear_arith);
        assert(cn > 0 ==> (cn - 1) * cn + cn == cn * cn) by (nonlinear_arith);
    }
    paste(ry, cw, saved, n, x, y, n, n);
    let (_, rest) = saved.split_at((n * n) as usize);
    paste(ru, cwc, rest, cn, x / 2, y / 2, cn, cn);
    let (_, rest2) = rest.split_at((cn * cn) as usize);
    proof {
        assert(rest2@ =~= saved@.subrange(n * n + cn * cn, saved@.len() as int));
    }
    paste(rv, cwc, rest2, cn, x / 2, y / 2, cn, cn);
}

/// Restoring a snapshot of a coding unit's reconstruction, with nothing
/// written in between, leaves all three planes as they were.
pub proof fn lemma_restore_rect_undoes_save_rect(
    ry: Seq<u8>,
    ru: Seq<u8>,
    rv: Seq<u8>,
    cw: u32,
    cwc: u32,
    x: u32,
    y: u32,
    log2: u32,
)
    requires
        cu_fits(ry, ru, rv, cw, cwc, x, y, log2),
    ensures
        ({
            let saved = saved_rect(ry, ru, rv, cw, cwc, x, y, log2);
            let n = cu_side(log2) as int;
            let cn = n / 2;
            &&& pasted(ry, cw as int, saved, n, x as int, y as int, n, n * n) == ry
            &&& pasted(ru, cwc as int, saved.subrange(n * n, saved.len() as int), cn, (x / 2) as int, (y / 2) as int, cn, cn * cn) == ru
            &&& pasted(rv, cwc as int, saved.subrange(n * n + cn * cn, saved.len() as int), cn, (x / 2) as int, (y / 2) as int, cn, cn * cn)
                == rv
        }),
{
    lemma_cu_side(log2);
    let saved = saved_rect(ry, ru, rv, cw, cwc, x, y, log2);
    let n = cu_side(log2);
    let cn = n / 2;
    let cy = cropped(ry, cw as int, x as int, y as int, n as int, n as int);
    let cu = cropped(ru, cwc as int, (x / 2) as int, (y / 2) as int, cn as int, cn as int);
    let cv = cropped(rv, cwc as int, (x / 2) as int, (y / 2) as int, cn as int, cn as int);
    assert(cy.len() == n * n);
    assert(cu.len() == cn * cn);
    assert(cv.len() == cn * cn);
    lemma_paste_of_crop_is_identity(ry, cw, x, y, n, n);
    lemma_paste_of_crop_is_identity(ru, cwc, x / 2, y / 2, cn, cn);
    lemma_paste_of_crop_is_identity(rv, cwc, x / 2, y / 2, cn, cn);
    // Pasting reads only the first `w·h` samples of its source.
    if cn == 0 {
        assert(cn * cn == 0);
    }
    lemma_pasted_prefix(ry, cw as int, saved, cy, n as int, x as int, y as int, (n * n) as int);
    lemma_pasted_prefix(ru, cwc as int, saved.subrange(n * n, saved.len() as int), cu, cn as int, (x / 2) as int, (y / 2) as int, (cn * cn) as int);
    lemma_pasted_prefix(
        rv,
        cwc as int,
        saved.subrange(n * n + cn * cn, saved.len() as int),
        cv,
        cn as int,
        (x / 2) as int,
        (y / 2) as int,
        (cn * cn) as int,
    );
}

/// Two sources that agree on the samples a paste reads paste alike.
proof fn lemma_pasted_prefix(dst: Seq<u8>, stride: int, a: Seq<u8>, b: Seq<u8>, w: int, x: int, y: int, k: int)
    requires
        w > 0 || k == 0,
        0 <= k <= b.len(),
        forall|j: int| 0 <= j < k ==> a[j] == b[j],
    ensures
        pasted(dst, stride, a, w, x, y, w, k) == pasted(dst, stride, b, w, x, y, w, k),
    decreases k,
{
    if k > 0 {
        lemma_pasted_prefix(dst, stride, a, b, w, x, y, k - 1);
        let j = k - 1;
        assert(j / w * w + j % w == j) by (nonlinear_arith)
            requires
                w > 0,
        ;
    }
}

} // verus!
