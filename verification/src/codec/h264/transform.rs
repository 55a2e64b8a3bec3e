//! H.264 4×4 integer transform and quantization (ISO/IEC 14496-10 §8.5).
//!
//! The transform is a tiny integer butterfly with no multiplies; the scaling a
//! DCT would apply is folded into the quantizer's `LevelScale` tables. The
//! inverse path is normative and bit-exact; the forward path is the encoder's
//! analysis partner.

use crate::num::{abs, fits_i32, lemma_half, pow2_i32, shr_floor, signum};
use vstd::arithmetic::power2::{lemma2_to64, lemma_pow2_pos, pow2};
use vstd::bits::{lemma_u64_shl_is_mul, lemma_u64_shr_is_div};
use vstd::prelude::*;

verus! {

/// `normAdjust4x4` per `qP % 6` (Table 8-15): the even/even, odd/odd and mixed
/// position classes.
pub const NORM_ADJUST: [[i32; 3]; 6] = [
    [10, 16, 13],
    [11, 18, 14],
    [13, 20, 16],
    [14, 23, 18],
    [16, 25, 20],
    [18, 29, 23],
];

/// Encoder-side quantization multipliers, the customary inverses of
/// [`NORM_ADJUST`].
pub const QUANT_MF: [[i32; 3]; 6] = [
    [13107, 5243, 8066],
    [11916, 4660, 7490],
    [10082, 4194, 6554],
    [9362, 3647, 5825],
    [8192, 3355, 5243],
    [7282, 2893, 4559],
];

/// Bound on a dequantized coefficient, set by the 16-bit intermediates of the
/// inverse transform: four coefficients per row, a quarter of the range each.
pub const MAX_DEQUANT: i64 = 8191;

// ---------------------------------------------------------------- specs

/// Position class of `(i, j)`: 0 even/even, 1 odd/odd, 2 mixed.
pub open spec fn spec_class(i: int, j: int) -> int {
    if i % 2 == 0 && j % 2 == 0 {
        0
    } else if i % 2 == 1 && j % 2 == 1 {
        1
    } else {
        2
    }
}

/// `LevelScale4x4(m, i, j)` with a flat weight matrix.
pub open spec fn spec_level_scale(m: int, i: int, j: int) -> int {
    16 * NORM_ADJUST[m][spec_class(i, j)]
}

/// Every entry of `x` lies in `[-b, b]`.
pub open spec fn bounded(x: Seq<i32>, b: int) -> bool {
    forall|k: int| 0 <= k < x.len() ==> -b <= #[trigger] x[k] <= b
}

/// Output `i` of the forward 1-D butterfly.
pub open spec fn fwd_butterfly(a: int, b: int, c: int, d: int, i: int) -> int {
    let s0 = a + d;
    let s1 = b + c;
    let s2 = b - c;
    let s3 = a - d;
    if i == 0 {
        s0 + s1
    } else if i == 1 {
        2 * s3 + s2
    } else if i == 2 {
        s0 - s1
    } else {
        s3 - 2 * s2
    }
}

/// The forward transform of each row of a 4×4 block.
pub open spec fn forward4_rows(x: Seq<int>) -> Seq<int> {
    Seq::new(
        16,
        |k: int| fwd_butterfly(x[4 * (k / 4)], x[4 * (k / 4) + 1], x[4 * (k / 4) + 2], x[4 * (k / 4) + 3], k % 4),
    )
}

/// `Cf · X · Cfᵀ`: rows, then columns.
pub open spec fn spec_forward4(x: Seq<int>) -> Seq<int> {
    let t = forward4_rows(x);
    Seq::new(16, |k: int| fwd_butterfly(t[k % 4], t[4 + k % 4], t[8 + k % 4], t[12 + k % 4], k / 4))
}

/// Output `i` of the inverse 1-D butterfly (§8.5.12.2).
pub open spec fn inv_butterfly(d0: int, d1: int, d2: int, d3: int, i: int) -> int {
    let e0 = d0 + d2;
    let e1 = d0 - d2;
    let e2 = d1 / 2 - d3;
    let e3 = d1 + d3 / 2;
    if i == 0 {
        e0 + e3
    } else if i == 1 {
        e1 + e2
    } else if i == 2 {
        e1 - e2
    } else {
        e0 - e3
    }
}

/// The inverse transform of each row.
pub open spec fn inverse4_rows(x: Seq<int>) -> Seq<int> {
    Seq::new(
        16,
        |k: int| inv_butterfly(x[4 * (k / 4)], x[4 * (k / 4) + 1], x[4 * (k / 4) + 2], x[4 * (k / 4) + 3], k % 4),
    )
}

/// The inverse transform with its final `(x + 32) >> 6`.
pub open spec fn spec_inverse4(x: Seq<int>) -> Seq<int> {
    let t = inverse4_rows(x);
    Seq::new(
        16,
        |k: int| (inv_butterfly(t[k % 4], t[4 + k % 4], t[8 + k % 4], t[12 + k % 4], k / 4) + 32) / 64,
    )
}

/// An `i32` sequence read as integers.
pub open spec fn ints(x: Seq<i32>) -> Seq<int> {
    x.map_values(|v: i32| v as int)
}

/// Largest level magnitude at `(i, j)` whose dequantized value stays within
/// [`MAX_DEQUANT`].
pub open spec fn spec_max_level(qp: int, i: int, j: int) -> int {
    let ls = spec_level_scale(qp % 6, i, j);
    let shift = qp / 6;
    if shift >= 4 {
        (MAX_DEQUANT as int / pow2((shift - 4) as nat) as int) / ls
    } else {
        (MAX_DEQUANT as int * pow2((4 - shift) as nat) - pow2((3 - shift) as nat)) / ls
    }
}

/// The quantized level of coefficient `c` at `(i, j)`.
pub open spec fn spec_quant(c: int, qp: int, i: int, j: int, intra: bool) -> int {
    let m = qp % 6;
    let qbits = (15 + qp / 6) as nat;
    let f = pow2(qbits) as int / (if intra {
        3int
    } else {
        6int
    });
    let raw = (abs(c) * QUANT_MF[m][spec_class(i, j)] + f) / pow2(qbits) as int;
    let ml = spec_max_level(qp, i, j);
    let level = if raw < ml {
        raw
    } else {
        ml
    };
    if c < 0 {
        -level
    } else {
        level
    }
}

/// The dequantized coefficient of level `l` at `(i, j)` (§8.5.12.1).
pub open spec fn spec_dequant(l: int, qp: int, i: int, j: int) -> int {
    let ls = spec_level_scale(qp % 6, i, j);
    let shift = qp / 6;
    if shift >= 4 {
        l * ls * pow2((shift - 4) as nat)
    } else {
        (l * ls + pow2((3 - shift) as nat)) / pow2((4 - shift) as nat) as int
    }
}

/// Every step of [`dequant4`] on `levels` stays within `i32`.
pub open spec fn dequant4_fits(levels: Seq<i32>, qp: int) -> bool {
    forall|k: int|
        0 <= k < 16 ==> {
            let p = levels[k] * spec_level_scale(qp % 6, k / 4, k % 4);
            &&& fits_i32(p)
            &&& fits_i32(p + 8)
            &&& fits_i32(#[trigger] spec_dequant(levels[k] as int, qp, k / 4, k % 4))
        }
}

/// Output `i` of the 4-point Hadamard butterfly in the spec's row order.
pub open spec fn had_butterfly(a: int, b: int, c: int, d: int, i: int) -> int {
    let s01 = a + b;
    let d01 = a - b;
    let s23 = c + d;
    let d23 = c - d;
    if i == 0 {
        s01 + s23
    } else if i == 1 {
        s01 - s23
    } else if i == 2 {
        d01 - d23
    } else {
        d01 + d23
    }
}

/// The 4×4 Hadamard of sixteen DCs: rows, then columns.
pub open spec fn spec_hadamard4(x: Seq<int>) -> Seq<int> {
    let t = Seq::new(
        16,
        |k: int| had_butterfly(x[4 * (k / 4)], x[4 * (k / 4) + 1], x[4 * (k / 4) + 2], x[4 * (k / 4) + 3], k % 4),
    );
    Seq::new(16, |k: int| had_butterfly(t[k % 4], t[4 + k % 4], t[8 + k % 4], t[12 + k % 4], k / 4))
}

/// Entry `(i, j)` of the Walsh matrix of §8.5.10.
pub open spec fn walsh(i: int, j: int) -> int {
    if i == 0 {
        1
    } else if i == 1 {
        if j < 2 {
            1
        } else {
            -1
        }
    } else if i == 2 {
        if j == 0 || j == 3 {
            1
        } else {
            -1
        }
    } else {
        if j == 0 || j == 2 {
            1
        } else {
            -1
        }
    }
}

/// The scaled luma DC of one 4×4 block (§8.5.10).
pub open spec fn spec_luma_dc_scale(f: int, qp: int) -> int {
    let ls = spec_level_scale(qp % 6, 0, 0);
    let shift = qp / 6;
    if shift >= 6 {
        f * ls * pow2((shift - 6) as nat)
    } else {
        (f * ls + pow2((5 - shift) as nat)) / pow2((6 - shift) as nat) as int
    }
}

/// [`luma_dc_inverse`] of `levels`.
pub open spec fn spec_luma_dc_inverse(levels: Seq<int>, qp: int) -> Seq<int> {
    let f = spec_hadamard4(levels);
    Seq::new(16, |k: int| spec_luma_dc_scale(f[k], qp))
}

/// Every step of [`luma_dc_inverse`] stays within `i32`.
pub open spec fn luma_dc_fits(levels: Seq<int>, qp: int) -> bool {
    let f = spec_hadamard4(levels);
    forall|k: int|
        0 <= k < 16 ==> {
            let p = f[k] * spec_level_scale(qp % 6, 0, 0);
            &&& fits_i32(p)
            &&& fits_i32(p + 32)
            &&& fits_i32(#[trigger] spec_luma_dc_scale(f[k], qp))
        }
}

/// [`luma_dc_fits`] from the fitting of each coefficient's steps.
pub proof fn lemma_luma_dc_fits_of(levels: Seq<int>, qp: int)
    requires
        forall|k: int|
            0 <= k < 16 ==> {
                &&& fits_i32(#[trigger] spec_hadamard4(levels)[k] * spec_level_scale(qp % 6, 0, 0))
                &&& fits_i32(spec_hadamard4(levels)[k] * spec_level_scale(qp % 6, 0, 0) + 32)
                &&& fits_i32(spec_luma_dc_scale(spec_hadamard4(levels)[k], qp))
            },
    ensures
        luma_dc_fits(levels, qp),
{
    let f = spec_hadamard4(levels);
    assert forall|k: int| 0 <= k < 16 implies {
        let p = f[k] * spec_level_scale(qp % 6, 0, 0);
        &&& fits_i32(p)
        &&& fits_i32(p + 32)
        &&& fits_i32(#[trigger] spec_luma_dc_scale(f[k], qp))
    } by {
        assert(fits_i32(spec_hadamard4(levels)[k] * spec_level_scale(qp % 6, 0, 0)));
    }
}

/// The 2×2 chroma DC Hadamard.
pub open spec fn spec_chroma_dc_forward(x: Seq<int>) -> Seq<int> {
    seq![
        x[0] + x[1] + x[2] + x[3],
        x[0] - x[1] + x[2] - x[3],
        x[0] + x[1] - x[2] - x[3],
        x[0] - x[1] - x[2] + x[3],
    ]
}

/// [`chroma_dc_inverse`] of `levels` (§8.5.11.2).
pub open spec fn spec_chroma_dc_inverse(levels: Seq<int>, qp: int) -> Seq<int> {
    let f = spec_chroma_dc_forward(levels);
    let ls = spec_level_scale(qp % 6, 0, 0);
    Seq::new(4, |k: int| (f[k] * ls * pow2((qp / 6) as nat)) / 32)
}

/// Every step of [`chroma_dc_inverse`] stays within `i32`.
pub open spec fn chroma_dc_fits(levels: Seq<int>, qp: int) -> bool {
    let f = spec_chroma_dc_forward(levels);
    let ls = spec_level_scale(qp % 6, 0, 0);
    forall|k: int| 0 <= k < 4 ==> fits_i32(#[trigger] f[k] * ls) && fits_i32(f[k] * ls * pow2((qp / 6) as nat))
}

/// Largest magnitude in a sequence.
pub open spec fn max_abs(x: Seq<int>) -> int
    decreases x.len(),
{
    if x.len() == 0 {
        0
    } else {
        let rest = max_abs(x.drop_last());
        if abs(x.last()) > rest {
            abs(x.last())
        } else {
            rest
        }
    }
}

/// Every level moved one step toward zero.
pub open spec fn shrink(x: Seq<int>) -> Seq<int> {
    x.map_values(|v: int| v - signum(v))
}

/// [`fit_chroma_dc_levels`] with `n` rounds left.
pub open spec fn spec_fit_chroma(x: Seq<int>, qp: int, n: nat) -> Seq<int>
    decreases n,
{
    if n == 0 || max_abs(spec_chroma_dc_inverse(x, qp)) <= MAX_DEQUANT {
        x
    } else {
        spec_fit_chroma(shrink(x), qp, (n - 1) as nat)
    }
}

/// [`fit_luma_dc_levels`] with `n` rounds left.
pub open spec fn spec_fit_luma(x: Seq<int>, qp: int, n: nat) -> Seq<int>
    decreases n,
{
    if n == 0 || max_abs(spec_luma_dc_inverse(x, qp)) <= MAX_DEQUANT {
        x
    } else {
        spec_fit_luma(shrink(x), qp, (n - 1) as nat)
    }
}

/// Every entry of `x` lies in `[-b, b]`.
pub open spec fn within(x: Seq<int>, b: int) -> bool {
    forall|k: int| 0 <= k < x.len() ==> -b <= #[trigger] x[k] <= b
}

/// Every round [`fit_chroma_dc_levels`] would run on `x`, with `n` rounds
/// left, reconstructs within `i32`.
pub open spec fn chroma_fit_ok(x: Seq<int>, qp: int, n: nat) -> bool
    decreases n,
{
    n == 0 || {
        &&& within(x, 0x1000_0000)
        &&& chroma_dc_fits(x, qp)
        &&& (max_abs(spec_chroma_dc_inverse(x, qp)) <= MAX_DEQUANT || chroma_fit_ok(shrink(x), qp, (n - 1) as nat))
    }
}

/// Every round [`fit_luma_dc_levels`] would run on `x`, with `n` rounds left,
/// reconstructs within `i32`.
pub open spec fn luma_fit_ok(x: Seq<int>, qp: int, n: nat) -> bool
    decreases n,
{
    n == 0 || {
        &&& within(x, 0x400_0000)
        &&& luma_dc_fits(x, qp)
        &&& (max_abs(spec_luma_dc_inverse(x, qp)) <= MAX_DEQUANT || luma_fit_ok(shrink(x), qp, (n - 1) as nat))
    }
}

// ---------------------------------------------------------------- code

/// Which of the three position classes `(i, j)` falls into.
pub fn class(i: usize, j: usize) -> (c: usize)
    ensures
        c == spec_class(i as int, j as int),
        c < 3,
{
    if i % 2 == 0 && j % 2 == 0 {
        0
    } else if i % 2 == 1 && j % 2 == 1 {
        1
    } else {
        2
    }
}

/// `LevelScale4x4(m, i, j)` with a flat weight scale.
pub fn level_scale(m: usize, i: usize, j: usize) -> (r: i32)
    requires
        m < 6,
    ensures
        r == spec_level_scale(m as int, i as int, j as int),
        160 <= r <= 464,
{
    16 * NORM_ADJUST[m][class(i, j)]
}

/// One forward butterfly over four values of magnitude at most `2^28`.
fn fwd1(a: i32, b: i32, c: i32, d: i32) -> (r: (i32, i32, i32, i32))
    requires
        -0x1000_0000 <= a <= 0x1000_0000,
        -0x1000_0000 <= b <= 0x1000_0000,
        -0x1000_0000 <= c <= 0x1000_0000,
        -0x1000_0000 <= d <= 0x1000_0000,
    ensures
        r.0 == fwd_butterfly(a as int, b as int, c as int, d as int, 0),
        r.1 == fwd_butterfly(a as int, b as int, c as int, d as int, 1),
        r.2 == fwd_butterfly(a as int, b as int, c as int, d as int, 2),
        r.3 == fwd_butterfly(a as int, b as int, c as int, d as int, 3),
{
    let (s0, s1, s2, s3) = (a + d, b + c, b - c, a - d);
    (s0 + s1, 2 * s3 + s2, s0 - s1, s3 - 2 * s2)
}

/// Forward 4×4 core transform `Cf · X · Cfᵀ` (§8.5.12.1's analysis partner).
///
/// `block` is row-major residual; the result is row-major coefficients.
pub fn forward4(block: &[i32; 16]) -> (o: [i32; 16])
    requires
        bounded(block@, 0x200_0000),
    ensures
        forall|k: int| 0 <= k < 16 ==> o[k] == #[trigger] spec_forward4(ints(block@))[k],
{
    let ghost x = ints(block@);
    let ghost rows = forward4_rows(x);
    let mut t = [0i32; 16];
    for r in 0..4
        invariant
            bounded(block@, 0x200_0000),
            x == ints(block@),
            rows == forward4_rows(x),
            forall|k: int| 0 <= k < 4 * r ==> t[k] == #[trigger] rows[k],
            forall|k: int| 0 <= k < 4 * r ==> -0x1000_0000 <= #[trigger] t[k] <= 0x1000_0000,
    {
        let (a, b, c, d) = (block[r * 4], block[r * 4 + 1], block[r * 4 + 2], block[r * 4 + 3]);
        let (o0, o1, o2, o3) = fwd1(a, b, c, d);
        t[r * 4] = o0;
        t[r * 4 + 1] = o1;
        t[r * 4 + 2] = o2;
        t[r * 4 + 3] = o3;
        proof {
            assert(rows[4 * r as int] == o0);
            assert(rows[4 * r + 1] == o1);
            assert(rows[4 * r + 2] == o2);
            assert(rows[4 * r + 3] == o3);
        }
    }
    let ghost spec = spec_forward4(x);
    let mut o = [0i32; 16];
    for c in 0..4
        invariant
            forall|k: int| 0 <= k < 16 ==> t[k] == #[trigger] rows[k],
            forall|k: int| 0 <= k < 16 ==> -0x1000_0000 <= #[trigger] t[k] <= 0x1000_0000,
            rows == forward4_rows(x),
            spec == spec_forward4(x),
            forall|k: int| 0 <= k < 16 && k % 4 < c ==> o[k] == #[trigger] spec[k],
    {
        let (o0, o1, o2, o3) = fwd1(t[c], t[4 + c], t[8 + c], t[12 + c]);
        o[c] = o0;
        o[4 + c] = o1;
        o[8 + c] = o2;
        o[12 + c] = o3;
        proof {
            assert(spec[c as int] == o0);
            assert(spec[4 + c] == o1);
            assert(spec[8 + c] == o2);
            assert(spec[12 + c] == o3);
        }
    }
    o
}

/// One inverse butterfly.
fn inv1(d0: i32, d1: i32, d2: i32, d3: i32) -> (r: (i32, i32, i32, i32))
    requires
        -0x1C00_0000 <= d0 <= 0x1C00_0000,
        -0x1C00_0000 <= d1 <= 0x1C00_0000,
        -0x1C00_0000 <= d2 <= 0x1C00_0000,
        -0x1C00_0000 <= d3 <= 0x1C00_0000,
    ensures
        r.0 == inv_butterfly(d0 as int, d1 as int, d2 as int, d3 as int, 0),
        r.1 == inv_butterfly(d0 as int, d1 as int, d2 as int, d3 as int, 1),
        r.2 == inv_butterfly(d0 as int, d1 as int, d2 as int, d3 as int, 2),
        r.3 == inv_butterfly(d0 as int, d1 as int, d2 as int, d3 as int, 3),
{
    proof {
        lemma_half(d1);
        lemma_half(d3);
    }
    let e0 = d0 + d2;
    let e1 = d0 - d2;
    let e2 = (d1 >> 1) - d3;
    let e3 = d1 + (d3 >> 1);
    (e0 + e3, e1 + e2, e1 - e2, e0 - e3)
}

/// Inverse 4×4 core transform (§8.5.12.2), including the final
/// `(x + 32) >> 6`.
pub fn inverse4(coeff: &[i32; 16]) -> (o: [i32; 16])
    requires
        bounded(coeff@, 0x800_0000),
    ensures
        forall|k: int| 0 <= k < 16 ==> o[k] == #[trigger] spec_inverse4(ints(coeff@))[k],
{
    let ghost x = ints(coeff@);
    let ghost rows = inverse4_rows(x);
    let mut t = [0i32; 16];
    for r in 0..4
        invariant
            bounded(coeff@, 0x800_0000),
            x == ints(coeff@),
            rows == inverse4_rows(x),
            forall|k: int| 0 <= k < 4 * r ==> t[k] == #[trigger] rows[k],
            forall|k: int| 0 <= k < 4 * r ==> -0x1C00_0000 <= #[trigger] t[k] <= 0x1C00_0000,
    {
        let (a, b, c, d) = (coeff[r * 4], coeff[r * 4 + 1], coeff[r * 4 + 2], coeff[r * 4 + 3]);
        let (o0, o1, o2, o3) = inv1(a, b, c, d);
        t[r * 4] = o0;
        t[r * 4 + 1] = o1;
        t[r * 4 + 2] = o2;
        t[r * 4 + 3] = o3;
        proof {
            assert(rows[4 * r as int] == o0);
            assert(rows[4 * r + 1] == o1);
            assert(rows[4 * r + 2] == o2);
            assert(rows[4 * r + 3] == o3);
        }
    }
    let ghost spec = spec_inverse4(x);
    let mut o = [0i32; 16];
    for c in 0..4
        invariant
            forall|k: int| 0 <= k < 16 ==> t[k] == #[trigger] rows[k],
            forall|k: int| 0 <= k < 16 ==> -0x1C00_0000 <= #[trigger] t[k] <= 0x1C00_0000,
            rows == inverse4_rows(x),
            spec == spec_inverse4(x),
            forall|k: int| 0 <= k < 16 && k % 4 < c ==> o[k] == #[trigger] spec[k],
    {
        let (s0, s1, s2, s3) = inv1(t[c], t[4 + c], t[8 + c], t[12 + c]);
        proof {
            assert(-0x7000_0000 <= s0 <= 0x7000_0000);
        }
        let o0 = shr_floor(s0 + 32, 6);
        let o1 = shr_floor(s1 + 32, 6);
        let o2 = shr_floor(s2 + 32, 6);
        let o3 = shr_floor(s3 + 32, 6);
        proof {
            lemma2_to64();
        }
        o[c] = o0;
        o[4 + c] = o1;
        o[8 + c] = o2;
        o[12 + c] = o3;
        proof {
            assert(spec[c as int] == o0);
            assert(spec[4 + c] == o1);
            assert(spec[8 + c] == o2);
            assert(spec[12 + c] == o3);
        }
    }
    o
}

/// Largest level magnitude at `(i, j)` whose dequantized coefficient respects
/// [`MAX_DEQUANT`].
pub fn max_level(qp: i32, i: usize, j: usize) -> (r: i64)
    requires
        0 <= qp <= 287,
    ensures
        r == spec_max_level(qp as int, i as int, j as int),
        0 <= r <= 8191,
{
    let ls = level_scale((qp % 6) as usize, i, j) as u64;
    let shift = qp / 6;
    proof {
        lemma2_to64();
    }
    if shift >= 4 {
        let s = (shift - 4) as u64;
        proof {
            lemma_u64_shr_is_div(8191, s);
            lemma_pow2_pos(s as nat);
            assert(8191nat / pow2(s as nat) <= 8191) by {
                vstd::arithmetic::div_mod::lemma_div_is_ordered_by_denominator(8191, 1, pow2(s as nat) as int);
            }
        }
        let q = 8191u64 >> s;
        proof {
            assert(q / ls <= q) by {
                vstd::arithmetic::div_mod::lemma_div_is_ordered_by_denominator(q as int, 1, ls as int);
            }
        }
        (q / ls) as i64
    } else {
        let up = (4 - shift) as u64;
        let down = (3 - shift) as u64;
        proof {
            lemma_u64_shl_is_mul(8191, up);
            lemma_u64_shl_is_mul(1, down);
            vstd::arithmetic::power2::lemma_pow2_strictly_increases(down as nat, up as nat);
            assert(8191 * pow2(up as nat) <= 8191 * 16) by (nonlinear_arith)
                requires
                    pow2(up as nat) <= 16,
            ;
        }
        let x = (8191u64 << up) - (1u64 << down);
        proof {
            assert(x / ls <= 8191) by (nonlinear_arith)
                requires
                    x <= 131056,
                    ls >= 160,
            ;
        }
        (x / ls) as i64
    }
}

/// Quantize one coefficient at `(i, j)`.
fn quant1(c: i32, qp: i32, i: usize, j: usize, intra: bool) -> (r: i32)
    requires
        0 <= qp <= 287,
        i < 4,
        j < 4,
    ensures
        r == spec_quant(c as int, qp as int, i as int, j as int, intra),
        -8191 <= r <= 8191,
{
    let m = (qp % 6) as usize;
    let qbits: u64 = (15 + qp / 6) as u64;
    proof {
        vstd::bits::lemma_u64_pow2_no_overflow(qbits as nat);
        lemma_u64_shl_is_mul(1, qbits);
        lemma_pow2_pos(qbits as nat);
        vstd::arithmetic::power2::lemma_pow2_strictly_increases(qbits as nat, 63);
        lemma2_to64();
        vstd::arithmetic::power2::lemma2_to64_rest();
    }
    let f: u64 = (1u64 << qbits) / if intra {
        3
    } else {
        6
    };
    let a: u64 = if c < 0 {
        (0 - (c as i64)) as u64
    } else {
        c as u64
    };
    let mf = QUANT_MF[m][class(i, j)] as u64;
    proof {
        assert(a * mf <= 0x8000_0000 * 13107) by (nonlinear_arith)
            requires
                a <= 0x8000_0000,
                mf <= 13107,
        ;
    }
    let sum = a * mf + f;
    let raw = sum >> qbits;
    proof {
        lemma_u64_shr_is_div(sum, qbits);
    }
    let ml = max_level(qp, i, j);
    let level: i64 = if (raw as i64) < ml {
        raw as i64
    } else {
        ml
    };
    proof {
        assert(abs(c as int) == a);
    }
    if c < 0 {
        -(level as i32)
    } else {
        level as i32
    }
}

/// Quantize a 4×4 coefficient block. `intra` selects the rounding offset —
/// a third of the step for intra, a sixth for inter.
///
/// Levels are clamped so their dequantized value stays representable.
pub fn quant4(coeff: &[i32; 16], qp: i32, intra: bool) -> (out: [i32; 16])
    requires
        0 <= qp <= 287,
    ensures
        forall|k: int|
            0 <= k < 16 ==> #[trigger] out[k] == spec_quant(coeff[k] as int, qp as int, k / 4, k % 4, intra),
{
    let mut out = [0i32; 16];
    for i in 0..4usize
        invariant
            0 <= qp <= 287,
            forall|k: int|
                0 <= k < 4 * i ==> #[trigger] out[k] == spec_quant(coeff[k] as int, qp as int, k / 4, k % 4, intra),
    {
        for j in 0..4usize
            invariant
                0 <= qp <= 287,
                i < 4,
                forall|k: int|
                    0 <= k < (4 * i + j) as int ==> #[trigger] out[k] == spec_quant(coeff[k] as int, qp as int, k / 4, k % 4, intra),
        {
            let k = i * 4 + j;
            out[k] = quant1(coeff[k], qp, i, j, intra);
            proof {
                assert(k as int / 4 == i && k as int % 4 == j);
            }
        }
    }
    out
}

/// Dequantize a 4×4 block of levels (§8.5.12.1). Bit-exact.
pub fn dequant4(levels: &[i32; 16], qp: i32) -> (out: [i32; 16])
    requires
        0 <= qp < 210,
        dequant4_fits(levels@, qp as int),
    ensures
        forall|k: int|
            0 <= k < 16 ==> #[trigger] out[k] == spec_dequant(levels[k] as int, qp as int, k / 4, k % 4),
{
    let m = (qp % 6) as usize;
    let shift = qp / 6;
    let mut out = [0i32; 16];
    proof {
        lemma2_to64();
    }
    for i in 0..4usize
        invariant
            0 <= qp < 210,
            m == qp % 6,
            shift == qp / 6,
            dequant4_fits(levels@, qp as int),
            forall|k: int|
                0 <= k < 4 * i ==> #[trigger] out[k] == spec_dequant(levels[k] as int, qp as int, k / 4, k % 4),
    {
        for j in 0..4usize
            invariant
                0 <= qp < 210,
                m == qp % 6,
                shift == qp / 6,
                i < 4,
                dequant4_fits(levels@, qp as int),
                forall|k: int|
                    0 <= k < (4 * i + j) as int ==> #[trigger] out[k] == spec_dequant(levels[k] as int, qp as int, k / 4, k % 4),
        {
            let k = i * 4 + j;
            proof {
                assert(k as int / 4 == i && k as int % 4 == j);
                assert(fits_i32(spec_dequant(levels[k as int] as int, qp as int, k as int / 4, k as int % 4)));
            }
            let ls = level_scale(m, i, j);
            let p = levels[k] * ls;
            out[k] = if shift >= 4 {
                let s = pow2_i32((shift - 4) as u32);
                p * s
            } else {
                let add = pow2_i32((3 - shift) as u32);
                proof {
                    assert(add <= 8) by {
                        lemma2_to64();
                        if shift == 0 {
                        } else if shift == 1 {
                        } else if shift == 2 {
                        } else {
                        }
                    }
                }
                shr_floor(p + add, (4 - shift) as u32)
            };
        }
    }
    out
}


/// One Hadamard butterfly.
fn had1(a: i32, b: i32, c: i32, d: i32) -> (r: (i32, i32, i32, i32))
    requires
        -0x1000_0000 <= a <= 0x1000_0000,
        -0x1000_0000 <= b <= 0x1000_0000,
        -0x1000_0000 <= c <= 0x1000_0000,
        -0x1000_0000 <= d <= 0x1000_0000,
    ensures
        r.0 == had_butterfly(a as int, b as int, c as int, d as int, 0),
        r.1 == had_butterfly(a as int, b as int, c as int, d as int, 1),
        r.2 == had_butterfly(a as int, b as int, c as int, d as int, 2),
        r.3 == had_butterfly(a as int, b as int, c as int, d as int, 3),
{
    let (s01, d01, s23, d23) = (a + b, a - b, c + d, c - d);
    (s01 + s23, s01 - s23, d01 - d23, d01 + d23)
}

/// 4×4 Hadamard over the sixteen luma DC coefficients of an `I_16x16`
/// macroblock (§8.5.10). `dc[i * 4 + j]` is the DC of the block at row `i`,
/// column `j`, in raster order.
pub fn luma_dc_hadamard(dc: &[i32; 16]) -> (o: [i32; 16])
    requires
        bounded(dc@, 0x400_0000),
    ensures
        forall|k: int| 0 <= k < 16 ==> o[k] == #[trigger] spec_hadamard4(ints(dc@))[k],
{
    let ghost x = ints(dc@);
    let ghost rows = Seq::new(
        16,
        |k: int| had_butterfly(x[4 * (k / 4)], x[4 * (k / 4) + 1], x[4 * (k / 4) + 2], x[4 * (k / 4) + 3], k % 4),
    );
    let mut t = [0i32; 16];
    for r in 0..4
        invariant
            bounded(dc@, 0x400_0000),
            x == ints(dc@),
            rows == Seq::new(
                16,
                |k: int| had_butterfly(x[4 * (k / 4)], x[4 * (k / 4) + 1], x[4 * (k / 4) + 2], x[4 * (k / 4) + 3], k % 4),
            ),
            forall|k: int| 0 <= k < 4 * r ==> t[k] == #[trigger] rows[k],
            forall|k: int| 0 <= k < 4 * r ==> -0x1000_0000 <= #[trigger] t[k] <= 0x1000_0000,
    {
        let (o0, o1, o2, o3) = had1(dc[r * 4], dc[r * 4 + 1], dc[r * 4 + 2], dc[r * 4 + 3]);
        t[r * 4] = o0;
        t[r * 4 + 1] = o1;
        t[r * 4 + 2] = o2;
        t[r * 4 + 3] = o3;
        proof {
            assert(rows[4 * r as int] == o0);
            assert(rows[4 * r + 1] == o1);
            assert(rows[4 * r + 2] == o2);
            assert(rows[4 * r + 3] == o3);
        }
    }
    let ghost spec = spec_hadamard4(x);
    let mut o = [0i32; 16];
    for c in 0..4
        invariant
            forall|k: int| 0 <= k < 16 ==> t[k] == #[trigger] rows[k],
            forall|k: int| 0 <= k < 16 ==> -0x1000_0000 <= #[trigger] t[k] <= 0x1000_0000,
            rows == Seq::new(
                16,
                |k: int| had_butterfly(x[4 * (k / 4)], x[4 * (k / 4) + 1], x[4 * (k / 4) + 2], x[4 * (k / 4) + 3], k % 4),
            ),
            spec == spec_hadamard4(x),
            forall|k: int| 0 <= k < 16 && k % 4 < c ==> o[k] == #[trigger] spec[k],
    {
        let (o0, o1, o2, o3) = had1(t[c], t[4 + c], t[8 + c], t[12 + c]);
        o[c] = o0;
        o[4 + c] = o1;
        o[8 + c] = o2;
        o[12 + c] = o3;
        proof {
            assert(spec[c as int] == o0);
            assert(spec[4 + c] == o1);
            assert(spec[8 + c] == o2);
            assert(spec[12 + c] == o3);
        }
    }
    o
}

/// Inverse luma-DC transform and its scaling (§8.5.10): the DC each of the
/// sixteen 4×4 blocks starts from.
pub fn luma_dc_inverse(levels: &[i32; 16], qp: i32) -> (out: [i32; 16])
    requires
        0 <= qp < 222,
        bounded(levels@, 0x400_0000),
        luma_dc_fits(ints(levels@), qp as int),
    ensures
        forall|k: int| 0 <= k < 16 ==> out[k] == #[trigger] spec_luma_dc_inverse(ints(levels@), qp as int)[k],
{
    let f = luma_dc_hadamard(levels);
    let ls = level_scale((qp % 6) as usize, 0, 0);
    let shift = qp / 6;
    let ghost fs = spec_hadamard4(ints(levels@));
    let mut out = [0i32; 16];
    proof {
        lemma2_to64();
    }
    for k in 0..16usize
        invariant
            0 <= qp < 222,
            shift == qp / 6,
            ls == spec_level_scale(qp as int % 6, 0, 0),
            fs == spec_hadamard4(ints(levels@)),
            forall|j: int| 0 <= j < 16 ==> f[j] == #[trigger] fs[j],
            luma_dc_fits(ints(levels@), qp as int),
            forall|j: int| 0 <= j < k ==> out[j] == #[trigger] spec_luma_dc_scale(fs[j], qp as int),
    {
        proof {
            assert(fits_i32(spec_luma_dc_scale(fs[k as int], qp as int)));
        }
        let p = f[k] * ls;
        out[k] = if shift >= 6 {
            p * pow2_i32((shift - 6) as u32)
        } else {
            let add = pow2_i32((5 - shift) as u32);
            proof {
                assert(add <= 32) by {
                    lemma2_to64();
                    if shift == 0 {
                    } else if shift == 1 {
                    } else if shift == 2 {
                    } else if shift == 3 {
                    } else if shift == 4 {
                    } else {
                    }
                }
            }
            shr_floor(p + add, (6 - shift) as u32)
        };
    }
    out
}

/// 2×2 Hadamard for the chroma DC coefficients (§8.5.11.1, forward).
pub fn chroma_dc_forward(dc: &[i32; 4]) -> (o: [i32; 4])
    requires
        bounded(dc@, 0x1000_0000),
    ensures
        ints(o@) == spec_chroma_dc_forward(ints(dc@)),
{
    let (a, b, c, d) = (dc[0], dc[1], dc[2], dc[3]);
    let o = [a + b + c + d, a - b + c - d, a + b - c - d, a - b - c + d];
    proof {
        assert(ints(o@) =~= spec_chroma_dc_forward(ints(dc@)));
    }
    o
}

/// Inverse 2×2 chroma DC Hadamard plus its scaling (§8.5.11.2): the DC each
/// of the four 4×4 chroma blocks starts from.
pub fn chroma_dc_inverse(levels: &[i32; 4], qp: i32) -> (out: [i32; 4])
    requires
        0 <= qp < 186,
        bounded(levels@, 0x1000_0000),
        chroma_dc_fits(ints(levels@), qp as int),
    ensures
        ints(out@) == spec_chroma_dc_inverse(ints(levels@), qp as int),
{
    let f = chroma_dc_forward(levels);
    let ls = level_scale((qp % 6) as usize, 0, 0);
    let sh = pow2_i32((qp / 6) as u32);
    let ghost fs = spec_chroma_dc_forward(ints(levels@));
    let mut out = [0i32; 4];
    proof {
        lemma2_to64();
        assert(f[0] == fs[0] && f[1] == fs[1] && f[2] == fs[2] && f[3] == fs[3]);
    }
    for k in 0..4usize
        invariant
            0 <= qp < 186,
            ls == spec_level_scale(qp as int % 6, 0, 0),
            sh == pow2((qp / 6) as nat),
            fs == spec_chroma_dc_forward(ints(levels@)),
            forall|j: int| 0 <= j < 4 ==> f[j] == #[trigger] fs[j],
            chroma_dc_fits(ints(levels@), qp as int),
            forall|j: int| 0 <= j < k ==> out[j] == (#[trigger] fs[j] * ls * pow2((qp / 6) as nat)) / 32,
    {
        proof {
            lemma2_to64();
            assert(fits_i32(fs[k as int] * ls));
            assert(fits_i32(fs[k as int] * ls * pow2((qp / 6) as nat)));
        }
        out[k] = shr_floor((f[k] * ls) * sh, 5);
    }
    proof {
        assert(ints(out@) =~= spec_chroma_dc_inverse(ints(levels@), qp as int));
    }
    out
}

/// Largest magnitude among `v`, widened.
fn max_abs_of(v: &[i32]) -> (m: i64)
    ensures
        m == max_abs(ints(v@)),
{
    let mut m: i64 = 0;
    let mut i: usize = 0;
    while i < v.len()
        invariant
            i <= v.len(),
            m == max_abs(ints(v@).take(i as int)),
            0 <= m <= 0x8000_0000,
        decreases v.len() - i,
    {
        let a: i64 = if v[i] < 0 {
            -(v[i] as i64)
        } else {
            v[i] as i64
        };
        proof {
            assert(ints(v@).take(i + 1).drop_last() =~= ints(v@).take(i as int));
        }
        if a > m {
            m = a;
        }
        i = i + 1;
    }
    proof {
        assert(ints(v@).take(v.len() as int) =~= ints(v@));
    }
    m
}

/// Move every level one step toward zero.
fn shrink_levels(levels: &mut [i32])
    ensures
        ints(final(levels)@) == shrink(ints(old(levels)@)),
{
    let n = levels.len();
    let mut i: usize = 0;
    while i < n
        invariant
            n == levels.len(),
            levels@.len() == old(levels)@.len(),
            i <= n,
            forall|k: int| 0 <= k < i ==> levels@[k] == old(levels)@[k] - signum(old(levels)@[k] as int),
            forall|k: int| i <= k < n ==> levels@[k] == old(levels)@[k],
        decreases n - i,
    {
        let l = levels[i];
        let step: i32 = if l < 0 {
            -1
        } else if l > 0 {
            1
        } else {
            0
        };
        levels[i] = l - step;
        i = i + 1;
    }
    proof {
        assert(ints(levels@) =~= shrink(ints(old(levels)@)));
    }
}

/// Scale a set of four chroma DC levels down until their reconstruction fits.
///
/// The four levels go through an inverse Hadamard before scaling, so what has
/// to stay in range is the output: one large level is fine where four aligned
/// ones are not. So this checks the actual reconstruction and moves every
/// level one step toward zero, up to 24 times, only while it overflows.
pub fn fit_chroma_dc_levels(levels: &mut [i32; 4], qp: i32)
    requires
        0 <= qp < 186,
        chroma_fit_ok(ints(old(levels)@), qp as int, 24),
    ensures
        ints(final(levels)@) == spec_fit_chroma(ints(old(levels)@), qp as int, 24),
{
    let mut round: u32 = 0;
    while round < 24
        invariant
            0 <= qp < 186,
            round <= 24,
            chroma_fit_ok(ints(levels@), qp as int, (24 - round) as nat),
            spec_fit_chroma(ints(levels@), qp as int, (24 - round) as nat) == spec_fit_chroma(
                ints(old(levels)@),
                qp as int,
                24,
            ),
        decreases 24 - round,
    {
        proof {
            assert(bounded(levels@, 0x1000_0000)) by {
                assert forall|k: int| 0 <= k < levels@.len() implies -0x1000_0000 <= #[trigger] levels@[k]
                    <= 0x1000_0000 by {
                    assert(ints(levels@)[k] == levels@[k]);
                }
            }
        }
        let out = chroma_dc_inverse(levels, qp);
        let worst = max_abs_of(&out);
        if worst <= MAX_DEQUANT {
            return;
        }
        shrink_levels(levels);
        round = round + 1;
    }
}

/// Scale a set of sixteen luma DC levels down until their reconstruction
/// fits, as [`fit_chroma_dc_levels`] does, up to 64 times.
pub fn fit_luma_dc_levels(levels: &mut [i32; 16], qp: i32)
    requires
        0 <= qp < 222,
        luma_fit_ok(ints(old(levels)@), qp as int, 64),
    ensures
        ints(final(levels)@) == spec_fit_luma(ints(old(levels)@), qp as int, 64),
{
    let mut round: u32 = 0;
    while round < 64
        invariant
            0 <= qp < 222,
            round <= 64,
            luma_fit_ok(ints(levels@), qp as int, (64 - round) as nat),
            spec_fit_luma(ints(levels@), qp as int, (64 - round) as nat) == spec_fit_luma(
                ints(old(levels)@),
                qp as int,
                64,
            ),
        decreases 64 - round,
    {
        proof {
            assert(bounded(levels@, 0x400_0000)) by {
                assert forall|k: int| 0 <= k < levels@.len() implies -0x400_0000 <= #[trigger] levels@[k]
                    <= 0x400_0000 by {
                    assert(ints(levels@)[k] == levels@[k]);
                }
            }
        }
        let out = luma_dc_inverse(levels, qp);
        let worst = max_abs_of(&out);
        proof {
            assert(ints(out@) =~= spec_luma_dc_inverse(ints(levels@), qp as int));
        }
        if worst <= MAX_DEQUANT {
            return;
        }
        shrink_levels(levels);
        round = round + 1;
    }
}

// ---------------------------------------------------------------- laws

/// The 1-D Hadamard butterfly applied twice scales by four: its matrix is
/// symmetric with orthogonal rows.
proof fn lemma_had_butterfly_twice(a: int, b: int, c: int, d: int, i: int)
    requires
        0 <= i < 4,
    ensures
        had_butterfly(
            had_butterfly(a, b, c, d, 0),
            had_butterfly(a, b, c, d, 1),
            had_butterfly(a, b, c, d, 2),
            had_butterfly(a, b, c, d, 3),
            i,
        ) == 4 * seq![a, b, c, d][i],
{
}

/// Transforming the columns and then the rows of a 4×4 block gives the same
/// entry as rows then columns: the butterfly is linear.
proof fn lemma_rows_cols_commute(t: Seq<int>, i: int, j: int)
    requires
        t.len() == 16,
        0 <= i < 4,
        0 <= j < 4,
    ensures
        had_butterfly(
            had_butterfly(t[0], t[4], t[8], t[12], i),
            had_butterfly(t[1], t[5], t[9], t[13], i),
            had_butterfly(t[2], t[6], t[10], t[14], i),
            had_butterfly(t[3], t[7], t[11], t[15], i),
            j,
        ) == had_butterfly(
            had_butterfly(t[0], t[1], t[2], t[3], j),
            had_butterfly(t[4], t[5], t[6], t[7], j),
            had_butterfly(t[8], t[9], t[10], t[11], j),
            had_butterfly(t[12], t[13], t[14], t[15], j),
            i,
        ),
{
}

/// The luma-DC Hadamard applied twice scales every DC by sixteen: `H·H = 4I`
/// on each side.
pub proof fn lemma_luma_dc_hadamard_twice(x: Seq<int>)
    requires
        x.len() == 16,
    ensures
        forall|k: int| 0 <= k < 16 ==> #[trigger] spec_hadamard4(spec_hadamard4(x))[k] == 16 * x[k],
{
    let t = Seq::new(
        16,
        |k: int| had_butterfly(x[4 * (k / 4)], x[4 * (k / 4) + 1], x[4 * (k / 4) + 2], x[4 * (k / 4) + 3], k % 4),
    );
    let h = spec_hadamard4(x);
    let t2 = Seq::new(
        16,
        |k: int| had_butterfly(h[4 * (k / 4)], h[4 * (k / 4) + 1], h[4 * (k / 4) + 2], h[4 * (k / 4) + 3], k % 4),
    );
    // Each row of `t`, transformed again, is four times the row of `x`.
    let x4 = Seq::new(16, |k: int| 4 * x[k]);
    assert forall|r: int, j: int| 0 <= r < 4 && 0 <= j < 4 implies #[trigger] had_butterfly(
        t[4 * r],
        t[4 * r + 1],
        t[4 * r + 2],
        t[4 * r + 3],
        j,
    ) == x4[4 * r + j] by {
        lemma_had_butterfly_twice(x[4 * r], x[4 * r + 1], x[4 * r + 2], x[4 * r + 3], j);
        assert(t[4 * r] == had_butterfly(x[4 * r], x[4 * r + 1], x[4 * r + 2], x[4 * r + 3], 0));
        assert(t[4 * r + 1] == had_butterfly(x[4 * r], x[4 * r + 1], x[4 * r + 2], x[4 * r + 3], 1));
        assert(t[4 * r + 2] == had_butterfly(x[4 * r], x[4 * r + 1], x[4 * r + 2], x[4 * r + 3], 2));
        assert(t[4 * r + 3] == had_butterfly(x[4 * r], x[4 * r + 1], x[4 * r + 2], x[4 * r + 3], 3));
    }
    // So the second row pass sees the column transform of `4x`.
    assert forall|k: int| 0 <= k < 16 implies #[trigger] t2[k] == had_butterfly(
        x4[k % 4],
        x4[4 + k % 4],
        x4[8 + k % 4],
        x4[12 + k % 4],
        k / 4,
    ) by {
        let i = k / 4;
        let j = k % 4;
        lemma_rows_cols_commute(t, i, j);
        assert(h[4 * i] == had_butterfly(t[0], t[4], t[8], t[12], i));
        assert(h[4 * i + 1] == had_butterfly(t[1], t[5], t[9], t[13], i));
        assert(h[4 * i + 2] == had_butterfly(t[2], t[6], t[10], t[14], i));
        assert(h[4 * i + 3] == had_butterfly(t[3], t[7], t[11], t[15], i));
        assert(had_butterfly(t[0], t[1], t[2], t[3], j) == x4[j]);
        assert(had_butterfly(t[4], t[5], t[6], t[7], j) == x4[4 + j]);
        assert(had_butterfly(t[8], t[9], t[10], t[11], j) == x4[8 + j]);
        assert(had_butterfly(t[12], t[13], t[14], t[15], j) == x4[12 + j]);
    }
    // And the column pass of that undoes it up to another factor four.
    assert forall|k: int| 0 <= k < 16 implies #[trigger] spec_hadamard4(h)[k] == 16 * x[k] by {
        let j = k % 4;
        let i = k / 4;
        lemma_had_butterfly_twice(x4[j], x4[4 + j], x4[8 + j], x4[12 + j], i);
        assert(t2[j] == had_butterfly(x4[j], x4[4 + j], x4[8 + j], x4[12 + j], 0));
        assert(t2[4 + j] == had_butterfly(x4[j], x4[4 + j], x4[8 + j], x4[12 + j], 1));
        assert(t2[8 + j] == had_butterfly(x4[j], x4[4 + j], x4[8 + j], x4[12 + j], 2));
        assert(t2[12 + j] == had_butterfly(x4[j], x4[4 + j], x4[8 + j], x4[12 + j], 3));
        assert(spec_hadamard4(h)[k] == had_butterfly(t2[j], t2[4 + j], t2[8 + j], t2[12 + j], i));
        assert(seq![x4[j], x4[4 + j], x4[8 + j], x4[12 + j]][i] == x4[4 * i + j]);
    }
}

/// The 2×2 chroma-DC Hadamard applied twice scales by four.
pub proof fn lemma_chroma_dc_hadamard_twice(x: Seq<int>)
    requires
        x.len() == 4,
    ensures
        spec_chroma_dc_forward(spec_chroma_dc_forward(x)) == Seq::new(4, |k: int| 4 * x[k]),
{
    assert(spec_chroma_dc_forward(spec_chroma_dc_forward(x)) =~= Seq::new(4, |k: int| 4 * x[k]));
}

/// A block holding only a DC coefficient reconstructs to a flat field of
/// `(dc + 32) >> 6`.
pub proof fn lemma_dc_only_reconstructs_flat(x: Seq<int>)
    requires
        x.len() == 16,
        forall|k: int| 1 <= k < 16 ==> x[k] == 0,
    ensures
        forall|k: int| 0 <= k < 16 ==> #[trigger] spec_inverse4(x)[k] == (x[0] + 32) / 64,
{
    let t = inverse4_rows(x);
    assert forall|k: int| 0 <= k < 16 implies #[trigger] t[k] == if k < 4 {
        x[0]
    } else {
        0
    } by {
        assert(x[4 * (k / 4) + 1] == 0 && x[4 * (k / 4) + 2] == 0 && x[4 * (k / 4) + 3] == 0);
        if k >= 4 {
            assert(x[4 * (k / 4)] == 0);
        }
    }
    assert forall|k: int| 0 <= k < 16 implies #[trigger] spec_inverse4(x)[k] == (x[0] + 32) / 64 by {
        assert(t[k % 4] == x[0]);
        assert(t[4 + k % 4] == 0 && t[8 + k % 4] == 0 && t[12 + k % 4] == 0);
    }
}

/// Two blocks added entry by entry.
pub open spec fn entrywise_sum(a: Seq<int>, b: Seq<int>) -> Seq<int> {
    Seq::new(16, |n: int| a[n] + b[n])
}

/// A block of sixteen equal entries.
pub open spec fn flat_block(v: int) -> Seq<int> {
    Seq::new(16, |n: int| v)
}

/// The forward transform is linear: the transform of a sum is the sum of
/// the transforms.
pub proof fn lemma_forward4_linear(a: Seq<int>, b: Seq<int>)
    requires
        a.len() == 16,
        b.len() == 16,
    ensures
        forall|k: int|
            0 <= k < 16 ==> #[trigger] spec_forward4(entrywise_sum(a, b))[k] == spec_forward4(a)[k]
                + spec_forward4(b)[k],
{
    let s = entrywise_sum(a, b);
    let ts = forward4_rows(s);
    let ta = forward4_rows(a);
    let tb = forward4_rows(b);
    assert forall|k: int| 0 <= k < 16 implies #[trigger] ts[k] == ta[k] + tb[k] by {
        let r = 4 * (k / 4);
        assert(s[r] == a[r] + b[r] && s[r + 1] == a[r + 1] + b[r + 1]);
        assert(s[r + 2] == a[r + 2] + b[r + 2] && s[r + 3] == a[r + 3] + b[r + 3]);
    }
    assert forall|k: int| 0 <= k < 16 implies #[trigger] spec_forward4(s)[k] == spec_forward4(a)[k]
        + spec_forward4(b)[k] by {
        let c = k % 4;
        assert(ts[c] == ta[c] + tb[c] && ts[4 + c] == ta[4 + c] + tb[4 + c]);
        assert(ts[8 + c] == ta[8 + c] + tb[8 + c] && ts[12 + c] == ta[12 + c] + tb[12 + c]);
    }
}

/// A flat block of `v` transforms to a DC of `16 · v` and nothing else.
pub proof fn lemma_forward4_flat(v: int)
    ensures
        forall|k: int|
            0 <= k < 16 ==> #[trigger] spec_forward4(flat_block(v))[k] == if k == 0 {
                16 * v
            } else {
                0
            },
{
    let x = flat_block(v);
    let t = forward4_rows(x);
    assert forall|k: int| 0 <= k < 16 implies #[trigger] t[k] == if k % 4 == 0 {
        4 * v
    } else {
        0
    } by {}
    assert forall|k: int| 0 <= k < 16 implies #[trigger] spec_forward4(x)[k] == if k == 0 {
        16 * v
    } else {
        0
    } by {
        let c = k % 4;
        assert(t[c] == t[4 + c] && t[c] == t[8 + c] && t[c] == t[12 + c]);
    }
}

/// `Σ walsh(i, r) · x[4r + c] · walsh(c, j)` over the first `n` entries
/// `4r + c` of a 4×4 block.
pub open spec fn walsh_product(x: Seq<int>, i: int, j: int, n: int) -> int
    decreases n,
{
    if n <= 0 {
        0
    } else {
        walsh_product(x, i, j, n - 1) + walsh(i, (n - 1) / 4) * x[n - 1] * walsh((n - 1) % 4, j)
    }
}

/// [`walsh_product`] with each product of two Walsh signs taken as a sign.
spec fn walsh_signed(x: Seq<int>, i: int, j: int, n: int) -> int
    decreases n,
{
    if n <= 0 {
        0
    } else {
        walsh_signed(x, i, j, n - 1) + if walsh(i, (n - 1) / 4) == walsh((n - 1) % 4, j) {
            x[n - 1]
        } else {
            -x[n - 1]
        }
    }
}

proof fn lemma_walsh_product_signed(x: Seq<int>, i: int, j: int, n: int)
    ensures
        walsh_product(x, i, j, n) == walsh_signed(x, i, j, n),
    decreases n,
{
    if n > 0 {
        lemma_walsh_product_signed(x, i, j, n - 1);
        let a = walsh(i, (n - 1) / 4);
        let b = walsh((n - 1) % 4, j);
        let y = x[n - 1];
        assert(a * y * b == if a == b {
            y
        } else {
            -y
        }) by (nonlinear_arith)
            requires
                a == 1 || a == -1,
                b == 1 || b == -1,
        ;
    }
}

/// The luma-DC Hadamard is the matrix product `H · X · H` with the Walsh
/// matrix `H` of the standard.
pub proof fn lemma_luma_dc_hadamard_is_walsh_product(x: Seq<int>)
    requires
        x.len() == 16,
    ensures
        forall|i: int, j: int|
            0 <= i < 4 && 0 <= j < 4 ==> #[trigger] spec_hadamard4(x)[4 * i + j] == walsh_product(x, i, j, 16),
{
    assert forall|i: int, j: int| 0 <= i < 4 && 0 <= j < 4 implies #[trigger] spec_hadamard4(x)[4 * i + j]
        == walsh_product(x, i, j, 16) by {
        assert((4 * i + j) / 4 == i && (4 * i + j) % 4 == j);
        lemma_walsh_product_signed(x, i, j, 16);
        reveal_with_fuel(walsh_signed, 17);
        if i == 0 {
            if j == 0 {} else if j == 1 {} else if j == 2 {} else {}
        } else if i == 1 {
            if j == 0 {} else if j == 1 {} else if j == 2 {} else {}
        } else if i == 2 {
            if j == 0 {} else if j == 1 {} else if j == 2 {} else {}
        } else {
            if j == 0 {} else if j == 1 {} else if j == 2 {} else {}
        }
    }
}

/// Entry `(i, j)` of the forward core transform matrix `Cf` (§8.5.12 in
/// reverse; the encoder's integer DCT).
pub open spec fn core_matrix(i: int, j: int) -> int {
    if i == 0 {
        1
    } else if i == 1 {
        if j == 0 {
            2
        } else if j == 1 {
            1
        } else if j == 2 {
            -1
        } else {
            -2
        }
    } else if i == 2 {
        if j == 0 || j == 3 {
            1
        } else {
            -1
        }
    } else {
        if j == 0 {
            1
        } else if j == 1 {
            -2
        } else if j == 2 {
            2
        } else {
            -1
        }
    }
}

/// `Σ Cf(i, r) · x[4r + c] · Cf(j, c)` over the first `n` entries `4r + c`
/// of a 4×4 block.
pub open spec fn core_product(x: Seq<int>, i: int, j: int, n: int) -> int
    decreases n,
{
    if n <= 0 {
        0
    } else {
        core_product(x, i, j, n - 1) + core_matrix(i, (n - 1) / 4) * x[n - 1] * core_matrix(j, (n - 1) % 4)
    }
}

/// `a · y` for a matrix entry `a` of ±1 or ±2, by cases.
spec fn by_entry(a: int, y: int) -> int {
    if a == 1 {
        y
    } else if a == 2 {
        y + y
    } else if a == -1 {
        -y
    } else {
        -(y + y)
    }
}

/// [`core_product`] with each product taken by cases.
spec fn core_scaled(x: Seq<int>, i: int, j: int, n: int) -> int
    decreases n,
{
    if n <= 0 {
        0
    } else {
        core_scaled(x, i, j, n - 1) + by_entry(core_matrix(i, (n - 1) / 4), by_entry(core_matrix(j, (n - 1) % 4), x[n - 1]))
    }
}

proof fn lemma_core_product_scaled(x: Seq<int>, i: int, j: int, n: int)
    ensures
        core_product(x, i, j, n) == core_scaled(x, i, j, n),
    decreases n,
{
    if n > 0 {
        lemma_core_product_scaled(x, i, j, n - 1);
        let a = core_matrix(i, (n - 1) / 4);
        let b = core_matrix(j, (n - 1) % 4);
        let y = x[n - 1];
        let scaled = by_entry(b, y);
        assert(scaled == b * y) by (nonlinear_arith)
            requires
                b == 1 || b == 2 || b == -1 || b == -2,
                scaled == by_entry(b, y),
        ;
        assert(by_entry(a, scaled) == a * scaled) by (nonlinear_arith)
            requires
                a == 1 || a == 2 || a == -1 || a == -2,
        ;
        assert(a * y * b == a * (b * y)) by (nonlinear_arith);
    }
}

/// The forward transform is the matrix product `Cf · X · Cfᵀ`.
pub proof fn lemma_forward4_is_core_product(x: Seq<int>)
    requires
        x.len() == 16,
    ensures
        forall|i: int, j: int|
            0 <= i < 4 && 0 <= j < 4 ==> #[trigger] spec_forward4(x)[4 * i + j] == core_product(x, i, j, 16),
{
    assert forall|i: int, j: int| 0 <= i < 4 && 0 <= j < 4 implies #[trigger] spec_forward4(x)[4 * i + j]
        == core_product(x, i, j, 16) by {
        assert((4 * i + j) / 4 == i && (4 * i + j) % 4 == j);
        lemma_core_product_scaled(x, i, j, 16);
        reveal_with_fuel(core_scaled, 17);
        if i == 0 {
            if j == 0 {} else if j == 1 {} else if j == 2 {} else {}
        } else if i == 1 {
            if j == 0 {} else if j == 1 {} else if j == 2 {} else {}
        } else if i == 2 {
            if j == 0 {} else if j == 1 {} else if j == 2 {} else {}
        } else {
            if j == 0 {} else if j == 1 {} else if j == 2 {} else {}
        }
    }
}

/// `x` after `t` rounds of [`shrink`].
pub open spec fn shrink_n(x: Seq<int>, t: nat) -> Seq<int>
    decreases t,
{
    if t == 0 {
        x
    } else {
        shrink_n(shrink(x), (t - 1) as nat)
    }
}

/// Whether the chroma DC levels `x` reconstruct within [`MAX_DEQUANT`].
pub open spec fn chroma_dc_fits_range(x: Seq<int>, qp: int) -> bool {
    max_abs(spec_chroma_dc_inverse(x, qp)) <= MAX_DEQUANT
}

/// `t` rounds of [`shrink`] move each level `t` steps toward zero, stopping
/// at zero: no level grows or changes sign.
pub proof fn lemma_shrink_n_closed_form(x: Seq<int>, t: nat)
    ensures
        shrink_n(x, t).len() == x.len(),
        forall|k: int|
            0 <= k < x.len() ==> #[trigger] shrink_n(x, t)[k] == if abs(x[k]) <= t {
                0
            } else if x[k] > 0 {
                x[k] - t
            } else {
                x[k] + t
            },
    decreases t,
{
    if t > 0 {
        let s = shrink(x);
        lemma_shrink_n_closed_form(s, (t - 1) as nat);
        assert forall|k: int| 0 <= k < x.len() implies #[trigger] shrink_n(x, t)[k] == if abs(x[k]) <= t {
            0
        } else if x[k] > 0 {
            x[k] - t
        } else {
            x[k] + t
        } by {
            assert(s[k] == x[k] - signum(x[k]));
            assert(shrink_n(x, t)[k] == shrink_n(s, (t - 1) as nat)[k]);
        }
    }
}

/// [`fit_chroma_dc_levels`] shrinks the levels the least number of rounds,
/// up to its `n`, after which they reconstruct within range: `t` rounds
/// where no fewer fit and `t` fit or `t` is the limit.
pub proof fn lemma_fit_chroma_is_least_shrink(x: Seq<int>, qp: int, n: nat, t: nat)
    requires
        t <= n,
        forall|u: nat| u < t ==> !chroma_dc_fits_range(#[trigger] shrink_n(x, u), qp),
        t == n || chroma_dc_fits_range(shrink_n(x, t), qp),
    ensures
        spec_fit_chroma(x, qp, n) == shrink_n(x, t),
    decreases n,
{
    if n > 0 && !chroma_dc_fits_range(x, qp) {
        assert(shrink_n(x, 0) == x);
        assert(t > 0);
        assert forall|u: nat| u < t - 1 implies !chroma_dc_fits_range(#[trigger] shrink_n(shrink(x), u), qp) by {
            assert(shrink_n(x, u + 1) == shrink_n(shrink(x), u));
        }
        assert(shrink_n(x, t) == shrink_n(shrink(x), (t - 1) as nat));
        lemma_fit_chroma_is_least_shrink(shrink(x), qp, (n - 1) as nat, (t - 1) as nat);
    } else if n > 0 {
        if t > 0 {
            assert(shrink_n(x, 0) == x);
        }
    }
}

/// `LevelScale4x4` is at least 160 and at most 464.
proof fn lemma_level_scale_range(m: int, i: int, j: int)
    requires
        0 <= m < 6,
    ensures
        160 <= spec_level_scale(m, i, j) <= 464,
{
    let c = spec_class(i, j);
    assert(0 <= c < 3);
    assert(10 <= NORM_ADJUST[m][c] <= 29) by {
        assert(0 <= m < 6 && 0 <= c < 3);
    }
}

/// Every level the quantizer emits at a QP of the standard range
/// dequantizes inside the inverse transform's bound [`MAX_DEQUANT`], at
/// every position class and for every coefficient, and so does its
/// magnitude; a level is zero or has the coefficient's sign.
pub proof fn lemma_quantized_levels_dequantize_in_range(c: int, qp: int, i: int, j: int, intra: bool)
    requires
        0 <= qp <= 51,
    ensures
        -MAX_DEQUANT <= spec_dequant(spec_quant(c, qp, i, j, intra), qp, i, j) <= MAX_DEQUANT,
        0 <= spec_dequant(abs(spec_quant(c, qp, i, j, intra)), qp, i, j) <= MAX_DEQUANT,
        spec_quant(c, qp, i, j, intra) == 0 || ((spec_quant(c, qp, i, j, intra) < 0) == (c < 0)),
        -16 * MAX_DEQUANT <= spec_quant(c, qp, i, j, intra) * spec_level_scale(qp % 6, i, j) <= 16 * MAX_DEQUANT,
{
    let m = qp % 6;
    let shift = qp / 6;
    let ls = spec_level_scale(m, i, j);
    lemma_level_scale_range(m, i, j);
    vstd::arithmetic::power2::lemma2_to64();
    let qbits = (15 + shift) as nat;
    lemma_pow2_pos(qbits);
    let f = pow2(qbits) as int / (if intra {
        3int
    } else {
        6int
    });
    let raw = (abs(c) * QUANT_MF[m][spec_class(i, j)] + f) / pow2(qbits) as int;
    assert(QUANT_MF[m][spec_class(i, j)] > 0) by {
        assert(0 <= m < 6 && 0 <= spec_class(i, j) < 3);
    }
    assert(raw >= 0) by (nonlinear_arith)
        requires
            raw == (abs(c) * QUANT_MF[m][spec_class(i, j)] + f) / pow2(qbits) as int,
            abs(c) >= 0,
            QUANT_MF[m][spec_class(i, j)] > 0,
            f >= 0,
            pow2(qbits) > 0,
    ;
    let ml = spec_max_level(qp, i, j);
    let level = if raw < ml {
        raw
    } else {
        ml
    };
    let mx = MAX_DEQUANT as int;
    assert(abs(spec_quant(c, qp, i, j, intra)) == level);
    if shift >= 4 {
        let p = pow2((shift - 4) as nat) as int;
        assert(1 <= p <= 16);
        assert(ml == (mx / p) / ls);
        assert(ml >= 0) by (nonlinear_arith)
            requires
                ml == (mx / p) / ls,
                mx > 0,
                p > 0,
                ls > 0,
        ;
        assert(0 <= level <= ml);
        assert(level * ls * p <= mx) by (nonlinear_arith)
            requires
                0 <= level <= ml,
                ml == (mx / p) / ls,
                mx > 0,
                p > 0,
                ls > 0,
        ;
        assert(level * ls * p >= 0) by (nonlinear_arith)
            requires
                level >= 0,
                ls > 0,
                p > 0,
        ;
        assert((-level) * ls * p == -(level * ls * p)) by (nonlinear_arith);
        assert(0 <= level * ls <= mx) by (nonlinear_arith)
            requires
                level * ls * p <= mx,
                level >= 0,
                ls > 0,
                p >= 1,
        ;
        assert((-level) * ls == -(level * ls)) by (nonlinear_arith);
    } else {
        let d = pow2((4 - shift) as nat) as int;
        let r = pow2((3 - shift) as nat) as int;
        assert(d == 2 * r && 1 <= r <= 8) by {
            vstd::arithmetic::power2::lemma_pow2_unfold((4 - shift) as nat);
        }
        assert(ml == (mx * d - r) / ls);
        assert(ml >= 0) by (nonlinear_arith)
            requires
                ml == (mx * d - r) / ls,
                mx * d - r > 0,
                ls > 0,
        ;
        assert(0 <= level <= ml);
        assert(0 <= level * ls <= mx * d - r) by (nonlinear_arith)
            requires
                0 <= level <= ml,
                ml == (mx * d - r) / ls,
                mx * d - r > 0,
                ls > 0,
        ;
        assert(0 <= (level * ls + r) / d <= mx) by (nonlinear_arith)
            requires
                0 <= level * ls <= mx * d - r,
                d == 2 * r,
                r >= 1,
                mx > 0,
        ;
        assert(-mx <= ((-level) * ls + r) / d <= mx) by (nonlinear_arith)
            requires
                0 <= level * ls <= mx * d - r,
                d == 2 * r,
                r >= 1,
                mx > 0,
        ;
        assert(mx * d <= 16 * mx) by (nonlinear_arith)
            requires
                d <= 16,
                mx > 0,
        ;
        assert((-level) * ls == -(level * ls)) by (nonlinear_arith);
    }
}

} // verus!
