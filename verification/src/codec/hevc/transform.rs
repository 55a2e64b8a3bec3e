//! HEVC core integer transforms (H.265 §8.6.4): the DCT-II approximations used
//! for residual coding, plus the alternate DST-VII used for 4×4 intra luma.
//!
//! The **inverse** transform is bit-exact to the spec (the decoder runs it,
//! and the encoder mirrors it to reconstruct neighbours for intra prediction).
//! The **forward** transform is the encoder's own analysis step: the matching
//! partner, so `forward → inverse` round-trips.
//!
//! Both are stated exactly: each output sample is the two-pass matrix product
//! with the rounding shifts of §8.6.4.2, cast to `i32` as the code does.

use crate::num::clamp;
use vstd::arithmetic::power2::{lemma2_to64, lemma_pow2_pos, pow2};
use vstd::prelude::*;

verus! {

/// 4×4 DCT-II basis (`transMatrix`, H.265 §8.6.4.2).
pub const DCT4: [[i32; 4]; 4] = [
    [64, 64, 64, 64],
    [83, 36, -36, -83],
    [64, -64, -64, 64],
    [36, -83, 83, -36],
];

/// 4×4 DST-VII basis (used for 4×4 intra luma residual).
pub const DST4: [[i32; 4]; 4] = [
    [29, 55, 74, 84],
    [74, 74, 0, -74],
    [84, -29, -74, 55],
    [55, -84, 74, -29],
];

/// 8×8 DCT-II basis.
pub const DCT8: [[i32; 8]; 8] = [
    [64, 64, 64, 64, 64, 64, 64, 64],
    [89, 75, 50, 18, -18, -50, -75, -89],
    [83, 36, -36, -83, -83, -36, 36, 83],
    [75, -18, -89, -50, 50, 89, 18, -75],
    [64, -64, -64, 64, 64, -64, -64, 64],
    [50, -89, 18, 75, -75, -18, 89, -50],
    [36, -83, 83, -36, -36, 83, -83, 36],
    [18, -50, 75, -89, 89, -75, 50, -18],
];

/// 16×16 DCT-II basis. Rows `2i` (cols 0..8) reproduce [`DCT8`] (nested design).
pub const DCT16: [[i32; 16]; 16] = [
    [64, 64, 64, 64, 64, 64, 64, 64, 64, 64, 64, 64, 64, 64, 64, 64],
    [90, 87, 80, 70, 57, 43, 25, 9, -9, -25, -43, -57, -70, -80, -87, -90],
    [89, 75, 50, 18, -18, -50, -75, -89, -89, -75, -50, -18, 18, 50, 75, 89],
    [87, 57, 9, -43, -80, -90, -70, -25, 25, 70, 90, 80, 43, -9, -57, -87],
    [83, 36, -36, -83, -83, -36, 36, 83, 83, 36, -36, -83, -83, -36, 36, 83],
    [80, 9, -70, -87, -25, 57, 90, 43, -43, -90, -57, 25, 87, 70, -9, -80],
    [75, -18, -89, -50, 50, 89, 18, -75, -75, 18, 89, 50, -50, -89, -18, 75],
    [70, -43, -87, 9, 90, 25, -80, -57, 57, 80, -25, -90, -9, 87, 43, -70],
    [64, -64, -64, 64, 64, -64, -64, 64, 64, -64, -64, 64, 64, -64, -64, 64],
    [57, -80, -25, 90, -9, -87, 43, 70, -70, -43, 87, 9, -90, 25, 80, -57],
    [50, -89, 18, 75, -75, -18, 89, -50, -50, 89, -18, -75, 75, 18, -89, 50],
    [43, -90, 57, 25, -87, 70, 9, -80, 80, -9, -70, 87, -25, -57, 90, -43],
    [36, -83, 83, -36, -36, 83, -83, 36, 36, -83, 83, -36, -36, 83, -83, 36],
    [25, -70, 90, -80, 43, 9, -57, 87, -87, 57, -9, -43, 80, -90, 70, -25],
    [18, -50, 75, -89, 89, -75, 50, -18, -18, 50, -75, 89, -89, 75, -50, 18],
    [9, -25, 43, -57, 70, -80, 87, -90, 90, -87, 80, -70, 57, -43, 25, -9],
];

/// Row 1 of the 32-point matrix, first half. The rest of [`DCT32`] follows
/// from it and from [`DCT16`]: the even rows are the 16-point rows mirrored
/// about the centre, and the odd rows are this vector re-indexed and
/// sign-flipped.
pub const G32: [i32; 16] = [90, 90, 88, 85, 82, 78, 73, 67, 61, 54, 46, 38, 31, 22, 13, 4];

/// The 32-point DCT: the nested construction from [`DCT16`] and [`G32`].
pub const DCT32: [[i32; 32]; 32] = [
    [
        64, 64, 64, 64, 64, 64, 64, 64, 64, 64, 64, 64, 64, 64, 64, 64,
        64, 64, 64, 64, 64, 64, 64, 64, 64, 64, 64, 64, 64, 64, 64, 64,
    ],
    [
        90, 90, 88, 85, 82, 78, 73, 67, 61, 54, 46, 38, 31, 22, 13, 4,
        -4, -13, -22, -31, -38, -46, -54, -61, -67, -73, -78, -82, -85, -88, -90, -90,
    ],
    [
        90, 87, 80, 70, 57, 43, 25, 9, -9, -25, -43, -57, -70, -80, -87, -90,
        -90, -87, -80, -70, -57, -43, -25, -9, 9, 25, 43, 57, 70, 80, 87, 90,
    ],
    [
        90, 82, 67, 46, 22, -4, -31, -54, -73, -85, -90, -88, -78, -61, -38, -13,
        13, 38, 61, 78, 88, 90, 85, 73, 54, 31, 4, -22, -46, -67, -82, -90,
    ],
    [
        89, 75, 50, 18, -18, -50, -75, -89, -89, -75, -50, -18, 18, 50, 75, 89,
        89, 75, 50, 18, -18, -50, -75, -89, -89, -75, -50, -18, 18, 50, 75, 89,
    ],
    [
        88, 67, 31, -13, -54, -82, -90, -78, -46, -4, 38, 73, 90, 85, 61, 22,
        -22, -61, -85, -90, -73, -38, 4, 46, 78, 90, 82, 54, 13, -31, -67, -88,
    ],
    [
        87, 57, 9, -43, -80, -90, -70, -25, 25, 70, 90, 80, 43, -9, -57, -87,
        -87, -57, -9, 43, 80, 90, 70, 25, -25, -70, -90, -80, -43, 9, 57, 87,
    ],
    [
        85, 46, -13, -67, -90, -73, -22, 38, 82, 88, 54, -4, -61, -90, -78, -31,
        31, 78, 90, 61, 4, -54, -88, -82, -38, 22, 73, 90, 67, 13, -46, -85,
    ],
    [
        83, 36, -36, -83, -83, -36, 36, 83, 83, 36, -36, -83, -83, -36, 36, 83,
        83, 36, -36, -83, -83, -36, 36, 83, 83, 36, -36, -83, -83, -36, 36, 83,
    ],
    [
        82, 22, -54, -90, -61, 13, 78, 85, 31, -46, -90, -67, 4, 73, 88, 38,
        -38, -88, -73, -4, 67, 90, 46, -31, -85, -78, -13, 61, 90, 54, -22, -82,
    ],
    [
        80, 9, -70, -87, -25, 57, 90, 43, -43, -90, -57, 25, 87, 70, -9, -80,
        -80, -9, 70, 87, 25, -57, -90, -43, 43, 90, 57, -25, -87, -70, 9, 80,
    ],
    [
        78, -4, -82, -73, 13, 85, 67, -22, -88, -61, 31, 90, 54, -38, -90, -46,
        46, 90, 38, -54, -90, -31, 61, 88, 22, -67, -85, -13, 73, 82, 4, -78,
    ],
    [
        75, -18, -89, -50, 50, 89, 18, -75, -75, 18, 89, 50, -50, -89, -18, 75,
        75, -18, -89, -50, 50, 89, 18, -75, -75, 18, 89, 50, -50, -89, -18, 75,
    ],
    [
        73, -31, -90, -22, 78, 67, -38, -90, -13, 82, 61, -46, -88, -4, 85, 54,
        -54, -85, 4, 88, 46, -61, -82, 13, 90, 38, -67, -78, 22, 90, 31, -73,
    ],
    [
        70, -43, -87, 9, 90, 25, -80, -57, 57, 80, -25, -90, -9, 87, 43, -70,
        -70, 43, 87, -9, -90, -25, 80, 57, -57, -80, 25, 90, 9, -87, -43, 70,
    ],
    [
        67, -54, -78, 38, 85, -22, -90, 4, 90, 13, -88, -31, 82, 46, -73, -61,
        61, 73, -46, -82, 31, 88, -13, -90, -4, 90, 22, -85, -38, 78, 54, -67,
    ],
    [
        64, -64, -64, 64, 64, -64, -64, 64, 64, -64, -64, 64, 64, -64, -64, 64,
        64, -64, -64, 64, 64, -64, -64, 64, 64, -64, -64, 64, 64, -64, -64, 64,
    ],
    [
        61, -73, -46, 82, 31, -88, -13, 90, -4, -90, 22, 85, -38, -78, 54, 67,
        -67, -54, 78, 38, -85, -22, 90, 4, -90, 13, 88, -31, -82, 46, 73, -61,
    ],
    [
        57, -80, -25, 90, -9, -87, 43, 70, -70, -43, 87, 9, -90, 25, 80, -57,
        -57, 80, 25, -90, 9, 87, -43, -70, 70, 43, -87, -9, 90, -25, -80, 57,
    ],
    [
        54, -85, -4, 88, -46, -61, 82, 13, -90, 38, 67, -78, -22, 90, -31, -73,
        73, 31, -90, 22, 78, -67, -38, 90, -13, -82, 61, 46, -88, 4, 85, -54,
    ],
    [
        50, -89, 18, 75, -75, -18, 89, -50, -50, 89, -18, -75, 75, 18, -89, 50,
        50, -89, 18, 75, -75, -18, 89, -50, -50, 89, -18, -75, 75, 18, -89, 50,
    ],
    [
        46, -90, 38, 54, -90, 31, 61, -88, 22, 67, -85, 13, 73, -82, 4, 78,
        -78, -4, 82, -73, -13, 85, -67, -22, 88, -61, -31, 90, -54, -38, 90, -46,
    ],
    [
        43, -90, 57, 25, -87, 70, 9, -80, 80, -9, -70, 87, -25, -57, 90, -43,
        -43, 90, -57, -25, 87, -70, -9, 80, -80, 9, 70, -87, 25, 57, -90, 43,
    ],
    [
        38, -88, 73, -4, -67, 90, -46, -31, 85, -78, 13, 61, -90, 54, 22, -82,
        82, -22, -54, 90, -61, -13, 78, -85, 31, 46, -90, 67, 4, -73, 88, -38,
    ],
    [
        36, -83, 83, -36, -36, 83, -83, 36, 36, -83, 83, -36, -36, 83, -83, 36,
        36, -83, 83, -36, -36, 83, -83, 36, 36, -83, 83, -36, -36, 83, -83, 36,
    ],
    [
        31, -78, 90, -61, 4, 54, -88, 82, -38, -22, 73, -90, 67, -13, -46, 85,
        -85, 46, 13, -67, 90, -73, 22, 38, -82, 88, -54, -4, 61, -90, 78, -31,
    ],
    [
        25, -70, 90, -80, 43, 9, -57, 87, -87, 57, -9, -43, 80, -90, 70, -25,
        -25, 70, -90, 80, -43, -9, 57, -87, 87, -57, 9, 43, -80, 90, -70, 25,
    ],
    [
        22, -61, 85, -90, 73, -38, -4, 46, -78, 90, -82, 54, -13, -31, 67, -88,
        88, -67, 31, 13, -54, 82, -90, 78, -46, 4, 38, -73, 90, -85, 61, -22,
    ],
    [
        18, -50, 75, -89, 89, -75, 50, -18, -18, 50, -75, 89, -89, 75, -50, 18,
        18, -50, 75, -89, 89, -75, 50, -18, -18, 50, -75, 89, -89, 75, -50, 18,
    ],
    [
        13, -38, 61, -78, 88, -90, 85, -73, 54, -31, 4, 22, -46, 67, -82, 90,
        -90, 82, -67, 46, -22, -4, 31, -54, 73, -85, 90, -88, 78, -61, 38, -13,
    ],
    [
        9, -25, 43, -57, 70, -80, 87, -90, 90, -87, 80, -70, 57, -43, 25, -9,
        -9, 25, -43, 57, -70, 80, -87, 90, -90, 87, -80, 70, -57, 43, -25, 9,
    ],
    [
        4, -13, 22, -31, 38, -46, 54, -61, 67, -73, 78, -82, 85, -88, 90, -90,
        90, -90, 88, -85, 82, -78, 73, -67, 61, -54, 46, -38, 31, -22, 13, -4,
    ],
];

/// The largest transform this encoder emits.
pub const MAX_N: usize = 32;

/// Which transform to apply.
#[derive(Clone, Copy, Debug, PartialEq, Eq, Structural)]
pub enum TransformKind {
    /// DCT-II — all sizes.
    Dct,
    /// DST-VII — 4×4 only (intra luma).
    Dst,
}

/// The sizes and kinds a transform exists for: DCT at 4, 8, 16 and 32; DST at
/// 4 only.
pub open spec fn supported(n: int, kind: TransformKind) -> bool {
    n == 4 || (kind == TransformKind::Dct && (n == 8 || n == 16 || n == 32))
}

/// Entry `(i, k)` of the `n`-point basis matrix of `kind`.
pub open spec fn basis(n: int, kind: TransformKind, i: int, k: int) -> int {
    if kind == TransformKind::Dst {
        DST4[i][k] as int
    } else if n == 4 {
        DCT4[i][k] as int
    } else if n == 8 {
        DCT8[i][k] as int
    } else if n == 16 {
        DCT16[i][k] as int
    } else {
        DCT32[i][k] as int
    }
}

/// `log2(n)` for a supported size.
pub open spec fn log2n(n: int) -> nat {
    if n == 4 {
        2
    } else if n == 8 {
        3
    } else if n == 16 {
        4
    } else {
        5
    }
}

/// `v / 2^s` rounded half up: `(v + 2^(s-1)) >> s`.
pub open spec fn round_shift(v: int, s: nat) -> int {
    (v + pow2((s - 1) as nat)) / (pow2(s) as int)
}

/// Sample `(r, c)` of a row-major `n`×`n` block.
pub open spec fn cell(x: Seq<i32>, n: int, r: int, c: int) -> i32 {
    x[r * n + c]
}

/// `Σ_{j<m} basis(i, j) · x[r][j]`: input row `r` against basis row `i`.
pub open spec fn fwd_row_sum(x: Seq<i32>, n: int, kind: TransformKind, i: int, r: int, m: int) -> int
    decreases m,
{
    if m <= 0 {
        0
    } else {
        fwd_row_sum(x, n, kind, i, r, m - 1) + basis(n, kind, i, m - 1) * cell(x, n, r, m - 1)
    }
}

/// First forward pass: coefficient `i` of input row `r`, shifted by
/// `log2(n) - 1`.
pub open spec fn fwd_first(x: Seq<i32>, n: int, kind: TransformKind, i: int, r: int) -> i32 {
    round_shift(fwd_row_sum(x, n, kind, i, r, n), (log2n(n) - 1) as nat) as i32
}

/// `Σ_{k<m} basis(i, k) · first(c, k)`: the second pass down column `c`.
pub open spec fn fwd_col_sum(x: Seq<i32>, n: int, kind: TransformKind, i: int, c: int, m: int) -> int
    decreases m,
{
    if m <= 0 {
        0
    } else {
        fwd_col_sum(x, n, kind, i, c, m - 1) + basis(n, kind, i, m - 1) * fwd_first(x, n, kind, c, m - 1)
    }
}

/// Forward coefficient `(i, c)`: `M · X · Mᵀ` with both passes' rounding
/// shifts (`log2(n) - 1`, then `log2(n) + 6`).
pub open spec fn fwd_coeff(x: Seq<i32>, n: int, kind: TransformKind, i: int, c: int) -> i32 {
    round_shift(fwd_col_sum(x, n, kind, i, c, n), log2n(n) + 6) as i32
}

/// `Σ_{k<m} basis(k, y) · coeff[k][c]`: column `c` against basis column `y`.
pub open spec fn inv_col_sum(x: Seq<i32>, n: int, kind: TransformKind, y: int, c: int, m: int) -> int
    decreases m,
{
    if m <= 0 {
        0
    } else {
        inv_col_sum(x, n, kind, y, c, m - 1) + basis(n, kind, m - 1, y) * cell(x, n, m - 1, c)
    }
}

/// First inverse pass (§8.6.4.2): sample `y` of column `c`, shifted by 7 and
/// clipped to 16 bits.
pub open spec fn inv_first(x: Seq<i32>, n: int, kind: TransformKind, y: int, c: int) -> i32 {
    clamp(round_shift(inv_col_sum(x, n, kind, y, c, n), 7), -32768, 32767) as i32
}

/// `Σ_{k<m} basis(k, col) · first(r, k)`: the second pass along row `r`.
pub open spec fn inv_row_sum(x: Seq<i32>, n: int, kind: TransformKind, r: int, col: int, m: int) -> int
    decreases m,
{
    if m <= 0 {
        0
    } else {
        inv_row_sum(x, n, kind, r, col, m - 1) + basis(n, kind, m - 1, col) * inv_first(x, n, kind, r, m - 1)
    }
}

/// Residual sample `(r, col)` of the inverse transform, shifted by
/// `20 - BitDepth = 12` for 8-bit samples.
pub open spec fn inv_sample(x: Seq<i32>, n: int, kind: TransformKind, r: int, col: int) -> i32 {
    round_shift(inv_row_sum(x, n, kind, r, col, n), 12) as i32
}

/// Every basis entry is at most 90 in magnitude.
proof fn lemma_basis_bound(n: int, kind: TransformKind, i: int, k: int)
    requires
        supported(n, kind),
        0 <= i < n,
        0 <= k < n,
    ensures
        -90 <= basis(n, kind, i, k) <= 90,
{
}

/// Cells of an `n`×`n` block sit inside it, at distinct positions.
proof fn lemma_cell_index(n: int, r: int, c: int, r2: int, c2: int)
    requires
        0 <= r < n,
        0 <= c < n,
        0 <= r2 < n,
        0 <= c2 < n,
    ensures
        0 <= r * n + c < n * n,
        (r != r2 || c != c2) ==> r * n + c != r2 * n + c2,
{
    assert(0 <= r * n + c < n * n) by (nonlinear_arith)
        requires
            0 <= r < n,
            0 <= c < n,
    ;
    if r != r2 {
        assert(r * n + c != r2 * n + c2) by (nonlinear_arith)
            requires
                0 <= r < n,
                0 <= c < n,
                0 <= r2 < n,
                0 <= c2 < n,
                r != r2,
        ;
    }
}

/// `x / 2^s` for the shifts the two transforms use, as an arithmetic right
/// shift.
fn shr_floor_i64(x: i64, s: u32) -> (r: i64)
    requires
        1 <= s <= 12,
    ensures
        r as int == x as int / (pow2(s as nat) as int),
{
    proof {
        lemma2_to64();
    }
    let r = x >> s;
    proof {
        if s == 1 {
            assert((x >> 1u32) as int == x as int / 2) by (bit_vector);
        } else if s == 2 {
            assert((x >> 2u32) as int == x as int / 4) by (bit_vector);
        } else if s == 3 {
            assert((x >> 3u32) as int == x as int / 8) by (bit_vector);
        } else if s == 4 {
            assert((x >> 4u32) as int == x as int / 16) by (bit_vector);
        } else if s == 5 {
            assert((x >> 5u32) as int == x as int / 32) by (bit_vector);
        } else if s == 6 {
            assert((x >> 6u32) as int == x as int / 64) by (bit_vector);
        } else if s == 7 {
            assert((x >> 7u32) as int == x as int / 128) by (bit_vector);
        } else if s == 8 {
            assert((x >> 8u32) as int == x as int / 256) by (bit_vector);
        } else if s == 9 {
            assert((x >> 9u32) as int == x as int / 512) by (bit_vector);
        } else if s == 10 {
            assert((x >> 10u32) as int == x as int / 1024) by (bit_vector);
        } else if s == 11 {
            assert((x >> 11u32) as int == x as int / 2048) by (bit_vector);
        } else {
            assert((x >> 12u32) as int == x as int / 4096) by (bit_vector);
        }
    }
    r
}

/// `(v + 2^(s-1)) >> s`.
fn round_shift_i64(v: i64, s: u32) -> (r: i64)
    requires
        1 <= s <= 12,
        -0x4000_0000_0000_0000 <= v <= 0x4000_0000_0000_0000,
    ensures
        r as int == round_shift(v as int, s as nat),
{
    proof {
        lemma2_to64();
        vstd::arithmetic::power2::lemma_pow2_strictly_increases((s - 1) as nat, 12);
    }
    let add: i64 = crate::num::pow2_i32(s - 1) as i64;
    shr_floor_i64(v + add, s)
}

/// `log2(n)` for a supported size.
fn log2(n: usize) -> (r: u32)
    requires
        n == 4 || n == 8 || n == 16 || n == 32,
    ensures
        r == log2n(n as int),
{
    if n == 4 {
        2
    } else if n == 8 {
        3
    } else if n == 16 {
        4
    } else {
        5
    }
}

/// Entry `(i, k)` of the basis matrix.
fn basis_entry(n: usize, kind: TransformKind, i: usize, k: usize) -> (v: i32)
    requires
        supported(n as int, kind),
        i < n,
        k < n,
    ensures
        v == basis(n as int, kind, i as int, k as int),
        -90 <= v <= 90,
{
    proof {
        lemma_basis_bound(n as int, kind, i as int, k as int);
    }
    match kind {
        TransformKind::Dst => DST4[i][k],
        TransformKind::Dct => {
            if n == 4 {
                DCT4[i][k]
            } else if n == 8 {
                DCT8[i][k]
            } else if n == 16 {
                DCT16[i][k]
            } else {
                DCT32[i][k]
            }
        },
    }
}

/// Bound on `|Σ_{j<m} b_j · v_j|` for basis entries `b_j` and `i32` values
/// `v_j`: `90 · 2^31 · m`.
pub open spec fn sum_bound(m: int) -> int {
    193273528320 * m
}

/// Input row `r` against basis row `i`.
fn fwd_row_dot(x: &[i32], n: usize, kind: TransformKind, i: usize, r: usize) -> (s: i64)
    requires
        supported(n as int, kind),
        i < n,
        r < n,
        x@.len() >= n * n,
    ensures
        s == fwd_row_sum(x@, n as int, kind, i as int, r as int, n as int),
        -sum_bound(n as int) <= s <= sum_bound(n as int),
{
    let mut s: i64 = 0;
    let mut j: usize = 0;
    while j < n
        invariant
            supported(n as int, kind),
            i < n,
            r < n,
            x@.len() >= n * n,
            j <= n,
            s == fwd_row_sum(x@, n as int, kind, i as int, r as int, j as int),
            -sum_bound(j as int) <= s <= sum_bound(j as int),
        decreases n - j,
    {
        proof {
            lemma_cell_index(n as int, r as int, j as int, 0, 0);
        }
        let b = basis_entry(n, kind, i, j) as i64;
        let v = x[r * n + j] as i64;
        assert(-193273528320 <= b * v <= 193273528320) by (nonlinear_arith)
            requires
                -90 <= b <= 90,
                -0x8000_0000 <= v < 0x8000_0000,
        ;
        assert(j < 32);
        s = s + b * v;
        j = j + 1;
    }
    s
}

/// The second forward pass down column `c`, reading the first pass's output
/// stored transposed in `tmp`.
fn fwd_col_dot(tmp: &Vec<i32>, Ghost(x): Ghost<Seq<i32>>, n: usize, kind: TransformKind, i: usize, c: usize) -> (s: i64)
    requires
        supported(n as int, kind),
        i < n,
        c < n,
        tmp@.len() == n * n,
        forall|c2: int, k: int|
            0 <= c2 < n && 0 <= k < n ==> #[trigger] cell(tmp@, n as int, c2, k) == fwd_first(x, n as int, kind, c2, k),
    ensures
        s == fwd_col_sum(x, n as int, kind, i as int, c as int, n as int),
        -sum_bound(n as int) <= s <= sum_bound(n as int),
{
    let mut s: i64 = 0;
    let mut k: usize = 0;
    while k < n
        invariant
            supported(n as int, kind),
            i < n,
            c < n,
            tmp@.len() == n * n,
            forall|c2: int, k2: int|
                0 <= c2 < n && 0 <= k2 < n ==> #[trigger] cell(tmp@, n as int, c2, k2) == fwd_first(x, n as int, kind, c2, k2),
            k <= n,
            s == fwd_col_sum(x, n as int, kind, i as int, c as int, k as int),
            -sum_bound(k as int) <= s <= sum_bound(k as int),
        decreases n - k,
    {
        proof {
            lemma_cell_index(n as int, c as int, k as int, 0, 0);
            assert(cell(tmp@, n as int, c as int, k as int) == fwd_first(x, n as int, kind, c as int, k as int));
        }
        let b = basis_entry(n, kind, i, k) as i64;
        let v = tmp[c * n + k] as i64;
        assert(-193273528320 <= b * v <= 193273528320) by (nonlinear_arith)
            requires
                -90 <= b <= 90,
                -0x8000_0000 <= v < 0x8000_0000,
        ;
        assert(k < 32);
        s = s + b * v;
        k = k + 1;
    }
    s
}

/// [`forward`] writing into a caller-supplied buffer: coefficient `(i, c)`
/// lands at `i * n + c`, and nothing past `n * n` is touched.
pub fn forward_into(residual: &[i32], out: &mut [i32], n: usize, kind: TransformKind)
    requires
        supported(n as int, kind),
        residual@.len() >= n * n,
        old(out)@.len() >= n * n,
    ensures
        final(out)@.len() == old(out)@.len(),
        forall|i: int, c: int|
            0 <= i < n && 0 <= c < n ==> #[trigger] cell(final(out)@, n as int, i, c) == fwd_coeff(
                residual@,
                n as int,
                kind,
                i,
                c,
            ),
        forall|p: int| n * n <= p < old(out)@.len() ==> final(out)@[p] == old(out)@[p],
{
    let ghost x = residual@;
    let shift1 = log2(n) - 1;
    let shift2 = log2(n) + 6;
    proof {
    }

    assert(n * n <= 1024) by (nonlinear_arith)
        requires
            n <= 32,
    ;
    // Stage 1: transform rows, storing the result transposed.
    let mut tmp: Vec<i32> = vec![0i32; n * n];
    let mut r: usize = 0;
    while r < n
        invariant
            supported(n as int, kind),
            residual@ == x,
            x.len() >= n * n,
            shift1 == log2n(n as int) - 1,
            r <= n,
            tmp@.len() == n * n,
            forall|i2: int, r2: int|
                0 <= i2 < n && 0 <= r2 < r ==> #[trigger] cell(tmp@, n as int, i2, r2) == fwd_first(x, n as int, kind, i2, r2),
        decreases n - r,
    {
        let mut i: usize = 0;
        while i < n
            invariant
                supported(n as int, kind),
                residual@ == x,
                x.len() >= n * n,
                shift1 == log2n(n as int) - 1,
                    r < n,
                i <= n,
                tmp@.len() == n * n,
                forall|i2: int, r2: int|
                    0 <= i2 < n && 0 <= r2 < r ==> #[trigger] cell(tmp@, n as int, i2, r2) == fwd_first(x, n as int, kind, i2, r2),
                forall|i2: int| 0 <= i2 < i ==> #[trigger] cell(tmp@, n as int, i2, r as int) == fwd_first(x, n as int, kind, i2, r as int),
            decreases n - i,
        {
            let acc = fwd_row_dot(residual, n, kind, i, r);
            let v = #[verifier::truncate] (round_shift_i64(acc, shift1) as i32);
            proof {
                lemma_cell_index(n as int, i as int, r as int, 0, 0);
            }
            let ghost before = tmp@;
            tmp.set(i * n + r, v);
            proof {
                assert forall|i2: int, r2: int|
                    0 <= i2 < n && 0 <= r2 < n && (i2 != i || r2 != r) implies #[trigger] cell(tmp@, n as int, i2, r2) == cell(before, n as int, i2, r2) by {
                    lemma_cell_index(n as int, i2, r2, i as int, r as int);
                }
            }
            i = i + 1;
        }
        r = r + 1;
    }

    // Stage 2: transform columns, which are now rows of `tmp`.
    let ghost o = out@;
    let mut c: usize = 0;
    while c < n
        invariant
            supported(n as int, kind),
            x.len() >= n * n,
            shift2 == log2n(n as int) + 6,
            c <= n,
            tmp@.len() == n * n,
            forall|i2: int, r2: int|
                0 <= i2 < n && 0 <= r2 < n ==> #[trigger] cell(tmp@, n as int, i2, r2) == fwd_first(x, n as int, kind, i2, r2),
            out@.len() == o.len(),
            o.len() >= n * n,
            forall|i2: int, c2: int|
                0 <= i2 < n && 0 <= c2 < c ==> #[trigger] cell(out@, n as int, i2, c2) == fwd_coeff(x, n as int, kind, i2, c2),
            forall|p: int| n * n <= p < o.len() ==> out@[p] == o[p],
        decreases n - c,
    {
        let mut i: usize = 0;
        while i < n
            invariant
                supported(n as int, kind),
                x.len() >= n * n,
                shift2 == log2n(n as int) + 6,
                    c < n,
                i <= n,
                tmp@.len() == n * n,
                forall|i2: int, r2: int|
                    0 <= i2 < n && 0 <= r2 < n ==> #[trigger] cell(tmp@, n as int, i2, r2) == fwd_first(x, n as int, kind, i2, r2),
                out@.len() == o.len(),
                o.len() >= n * n,
                forall|i2: int, c2: int|
                    0 <= i2 < n && 0 <= c2 < c ==> #[trigger] cell(out@, n as int, i2, c2) == fwd_coeff(x, n as int, kind, i2, c2),
                forall|i2: int| 0 <= i2 < i ==> #[trigger] cell(out@, n as int, i2, c as int) == fwd_coeff(x, n as int, kind, i2, c as int),
                forall|p: int| n * n <= p < o.len() ==> out@[p] == o[p],
            decreases n - i,
        {
            let acc = fwd_col_dot(&tmp, Ghost(x), n, kind, i, c);
            let v = #[verifier::truncate] (round_shift_i64(acc, shift2) as i32);
            proof {
                lemma_cell_index(n as int, i as int, c as int, 0, 0);
            }
            let ghost before = out@;
            out[i * n + c] = v;
            proof {
                assert forall|i2: int, c2: int|
                    0 <= i2 < n && 0 <= c2 < n && (i2 != i || c2 != c) implies #[trigger] cell(out@, n as int, i2, c2) == cell(before, n as int, i2, c2) by {
                    lemma_cell_index(n as int, i2, c2, i as int, c as int);
                }
            }
            i = i + 1;
        }
        c = c + 1;
    }
}

/// Forward 2D transform of an `n×n` residual block (row-major), producing
/// coefficients (row-major). `n` ∈ {4, 8, 16, 32}. Shifts assume 8-bit samples.
pub fn forward(residual: &[i32], n: usize, kind: TransformKind) -> (out: Vec<i32>)
    requires
        supported(n as int, kind),
        residual@.len() >= n * n,
    ensures
        out@.len() == n * n,
        forall|i: int, c: int|
            0 <= i < n && 0 <= c < n ==> #[trigger] cell(out@, n as int, i, c) == fwd_coeff(residual@, n as int, kind, i, c),
{
    assert(n * n <= 1024) by (nonlinear_arith)
        requires
            n <= 32,
    ;
    let mut out = vec![0i32; n * n];
    forward_into(residual, out.as_mut_slice(), n, kind);
    out
}

/// [`forward_into`] with a caller-owned buffer it resizes to `n * n`.
pub fn forward_buf(residual: &[i32], n: usize, kind: TransformKind, out: &mut Vec<i32>)
    requires
        supported(n as int, kind),
        residual@.len() >= n * n,
    ensures
        final(out)@.len() == n * n,
        forall|i: int, c: int|
            0 <= i < n && 0 <= c < n ==> #[trigger] cell(final(out)@, n as int, i, c) == fwd_coeff(
                residual@,
                n as int,
                kind,
                i,
                c,
            ),
{
    assert(n * n <= 1024) by (nonlinear_arith)
        requires
            n <= 32,
    ;
    out.clear();
    out.resize(n * n, 0);
    forward_into(residual, out.as_mut_slice(), n, kind);
}

/// `v` clipped to 16 bits.
fn clip16(v: i64) -> (r: i64)
    ensures
        r == clamp(v as int, -32768, 32767),
{
    if v < -32768 {
        -32768
    } else if v > 32767 {
        32767
    } else {
        v
    }
}

/// Column `c` of the coefficients against basis column `y`.
fn inv_col_dot(x: &[i32], n: usize, kind: TransformKind, y: usize, c: usize) -> (s: i64)
    requires
        supported(n as int, kind),
        y < n,
        c < n,
        x@.len() >= n * n,
    ensures
        s == inv_col_sum(x@, n as int, kind, y as int, c as int, n as int),
        -sum_bound(n as int) <= s <= sum_bound(n as int),
{
    let mut s: i64 = 0;
    let mut k: usize = 0;
    while k < n
        invariant
            supported(n as int, kind),
            y < n,
            c < n,
            x@.len() >= n * n,
            k <= n,
            s == inv_col_sum(x@, n as int, kind, y as int, c as int, k as int),
            -sum_bound(k as int) <= s <= sum_bound(k as int),
        decreases n - k,
    {
        proof {
            lemma_cell_index(n as int, k as int, c as int, 0, 0);
        }
        let b = basis_entry(n, kind, k, y) as i64;
        let v = x[k * n + c] as i64;
        assert(-193273528320 <= b * v <= 193273528320) by (nonlinear_arith)
            requires
                -90 <= b <= 90,
                -0x8000_0000 <= v < 0x8000_0000,
        ;
        assert(k < 32);
        s = s + b * v;
        k = k + 1;
    }
    s
}

/// The second inverse pass along row `r`, reading the first pass's output.
fn inv_row_dot(tmp: &Vec<i32>, Ghost(x): Ghost<Seq<i32>>, n: usize, kind: TransformKind, r: usize, col: usize) -> (s: i64)
    requires
        supported(n as int, kind),
        r < n,
        col < n,
        tmp@.len() == n * n,
        forall|r2: int, k: int|
            0 <= r2 < n && 0 <= k < n ==> #[trigger] cell(tmp@, n as int, r2, k) == inv_first(x, n as int, kind, r2, k),
    ensures
        s == inv_row_sum(x, n as int, kind, r as int, col as int, n as int),
        -sum_bound(n as int) <= s <= sum_bound(n as int),
{
    let mut s: i64 = 0;
    let mut k: usize = 0;
    while k < n
        invariant
            supported(n as int, kind),
            r < n,
            col < n,
            tmp@.len() == n * n,
            forall|r2: int, k2: int|
                0 <= r2 < n && 0 <= k2 < n ==> #[trigger] cell(tmp@, n as int, r2, k2) == inv_first(x, n as int, kind, r2, k2),
            k <= n,
            s == inv_row_sum(x, n as int, kind, r as int, col as int, k as int),
            -sum_bound(k as int) <= s <= sum_bound(k as int),
        decreases n - k,
    {
        proof {
            lemma_cell_index(n as int, r as int, k as int, 0, 0);
            assert(cell(tmp@, n as int, r as int, k as int) == inv_first(x, n as int, kind, r as int, k as int));
        }
        let b = basis_entry(n, kind, k, col) as i64;
        let v = tmp[r * n + k] as i64;
        assert(-193273528320 <= b * v <= 193273528320) by (nonlinear_arith)
            requires
                -90 <= b <= 90,
                -0x8000_0000 <= v < 0x8000_0000,
        ;
        assert(k < 32);
        s = s + b * v;
        k = k + 1;
    }
    s
}

/// [`inverse`] writing into a caller-supplied buffer: residual sample
/// `(r, x)` lands at `r * n + x`, and nothing past `n * n` is touched.
pub fn inverse_into(coeff: &[i32], out: &mut [i32], n: usize, kind: TransformKind)
    requires
        supported(n as int, kind),
        coeff@.len() >= n * n,
        old(out)@.len() >= n * n,
    ensures
        final(out)@.len() == old(out)@.len(),
        forall|r: int, c: int|
            0 <= r < n && 0 <= c < n ==> #[trigger] cell(final(out)@, n as int, r, c) == inv_sample(
                coeff@,
                n as int,
                kind,
                r,
                c,
            ),
        forall|p: int| n * n <= p < old(out)@.len() ==> final(out)@[p] == old(out)@[p],
{
    let ghost x = coeff@;
    assert(n * n <= 1024) by (nonlinear_arith)
        requires
            n <= 32,
    ;
    // Stage 1: inverse-transform columns, clipped to 16 bits, stored
    // transposed so stage 2 reads forwards.
    let mut tmp: Vec<i32> = vec![0i32; n * n];
    let mut c: usize = 0;
    while c < n
        invariant
            supported(n as int, kind),
            coeff@ == x,
            x.len() >= n * n,
            c <= n,
            tmp@.len() == n * n,
            forall|y2: int, c2: int|
                0 <= y2 < n && 0 <= c2 < c ==> #[trigger] cell(tmp@, n as int, y2, c2) == inv_first(x, n as int, kind, y2, c2),
        decreases n - c,
    {
        let mut y: usize = 0;
        while y < n
            invariant
                supported(n as int, kind),
                coeff@ == x,
                x.len() >= n * n,
                c < n,
                y <= n,
                tmp@.len() == n * n,
                forall|y2: int, c2: int|
                    0 <= y2 < n && 0 <= c2 < c ==> #[trigger] cell(tmp@, n as int, y2, c2) == inv_first(x, n as int, kind, y2, c2),
                forall|y2: int| 0 <= y2 < y ==> #[trigger] cell(tmp@, n as int, y2, c as int) == inv_first(x, n as int, kind, y2, c as int),
            decreases n - y,
        {
            let s = inv_col_dot(coeff, n, kind, y, c);
            let v = clip16(round_shift_i64(s, 7)) as i32;
            proof {
                lemma_cell_index(n as int, y as int, c as int, 0, 0);
            }
            let ghost before = tmp@;
            tmp.set(y * n + c, v);
            proof {
                assert forall|y2: int, c2: int|
                    0 <= y2 < n && 0 <= c2 < n && (y2 != y || c2 != c) implies #[trigger] cell(tmp@, n as int, y2, c2) == cell(before, n as int, y2, c2) by {
                    lemma_cell_index(n as int, y2, c2, y as int, c as int);
                }
            }
            y = y + 1;
        }
        c = c + 1;
    }

    // Stage 2: inverse-transform rows.
    let ghost o = out@;
    let mut r: usize = 0;
    while r < n
        invariant
            supported(n as int, kind),
            x.len() >= n * n,
            r <= n,
            tmp@.len() == n * n,
            forall|r2: int, k2: int|
                0 <= r2 < n && 0 <= k2 < n ==> #[trigger] cell(tmp@, n as int, r2, k2) == inv_first(x, n as int, kind, r2, k2),
            out@.len() == o.len(),
            o.len() >= n * n,
            forall|r2: int, c2: int|
                0 <= r2 < r && 0 <= c2 < n ==> #[trigger] cell(out@, n as int, r2, c2) == inv_sample(x, n as int, kind, r2, c2),
            forall|p: int| n * n <= p < o.len() ==> out@[p] == o[p],
        decreases n - r,
    {
        let mut col: usize = 0;
        while col < n
            invariant
                supported(n as int, kind),
                x.len() >= n * n,
                r < n,
                col <= n,
                tmp@.len() == n * n,
                forall|r2: int, k2: int|
                    0 <= r2 < n && 0 <= k2 < n ==> #[trigger] cell(tmp@, n as int, r2, k2) == inv_first(x, n as int, kind, r2, k2),
                out@.len() == o.len(),
                o.len() >= n * n,
                forall|r2: int, c2: int|
                    0 <= r2 < r && 0 <= c2 < n ==> #[trigger] cell(out@, n as int, r2, c2) == inv_sample(x, n as int, kind, r2, c2),
                forall|c2: int| 0 <= c2 < col ==> #[trigger] cell(out@, n as int, r as int, c2) == inv_sample(x, n as int, kind, r as int, c2),
                forall|p: int| n * n <= p < o.len() ==> out@[p] == o[p],
            decreases n - col,
        {
            let s = inv_row_dot(&tmp, Ghost(x), n, kind, r, col);
            let v = #[verifier::truncate] (round_shift_i64(s, 12) as i32);
            proof {
                lemma_cell_index(n as int, r as int, col as int, 0, 0);
            }
            let ghost before = out@;
            out[r * n + col] = v;
            proof {
                assert forall|r2: int, c2: int|
                    0 <= r2 < n && 0 <= c2 < n && (r2 != r || c2 != col) implies #[trigger] cell(out@, n as int, r2, c2) == cell(before, n as int, r2, c2) by {
                    lemma_cell_index(n as int, r2, c2, r as int, col as int);
                }
            }
            col = col + 1;
        }
        r = r + 1;
    }
}

/// Inverse 2D transform of an `n×n` coefficient block (row-major) back to a
/// residual (row-major). Bit-exact to H.265 §8.6.4.2 for 8-bit samples
/// (`bdShift = 20 − BitDepth = 12`).
pub fn inverse(coeff: &[i32], n: usize, kind: TransformKind) -> (out: Vec<i32>)
    requires
        supported(n as int, kind),
        coeff@.len() >= n * n,
    ensures
        out@.len() == n * n,
        forall|r: int, c: int|
            0 <= r < n && 0 <= c < n ==> #[trigger] cell(out@, n as int, r, c) == inv_sample(coeff@, n as int, kind, r, c),
{
    assert(n * n <= 1024) by (nonlinear_arith)
        requires
            n <= 32,
    ;
    let mut out = vec![0i32; n * n];
    inverse_into(coeff, out.as_mut_slice(), n, kind);
    out
}

/// [`inverse_into`] with a caller-owned buffer it resizes to `n * n`.
pub fn inverse_buf(coeff: &[i32], n: usize, kind: TransformKind, out: &mut Vec<i32>)
    requires
        supported(n as int, kind),
        coeff@.len() >= n * n,
    ensures
        final(out)@.len() == n * n,
        forall|r: int, c: int|
            0 <= r < n && 0 <= c < n ==> #[trigger] cell(final(out)@, n as int, r, c) == inv_sample(
                coeff@,
                n as int,
                kind,
                r,
                c,
            ),
{
    assert(n * n <= 1024) by (nonlinear_arith)
        requires
            n <= 32,
    ;
    out.clear();
    out.resize(n * n, 0);
    inverse_into(coeff, out.as_mut_slice(), n, kind);
}

// ---------------------------------------------------------------- laws

/// `Σ_{j<m} basis(i, j)`: the sum of the first `m` entries of basis row `i`.
pub open spec fn basis_row_sum(n: int, kind: TransformKind, i: int, m: int) -> int
    decreases m,
{
    if m <= 0 {
        0
    } else {
        basis_row_sum(n, kind, i, m - 1) + basis(n, kind, i, m - 1)
    }
}

/// `v·a + b·v = v·(a + b)`.
proof fn lemma_distribute(v: int, a: int, b: int)
    ensures
        v * a + b * v == v * (a + b),
{
    assert(v * a + b * v == v * (a + b)) by (nonlinear_arith);
}

/// Dividing by a positive number keeps a value within its bound.
proof fn lemma_div_within(a: int, d: int, k: int)
    requires
        d >= 1,
        -k <= a <= k,
    ensures
        -k <= a / d <= k,
{
    assert(-k <= a / d <= k) by (nonlinear_arith)
        requires
            d >= 1,
            -k <= a <= k,
    ;
}

/// Every row of the DCT basis but the first sums to zero; the first is all
/// 64s.
proof fn lemma_dct_row_sums(n: int, i: int)
    requires
        n == 4 || n == 8 || n == 16 || n == 32,
        0 <= i < n,
    ensures
        basis_row_sum(n, TransformKind::Dct, i, n) == if i == 0 {
            64 * n
        } else {
            0
        },
{
    reveal_with_fuel(basis_row_sum, 33);
    if n == 4 {
        assert(0 <= i < 4);
    } else if n == 8 {
        assert(0 <= i < 8);
    } else if n == 16 {
        assert(0 <= i < 16);
    } else {
        assert(0 <= i < 32);
    }
}

/// A row sum against a constant row is the constant times the basis sum.
proof fn lemma_flat_row_sum(x: Seq<i32>, n: int, kind: TransformKind, i: int, r: int, m: int, v: int)
    requires
        0 <= m <= n,
        0 <= r < n,
        x.len() >= n * n,
        forall|k: int| 0 <= k < n * n ==> x[k] == v,
    ensures
        fwd_row_sum(x, n, kind, i, r, m) == v * basis_row_sum(n, kind, i, m),
    decreases m,
{
    if m > 0 {
        lemma_flat_row_sum(x, n, kind, i, r, m - 1, v);
        assert(0 <= r * n + m - 1 < n * n) by (nonlinear_arith)
            requires
                0 <= r < n,
                1 <= m <= n,
        ;
        assert(cell(x, n, r, m - 1) == v);
        lemma_distribute(v, basis_row_sum(n, kind, i, m - 1), basis(n, kind, i, m - 1));
    }
}

/// The column sum of the second pass against first-pass outputs that are
/// zero except at `c == 0`, where they are a constant `w`.
proof fn lemma_flat_col_sum(x: Seq<i32>, n: int, kind: TransformKind, i: int, c: int, m: int, w: int)
    requires
        0 <= m <= n,
        forall|k: int| 0 <= k < n ==> #[trigger] fwd_first(x, n, kind, c, k) == w,
    ensures
        fwd_col_sum(x, n, kind, i, c, m) == w * basis_row_sum(n, kind, i, m),
    decreases m,
{
    if m > 0 {
        lemma_flat_col_sum(x, n, kind, i, c, m - 1, w);
        assert(fwd_first(x, n, kind, c, m - 1) == w);
        lemma_distribute(w, basis_row_sum(n, kind, i, m - 1), basis(n, kind, i, m - 1));
    }
}

/// A constant residual transforms to a single DC coefficient: every other
/// coefficient of the forward DCT of a flat block is zero.
pub proof fn lemma_flat_block_is_dc_only(x: Seq<i32>, n: int, v: int, i: int, c: int)
    requires
        n == 4 || n == 8 || n == 16 || n == 32,
        x.len() >= n * n,
        forall|k: int| 0 <= k < n * n ==> x[k] == v,
        -255 <= v <= 255,
        0 <= i < n,
        0 <= c < n,
        i != 0 || c != 0,
    ensures
        fwd_coeff(x, n, TransformKind::Dct, i, c) == 0,
{
    let kind = TransformKind::Dct;
    let s1 = (log2n(n) - 1) as nat;
    lemma2_to64();
    vstd::arithmetic::power2::lemma_pow2_strictly_increases((s1 - 1) as nat, s1);
    vstd::arithmetic::power2::lemma_pow2_strictly_increases((log2n(n) + 5) as nat, log2n(n) + 6);
    lemma_pow2_pos((s1 - 1) as nat);
    lemma_pow2_pos((log2n(n) + 5) as nat);
    // First pass: only coefficient 0 of each row survives, and it is the
    // same for every row.
    lemma_dct_row_sums(n, c);
    assert forall|k: int| 0 <= k < n implies #[trigger] fwd_first(x, n, kind, c, k) == if c == 0 {
        round_shift(v * 64 * n, s1)
    } else {
        0
    } by {
        lemma_flat_row_sum(x, n, kind, c, k, n, v);
        if c == 0 {
            assert(v * (64 * n) == v * 64 * n) by (nonlinear_arith);
            assert(-600000 <= v * 64 * n <= 600000) by (nonlinear_arith)
                requires
                    -255 <= v <= 255,
                    4 <= n <= 32,
            ;
            lemma_div_within(v * 64 * n + pow2((s1 - 1) as nat), pow2(s1) as int, 700000);
        } else {
            assert(v * 0 == 0);
            assert(round_shift(0, s1) == 0);
        }
    }
    let w = if c == 0 {
        round_shift(v * 64 * n, s1)
    } else {
        0
    };
    lemma_flat_col_sum(x, n, kind, i, c, n, w);
    lemma_dct_row_sums(n, i);
    assert(w * basis_row_sum(n, kind, i, n) == 0) by (nonlinear_arith)
        requires
            w == 0 || basis_row_sum(n, kind, i, n) == 0,
    ;
    assert(round_shift(0, log2n(n) + 6) == 0);
}

} // verus!
