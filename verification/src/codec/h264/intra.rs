//! H.264 intra prediction (ISO/IEC 14496-10 §8.3).
//!
//! Luma is predicted per 4×4 block from nine directional modes, or a whole
//! 16×16 macroblock from four; chroma a whole 8×8 block from four. A mode whose
//! reference samples do not exist may not be signalled, so the `allowed`
//! predicates gate the encoder's search; the predictors fall back to DC rather
//! than read absent samples.

use crate::num::{clamp, clip_u8, lemma_half, shr_floor};
use vstd::arithmetic::power2::{lemma2_to64, pow2};
use vstd::prelude::*;

verus! {

/// Reference samples around a 4×4 luma block: `p[0..7, −1]` (the row above
/// plus four above-right), `p[−1, 0..3]` and the corner `p[−1, −1]`.
#[derive(Clone, Copy, Debug, Default)]
pub struct Neighbors4 {
    pub above: Option<[i32; 8]>,
    pub left: Option<[i32; 4]>,
    pub corner: Option<i32>,
}

pub const VERT: u8 = 0;
pub const HORIZ: u8 = 1;
pub const DC: u8 = 2;
pub const DIAG_DOWN_LEFT: u8 = 3;
pub const DIAG_DOWN_RIGHT: u8 = 4;
pub const VERT_RIGHT: u8 = 5;
pub const HORIZ_DOWN: u8 = 6;
pub const VERT_LEFT: u8 = 7;
pub const HORIZ_UP: u8 = 8;

/// The range reference samples are taken from. Every sample the encoder
/// predicts from is an 8-bit reconstruction (`0..=255`, see
/// [`lemma_predict16_8bit`] and the 8-bit neighbourhood lemmas of the
/// compressor); the bound leaves that domain wide headroom while keeping
/// every sum of the 16×16 and plane predictions, which weight up to 64
/// samples, inside `i32`. The same bound serves all three predictors.
pub const SAMPLE_BOUND: i32 = 0x10_0000;

/// Every sample of `s` lies within [`SAMPLE_BOUND`].
pub open spec fn samples_ok(s: Seq<i32>) -> bool {
    forall|k: int| 0 <= k < s.len() ==> -SAMPLE_BOUND <= #[trigger] s[k] <= SAMPLE_BOUND
}

/// An optional sample lies within [`SAMPLE_BOUND`].
pub open spec fn sample_ok(c: Option<i32>) -> bool {
    c matches Some(v) ==> -SAMPLE_BOUND <= v <= SAMPLE_BOUND
}

/// All reference samples of a 4×4 neighbourhood are in range.
pub open spec fn neighbors4_ok(n: Neighbors4) -> bool {
    &&& (n.above matches Some(a) ==> samples_ok(a@))
    &&& (n.left matches Some(l) ==> samples_ok(l@))
    &&& sample_ok(n.corner)
}

impl Neighbors4 {
    /// Build from the four above samples, the optional four above-right, the
    /// four left samples and the corner. Missing above-right samples are
    /// substituted by `p[3, −1]` (§8.3.1.2.1).
    pub fn new(
        above: Option<[i32; 4]>,
        above_right: Option<[i32; 4]>,
        left: Option<[i32; 4]>,
        corner: Option<i32>,
    ) -> (n: Neighbors4)
        ensures
            n.left == left,
            n.corner == corner,
            above is None ==> n.above is None,
            above matches Some(a) ==> n.above matches Some(a8) && (forall|i: int|
                0 <= i < 4 ==> a8[i] == #[trigger] a[i]) && (forall|i: int|
                4 <= i < 8 ==> a8[i] == (match above_right {
                    Some(ar) => ar[i - 4],
                    None => a[3],
                })),
    {
        let above8 = match above {
            Some(a) => {
                let ar = match above_right {
                    Some(r) => r,
                    None => [a[3]; 4],
                };
                Some([a[0], a[1], a[2], a[3], ar[0], ar[1], ar[2], ar[3]])
            },
            None => None,
        };
        Neighbors4 { above: above8, left, corner }
    }
}

/// Whether a 4×4 mode may be signalled given what is available.
pub open spec fn spec_allowed(mode: u8, n: Neighbors4) -> bool {
    let a = n.above is Some;
    let l = n.left is Some;
    let c = n.corner is Some;
    if mode == DC {
        true
    } else if mode == VERT || mode == DIAG_DOWN_LEFT || mode == VERT_LEFT {
        a
    } else if mode == HORIZ || mode == HORIZ_UP {
        l
    } else if mode == DIAG_DOWN_RIGHT || mode == VERT_RIGHT || mode == HORIZ_DOWN {
        a && l && c
    } else {
        false
    }
}

/// Whether `mode` may be signalled given what is available. DC always may be.
pub fn allowed(mode: u8, n: &Neighbors4) -> (b: bool)
    ensures
        b == spec_allowed(mode, *n),
{
    let (a, l, c) = (n.above.is_some(), n.left.is_some(), n.corner.is_some());
    if mode == DC {
        true
    } else if mode == VERT || mode == DIAG_DOWN_LEFT || mode == VERT_LEFT {
        a
    } else if mode == HORIZ || mode == HORIZ_UP {
        l
    } else if mode == DIAG_DOWN_RIGHT || mode == VERT_RIGHT || mode == HORIZ_DOWN {
        a && l && c
    } else {
        false
    }
}

/// Sum of the first `k` entries.
pub open spec fn sum_prefix(s: Seq<i32>, k: int) -> int
    decreases k,
{
    if k <= 0 {
        0
    } else {
        sum_prefix(s, k - 1) + s[k - 1]
    }
}

/// DC prediction of a 4×4 block (§8.3.1.2.3): the mean of whatever is
/// available, 128 if nothing.
pub open spec fn spec_dc4(n: Neighbors4) -> int {
    match (n.above, n.left) {
        (Some(a), Some(l)) => (sum_prefix(a@, 4) + sum_prefix(l@, 4) + 4) / 8,
        (Some(a), None) => (sum_prefix(a@, 4) + 2) / 4,
        (None, Some(l)) => (sum_prefix(l@, 4) + 2) / 4,
        (None, None) => 128,
    }
}

/// Above sample `i`, or the corner for `i < 0`.
pub open spec fn at4(n: Neighbors4, i: int) -> int {
    if i < 0 {
        n.corner.unwrap_or(0) as int
    } else {
        match n.above {
            Some(a) => a[i] as int,
            None => 0,
        }
    }
}

/// Left sample `i`, or the corner for `i < 0`.
pub open spec fn lt4(n: Neighbors4, i: int) -> int {
    if i < 0 {
        n.corner.unwrap_or(0) as int
    } else {
        match n.left {
            Some(l) => l[i] as int,
            None => 0,
        }
    }
}

/// The sample at `(x, y)` of an allowed directional mode (§8.3.1.2.x).
pub open spec fn spec_pred4_at(mode: u8, n: Neighbors4, x: int, y: int) -> int {
    let c = n.corner.unwrap_or(0) as int;
    if mode == VERT {
        at4(n, x)
    } else if mode == HORIZ {
        lt4(n, y)
    } else if mode == DIAG_DOWN_LEFT {
        if x == 3 && y == 3 {
            (at4(n, 6) + 3 * at4(n, 7) + 2) / 4
        } else {
            (at4(n, x + y) + 2 * at4(n, x + y + 1) + at4(n, x + y + 2) + 2) / 4
        }
    } else if mode == DIAG_DOWN_RIGHT {
        if x > y {
            (at4(n, x - y - 2) + 2 * at4(n, x - y - 1) + at4(n, x - y) + 2) / 4
        } else if x < y {
            (lt4(n, y - x - 2) + 2 * lt4(n, y - x - 1) + lt4(n, y - x) + 2) / 4
        } else {
            (at4(n, 0) + 2 * c + lt4(n, 0) + 2) / 4
        }
    } else if mode == VERT_RIGHT {
        let z = 2 * x - y;
        let k = x - y / 2;
        if z >= 0 && z % 2 == 0 {
            (at4(n, k - 1) + at4(n, k) + 1) / 2
        } else if z >= 0 {
            (at4(n, k - 2) + 2 * at4(n, k - 1) + at4(n, k) + 2) / 4
        } else if z == -1 {
            (lt4(n, 0) + 2 * c + at4(n, 0) + 2) / 4
        } else {
            (lt4(n, y - 1) + 2 * lt4(n, y - 2) + lt4(n, y - 3) + 2) / 4
        }
    } else if mode == HORIZ_DOWN {
        let z = 2 * y - x;
        let k = y - x / 2;
        if z >= 0 && z % 2 == 0 {
            (lt4(n, k - 1) + lt4(n, k) + 1) / 2
        } else if z >= 0 {
            (lt4(n, k - 2) + 2 * lt4(n, k - 1) + lt4(n, k) + 2) / 4
        } else if z == -1 {
            (lt4(n, 0) + 2 * c + at4(n, 0) + 2) / 4
        } else {
            (at4(n, x - 1) + 2 * at4(n, x - 2) + at4(n, x - 3) + 2) / 4
        }
    } else if mode == VERT_LEFT {
        let k = x + y / 2;
        if y % 2 == 0 {
            (at4(n, k) + at4(n, k + 1) + 1) / 2
        } else {
            (at4(n, k) + 2 * at4(n, k + 1) + at4(n, k + 2) + 2) / 4
        }
    } else {
        // HORIZ_UP
        let z = x + 2 * y;
        let k = y + x / 2;
        if z < 5 && z % 2 == 0 {
            (lt4(n, k) + lt4(n, k + 1) + 1) / 2
        } else if z < 5 {
            (lt4(n, k) + 2 * lt4(n, k + 1) + lt4(n, k + 2) + 2) / 4
        } else if z == 5 {
            (lt4(n, 2) + 3 * lt4(n, 3) + 2) / 4
        } else {
            lt4(n, 3)
        }
    }
}

/// The predicted 4×4 block, row-major: DC wherever `mode` is DC or not
/// allowed.
pub open spec fn spec_predict4(mode: u8, n: Neighbors4) -> Seq<int> {
    Seq::new(
        16,
        |k: int|
            if !spec_allowed(mode, n) || mode == DC {
                spec_dc4(n)
            } else {
                spec_pred4_at(mode, n, k % 4, k / 4)
            },
    )
}

/// Every reference sample present in `n` equals `v`, and at least one edge
/// is present.
pub open spec fn flat4(n: Neighbors4, v: int) -> bool {
    &&& (n.above matches Some(a) ==> forall|i: int| 0 <= i < 8 ==> a[i] == v)
    &&& (n.left matches Some(l) ==> forall|i: int| 0 <= i < 4 ==> l[i] == v)
    &&& (n.corner matches Some(c) ==> c == v)
    &&& (n.above is Some || n.left is Some)
}

/// Intra_4x4_Vertical_Left (§8.3.1.2.8), read off the above and above-right
/// samples `a`: an even row `y` averages `a[x + y/2]` and the sample right
/// of it, rounding up; an odd row takes the three-tap `[1 2 1]` filter
/// centred one further right. So row 0 is `(a[x] + a[x+1] + 1) >> 1`, and
/// every row two further down is the same pattern one sample to the right.
pub proof fn lemma_vertical_left_reads_above(n: Neighbors4)
    requires
        n.above is Some,
    ensures
        forall|x: int, y: int|
            0 <= x < 4 && 0 <= y < 4 && y % 2 == 0 ==> #[trigger] spec_predict4(VERT_LEFT, n)[4 * y + x] == (
            n.above.unwrap()[x + y / 2] as int + n.above.unwrap()[x + y / 2 + 1] as int + 1) / 2,
        forall|x: int, y: int|
            0 <= x < 4 && 0 <= y < 4 && y % 2 == 1 ==> #[trigger] spec_predict4(VERT_LEFT, n)[4 * y + x] == (
            n.above.unwrap()[x + y / 2] as int + 2 * n.above.unwrap()[x + y / 2 + 1] as int + n.above.unwrap()[x
                + y / 2 + 2] as int + 2) / 4,
{
    assert forall|x: int, y: int| 0 <= x < 4 && 0 <= y < 4 implies #[trigger] spec_predict4(VERT_LEFT, n)[4 * y
        + x] == spec_pred4_at(VERT_LEFT, n, x, y) by {
        assert((4 * y + x) % 4 == x && (4 * y + x) / 4 == y);
    }
}

/// Intra_4x4_Diagonal_Down_Left (§8.3.1.2.4): the `[1 2 1]` filter of the
/// above and above-right samples along each down-left diagonal `x + y`,
/// with the last sample `(a[6] + 3·a[7] + 2) >> 2`.
pub proof fn lemma_diagonal_down_left_reads_above(n: Neighbors4)
    requires
        n.above is Some,
    ensures
        forall|x: int, y: int|
            0 <= x < 4 && 0 <= y < 4 && !(x == 3 && y == 3) ==> #[trigger] spec_predict4(DIAG_DOWN_LEFT, n)[4 * y
                + x] == (n.above.unwrap()[x + y] as int + 2 * n.above.unwrap()[x + y + 1] as int
                + n.above.unwrap()[x + y + 2] as int + 2) / 4,
        spec_predict4(DIAG_DOWN_LEFT, n)[15] == (n.above.unwrap()[6] as int + 3 * n.above.unwrap()[7] as int + 2)
            / 4,
{
    assert forall|x: int, y: int| 0 <= x < 4 && 0 <= y < 4 implies #[trigger] spec_predict4(DIAG_DOWN_LEFT, n)[4
        * y + x] == spec_pred4_at(DIAG_DOWN_LEFT, n, x, y) by {
        assert((4 * y + x) % 4 == x && (4 * y + x) / 4 == y);
    }
    assert(spec_predict4(DIAG_DOWN_LEFT, n)[15int] == spec_pred4_at(DIAG_DOWN_LEFT, n, 3, 3));
}

/// Intra_4x4_Vertical and Intra_4x4_Horizontal copy the sample above each
/// column, or left of each row.
pub proof fn lemma_vertical_and_horizontal_copy(n: Neighbors4)
    ensures
        n.above is Some ==> forall|x: int, y: int|
            0 <= x < 4 && 0 <= y < 4 ==> #[trigger] spec_predict4(VERT, n)[4 * y + x] == n.above.unwrap()[x],
        n.left is Some ==> forall|x: int, y: int|
            0 <= x < 4 && 0 <= y < 4 ==> #[trigger] spec_predict4(HORIZ, n)[4 * y + x] == n.left.unwrap()[y],
{
    assert forall|x: int, y: int| 0 <= x < 4 && 0 <= y < 4 implies (#[trigger] spec_predict4(VERT, n)[4 * y + x]
        == spec_pred4_at(VERT, n, x, y) || n.above is None) && (spec_predict4(HORIZ, n)[4 * y + x] == spec_pred4_at(
        HORIZ,
        n,
        x,
        y,
    ) || n.left is None) by {
        assert((4 * y + x) % 4 == x && (4 * y + x) / 4 == y);
    }
}

/// The reference sample `p[x, y]` of §8.3.1.2 around a 4×4 block: the row
/// above (`y = −1`, `x = 0..7`), the column left (`x = −1`, `y = 0..3`) and
/// the corner `p[−1, −1]`.
pub open spec fn ref_sample(n: Neighbors4, x: int, y: int) -> int {
    if x == -1 && y == -1 {
        n.corner.unwrap() as int
    } else if y == -1 {
        n.above.unwrap()[x] as int
    } else {
        n.left.unwrap()[y] as int
    }
}

/// Intra_4x4_Diagonal_Down_Right (§8.3.1.2.5) in the standard's terms.
pub proof fn lemma_diagonal_down_right_reads_edges(n: Neighbors4)
    requires
        n.above is Some && n.left is Some && n.corner is Some,
    ensures
        forall|x: int, y: int|
            0 <= x < 4 && 0 <= y < 4 ==> #[trigger] spec_predict4(DIAG_DOWN_RIGHT, n)[4 * y + x] == if x > y {
                (ref_sample(n, x - y - 2, -1) + 2 * ref_sample(n, x - y - 1, -1) + ref_sample(n, x - y, -1) + 2) / 4
            } else if x < y {
                (ref_sample(n, -1, y - x - 2) + 2 * ref_sample(n, -1, y - x - 1) + ref_sample(n, -1, y - x) + 2) / 4
            } else {
                (ref_sample(n, 0, -1) + 2 * ref_sample(n, -1, -1) + ref_sample(n, -1, 0) + 2) / 4
            },
{
    assert forall|x: int, y: int| 0 <= x < 4 && 0 <= y < 4 implies #[trigger] spec_predict4(DIAG_DOWN_RIGHT, n)[4
        * y + x] == spec_pred4_at(DIAG_DOWN_RIGHT, n, x, y) by {
        assert((4 * y + x) % 4 == x && (4 * y + x) / 4 == y);
    }
}

/// Intra_4x4_Vertical_Right (§8.3.1.2.6) in the standard's terms, with
/// `zVR = 2x − y`.
pub proof fn lemma_vertical_right_reads_edges(n: Neighbors4)
    requires
        n.above is Some && n.left is Some && n.corner is Some,
    ensures
        forall|x: int, y: int|
            0 <= x < 4 && 0 <= y < 4 ==> #[trigger] spec_predict4(VERT_RIGHT, n)[4 * y + x] == if 2 * x - y >= 0
                && (2 * x - y) % 2 == 0 {
                (ref_sample(n, x - y / 2 - 1, -1) + ref_sample(n, x - y / 2, -1) + 1) / 2
            } else if 2 * x - y >= 0 {
                (ref_sample(n, x - y / 2 - 2, -1) + 2 * ref_sample(n, x - y / 2 - 1, -1) + ref_sample(n, x - y / 2, -1)
                    + 2) / 4
            } else if 2 * x - y == -1 {
                (ref_sample(n, -1, 0) + 2 * ref_sample(n, -1, -1) + ref_sample(n, 0, -1) + 2) / 4
            } else {
                (ref_sample(n, -1, y - 1) + 2 * ref_sample(n, -1, y - 2) + ref_sample(n, -1, y - 3) + 2) / 4
            },
{
    assert forall|x: int, y: int| 0 <= x < 4 && 0 <= y < 4 implies #[trigger] spec_predict4(VERT_RIGHT, n)[4 * y
        + x] == spec_pred4_at(VERT_RIGHT, n, x, y) by {
        assert((4 * y + x) % 4 == x && (4 * y + x) / 4 == y);
    }
}

/// Intra_4x4_Horizontal_Down (§8.3.1.2.7) in the standard's terms, with
/// `zHD = 2y − x`.
pub proof fn lemma_horizontal_down_reads_edges(n: Neighbors4)
    requires
        n.above is Some && n.left is Some && n.corner is Some,
    ensures
        forall|x: int, y: int|
            0 <= x < 4 && 0 <= y < 4 ==> #[trigger] spec_predict4(HORIZ_DOWN, n)[4 * y + x] == if 2 * y - x >= 0
                && (2 * y - x) % 2 == 0 {
                (ref_sample(n, -1, y - x / 2 - 1) + ref_sample(n, -1, y - x / 2) + 1) / 2
            } else if 2 * y - x >= 0 {
                (ref_sample(n, -1, y - x / 2 - 2) + 2 * ref_sample(n, -1, y - x / 2 - 1) + ref_sample(n, -1, y - x / 2)
                    + 2) / 4
            } else if 2 * y - x == -1 {
                (ref_sample(n, -1, 0) + 2 * ref_sample(n, -1, -1) + ref_sample(n, 0, -1) + 2) / 4
            } else {
                (ref_sample(n, x - 1, -1) + 2 * ref_sample(n, x - 2, -1) + ref_sample(n, x - 3, -1) + 2) / 4
            },
{
    assert forall|x: int, y: int| 0 <= x < 4 && 0 <= y < 4 implies #[trigger] spec_predict4(HORIZ_DOWN, n)[4 * y
        + x] == spec_pred4_at(HORIZ_DOWN, n, x, y) by {
        assert((4 * y + x) % 4 == x && (4 * y + x) / 4 == y);
    }
}

/// Intra_4x4_Horizontal_Up (§8.3.1.2.9) in the standard's terms, with
/// `zHU = x + 2y`: past `zHU = 5` every sample is `p[−1, 3]`.
pub proof fn lemma_horizontal_up_reads_left(n: Neighbors4)
    requires
        n.left is Some,
    ensures
        forall|x: int, y: int|
            0 <= x < 4 && 0 <= y < 4 ==> #[trigger] spec_predict4(HORIZ_UP, n)[4 * y + x] == if x + 2 * y < 5 && (x
                + 2 * y) % 2 == 0 {
                (ref_sample(n, -1, y + x / 2) + ref_sample(n, -1, y + x / 2 + 1) + 1) / 2
            } else if x + 2 * y < 5 {
                (ref_sample(n, -1, y + x / 2) + 2 * ref_sample(n, -1, y + x / 2 + 1) + ref_sample(n, -1, y + x / 2 + 2)
                    + 2) / 4
            } else if x + 2 * y == 5 {
                (ref_sample(n, -1, 2) + 3 * ref_sample(n, -1, 3) + 2) / 4
            } else {
                ref_sample(n, -1, 3)
            },
{
    assert forall|x: int, y: int| 0 <= x < 4 && 0 <= y < 4 implies #[trigger] spec_predict4(HORIZ_UP, n)[4 * y
        + x] == spec_pred4_at(HORIZ_UP, n, x, y) by {
        assert((4 * y + x) % 4 == x && (4 * y + x) / 4 == y);
    }
}

/// Intra_4x4_DC (§8.3.1.2.3): the rounded mean of the four samples above
/// and the four left when both are there, of the four of one edge when only
/// that one is, 128 when neither; every sample of the block gets it, and so
/// does every sample of a mode whose edges are missing.
pub proof fn lemma_dc4_is_the_edge_mean(mode: u8, n: Neighbors4)
    requires
        mode == DC || !spec_allowed(mode, n),
    ensures
        forall|k: int|
            0 <= k < 16 ==> #[trigger] spec_predict4(mode, n)[k] == match (n.above, n.left) {
                (Some(a), Some(l)) => (a[0] + a[1] + a[2] + a[3] + l[0] + l[1] + l[2] + l[3] + 4) / 8,
                (Some(a), None) => (a[0] + a[1] + a[2] + a[3] + 2) / 4,
                (None, Some(l)) => (l[0] + l[1] + l[2] + l[3] + 2) / 4,
                (None, None) => 128,
            },
{
    if let Some(a) = n.above {
        assert(sum_prefix(a@, 4) == a[0] + a[1] + a[2] + a[3]) by {
            reveal_with_fuel(sum_prefix, 5);
        }
    }
    if let Some(l) = n.left {
        assert(sum_prefix(l@, 4) == l[0] + l[1] + l[2] + l[3]) by {
            reveal_with_fuel(sum_prefix, 5);
        }
    }
}

/// On a constant neighbourhood every mode reproduces the constant: the taps
/// are weighted averages, so a flat input stays flat.
pub proof fn lemma_flat_neighbours_predict_flat(mode: u8, n: Neighbors4, v: int)
    requires
        flat4(n, v),
    ensures
        forall|k: int| 0 <= k < 16 ==> #[trigger] spec_predict4(mode, n)[k] == v,
{
    assert(spec_dc4(n) == v) by {
        match (n.above, n.left) {
            (Some(a), Some(l)) => {
                assert(sum_prefix(a@, 4) == a[0] + a[1] + a[2] + a[3]) by {
                    reveal_with_fuel(sum_prefix, 5);
                }
                assert(sum_prefix(l@, 4) == l[0] + l[1] + l[2] + l[3]) by {
                    reveal_with_fuel(sum_prefix, 5);
                }
            },
            (Some(a), None) => {
                assert(sum_prefix(a@, 4) == a[0] + a[1] + a[2] + a[3]) by {
                    reveal_with_fuel(sum_prefix, 5);
                }
            },
            (None, Some(l)) => {
                assert(sum_prefix(l@, 4) == l[0] + l[1] + l[2] + l[3]) by {
                    reveal_with_fuel(sum_prefix, 5);
                }
            },
            (None, None) => {},
        }
    }
    assert forall|k: int| 0 <= k < 16 implies #[trigger] spec_predict4(mode, n)[k] == v by {
        if spec_allowed(mode, n) && mode != DC {
            let x = k % 4;
            let y = k / 4;
            assert(forall|i: int| 0 <= i < 8 && n.above is Some ==> #[trigger] at4(n, i) == v);
            assert(forall|i: int| 0 <= i < 4 && n.left is Some ==> #[trigger] lt4(n, i) == v);
            assert(n.corner is Some ==> at4(n, -1) == v && lt4(n, -1) == v);
        }
    }
}

/// Sum of four samples.
fn sum4(s: &[i32], off: usize) -> (r: i32)
    requires
        off + 4 <= s@.len(),
        forall|k: int| 0 <= k < s@.len() ==> -SAMPLE_BOUND <= #[trigger] s@[k] <= SAMPLE_BOUND,
    ensures
        r == s@[off as int] + s@[off + 1] + s@[off + 2] + s@[off + 3],
{
    s[off] + s[off + 1] + s[off + 2] + s[off + 3]
}

/// DC prediction (§8.3.1.2.3): the mean of whatever is available.
pub fn dc4(n: &Neighbors4) -> (v: i32)
    requires
        neighbors4_ok(*n),
    ensures
        v == spec_dc4(*n),
{
    proof {
        lemma2_to64();
        reveal_with_fuel(sum_prefix, 5);
    }
    match (n.above, n.left) {
        (Some(a), Some(l)) => {
            let s = sum4(&a, 0) + sum4(&l, 0);
            proof {
                assert(sum_prefix(a@, 4) == a@[0] + a@[1] + a@[2] + a@[3]);
                assert(sum_prefix(l@, 4) == l@[0] + l@[1] + l@[2] + l@[3]);
            }
            shr_floor(s + 4, 3)
        },
        (Some(a), None) => {
            let s = sum4(&a, 0);
            proof {
                assert(sum_prefix(a@, 4) == a@[0] + a@[1] + a@[2] + a@[3]);
            }
            shr_floor(s + 2, 2)
        },
        (None, Some(l)) => {
            let s = sum4(&l, 0);
            proof {
                assert(sum_prefix(l@, 4) == l@[0] + l@[1] + l@[2] + l@[3]);
            }
            shr_floor(s + 2, 2)
        },
        (None, None) => 128,
    }
}

/// `(a + 2b + c + 2) >> 2`.
fn tap3(a: i32, b: i32, c: i32) -> (r: i32)
    requires
        -SAMPLE_BOUND <= a <= SAMPLE_BOUND,
        -SAMPLE_BOUND <= b <= SAMPLE_BOUND,
        -SAMPLE_BOUND <= c <= SAMPLE_BOUND,
    ensures
        r == (a + 2 * b + c + 2) / 4,
{
    proof {
        lemma2_to64();
    }
    shr_floor(a + 2 * b + c + 2, 2)
}

/// `(a + b + 1) >> 1`.
fn tap2(a: i32, b: i32) -> (r: i32)
    requires
        -SAMPLE_BOUND <= a <= SAMPLE_BOUND,
        -SAMPLE_BOUND <= b <= SAMPLE_BOUND,
    ensures
        r == (a + b + 1) / 2,
{
    let s = a + b + 1;
    proof {
        lemma_half(s);
    }
    s >> 1
}

/// Above sample `i`, the corner for `i < 0`.
fn at_exec(n: &Neighbors4, i: i32) -> (r: i32)
    requires
        neighbors4_ok(*n),
        -1 <= i < 8,
    ensures
        r == at4(*n, i as int),
        -SAMPLE_BOUND <= r <= SAMPLE_BOUND,
{
    if i < 0 {
        match n.corner {
            Some(c) => c,
            None => 0,
        }
    } else {
        match n.above {
            Some(a) => a[i as usize],
            None => 0,
        }
    }
}

/// Left sample `i`, the corner for `i < 0`.
fn lt_exec(n: &Neighbors4, i: i32) -> (r: i32)
    requires
        neighbors4_ok(*n),
        -1 <= i < 4,
    ensures
        r == lt4(*n, i as int),
        -SAMPLE_BOUND <= r <= SAMPLE_BOUND,
{
    if i < 0 {
        match n.corner {
            Some(c) => c,
            None => 0,
        }
    } else {
        match n.left {
            Some(l) => l[i as usize],
            None => 0,
        }
    }
}

/// One sample of an allowed, non-DC 4×4 mode.
fn pred4_sample(mode: u8, n: &Neighbors4, x: i32, y: i32) -> (r: i32)
    requires
        neighbors4_ok(*n),
        0 <= x < 4,
        0 <= y < 4,
        mode <= 8,
        mode != DC,
    ensures
        r == spec_pred4_at(mode, *n, x as int, y as int),
{
    let c = match n.corner {
        Some(c) => c,
        None => 0,
    };
    proof {
        lemma2_to64();
    }
    if mode == VERT {
        at_exec(n, x)
    } else if mode == HORIZ {
        lt_exec(n, y)
    } else if mode == DIAG_DOWN_LEFT {
        if x == 3 && y == 3 {
            let a6 = at_exec(n, 6);
            let a7 = at_exec(n, 7);
            shr_floor(a6 + 3 * a7 + 2, 2)
        } else {
            tap3(at_exec(n, x + y), at_exec(n, x + y + 1), at_exec(n, x + y + 2))
        }
    } else if mode == DIAG_DOWN_RIGHT {
        if x > y {
            tap3(at_exec(n, x - y - 2), at_exec(n, x - y - 1), at_exec(n, x - y))
        } else if x < y {
            tap3(lt_exec(n, y - x - 2), lt_exec(n, y - x - 1), lt_exec(n, y - x))
        } else {
            tap3(at_exec(n, 0), c, lt_exec(n, 0))
        }
    } else if mode == VERT_RIGHT {
        let z = 2 * x - y;
        let k = x - shr_floor(y, 1);
        if z >= 0 && z % 2 == 0 {
            tap2(at_exec(n, k - 1), at_exec(n, k))
        } else if z >= 0 {
            tap3(at_exec(n, k - 2), at_exec(n, k - 1), at_exec(n, k))
        } else if z == -1 {
            tap3(lt_exec(n, 0), c, at_exec(n, 0))
        } else {
            tap3(lt_exec(n, y - 1), lt_exec(n, y - 2), lt_exec(n, y - 3))
        }
    } else if mode == HORIZ_DOWN {
        let z = 2 * y - x;
        let k = y - shr_floor(x, 1);
        if z >= 0 && z % 2 == 0 {
            tap2(lt_exec(n, k - 1), lt_exec(n, k))
        } else if z >= 0 {
            tap3(lt_exec(n, k - 2), lt_exec(n, k - 1), lt_exec(n, k))
        } else if z == -1 {
            tap3(lt_exec(n, 0), c, at_exec(n, 0))
        } else {
            tap3(at_exec(n, x - 1), at_exec(n, x - 2), at_exec(n, x - 3))
        }
    } else if mode == VERT_LEFT {
        let k = x + shr_floor(y, 1);
        if y % 2 == 0 {
            tap2(at_exec(n, k), at_exec(n, k + 1))
        } else {
            tap3(at_exec(n, k), at_exec(n, k + 1), at_exec(n, k + 2))
        }
    } else {
        let z = x + 2 * y;
        let k = y + shr_floor(x, 1);
        if z < 5 && z % 2 == 0 {
            tap2(lt_exec(n, k), lt_exec(n, k + 1))
        } else if z < 5 {
            tap3(lt_exec(n, k), lt_exec(n, k + 1), lt_exec(n, k + 2))
        } else if z == 5 {
            let l2 = lt_exec(n, 2);
            let l3 = lt_exec(n, 3);
            shr_floor(l2 + 3 * l3 + 2, 2)
        } else {
            lt_exec(n, 3)
        }
    }
}

/// Predict a 4×4 luma block (§8.3.1.2). Row-major, 16 samples.
///
/// A mode that is not [`allowed`] falls back to DC rather than reading absent
/// samples. Reference samples are asked to lie within [`SAMPLE_BOUND`], far
/// above the 8-bit samples a picture holds.
pub fn predict4(mode: u8, n: &Neighbors4) -> (p: [i32; 16])
    requires
        neighbors4_ok(*n),
    ensures
        forall|k: int| 0 <= k < 16 ==> p[k] == #[trigger] spec_predict4(mode, *n)[k],
{
    if !allowed(mode, n) || mode == DC {
        let v = dc4(n);
        let p = [v; 16];
        proof {
            assert forall|k: int| 0 <= k < 16 implies p[k] == #[trigger] spec_predict4(mode, *n)[k] by {
            }
        }
        return p;
    }
    let mut p = [0i32; 16];
    for k in 0..16usize
        invariant
            neighbors4_ok(*n),
            spec_allowed(mode, *n),
            mode != DC,
            mode <= 8,
            forall|j: int| 0 <= j < k ==> p[j] == #[trigger] spec_predict4(mode, *n)[j],
    {
        p[k] = pred4_sample(mode, n, (k % 4) as i32, (k / 4) as i32);
    }
    p
}


/// `v` clamped to the 8-bit sample range.
pub fn clip(v: i32) -> (r: i32)
    ensures
        r == clamp(v as int, 0, 255),
{
    clip_u8(v) as i32
}

/// Reference samples along the top and left edges of a whole macroblock.
#[derive(Clone, Copy, Debug, Default)]
pub struct Neighbors16 {
    pub above: Option<[i32; 16]>,
    pub left: Option<[i32; 16]>,
    pub corner: Option<i32>,
}

pub const I16_VERT: u8 = 0;
pub const I16_HORIZ: u8 = 1;
pub const I16_DC: u8 = 2;
pub const I16_PLANE: u8 = 3;

/// All reference samples of a 16×16 neighbourhood are in range.
pub open spec fn neighbors16_ok(n: Neighbors16) -> bool {
    &&& (n.above matches Some(a) ==> samples_ok(a@))
    &&& (n.left matches Some(l) ==> samples_ok(l@))
    &&& sample_ok(n.corner)
}

/// Whether a 16×16 mode may be signalled.
pub open spec fn spec_allowed16(mode: u8, n: Neighbors16) -> bool {
    if mode == I16_DC {
        true
    } else if mode == I16_HORIZ {
        n.left is Some
    } else if mode == I16_VERT {
        n.above is Some
    } else if mode == I16_PLANE {
        n.above is Some && n.left is Some && n.corner is Some
    } else {
        false
    }
}

/// Whether a 16×16 mode may be signalled given what is available.
pub fn allowed16(mode: u8, n: &Neighbors16) -> (b: bool)
    ensures
        b == spec_allowed16(mode, *n),
{
    if mode == I16_DC {
        true
    } else if mode == I16_HORIZ {
        n.left.is_some()
    } else if mode == I16_VERT {
        n.above.is_some()
    } else if mode == I16_PLANE {
        n.above.is_some() && n.left.is_some() && n.corner.is_some()
    } else {
        false
    }
}

/// 16×16 DC (§8.3.3.3): the mean of whichever edges exist, 128 if neither.
pub open spec fn spec_luma16_dc(n: Neighbors16) -> int {
    match (n.above, n.left) {
        (Some(a), Some(l)) => (sum_prefix(a@, 16) + sum_prefix(l@, 16) + 16) / 32,
        (Some(a), None) => (sum_prefix(a@, 16) + 8) / 16,
        (None, Some(l)) => (sum_prefix(l@, 16) + 8) / 16,
        (None, None) => 128,
    }
}

/// The plane mode's gradient sum over one edge `e` (§8.3.3.4): the `x'`/`y'`
/// sums with `p[−1, −1]` as the far term.
pub open spec fn plane_sum(e: Seq<i32>, c: int, half: int, k: int) -> int
    decreases k,
{
    if k <= 0 {
        0
    } else {
        let j = k - 1;
        let near = if j == half - 1 {
            c
        } else {
            e[half - 2 - j] as int
        };
        plane_sum(e, c, half, k - 1) + (j + 1) * (e[half + j] - near)
    }
}

/// One sample of the 16×16 plane prediction.
pub open spec fn spec_plane16_at(n: Neighbors16, x: int, y: int) -> int {
    let a = n.above.unwrap();
    let l = n.left.unwrap();
    let c = n.corner.unwrap() as int;
    let hh = plane_sum(a@, c, 8, 8);
    let vv = plane_sum(l@, c, 8, 8);
    let a0 = 16 * (l[15] + a[15]);
    let b = (5 * hh + 32) / 64;
    let cc = (5 * vv + 32) / 64;
    clamp((a0 + b * (x - 7) + cc * (y - 7) + 16) / 32, 0, 255)
}

/// The predicted 16×16 macroblock, row-major.
pub open spec fn spec_predict16(mode: u8, n: Neighbors16) -> Seq<int> {
    Seq::new(
        256,
        |k: int|
            if !spec_allowed16(mode, n) || mode == I16_DC {
                spec_luma16_dc(n)
            } else if mode == I16_VERT {
                n.above.unwrap()[k % 16] as int
            } else if mode == I16_HORIZ {
                n.left.unwrap()[k / 16] as int
            } else {
                spec_plane16_at(n, k % 16, k / 16)
            },
    )
}

/// Sum of the first `len` samples of `s`.
fn sum_n(s: &[i32], len: usize) -> (r: i32)
    requires
        len <= s@.len(),
        len <= 64,
        forall|k: int| 0 <= k < s@.len() ==> -SAMPLE_BOUND <= #[trigger] s@[k] <= SAMPLE_BOUND,
    ensures
        r == sum_prefix(s@, len as int),
        -64 * SAMPLE_BOUND <= r <= 64 * SAMPLE_BOUND,
{
    let mut acc: i32 = 0;
    let mut k: usize = 0;
    while k < len
        invariant
            k <= len <= s@.len(),
            len <= 64,
            forall|j: int| 0 <= j < s@.len() ==> -SAMPLE_BOUND <= #[trigger] s@[j] <= SAMPLE_BOUND,
            acc == sum_prefix(s@, k as int),
            -(k as int) * SAMPLE_BOUND <= acc <= (k as int) * SAMPLE_BOUND,
        decreases len - k,
    {
        acc = acc + s[k];
        k = k + 1;
    }
    acc
}

/// 16×16 DC (§8.3.3.3).
pub fn luma16_dc(n: &Neighbors16) -> (v: i32)
    requires
        neighbors16_ok(*n),
    ensures
        v == spec_luma16_dc(*n),
{
    proof {
        lemma2_to64();
    }
    match (n.above, n.left) {
        (Some(a), Some(l)) => shr_floor(sum_n(&a, 16) + sum_n(&l, 16) + 16, 5),
        (Some(a), None) => shr_floor(sum_n(&a, 16) + 8, 4),
        (None, Some(l)) => shr_floor(sum_n(&l, 16) + 8, 4),
        (None, None) => 128,
    }
}

/// The plane mode's gradient sum over one edge.
fn plane_sum_exec(e: &[i32], c: i32, half: usize) -> (r: i32)
    requires
        half == 4 || half == 8,
        e@.len() == 2 * half,
        forall|k: int| 0 <= k < e@.len() ==> -SAMPLE_BOUND <= #[trigger] e@[k] <= SAMPLE_BOUND,
        -SAMPLE_BOUND <= c <= SAMPLE_BOUND,
    ensures
        r == plane_sum(e@, c as int, half as int, half as int),
        half == 8 ==> -16 * 8 * SAMPLE_BOUND <= r <= 16 * 8 * SAMPLE_BOUND,
        half == 4 ==> -8 * 4 * SAMPLE_BOUND <= r <= 8 * 4 * SAMPLE_BOUND,
{
    let mut acc: i32 = 0;
    let mut k: usize = 0;
    while k < half
        invariant
            half == 4 || half == 8,
            e@.len() == 2 * half,
            k <= half,
            forall|j: int| 0 <= j < e@.len() ==> -SAMPLE_BOUND <= #[trigger] e@[j] <= SAMPLE_BOUND,
            -SAMPLE_BOUND <= c <= SAMPLE_BOUND,
            acc == plane_sum(e@, c as int, half as int, k as int),
            half == 8 ==> -16 * (k as int) * SAMPLE_BOUND <= acc <= 16 * (k as int) * SAMPLE_BOUND,
            half == 4 ==> -8 * (k as int) * SAMPLE_BOUND <= acc <= 8 * (k as int) * SAMPLE_BOUND,
        decreases half - k,
    {
        let near = if k == half - 1 {
            c
        } else {
            e[half - 2 - k]
        };
        let d = e[half + k] - near;
        let w = (k + 1) as i32;
        proof {
            assert(-16 * SAMPLE_BOUND <= w * d <= 16 * SAMPLE_BOUND) by (nonlinear_arith)
                requires
                    1 <= w <= 8,
                    -2 * SAMPLE_BOUND <= d <= 2 * SAMPLE_BOUND,
            ;
            assert(w <= 4 ==> -8 * SAMPLE_BOUND <= w * d <= 8 * SAMPLE_BOUND) by (nonlinear_arith)
                requires
                    1 <= w,
                    -2 * SAMPLE_BOUND <= d <= 2 * SAMPLE_BOUND,
            ;
        }
        acc = acc + w * d;
        k = k + 1;
    }
    acc
}

/// One plane-mode sample: `clip((a0 + b·(x − cx) + c·(y − cy) + 16) >> 5)`.
fn plane_sample(a0: i32, b: i32, cc: i32, dx: i32, dy: i32) -> (r: i32)
    requires
        -64 * SAMPLE_BOUND <= a0 <= 64 * SAMPLE_BOUND,
        -32 * SAMPLE_BOUND <= b <= 32 * SAMPLE_BOUND,
        -32 * SAMPLE_BOUND <= cc <= 32 * SAMPLE_BOUND,
        -8 <= dx <= 8,
        -8 <= dy <= 8,
    ensures
        r == clamp((a0 + b * dx + cc * dy + 16) / 32, 0, 255),
{
    proof {
        lemma2_to64();
        assert(-256 * SAMPLE_BOUND <= b * dx <= 256 * SAMPLE_BOUND) by (nonlinear_arith)
            requires
                -8 <= dx <= 8,
                -32 * SAMPLE_BOUND <= b <= 32 * SAMPLE_BOUND,
        ;
        assert(-256 * SAMPLE_BOUND <= cc * dy <= 256 * SAMPLE_BOUND) by (nonlinear_arith)
            requires
                -8 <= dy <= 8,
                -32 * SAMPLE_BOUND <= cc <= 32 * SAMPLE_BOUND,
        ;
    }
    clip(shr_floor(a0 + b * dx + cc * dy + 16, 5))
}

/// Predict a whole 16×16 luma macroblock (§8.3.3). Row-major, 256 samples.
pub fn predict16(mode: u8, n: &Neighbors16) -> (p: [i32; 256])
    requires
        neighbors16_ok(*n),
    ensures
        forall|k: int| 0 <= k < 256 ==> p[k] == #[trigger] spec_predict16(mode, *n)[k],
{
    if !allowed16(mode, n) || mode == I16_DC {
        let v = luma16_dc(n);
        return [v; 256];
    }
    let mut p = [0i32; 256];
    if mode == I16_VERT {
        let a = n.above.unwrap();
        for k in 0..256usize
            invariant
                n.above == Some(a),
                mode == I16_VERT,
                spec_allowed16(mode, *n),
                forall|j: int| 0 <= j < k ==> p[j] == #[trigger] spec_predict16(mode, *n)[j],
        {
            p[k] = a[k % 16];
        }
    } else if mode == I16_HORIZ {
        let l = n.left.unwrap();
        for k in 0..256usize
            invariant
                n.left == Some(l),
                mode == I16_HORIZ,
                spec_allowed16(mode, *n),
                forall|j: int| 0 <= j < k ==> p[j] == #[trigger] spec_predict16(mode, *n)[j],
        {
            p[k] = l[k / 16];
        }
    } else {
        let (a, l, c) = (n.above.unwrap(), n.left.unwrap(), n.corner.unwrap());
        let hh = plane_sum_exec(&a, c, 8);
        let vv = plane_sum_exec(&l, c, 8);
        let a0 = 16 * (l[15] + a[15]);
        proof {
            lemma2_to64();
        }
        let b = shr_floor(5 * hh + 32, 6);
        let cc = shr_floor(5 * vv + 32, 6);
        for k in 0..256usize
            invariant
                n.above == Some(a),
                n.left == Some(l),
                n.corner == Some(c),
                mode == I16_PLANE,
                spec_allowed16(mode, *n),
                hh == plane_sum(a@, c as int, 8, 8),
                vv == plane_sum(l@, c as int, 8, 8),
                a0 == 16 * (l[15] + a[15]),
                b == (5 * hh + 32) / 64,
                cc == (5 * vv + 32) / 64,
                -64 * SAMPLE_BOUND <= a0 <= 64 * SAMPLE_BOUND,
                -32 * SAMPLE_BOUND <= b <= 32 * SAMPLE_BOUND,
                -32 * SAMPLE_BOUND <= cc <= 32 * SAMPLE_BOUND,
                forall|j: int| 0 <= j < k ==> p[j] == #[trigger] spec_predict16(mode, *n)[j],
        {
            p[k] = plane_sample(a0, b, cc, (k % 16) as i32 - 7, (k / 16) as i32 - 7);
        }
    }
    p
}

/// Reference samples around an 8×8 chroma block.
#[derive(Clone, Copy, Debug, Default)]
pub struct NeighborsC {
    pub above: Option<[i32; 8]>,
    pub left: Option<[i32; 8]>,
    pub corner: Option<i32>,
}

pub const C_DC: u8 = 0;
pub const C_HORIZ: u8 = 1;
pub const C_VERT: u8 = 2;
pub const C_PLANE: u8 = 3;

/// All reference samples of a chroma neighbourhood are in range.
pub open spec fn neighbors_c_ok(n: NeighborsC) -> bool {
    &&& (n.above matches Some(a) ==> samples_ok(a@))
    &&& (n.left matches Some(l) ==> samples_ok(l@))
    &&& sample_ok(n.corner)
}

/// Whether a chroma mode may be signalled.
pub open spec fn spec_chroma_allowed(mode: u8, n: NeighborsC) -> bool {
    if mode == C_DC {
        true
    } else if mode == C_HORIZ {
        n.left is Some
    } else if mode == C_VERT {
        n.above is Some
    } else if mode == C_PLANE {
        n.above is Some && n.left is Some && n.corner is Some
    } else {
        false
    }
}

/// Whether a chroma mode may be signalled.
pub fn chroma_allowed(mode: u8, n: &NeighborsC) -> (b: bool)
    ensures
        b == spec_chroma_allowed(mode, *n),
{
    if mode == C_DC {
        true
    } else if mode == C_HORIZ {
        n.left.is_some()
    } else if mode == C_VERT {
        n.above.is_some()
    } else if mode == C_PLANE {
        n.above.is_some() && n.left.is_some() && n.corner.is_some()
    } else {
        false
    }
}

/// Sum of four samples starting at `lo`.
pub open spec fn sum4_at(s: Seq<i32>, lo: int) -> int {
    s[lo] + s[lo + 1] + s[lo + 2] + s[lo + 3]
}

/// The DC value of chroma quadrant `(bx, by)` (§8.3.4.1): the top-left and
/// bottom-right quadrants average both edges, the top-right one prefers the
/// above edge and the bottom-left one the left edge.
pub open spec fn spec_chroma_dc_quadrant(n: NeighborsC, bx: int, by: int) -> int {
    let a = match n.above {
        Some(a) => Some(sum4_at(a@, bx * 4)),
        None => None,
    };
    let l = match n.left {
        Some(l) => Some(sum4_at(l@, by * 4)),
        None => None,
    };
    if (bx == 0 && by == 0) || (bx == 1 && by == 1) {
        match (a, l) {
            (Some(a), Some(l)) => (a + l + 4) / 8,
            (Some(a), None) => (a + 2) / 4,
            (None, Some(l)) => (l + 2) / 4,
            (None, None) => 128,
        }
    } else if bx == 1 && by == 0 {
        match (a, l) {
            (Some(a), _) => (a + 2) / 4,
            (None, Some(l)) => (l + 2) / 4,
            (None, None) => 128,
        }
    } else {
        match (l, a) {
            (Some(l), _) => (l + 2) / 4,
            (None, Some(a)) => (a + 2) / 4,
            (None, None) => 128,
        }
    }
}

/// One sample of the chroma plane prediction.
pub open spec fn spec_plane_c_at(n: NeighborsC, x: int, y: int) -> int {
    let a = n.above.unwrap();
    let l = n.left.unwrap();
    let c = n.corner.unwrap() as int;
    let hh = plane_sum(a@, c, 4, 4);
    let vv = plane_sum(l@, c, 4, 4);
    let a0 = 16 * (l[7] + a[7]);
    let b = (34 * hh + 32) / 64;
    let cc = (34 * vv + 32) / 64;
    clamp((a0 + b * (x - 3) + cc * (y - 3) + 16) / 32, 0, 255)
}

/// The predicted 8×8 chroma block, row-major.
pub open spec fn spec_predict_chroma(mode: u8, n: NeighborsC) -> Seq<int> {
    Seq::new(
        64,
        |k: int|
            if !spec_chroma_allowed(mode, n) || mode == C_DC {
                spec_chroma_dc_quadrant(n, (k % 8) / 4, (k / 8) / 4)
            } else if mode == C_HORIZ {
                n.left.unwrap()[k / 8] as int
            } else if mode == C_VERT {
                n.above.unwrap()[k % 8] as int
            } else {
                spec_plane_c_at(n, k % 8, k / 8)
            },
    )
}

/// Every 4×4 prediction from in-range reference samples is in range: each
/// predicted sample is a weighted average of reference samples.
pub proof fn lemma_predict4_in_range(mode: u8, n: Neighbors4)
    requires
        neighbors4_ok(n),
    ensures
        forall|k: int| 0 <= k < 16 ==> -SAMPLE_BOUND <= #[trigger] spec_predict4(mode, n)[k] <= SAMPLE_BOUND,
{
    let b = SAMPLE_BOUND as int;
    assert(-b <= spec_dc4(n) <= b) by {
        match (n.above, n.left) {
            (Some(a), Some(l)) => {
                assert(sum_prefix(a@, 4) == a[0] + a[1] + a[2] + a[3]) by {
                    reveal_with_fuel(sum_prefix, 5);
                }
                assert(sum_prefix(l@, 4) == l[0] + l[1] + l[2] + l[3]) by {
                    reveal_with_fuel(sum_prefix, 5);
                }
                assert(a@[0] == a[0] && a@[1] == a[1] && a@[2] == a[2] && a@[3] == a[3]);
                assert(l@[0] == l[0] && l@[1] == l[1] && l@[2] == l[2] && l@[3] == l[3]);
            },
            (Some(a), None) => {
                assert(sum_prefix(a@, 4) == a[0] + a[1] + a[2] + a[3]) by {
                    reveal_with_fuel(sum_prefix, 5);
                }
                assert(a@[0] == a[0] && a@[1] == a[1] && a@[2] == a[2] && a@[3] == a[3]);
            },
            (None, Some(l)) => {
                assert(sum_prefix(l@, 4) == l[0] + l[1] + l[2] + l[3]) by {
                    reveal_with_fuel(sum_prefix, 5);
                }
                assert(l@[0] == l[0] && l@[1] == l[1] && l@[2] == l[2] && l@[3] == l[3]);
            },
            (None, None) => {},
        }
    }
    assert forall|k: int| 0 <= k < 16 implies -b <= #[trigger] spec_predict4(mode, n)[k] <= b by {
        if spec_allowed(mode, n) && mode != DC {
            assert(forall|i: int| 0 <= i < 8 && n.above is Some ==> -b <= #[trigger] at4(n, i) <= b) by {
                if let Some(a) = n.above {
                    assert(forall|i: int| 0 <= i < 8 ==> a@[i] == #[trigger] a[i]);
                }
            }
            assert(forall|i: int| 0 <= i < 4 && n.left is Some ==> -b <= #[trigger] lt4(n, i) <= b) by {
                if let Some(l) = n.left {
                    assert(forall|i: int| 0 <= i < 4 ==> l@[i] == #[trigger] l[i]);
                }
            }
            assert(n.corner is Some ==> -b <= at4(n, -1) <= b && -b <= lt4(n, -1) <= b);
        }
    }
}

/// A sum of `k` in-range samples is at most `k` bounds in magnitude.
proof fn lemma_sum_prefix_bound(s: Seq<i32>, k: int)
    requires
        0 <= k <= s.len(),
        samples_ok(s),
    ensures
        -k * SAMPLE_BOUND <= sum_prefix(s, k) <= k * SAMPLE_BOUND,
    decreases k,
{
    if k > 0 {
        lemma_sum_prefix_bound(s, k - 1);
        assert(-SAMPLE_BOUND <= s[k - 1] <= SAMPLE_BOUND);
    }
}

/// Every 16×16 prediction from in-range reference samples is in range.
pub proof fn lemma_predict16_in_range(mode: u8, n: Neighbors16)
    requires
        neighbors16_ok(n),
    ensures
        forall|k: int| 0 <= k < 256 ==> -SAMPLE_BOUND <= #[trigger] spec_predict16(mode, n)[k] <= SAMPLE_BOUND,
{
    let b = SAMPLE_BOUND as int;
    assert(-b <= spec_luma16_dc(n) <= b) by {
        if let Some(a) = n.above {
            lemma_sum_prefix_bound(a@, 16);
        }
        if let Some(l) = n.left {
            lemma_sum_prefix_bound(l@, 16);
        }
    }
    assert forall|k: int| 0 <= k < 256 implies -b <= #[trigger] spec_predict16(mode, n)[k] <= b by {
        if spec_allowed16(mode, n) && mode != I16_DC {
            if mode == I16_VERT {
                let a = n.above.unwrap();
                assert(a@[k % 16] == a[k % 16]);
            } else if mode == I16_HORIZ {
                let l = n.left.unwrap();
                assert(l@[k / 16] == l[k / 16]);
            }
        }
    }
}

/// Every chroma prediction from in-range reference samples is in range.
pub proof fn lemma_predict_chroma_in_range(mode: u8, n: NeighborsC)
    requires
        neighbors_c_ok(n),
    ensures
        forall|k: int| 0 <= k < 64 ==> -SAMPLE_BOUND <= #[trigger] spec_predict_chroma(mode, n)[k] <= SAMPLE_BOUND,
{
    let b = SAMPLE_BOUND as int;
    assert forall|bx: int, by: int| 0 <= bx < 2 && 0 <= by < 2 implies -b <= #[trigger] spec_chroma_dc_quadrant(
        n,
        bx,
        by,
    ) <= b by {
        if let Some(a) = n.above {
            assert(-SAMPLE_BOUND <= a@[bx * 4] <= SAMPLE_BOUND);
            assert(-SAMPLE_BOUND <= a@[bx * 4 + 1] <= SAMPLE_BOUND);
            assert(-SAMPLE_BOUND <= a@[bx * 4 + 2] <= SAMPLE_BOUND);
            assert(-SAMPLE_BOUND <= a@[bx * 4 + 3] <= SAMPLE_BOUND);
        }
        if let Some(l) = n.left {
            assert(-SAMPLE_BOUND <= l@[by * 4] <= SAMPLE_BOUND);
            assert(-SAMPLE_BOUND <= l@[by * 4 + 1] <= SAMPLE_BOUND);
            assert(-SAMPLE_BOUND <= l@[by * 4 + 2] <= SAMPLE_BOUND);
            assert(-SAMPLE_BOUND <= l@[by * 4 + 3] <= SAMPLE_BOUND);
        }
    }
    assert forall|k: int| 0 <= k < 64 implies -b <= #[trigger] spec_predict_chroma(mode, n)[k] <= b by {
        assert(0 <= (k % 8) / 4 < 2 && 0 <= (k / 8) / 4 < 2);
        if spec_chroma_allowed(mode, n) && mode != C_DC {
            if mode == C_HORIZ {
                let l = n.left.unwrap();
                assert(l@[k / 8] == l[k / 8]);
            } else if mode == C_VERT {
                let a = n.above.unwrap();
                assert(a@[k % 8] == a[k % 8]);
            }
        }
    }
}

/// Every 16×16 reference sample present in `n` is an 8-bit value.
pub open spec fn neighbors16_8bit(n: Neighbors16) -> bool {
    &&& (n.above matches Some(a) ==> forall|i: int| 0 <= i < 16 ==> 0 <= #[trigger] a[i] <= 255)
    &&& (n.left matches Some(l) ==> forall|i: int| 0 <= i < 16 ==> 0 <= #[trigger] l[i] <= 255)
    &&& (n.corner matches Some(c) ==> 0 <= c <= 255)
}

/// A sum of `k` 8-bit samples is at most `255·k`.
proof fn lemma_sum_prefix_8bit(s: Seq<i32>, k: int)
    requires
        0 <= k <= s.len(),
        forall|i: int| 0 <= i < s.len() ==> 0 <= #[trigger] s[i] <= 255,
    ensures
        0 <= sum_prefix(s, k) <= 255 * k,
    decreases k,
{
    if k > 0 {
        lemma_sum_prefix_8bit(s, k - 1);
        assert(0 <= s[k - 1] <= 255);
    }
}

/// Every 16×16 prediction from 8-bit reference samples is an 8-bit value.
pub proof fn lemma_predict16_8bit(mode: u8, n: Neighbors16)
    requires
        neighbors16_8bit(n),
    ensures
        forall|k: int| 0 <= k < 256 ==> 0 <= #[trigger] spec_predict16(mode, n)[k] <= 255,
{
    assert(0 <= spec_luma16_dc(n) <= 255) by {
        if let Some(a) = n.above {
            assert forall|i: int| 0 <= i < a@.len() implies 0 <= #[trigger] a@[i] <= 255 by {
                assert(a@[i] == a[i]);
            }
            lemma_sum_prefix_8bit(a@, 16);
        }
        if let Some(l) = n.left {
            assert forall|i: int| 0 <= i < l@.len() implies 0 <= #[trigger] l@[i] <= 255 by {
                assert(l@[i] == l[i]);
            }
            lemma_sum_prefix_8bit(l@, 16);
        }
    }
    assert forall|k: int| 0 <= k < 256 implies 0 <= #[trigger] spec_predict16(mode, n)[k] <= 255 by {
        if spec_allowed16(mode, n) && mode != I16_DC {
            if mode == I16_VERT {
                let a = n.above.unwrap();
                assert(0 <= a[k % 16] <= 255);
            } else if mode == I16_HORIZ {
                let l = n.left.unwrap();
                assert(0 <= l[k / 16] <= 255);
            }
        }
    }
}

/// Every chroma reference sample present in `n` is an 8-bit value.
pub open spec fn neighbors_c_8bit(n: NeighborsC) -> bool {
    &&& (n.above matches Some(a) ==> forall|i: int| 0 <= i < 8 ==> 0 <= #[trigger] a[i] <= 255)
    &&& (n.left matches Some(l) ==> forall|i: int| 0 <= i < 8 ==> 0 <= #[trigger] l[i] <= 255)
    &&& (n.corner matches Some(c) ==> 0 <= c <= 255)
}

/// Every chroma prediction from 8-bit reference samples is an 8-bit value.
pub proof fn lemma_predict_chroma_8bit(mode: u8, n: NeighborsC)
    requires
        neighbors_c_8bit(n),
    ensures
        forall|k: int| 0 <= k < 64 ==> 0 <= #[trigger] spec_predict_chroma(mode, n)[k] <= 255,
{
    assert forall|bx: int, by: int| 0 <= bx < 2 && 0 <= by < 2 implies 0 <= #[trigger] spec_chroma_dc_quadrant(
        n,
        bx,
        by,
    ) <= 255 by {
        if let Some(a) = n.above {
            assert(a@[bx * 4] == a[bx * 4] && a@[bx * 4 + 1] == a[bx * 4 + 1]);
            assert(a@[bx * 4 + 2] == a[bx * 4 + 2] && a@[bx * 4 + 3] == a[bx * 4 + 3]);
            assert(0 <= a[bx * 4] <= 255 && 0 <= a[bx * 4 + 1] <= 255);
            assert(0 <= a[bx * 4 + 2] <= 255 && 0 <= a[bx * 4 + 3] <= 255);
        }
        if let Some(l) = n.left {
            assert(l@[by * 4] == l[by * 4] && l@[by * 4 + 1] == l[by * 4 + 1]);
            assert(l@[by * 4 + 2] == l[by * 4 + 2] && l@[by * 4 + 3] == l[by * 4 + 3]);
            assert(0 <= l[by * 4] <= 255 && 0 <= l[by * 4 + 1] <= 255);
            assert(0 <= l[by * 4 + 2] <= 255 && 0 <= l[by * 4 + 3] <= 255);
        }
    }
    assert forall|k: int| 0 <= k < 64 implies 0 <= #[trigger] spec_predict_chroma(mode, n)[k] <= 255 by {
        assert(0 <= (k % 8) / 4 < 2 && 0 <= (k / 8) / 4 < 2);
        if spec_chroma_allowed(mode, n) && mode != C_DC {
            if mode == C_HORIZ {
                let l = n.left.unwrap();
                assert(0 <= l[k / 8] <= 255);
            } else if mode == C_VERT {
                let a = n.above.unwrap();
                assert(0 <= a[k % 8] <= 255);
            }
        }
    }
}

/// Every chroma reference sample present in `n` equals `v`, and at least
/// one edge is present.
pub open spec fn flat_c(n: NeighborsC, v: int) -> bool {
    &&& (n.above matches Some(a) ==> forall|i: int| 0 <= i < 8 ==> a[i] == v)
    &&& (n.left matches Some(l) ==> forall|i: int| 0 <= i < 8 ==> l[i] == v)
    &&& (n.corner matches Some(c) ==> c == v)
    &&& (n.above is Some || n.left is Some)
}

/// The plane gradient of a flat edge is zero.
proof fn lemma_plane_sum_flat(e: Seq<i32>, c: int, half: int, k: int, v: int)
    requires
        0 <= k <= half,
        2 * half <= e.len(),
        c == v,
        forall|i: int| 0 <= i < e.len() ==> e[i] == v,
    ensures
        plane_sum(e, c, half, k) == 0,
    decreases k,
{
    if k > 0 {
        lemma_plane_sum_flat(e, c, half, k - 1, v);
        let j = k - 1;
        let near = if j == half - 1 {
            c
        } else {
            e[half - 2 - j] as int
        };
        assert(e[half + j] == v);
        assert(e[half + j] - near == 0);
        assert((j + 1) * (e[half + j] - near) == 0) by (nonlinear_arith)
            requires
                e[half + j] - near == 0,
        ;
    }
}

/// On a constant neighbourhood of sample values every chroma mode
/// reproduces the constant.
pub proof fn lemma_flat_chroma_predicts_flat(mode: u8, n: NeighborsC, v: int)
    requires
        flat_c(n, v),
        0 <= v <= 255,
    ensures
        forall|k: int| 0 <= k < 64 ==> #[trigger] spec_predict_chroma(mode, n)[k] == v,
{
    assert forall|bx: int, by: int| 0 <= bx < 2 && 0 <= by < 2 implies #[trigger] spec_chroma_dc_quadrant(n, bx, by) == v by {
        if let Some(a) = n.above {
            assert(sum4_at(a@, bx * 4) == 4 * v);
        }
        if let Some(l) = n.left {
            assert(sum4_at(l@, by * 4) == 4 * v);
        }
    }
    if spec_chroma_allowed(mode, n) && mode == C_PLANE {
        let a = n.above.unwrap();
        let l = n.left.unwrap();
        lemma_plane_sum_flat(a@, n.corner.unwrap() as int, 4, 4, v);
        lemma_plane_sum_flat(l@, n.corner.unwrap() as int, 4, 4, v);
    }
    assert forall|k: int| 0 <= k < 64 implies #[trigger] spec_predict_chroma(mode, n)[k] == v by {
        assert(0 <= (k % 8) / 4 < 2 && 0 <= (k / 8) / 4 < 2);
        assert(spec_chroma_dc_quadrant(n, (k % 8) / 4, (k / 8) / 4) == v);
    }
}

/// The sum of the first `k` entries of a constant run is `k · v`.
proof fn lemma_sum_prefix_flat(s: Seq<i32>, k: int, v: int)
    requires
        0 <= k <= s.len(),
        forall|i: int| 0 <= i < s.len() ==> s[i] == v,
    ensures
        sum_prefix(s, k) == k * v,
    decreases k,
{
    if k > 0 {
        lemma_sum_prefix_flat(s, k - 1, v);
        assert(s[k - 1] == v);
        assert(sum_prefix(s, k) == sum_prefix(s, k - 1) + s[k - 1]);
        assert((k - 1) * v + v == k * v) by (nonlinear_arith);
    } else {
        assert(k * v == 0) by (nonlinear_arith)
            requires
                k == 0,
        ;
    }
}

/// Every 16×16 reference sample present in `n` equals `v`, and at least
/// one edge is present.
pub open spec fn flat16(n: Neighbors16, v: int) -> bool {
    &&& (n.above matches Some(a) ==> forall|i: int| 0 <= i < 16 ==> a[i] == v)
    &&& (n.left matches Some(l) ==> forall|i: int| 0 <= i < 16 ==> l[i] == v)
    &&& (n.corner matches Some(c) ==> c == v)
    &&& (n.above is Some || n.left is Some)
}

/// On a constant neighbourhood of sample values every 16×16 mode
/// reproduces the constant over the whole macroblock.
pub proof fn lemma_flat_neighbours_predict_flat16(mode: u8, n: Neighbors16, v: int)
    requires
        flat16(n, v),
        0 <= v <= 255,
    ensures
        forall|k: int| 0 <= k < 256 ==> #[trigger] spec_predict16(mode, n)[k] == v,
{
    assert(spec_luma16_dc(n) == v) by {
        if let Some(a) = n.above {
            lemma_sum_prefix_flat(a@, 16, v);
        }
        if let Some(l) = n.left {
            lemma_sum_prefix_flat(l@, 16, v);
        }
    }
    if spec_allowed16(mode, n) && mode == I16_PLANE {
        let a = n.above.unwrap();
        let l = n.left.unwrap();
        lemma_plane_sum_flat(a@, n.corner.unwrap() as int, 8, 8, v);
        lemma_plane_sum_flat(l@, n.corner.unwrap() as int, 8, 8, v);
        assert forall|x: int, y: int| 0 <= x < 16 && 0 <= y < 16 implies #[trigger] spec_plane16_at(n, x, y) == v by {
            assert(16 * (l[15] + a[15]) == 32 * v);
            assert((32 * v + 0 * (x - 7) + 0 * (y - 7) + 16) / 32 == v) by (nonlinear_arith)
                requires
                    0 <= v <= 255,
            ;
        }
    }
    assert forall|k: int| 0 <= k < 256 implies #[trigger] spec_predict16(mode, n)[k] == v by {
        if spec_allowed16(mode, n) && mode != I16_DC {
            assert(0 <= k % 16 < 16 && 0 <= k / 16 < 16);
            if mode == I16_PLANE {
                assert(spec_plane16_at(n, k % 16, k / 16) == v);
            }
        }
    }
}

/// Intra_16x16 and chroma Vertical copy the sample above each column,
/// Horizontal the sample left of each row (§8.3.3.1–2, §8.3.4.2–3).
pub proof fn lemma_16x16_and_chroma_copy_their_edge(n: Neighbors16, c: NeighborsC)
    ensures
        n.above is Some ==> forall|x: int, y: int|
            0 <= x < 16 && 0 <= y < 16 ==> #[trigger] spec_predict16(I16_VERT, n)[16 * y + x] == n.above.unwrap()[x],
        n.left is Some ==> forall|x: int, y: int|
            0 <= x < 16 && 0 <= y < 16 ==> #[trigger] spec_predict16(I16_HORIZ, n)[16 * y + x] == n.left.unwrap()[y],
        c.above is Some ==> forall|x: int, y: int|
            0 <= x < 8 && 0 <= y < 8 ==> #[trigger] spec_predict_chroma(C_VERT, c)[8 * y + x] == c.above.unwrap()[x],
        c.left is Some ==> forall|x: int, y: int|
            0 <= x < 8 && 0 <= y < 8 ==> #[trigger] spec_predict_chroma(C_HORIZ, c)[8 * y + x] == c.left.unwrap()[y],
{
    assert forall|x: int, y: int| 0 <= x < 16 && 0 <= y < 16 implies #[trigger] spec_predict16(I16_VERT, n)[16 * y
        + x] == spec_predict16(I16_VERT, n)[16 * y + x] && (16 * y + x) % 16 == x && (16 * y + x) / 16 == y by {}
    assert forall|x: int, y: int| 0 <= x < 16 && 0 <= y < 16 implies #[trigger] spec_predict16(I16_HORIZ, n)[16 * y
        + x] == spec_predict16(I16_HORIZ, n)[16 * y + x] && (16 * y + x) % 16 == x && (16 * y + x) / 16 == y by {}
    assert forall|x: int, y: int| 0 <= x < 8 && 0 <= y < 8 implies #[trigger] spec_predict_chroma(C_VERT, c)[8 * y
        + x] == spec_predict_chroma(C_VERT, c)[8 * y + x] && (8 * y + x) % 8 == x && (8 * y + x) / 8 == y by {}
    assert forall|x: int, y: int| 0 <= x < 8 && 0 <= y < 8 implies #[trigger] spec_predict_chroma(C_HORIZ, c)[8 * y
        + x] == spec_predict_chroma(C_HORIZ, c)[8 * y + x] && (8 * y + x) % 8 == x && (8 * y + x) / 8 == y by {}
}

/// Intra_16x16 DC (§8.3.3.3): the rounded mean of the 32 edge samples when
/// both edges are there, of the 16 of one edge when only that one is, 128
/// when neither; every sample of the macroblock gets it.
pub proof fn lemma_16x16_dc_is_the_edge_mean(n: Neighbors16)
    ensures
        forall|k: int|
            0 <= k < 256 ==> #[trigger] spec_predict16(I16_DC, n)[k] == match (n.above, n.left) {
                (Some(a), Some(l)) => (sum_prefix(a@, 16) + sum_prefix(l@, 16) + 16) / 32,
                (Some(a), None) => (sum_prefix(a@, 16) + 8) / 16,
                (None, Some(l)) => (sum_prefix(l@, 16) + 8) / 16,
                (None, None) => 128,
            },
{
}

/// Chroma DC (§8.3.4.1–3) with both edges present: the top-left and
/// bottom-right 4×4 quadrants average the four samples above and the four
/// left of them, the top-right quadrant only the four above it, the
/// bottom-left only the four left of it; every sample of a quadrant gets
/// its value.
pub proof fn lemma_chroma_dc_quadrants_with_both_edges(n: NeighborsC)
    requires
        n.above is Some && n.left is Some,
    ensures
        ({
            let a = n.above.unwrap();
            let l = n.left.unwrap();
            forall|x: int, y: int|
                0 <= x < 8 && 0 <= y < 8 ==> #[trigger] spec_predict_chroma(C_DC, n)[8 * y + x] == if x < 4 && y < 4 {
                    (a[0] + a[1] + a[2] + a[3] + l[0] + l[1] + l[2] + l[3] + 4) / 8
                } else if x >= 4 && y >= 4 {
                    (a[4] + a[5] + a[6] + a[7] + l[4] + l[5] + l[6] + l[7] + 4) / 8
                } else if x >= 4 {
                    (a[4] + a[5] + a[6] + a[7] + 2) / 4
                } else {
                    (l[4] + l[5] + l[6] + l[7] + 2) / 4
                }
        }),
{
    assert forall|x: int, y: int| 0 <= x < 8 && 0 <= y < 8 implies #[trigger] spec_predict_chroma(C_DC, n)[8 * y
        + x] == spec_chroma_dc_quadrant(n, x / 4, y / 4) by {
        assert((8 * y + x) % 8 == x && (8 * y + x) / 8 == y);
    }
}

/// The gradient sum `H` (or `V`) of the 16×16 plane prediction
/// (§8.3.3.4), written out: `Σ (x' + 1)·(e[8 + x'] − e[6 − x'])` over
/// `x' = 0..7`, with the corner standing in for `e[−1]`.
pub open spec fn plane16_gradient(e: [i32; 16], corner: int) -> int {
    1 * (e[8] - e[6]) + 2 * (e[9] - e[5]) + 3 * (e[10] - e[4]) + 4 * (e[11] - e[3]) + 5 * (e[12] - e[2]) + 6 * (
    e[13] - e[1]) + 7 * (e[14] - e[0]) + 8 * (e[15] - corner)
}

/// The gradient sum of the chroma plane prediction (§8.3.4.4), written out:
/// `Σ (x' + 1)·(e[4 + x'] − e[2 − x'])` over `x' = 0..3`.
pub open spec fn plane_c_gradient(e: [i32; 8], corner: int) -> int {
    1 * (e[4] - e[2]) + 2 * (e[5] - e[1]) + 3 * (e[6] - e[0]) + 4 * (e[7] - corner)
}

/// Intra_16x16_Plane (§8.3.3.4): with `H`, `V` the gradient sums of the row
/// above and the column left, `b = (5H + 32) >> 6`, `c = (5V + 32) >> 6`
/// and `a = 16·(p[−1, 15] + p[15, −1])`, sample `(x, y)` is
/// `Clip1((a + b·(x − 7) + c·(y − 7) + 16) >> 5)`.
pub proof fn lemma_plane16_in_standard_terms(n: Neighbors16)
    requires
        n.above is Some && n.left is Some && n.corner is Some,
    ensures
        ({
            let a = n.above.unwrap();
            let l = n.left.unwrap();
            let c = n.corner.unwrap() as int;
            let b = (5 * plane16_gradient(a, c) + 32) / 64;
            let cc = (5 * plane16_gradient(l, c) + 32) / 64;
            forall|x: int, y: int|
                0 <= x < 16 && 0 <= y < 16 ==> #[trigger] spec_predict16(I16_PLANE, n)[16 * y + x] == clamp(
                    (16 * (l[15] + a[15]) + b * (x - 7) + cc * (y - 7) + 16) / 32,
                    0,
                    255,
                )
        }),
{
    let a = n.above.unwrap();
    let l = n.left.unwrap();
    let c = n.corner.unwrap() as int;
    assert(plane_sum(a@, c, 8, 8) == plane16_gradient(a, c)) by {
        reveal_with_fuel(plane_sum, 9);
    }
    assert(plane_sum(l@, c, 8, 8) == plane16_gradient(l, c)) by {
        reveal_with_fuel(plane_sum, 9);
    }
    assert forall|x: int, y: int| 0 <= x < 16 && 0 <= y < 16 implies #[trigger] spec_predict16(I16_PLANE, n)[16
        * y + x] == spec_plane16_at(n, x, y) by {
        assert((16 * y + x) % 16 == x && (16 * y + x) / 16 == y);
    }
}

/// Chroma plane prediction (§8.3.4.4): with `H`, `V` the gradient sums,
/// `b = (34H + 32) >> 6`, `c = (34V + 32) >> 6` and
/// `a = 16·(p[−1, 7] + p[7, −1])`, sample `(x, y)` is
/// `Clip1((a + b·(x − 3) + c·(y − 3) + 16) >> 5)`.
pub proof fn lemma_plane_chroma_in_standard_terms(n: NeighborsC)
    requires
        n.above is Some && n.left is Some && n.corner is Some,
    ensures
        ({
            let a = n.above.unwrap();
            let l = n.left.unwrap();
            let c = n.corner.unwrap() as int;
            let b = (34 * plane_c_gradient(a, c) + 32) / 64;
            let cc = (34 * plane_c_gradient(l, c) + 32) / 64;
            forall|x: int, y: int|
                0 <= x < 8 && 0 <= y < 8 ==> #[trigger] spec_predict_chroma(C_PLANE, n)[8 * y + x] == clamp(
                    (16 * (l[7] + a[7]) + b * (x - 3) + cc * (y - 3) + 16) / 32,
                    0,
                    255,
                )
        }),
{
    let a = n.above.unwrap();
    let l = n.left.unwrap();
    let c = n.corner.unwrap() as int;
    assert(plane_sum(a@, c, 4, 4) == plane_c_gradient(a, c)) by {
        reveal_with_fuel(plane_sum, 5);
    }
    assert(plane_sum(l@, c, 4, 4) == plane_c_gradient(l, c)) by {
        reveal_with_fuel(plane_sum, 5);
    }
    assert forall|x: int, y: int| 0 <= x < 8 && 0 <= y < 8 implies #[trigger] spec_predict_chroma(C_PLANE, n)[8 * y
        + x] == spec_plane_c_at(n, x, y) by {
        assert((8 * y + x) % 8 == x && (8 * y + x) / 8 == y);
    }
}

/// The DC value of one chroma quadrant.
fn chroma_dc_value(n: &NeighborsC, bx: usize, by: usize) -> (v: i32)
    requires
        neighbors_c_ok(*n),
        bx < 2,
        by < 2,
    ensures
        v == spec_chroma_dc_quadrant(*n, bx as int, by as int),
{
    proof {
        lemma2_to64();
    }
    let a = match n.above {
        Some(a) => Some(a[bx * 4] + a[bx * 4 + 1] + a[bx * 4 + 2] + a[bx * 4 + 3]),
        None => None,
    };
    let l = match n.left {
        Some(l) => Some(l[by * 4] + l[by * 4 + 1] + l[by * 4 + 2] + l[by * 4 + 3]),
        None => None,
    };
    if (bx == 0 && by == 0) || (bx == 1 && by == 1) {
        match (a, l) {
            (Some(a), Some(l)) => shr_floor(a + l + 4, 3),
            (Some(a), None) => shr_floor(a + 2, 2),
            (None, Some(l)) => shr_floor(l + 2, 2),
            (None, None) => 128,
        }
    } else if bx == 1 && by == 0 {
        match (a, l) {
            (Some(a), _) => shr_floor(a + 2, 2),
            (None, Some(l)) => shr_floor(l + 2, 2),
            (None, None) => 128,
        }
    } else {
        match (l, a) {
            (Some(l), _) => shr_floor(l + 2, 2),
            (None, Some(a)) => shr_floor(a + 2, 2),
            (None, None) => 128,
        }
    }
}

/// Chroma DC (§8.3.4.1): each 4×4 quadrant has its own averaging rule.
pub fn chroma_dc(n: &NeighborsC) -> (p: [i32; 64])
    requires
        neighbors_c_ok(*n),
    ensures
        forall|k: int|
            0 <= k < 64 ==> p[k] == #[trigger] spec_chroma_dc_quadrant(*n, (k % 8) / 4, (k / 8) / 4),
{
    let mut p = [0i32; 64];
    for k in 0..64usize
        invariant
            neighbors_c_ok(*n),
            forall|j: int|
                0 <= j < k ==> p[j] == #[trigger] spec_chroma_dc_quadrant(*n, (j % 8) / 4, (j / 8) / 4),
    {
        p[k] = chroma_dc_value(n, (k % 8) / 4, (k / 8) / 4);
    }
    p
}

/// Predict an 8×8 chroma block (§8.3.4). Row-major, 64 samples.
pub fn predict_chroma(mode: u8, n: &NeighborsC) -> (p: [i32; 64])
    requires
        neighbors_c_ok(*n),
    ensures
        forall|k: int| 0 <= k < 64 ==> p[k] == #[trigger] spec_predict_chroma(mode, *n)[k],
{
    if !chroma_allowed(mode, n) || mode == C_DC {
        return chroma_dc(n);
    }
    let mut p = [0i32; 64];
    if mode == C_HORIZ {
        let l = n.left.unwrap();
        for k in 0..64usize
            invariant
                n.left == Some(l),
                mode == C_HORIZ,
                spec_chroma_allowed(mode, *n),
                forall|j: int| 0 <= j < k ==> p[j] == #[trigger] spec_predict_chroma(mode, *n)[j],
        {
            p[k] = l[k / 8];
        }
    } else if mode == C_VERT {
        let a = n.above.unwrap();
        for k in 0..64usize
            invariant
                n.above == Some(a),
                mode == C_VERT,
                spec_chroma_allowed(mode, *n),
                forall|j: int| 0 <= j < k ==> p[j] == #[trigger] spec_predict_chroma(mode, *n)[j],
        {
            p[k] = a[k % 8];
        }
    } else {
        let (a, l, c) = (n.above.unwrap(), n.left.unwrap(), n.corner.unwrap());
        let hh = plane_sum_exec(&a, c, 4);
        let vv = plane_sum_exec(&l, c, 4);
        let a0 = 16 * (l[7] + a[7]);
        proof {
            lemma2_to64();
        }
        let b = shr_floor(34 * hh + 32, 6);
        let cc = shr_floor(34 * vv + 32, 6);
        for k in 0..64usize
            invariant
                n.above == Some(a),
                n.left == Some(l),
                n.corner == Some(c),
                mode == C_PLANE,
                spec_chroma_allowed(mode, *n),
                hh == plane_sum(a@, c as int, 4, 4),
                vv == plane_sum(l@, c as int, 4, 4),
                a0 == 16 * (l[7] + a[7]),
                b == (34 * hh + 32) / 64,
                cc == (34 * vv + 32) / 64,
                -64 * SAMPLE_BOUND <= a0 <= 64 * SAMPLE_BOUND,
                -32 * SAMPLE_BOUND <= b <= 32 * SAMPLE_BOUND,
                -32 * SAMPLE_BOUND <= cc <= 32 * SAMPLE_BOUND,
                forall|j: int| 0 <= j < k ==> p[j] == #[trigger] spec_predict_chroma(mode, *n)[j],
        {
            p[k] = plane_sample(a0, b, cc, (k % 8) as i32 - 3, (k / 8) as i32 - 3);
        }
    }
    p
}

} // verus!
