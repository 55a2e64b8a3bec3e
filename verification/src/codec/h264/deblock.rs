//! The H.264 in-loop deblocking filter (§8.7), for all-intra pictures.
//!
//! Block-transform coding leaves discontinuities at block edges; the filter
//! smooths them, with a strength that depends on the quantizer — at low QP
//! the thresholds are zero and nothing happens at all.
//!
//! Scope: one slice per picture, every macroblock intra, filter offsets zero.
//! That fixes the boundary strength at 4 on macroblock edges and 3 inside them
//! (§8.7.2.1).
//!
//! The model: a plane is the sequence of its samples, and filtering is a fold
//! — macroblocks in raster order, within each every vertical edge before any
//! horizontal one, and within an edge its lines in order, each step reading
//! what the previous step wrote. The order is normative.

use crate::codec::h264::deblock_tables::{ALPHA, BETA, TC0};
use crate::num::{abs, clamp, clamp_i32, clip_u8, shr_floor};
use vstd::arithmetic::power2::{lemma2_to64, pow2};
use vstd::prelude::*;

verus! {

/// Boundary strength on an edge between two intra blocks: 4 across a macroblock
/// edge, 3 within one.
pub const BS_MB_EDGE: usize = 4;

/// Boundary strength inside an intra macroblock.
pub const BS_INTERNAL: usize = 3;

/// A sample value clipped to 8 bits.
pub open spec fn clip1(v: int) -> u8 {
    clamp(v, 0, 255) as u8
}

/// Sample `i` of the line whose `q0` is at `o`, `step` apart across the edge;
/// negative `i` reaches the `p` side.
pub open spec fn tap(plane: Seq<u8>, o: int, step: int, i: int) -> int {
    plane[o + i * step] as int
}

/// `indexA` (= `indexB`, offsets being zero) for an edge between blocks at
/// the two quantizers: their rounded average, kept in `0..=51`.
pub open spec fn edge_index(qp_p: int, qp_q: int) -> int {
    clamp((qp_p + qp_q + 1) / 2, 0, 51)
}

/// Whether the samples across the edge look like a coding artefact rather than
/// real structure: a small step across it, flanked by two flat sides
/// (§8.7.2.2).
pub open spec fn line_filtered(plane: Seq<u8>, o: int, step: int, idx: int) -> bool {
    let alpha = ALPHA[idx] as int;
    let beta = BETA[idx] as int;
    let p0 = tap(plane, o, step, -1);
    let p1 = tap(plane, o, step, -2);
    let q0 = tap(plane, o, step, 0);
    let q1 = tap(plane, o, step, 1);
    abs(p0 - q0) < alpha && abs(p1 - p0) < beta && abs(q1 - q0) < beta
}

/// `tC` (§8.7.2.3): `tC0`, widened by one for chroma, and for luma by one
/// per flat side.
pub open spec fn normal_tc(tc0: int, chroma: bool, p_flat: bool, q_flat: bool) -> int {
    if chroma {
        tc0 + 1
    } else {
        tc0 + (if p_flat {
            1int
        } else {
            0int
        }) + (if q_flat {
            1int
        } else {
            0int
        })
    }
}

/// The correction applied to `p0` (and taken from `q0`), limited to `±tc`.
pub open spec fn edge_delta(p1: int, p0: int, q0: int, q1: int, tc: int) -> int {
    clamp((4 * (q0 - p0) + (p1 - q1) + 4) / 8, -tc, tc)
}

/// The correction applied to `p1` (or `q1`) on a flat side, limited to
/// `±tc0`; `x2`, `x1` are that side's second and third samples from the edge.
pub open spec fn side_delta(x2: int, x1: int, p0: int, q0: int, tc0: int) -> int {
    clamp((x2 + (p0 + q0 + 1) / 2 - 2 * x1) / 2, -tc0, tc0)
}

/// The filter for `bS < 4` (§8.7.2.3): a clipped correction of the two
/// samples at the edge, and for luma of `p1` / `q1` where that side is flat.
pub open spec fn normal_filter(plane: Seq<u8>, o: int, step: int, bs: int, idx: int, chroma: bool) -> Seq<u8> {
    let beta = BETA[idx] as int;
    let p0 = tap(plane, o, step, -1);
    let p1 = tap(plane, o, step, -2);
    let p2 = tap(plane, o, step, -3);
    let q0 = tap(plane, o, step, 0);
    let q1 = tap(plane, o, step, 1);
    let q2 = tap(plane, o, step, 2);
    let p_flat = abs(p2 - p0) < beta;
    let q_flat = abs(q2 - q0) < beta;
    let tc0 = TC0[idx][bs] as int;
    let delta = edge_delta(p1, p0, q0, q1, normal_tc(tc0, chroma, p_flat, q_flat));
    let s1 = plane.update(o - step, clip1(p0 + delta)).update(o, clip1(q0 - delta));
    let s2 = if !chroma && p_flat {
        s1.update(o - 2 * step, clip1(p1 + side_delta(p2, p1, p0, q0, tc0)))
    } else {
        s1
    };
    if !chroma && q_flat {
        s2.update(o + step, clip1(q1 + side_delta(q2, q1, p0, q0, tc0)))
    } else {
        s2
    }
}

/// One side of the `bS == 4` filter: `x0..x3` are this side's samples from
/// the edge outwards, at positions `a0, a1, a2, ..`, and `y0, y1` the other
/// side's. Where the side is flat and the step small (`strong`), three
/// samples are smoothed; otherwise only the one at the edge.
pub open spec fn strong_side(
    plane: Seq<u8>,
    a0: int,
    a1: int,
    a2: int,
    x0: int,
    x1: int,
    x2: int,
    x3: int,
    y0: int,
    y1: int,
    strong: bool,
) -> Seq<u8> {
    if strong {
        plane.update(a0, clip1((x2 + 2 * x1 + 2 * x0 + 2 * y0 + y1 + 4) / 8)).update(
            a1,
            clip1((x2 + x1 + x0 + y0 + 2) / 4),
        ).update(a2, clip1((2 * x3 + 3 * x2 + x1 + x0 + y0 + 4) / 8))
    } else {
        plane.update(a0, clip1((2 * x1 + x0 + y1 + 2) / 4))
    }
}

/// The filter for `bS == 4` (§8.7.2.4): across a macroblock edge up to three
/// luma samples a side may move where the side is flat and the step small.
pub open spec fn strong_filter(plane: Seq<u8>, o: int, step: int, idx: int, chroma: bool) -> Seq<u8> {
    let alpha = ALPHA[idx] as int;
    let beta = BETA[idx] as int;
    let p0 = tap(plane, o, step, -1);
    let p1 = tap(plane, o, step, -2);
    let p2 = tap(plane, o, step, -3);
    let p3 = tap(plane, o, step, -4);
    let q0 = tap(plane, o, step, 0);
    let q1 = tap(plane, o, step, 1);
    let q2 = tap(plane, o, step, 2);
    let q3 = tap(plane, o, step, 3);
    let small = abs(p0 - q0) < alpha / 4 + 2;
    let s1 = strong_side(
        plane,
        o - step,
        o - 2 * step,
        o - 3 * step,
        p0,
        p1,
        p2,
        p3,
        q0,
        q1,
        !chroma && abs(p2 - p0) < beta && small,
    );
    strong_side(s1, o, o + step, o + 2 * step, q0, q1, q2, q3, p0, p1, !chroma && abs(q2 - q0) < beta && small)
}

/// One line across an edge.
pub open spec fn filter_line(plane: Seq<u8>, o: int, step: int, bs: int, idx: int, chroma: bool) -> Seq<u8> {
    if !line_filtered(plane, o, step, idx) {
        plane
    } else if bs < 4 {
        normal_filter(plane, o, step, bs, idx, chroma)
    } else {
        strong_filter(plane, o, step, idx, chroma)
    }
}

/// The first `n` lines of an edge; line `k` has its `q0` at `base + k * along`.
pub open spec fn filter_lines(
    plane: Seq<u8>,
    base: int,
    step: int,
    along: int,
    n: int,
    bs: int,
    idx: int,
    chroma: bool,
) -> Seq<u8>
    decreases n,
{
    if n <= 0 {
        plane
    } else {
        filter_line(
            filter_lines(plane, base, step, along, n - 1, bs, idx, chroma),
            base + (n - 1) * along,
            step,
            bs,
            idx,
            chroma,
        )
    }
}

/// One edge of `len` lines whose first `q0` is at `(x, y)` in a plane `w`
/// samples wide; untouched where `alpha` is zero.
pub open spec fn filter_edge_spec(
    plane: Seq<u8>,
    w: int,
    x: int,
    y: int,
    step: int,
    along: int,
    len: int,
    bs: int,
    qp_p: int,
    qp_q: int,
    chroma: bool,
) -> Seq<u8> {
    let idx = edge_index(qp_p, qp_q);
    if ALPHA[idx] == 0 {
        plane
    } else {
        filter_lines(plane, y * w + x, step, along, len, bs, idx, chroma)
    }
}

/// Edge `e` (`0` is the macroblock edge) of the `size`×`size` block at
/// `(mbx, mby)`, vertical or horizontal. The macroblock edge is skipped at the
/// picture border, where there is no neighbour (`nbr` is `None`).
pub open spec fn mb_edge(
    plane: Seq<u8>,
    w: int,
    size: int,
    vertical: bool,
    mbx: int,
    mby: int,
    e: int,
    here: int,
    nbr: Option<i32>,
    chroma: bool,
) -> Seq<u8> {
    if e == 0 && nbr is None {
        plane
    } else {
        let bs = if e == 0 {
            4int
        } else {
            3int
        };
        let qp_p = if e == 0 {
            nbr->0 as int
        } else {
            here
        };
        if vertical {
            filter_edge_spec(plane, w, size * mbx + 4 * e, size * mby, 1, w, size, bs, qp_p, here, chroma)
        } else {
            filter_edge_spec(plane, w, size * mbx, size * mby + 4 * e, w, 1, size, bs, qp_p, here, chroma)
        }
    }
}

/// Edges `0..n` of a block in one direction.
pub open spec fn mb_edges(
    plane: Seq<u8>,
    w: int,
    size: int,
    vertical: bool,
    mbx: int,
    mby: int,
    n: int,
    here: int,
    nbr: Option<i32>,
    chroma: bool,
) -> Seq<u8>
    decreases n,
{
    if n <= 0 {
        plane
    } else {
        mb_edge(
            mb_edges(plane, w, size, vertical, mbx, mby, n - 1, here, nbr, chroma),
            w,
            size,
            vertical,
            mbx,
            mby,
            n - 1,
            here,
            nbr,
            chroma,
        )
    }
}

/// One macroblock's share of a plane: its vertical edges left to right, then
/// its horizontal edges top to bottom.
pub open spec fn filter_mb_spec(
    plane: Seq<u8>,
    w: int,
    size: int,
    mbx: int,
    mby: int,
    here: int,
    left: Option<i32>,
    above: Option<i32>,
    chroma: bool,
) -> Seq<u8> {
    let v = mb_edges(plane, w, size, true, mbx, mby, size / 4, here, left, chroma);
    mb_edges(v, w, size, false, mbx, mby, size / 4, here, above, chroma)
}

/// The quantizer of the macroblock at `(mbx, mby)` and of its left and upper
/// neighbours where they exist.
pub open spec fn mb_qps(q: Seq<i32>, mbw: int, mbx: int, mby: int) -> (int, Option<i32>, Option<i32>) {
    let i = mby * mbw + mbx;
    (
        q[i] as int,
        if mbx > 0 {
            Some(q[i - 1])
        } else {
            None
        },
        if mby > 0 {
            Some(q[i - mbw])
        } else {
            None
        },
    )
}

/// The first `n` macroblocks of row `mby`.
pub open spec fn filter_row(
    plane: Seq<u8>,
    w: int,
    size: int,
    mbw: int,
    q: Seq<i32>,
    mby: int,
    n: int,
    chroma: bool,
) -> Seq<u8>
    decreases n,
{
    if n <= 0 {
        plane
    } else {
        let (here, left, above) = mb_qps(q, mbw, n - 1, mby);
        filter_mb_spec(
            filter_row(plane, w, size, mbw, q, mby, n - 1, chroma),
            w,
            size,
            n - 1,
            mby,
            here,
            left,
            above,
            chroma,
        )
    }
}

/// The first `rows` macroblock rows of a plane, `mbw` macroblocks each, `q`
/// the quantizers in raster order.
pub open spec fn filter_plane(
    plane: Seq<u8>,
    w: int,
    size: int,
    mbw: int,
    q: Seq<i32>,
    rows: int,
    chroma: bool,
) -> Seq<u8>
    decreases rows,
{
    if rows <= 0 {
        plane
    } else {
        filter_row(filter_plane(plane, w, size, mbw, q, rows - 1, chroma), w, size, mbw, q, rows - 1, mbw, chroma)
    }
}

/// Whether a plane `w` samples wide holds `mbw`×`mbh` blocks of `size`.
pub open spec fn plane_holds(len: int, w: int, size: int, mbw: int, mbh: int) -> bool {
    size * mbw <= w && (mbw == 0 || mbh == 0 || (size * mbh - 1) * w + size * mbw <= len)
}


/// Table ranges the filter arithmetic relies on.
proof fn lemma_tables(idx: int, bs: int)
    requires
        0 <= idx < 52,
        0 <= bs < 4,
    ensures
        0 <= ALPHA[idx] <= 255,
        0 <= BETA[idx] <= 18,
        0 <= TC0[idx][bs] <= 25,
{
}

/// The `bS < 4` filter smooths a step, luma or chroma: across an edge with
/// flat sides (`p1 = p0 < q0 = q1`) `p0` never moves down and `q0` never
/// up, and the step between them never widens. Exactly, `p0' = Clip1(p0 + Δ)`
/// and `q0' = Clip1(q0 − Δ)` with
/// `Δ = Clip3(−tC, tC, (((q0 − p0) << 2) + (p1 − q1) + 4) >> 3)` (§8.7.2.3).
pub proof fn lemma_normal_filter_smooths_a_step(plane: Seq<u8>, o: int, step: int, bs: int, idx: int, chroma: bool)
    requires
        step >= 1,
        o - 3 * step >= 0,
        o + 2 * step < plane.len(),
        0 <= idx < 52,
        0 <= bs < 4,
        plane[o - 2 * step] == plane[o - step],
        plane[o + step] == plane[o],
        plane[o - step] < plane[o],
    ensures
        ({
            let r = normal_filter(plane, o, step, bs, idx, chroma);
            let p0 = plane[o - step] as int;
            let q0 = plane[o] as int;
            &&& r[o - step] >= p0
            &&& r[o] <= q0
            &&& abs(r[o] - r[o - step]) <= q0 - p0
            &&& chroma && q0 - p0 >= 2 ==> r[o - step] > p0 && r[o] < q0
        }),
{
    lemma_tables(idx, bs);
    let beta = BETA[idx] as int;
    let p0 = tap(plane, o, step, -1);
    let p1 = tap(plane, o, step, -2);
    let p2 = tap(plane, o, step, -3);
    let q0 = tap(plane, o, step, 0);
    let q1 = tap(plane, o, step, 1);
    let q2 = tap(plane, o, step, 2);
    assert(p0 == plane[o - step] && p1 == plane[o - 2 * step] && q0 == plane[o as int] && q1 == plane[o + step]);
    let p_flat = abs(p2 - p0) < beta;
    let q_flat = abs(q2 - q0) < beta;
    let tc0 = TC0[idx][bs] as int;
    let tc = normal_tc(tc0, chroma, p_flat, q_flat);
    assert(tc >= 0);
    assert(chroma ==> tc >= 1);
    let delta = edge_delta(p1, p0, q0, q1, tc);
    assert((4 * (q0 - p0) + (p1 - q1) + 4) / 8 == (3 * (q0 - p0) + 4) / 8);
    assert(0 <= delta <= (q0 - p0 + 1) / 2);
    assert(chroma && q0 - p0 >= 2 ==> delta >= 1);
    assert(clip1(p0 + delta) as int == p0 + delta);
    assert(clip1(q0 - delta) as int == q0 - delta);
    let r = normal_filter(plane, o, step, bs, idx, chroma);
    assert(r[o - step] == clip1(p0 + delta));
    assert(r[o] == clip1(q0 - delta));
}

/// The `bS == 4` filter smooths a step too: across an edge with flat sides
/// (`p3 = .. = p0 < q0 = .. = q3`) `p0` never moves down, `q0` never up,
/// the step between them never widens, and the six samples it may write
/// stay in order between `p0` and `q0`.
pub proof fn lemma_strong_filter_smooths_a_step(plane: Seq<u8>, o: int, step: int, idx: int, chroma: bool)
    requires
        step >= 1,
        o - 4 * step >= 0,
        o + 3 * step < plane.len(),
        0 <= idx < 52,
        plane[o - 4 * step] == plane[o - step],
        plane[o - 3 * step] == plane[o - step],
        plane[o - 2 * step] == plane[o - step],
        plane[o + step] == plane[o],
        plane[o + 2 * step] == plane[o],
        plane[o + 3 * step] == plane[o],
        plane[o - step] < plane[o],
    ensures
        ({
            let r = strong_filter(plane, o, step, idx, chroma);
            let p0 = plane[o - step] as int;
            let q0 = plane[o] as int;
            &&& r[o - step] >= p0
            &&& r[o] <= q0
            &&& abs(r[o] - r[o - step]) <= q0 - p0
            &&& p0 <= r[o - 3 * step] <= r[o - 2 * step] <= r[o - step] <= r[o] <= r[o + step] <= r[o + 2 * step] <= q0
        }),
{
    lemma_tables(idx, 0);
    assert(tap(plane, o, step, -1) == plane[o - step] && tap(plane, o, step, -2) == plane[o - 2 * step]);
    assert(tap(plane, o, step, -3) == plane[o - 3 * step] && tap(plane, o, step, -4) == plane[o - 4 * step]);
    assert(tap(plane, o, step, 0) == plane[o as int] && tap(plane, o, step, 1) == plane[o + step]);
    assert(tap(plane, o, step, 2) == plane[o + 2 * step] && tap(plane, o, step, 3) == plane[o + 3 * step]);
}

/// `|v|` for a difference of samples.
fn abs_i32(v: i32) -> (r: i32)
    requires
        v > i32::MIN,
    ensures
        r == abs(v as int),
{
    if v < 0 {
        -v
    } else {
        v
    }
}

/// The taps of a line are the values at their positions.
pub open spec fn taps_are(s: Seq<u8>, o: int, step: int, t: [i32; 8]) -> bool {
    forall|i: int| 0 <= i < 8 ==> #[trigger] t[i] == tap(s, o, step, i - 4)
}

fn edge_delta_at(p1: i32, p0: i32, q0: i32, q1: i32, tc: i32) -> (r: i32)
    requires
        0 <= tc <= 27,
        0 <= p1 <= 255,
        0 <= p0 <= 255,
        0 <= q0 <= 255,
        0 <= q1 <= 255,
    ensures
        r == edge_delta(p1 as int, p0 as int, q0 as int, q1 as int, tc as int),
{
    proof {
        lemma2_to64();
    }
    clamp_i32(shr_floor((q0 - p0) * 4 + (p1 - q1) + 4, 3), -tc, tc)
}

fn side_delta_at(x2: i32, x1: i32, p0: i32, q0: i32, tc0: i32) -> (r: i32)
    requires
        0 <= tc0 <= 25,
        0 <= x2 <= 255,
        0 <= x1 <= 255,
        0 <= p0 <= 255,
        0 <= q0 <= 255,
    ensures
        r == side_delta(x2 as int, x1 as int, p0 as int, q0 as int, tc0 as int),
{
    proof {
        lemma2_to64();
    }
    let avg = shr_floor(p0 + q0 + 1, 1);
    clamp_i32(shr_floor(x2 + avg - x1 * 2, 1), -tc0, tc0)
}

/// The `bS < 4` filter of one line whose taps `p3..p0 q0..q3` were read.
fn normal_at(plane: &mut [u8], o: usize, step: usize, bs: usize, idx: usize, chroma: bool, t: [i32; 8])
    requires
        idx < 52,
        bs == 3,
        step >= 1,
        o >= 4 * step,
        o + 3 * step < old(plane)@.len(),
        taps_are(old(plane)@, o as int, step as int, t),
    ensures
        final(plane)@ == normal_filter(old(plane)@, o as int, step as int, bs as int, idx as int, chroma),
{
    let ghost s = plane@;
    proof {
        lemma_tables(idx as int, bs as int);
        assert(t[1] == tap(s, o as int, step as int, -3));
        assert(t[2] == tap(s, o as int, step as int, -2));
        assert(t[3] == tap(s, o as int, step as int, -1));
        assert(t[4] == tap(s, o as int, step as int, 0));
        assert(t[5] == tap(s, o as int, step as int, 1));
        assert(t[6] == tap(s, o as int, step as int, 2));
    }
    let (p2, p1, p0, q0, q1, q2) = (t[1], t[2], t[3], t[4], t[5], t[6]);
    let beta = BETA[idx];
    let p_flat = abs_i32(p2 - p0) < beta;
    let q_flat = abs_i32(q2 - q0) < beta;
    let tc0 = TC0[idx][bs];
    let tc = if chroma {
        tc0 + 1
    } else {
        tc0 + (if p_flat {
            1i32
        } else {
            0i32
        }) + (if q_flat {
            1i32
        } else {
            0i32
        })
    };
    assert(tc == normal_tc(tc0 as int, chroma, p_flat, q_flat));
    let delta = edge_delta_at(p1, p0, q0, q1, tc);
    plane[o - step] = clip_u8(p0 + delta);
    plane[o] = clip_u8(q0 - delta);
    if !chroma && p_flat {
        let d = side_delta_at(p2, p1, p0, q0, tc0);
        plane[o - 2 * step] = clip_u8(p1 + d);
    }
    if !chroma && q_flat {
        let d = side_delta_at(q2, q1, p0, q0, tc0);
        plane[o + step] = clip_u8(q1 + d);
    }
    proof {
        assert(plane@ =~= normal_filter(s, o as int, step as int, bs as int, idx as int, chroma));
    }
}

/// One side of the `bS == 4` filter, in place.
fn strong_side_at(
    plane: &mut [u8],
    a0: usize,
    a1: usize,
    a2: usize,
    x: (i32, i32, i32, i32),
    y0: i32,
    y1: i32,
    strong: bool,
)
    requires
        a0 < old(plane)@.len(),
        a1 < old(plane)@.len(),
        a2 < old(plane)@.len(),
        0 <= x.0 <= 255,
        0 <= x.1 <= 255,
        0 <= x.2 <= 255,
        0 <= x.3 <= 255,
        0 <= y0 <= 255,
        0 <= y1 <= 255,
    ensures
        final(plane)@ == strong_side(
            old(plane)@,
            a0 as int,
            a1 as int,
            a2 as int,
            x.0 as int,
            x.1 as int,
            x.2 as int,
            x.3 as int,
            y0 as int,
            y1 as int,
            strong,
        ),
{
    proof {
        lemma2_to64();
    }
    let (x0, x1, x2, x3) = x;
    if strong {
        plane[a0] = clip_u8(shr_floor(x2 + 2 * x1 + 2 * x0 + 2 * y0 + y1 + 4, 3));
        plane[a1] = clip_u8(shr_floor(x2 + x1 + x0 + y0 + 2, 2));
        plane[a2] = clip_u8(shr_floor(2 * x3 + 3 * x2 + x1 + x0 + y0 + 4, 3));
    } else {
        plane[a0] = clip_u8(shr_floor(2 * x1 + x0 + y1 + 2, 2));
    }
}

/// The `bS == 4` filter of one line whose taps `p3..p0 q0..q3` were read.
fn strong_at(plane: &mut [u8], o: usize, step: usize, idx: usize, chroma: bool, t: [i32; 8])
    requires
        idx < 52,
        step >= 1,
        o >= 4 * step,
        o + 3 * step < old(plane)@.len(),
        taps_are(old(plane)@, o as int, step as int, t),
    ensures
        final(plane)@ == strong_filter(old(plane)@, o as int, step as int, idx as int, chroma),
{
    let ghost s = plane@;
    proof {
        lemma_tables(idx as int, 0);
        assert(t[0] == tap(s, o as int, step as int, -4));
        assert(t[1] == tap(s, o as int, step as int, -3));
        assert(t[2] == tap(s, o as int, step as int, -2));
        assert(t[3] == tap(s, o as int, step as int, -1));
        assert(t[4] == tap(s, o as int, step as int, 0));
        assert(t[5] == tap(s, o as int, step as int, 1));
        assert(t[6] == tap(s, o as int, step as int, 2));
        assert(t[7] == tap(s, o as int, step as int, 3));
    }
    let (p3, p2, p1, p0, q0, q1, q2, q3) = (t[0], t[1], t[2], t[3], t[4], t[5], t[6], t[7]);
    let alpha = ALPHA[idx];
    let beta = BETA[idx];
    let small = abs_i32(p0 - q0) < alpha / 4 + 2;
    let p_strong = !chroma && abs_i32(p2 - p0) < beta && small;
    let q_strong = !chroma && abs_i32(q2 - q0) < beta && small;
    let len = plane.len();
    assert(o + 3 * step < len);
    let (b1, b2) = (o + step, o + 2 * step);
    strong_side_at(plane, o - step, o - 2 * step, o - 3 * step, (p0, p1, p2, p3), q0, q1, p_strong);
    strong_side_at(plane, o, b1, b2, (q0, q1, q2, q3), p0, p1, q_strong);
}

/// Filter one line across an edge in place.
fn filter_line_at(plane: &mut [u8], o: usize, step: usize, bs: usize, idx: usize, chroma: bool)
    requires
        idx < 52,
        bs == 3 || bs == 4,
        step >= 1,
        o >= 4 * step,
        o + 3 * step < old(plane)@.len(),
    ensures
        final(plane)@ == filter_line(old(plane)@, o as int, step as int, bs as int, idx as int, chroma),
{
    let ghost s = plane@;
    proof {
        lemma_tables(idx as int, 0);
    }
    let t: [i32; 8] = [
        plane[o - 4 * step] as i32,
        plane[o - 3 * step] as i32,
        plane[o - 2 * step] as i32,
        plane[o - step] as i32,
        plane[o] as i32,
        plane[o + step] as i32,
        plane[o + 2 * step] as i32,
        plane[o + 3 * step] as i32,
    ];
    proof {
        assert forall|i: int| 0 <= i < 8 implies #[trigger] t[i] == tap(s, o as int, step as int, i - 4) by {
            assert(o + (i - 4) * step == o - 4 * step + i * step) by (nonlinear_arith);
            if i == 0 {
            } else if i == 1 {
                assert(o + (i - 4) * step == o - 3 * step);
            } else if i == 2 {
                assert(o + (i - 4) * step == o - 2 * step);
            } else if i == 3 {
                assert(o + (i - 4) * step == o - step);
            } else if i == 4 {
            } else if i == 5 {
            } else if i == 6 {
                assert(o + (i - 4) * step == o + 2 * step);
            } else {
                assert(o + (i - 4) * step == o + 3 * step);
            }
        }
        assert(t[3] == tap(s, o as int, step as int, -1));
        assert(t[2] == tap(s, o as int, step as int, -2));
        assert(t[4] == tap(s, o as int, step as int, 0));
        assert(t[5] == tap(s, o as int, step as int, 1));
    }
    let alpha = ALPHA[idx];
    let beta = BETA[idx];
    if abs_i32(t[3] - t[4]) >= alpha || abs_i32(t[2] - t[3]) >= beta || abs_i32(t[5] - t[4]) >= beta {
        return;
    }
    if bs < 4 {
        normal_at(plane, o, step, bs, idx, chroma, t);
    } else {
        strong_at(plane, o, step, idx, chroma, t);
    }
}


/// Filtering a line keeps the plane's size.
proof fn lemma_filter_line_len(plane: Seq<u8>, o: int, step: int, bs: int, idx: int, chroma: bool)
    requires
        step >= 1,
        o >= 4 * step,
        o + 3 * step < plane.len(),
    ensures
        filter_line(plane, o, step, bs, idx, chroma).len() == plane.len(),
{
}

/// Filtering lines keeps the plane's size.
proof fn lemma_filter_lines_len(
    plane: Seq<u8>,
    base: int,
    step: int,
    along: int,
    n: int,
    bs: int,
    idx: int,
    chroma: bool,
)
    requires
        step >= 1,
        along >= 0,
        base >= 4 * step,
        n >= 1 ==> base + (n - 1) * along + 3 * step < plane.len(),
    ensures
        filter_lines(plane, base, step, along, n, bs, idx, chroma).len() == plane.len(),
    decreases n,
{
    if n > 0 {
        if n > 1 {
            assert((n - 2) * along <= (n - 1) * along) by (nonlinear_arith)
                requires
                    along >= 0,
            ;
        }
        lemma_filter_lines_len(plane, base, step, along, n - 1, bs, idx, chroma);
        assert(0 <= (n - 1) * along) by (nonlinear_arith)
            requires
                along >= 0,
                n >= 1,
        ;
        lemma_filter_line_len(
            filter_lines(plane, base, step, along, n - 1, bs, idx, chroma),
            base + (n - 1) * along,
            step,
            bs,
            idx,
            chroma,
        );
    }
}

/// Filtering an edge keeps the plane's size.
proof fn lemma_filter_edge_len(
    plane: Seq<u8>,
    w: int,
    x: int,
    y: int,
    step: int,
    along: int,
    len: int,
    bs: int,
    qp_p: int,
    qp_q: int,
    chroma: bool,
)
    requires
        step >= 1,
        along >= 0,
        len >= 1,
        y * w + x >= 4 * step,
        y * w + x + (len - 1) * along + 3 * step < plane.len(),
    ensures
        filter_edge_spec(plane, w, x, y, step, along, len, bs, qp_p, qp_q, chroma).len() == plane.len(),
{
    let idx = edge_index(qp_p, qp_q);
    lemma_filter_lines_len(plane, y * w + x, step, along, len, bs, idx, chroma);
}

/// Filter `len` lines of one edge whose first `q0` is at `(x, y)`.
#[verifier::spinoff_prover]
#[verifier::rlimit(40)]
fn filter_edge_at(
    plane: &mut [u8],
    w: usize,
    x: usize,
    y: usize,
    step: usize,
    along: usize,
    len: usize,
    bs: usize,
    qp_p: i32,
    qp_q: i32,
    chroma: bool,
)
    requires
        bs == 3 || bs == 4,
        step >= 1,
        len >= 1,
        y * w + x >= 4 * step,
        y * w + x + (len - 1) * along + 3 * step < old(plane)@.len(),
    ensures
        final(plane)@ == filter_edge_spec(
            old(plane)@,
            w as int,
            x as int,
            y as int,
            step as int,
            along as int,
            len as int,
            bs as int,
            qp_p as int,
            qp_q as int,
            chroma,
        ),
{
    let ghost s = plane@;
    let plen = plane.len();
    let sum: i64 = qp_p as i64 + qp_q as i64 + 1;
    let idx: usize = if sum < 0 {
        0
    } else if sum / 2 > 51 {
        51
    } else {
        (sum / 2) as usize
    };
    assert(idx == edge_index(qp_p as int, qp_q as int));
    if ALPHA[idx] == 0 {
        return;
    }
    let base = y * w + x;
    let mut k: usize = 0;
    while k < len
        invariant
            k <= len,
            idx < 52,
            bs == 3 || bs == 4,
            step >= 1,
            base >= 4 * step,
            base + (len - 1) * along + 3 * step < s.len(),
            plen == s.len(),
            plane@.len() == s.len(),
            plane@ == filter_lines(s, base as int, step as int, along as int, k as int, bs as int, idx as int, chroma),
        decreases len - k,
    {
        assert(k * along <= (len - 1) * along) by (nonlinear_arith)
            requires
                k < len,
        ;
        let o = base + k * along;
        proof {
            lemma_filter_line_len(plane@, o as int, step as int, bs as int, idx as int, chroma);
        }
        filter_line_at(plane, o, step, bs, idx, chroma);
        k = k + 1;
    }
}


/// Whether the `size`×`size` block at `(mbx, mby)` lies inside a plane of
/// `len` samples, `w` wide.
pub open spec fn block_inside(len: int, w: int, size: int, mbx: int, mby: int) -> bool {
    &&& 0 <= mbx
    &&& 0 <= mby
    &&& size * mbx + size <= w
    &&& (size * mby + size - 1) * w + size * mbx + size <= len
}

/// The lines of edge `e` of a block stay inside the plane, four samples
/// reaching either way.
proof fn lemma_edge_geometry(len: int, w: int, size: int, mbx: int, mby: int, e: int, vertical: bool)
    requires
        size == 8 || size == 16,
        block_inside(len, w, size, mbx, mby),
        0 <= e < size / 4,
        vertical ==> e > 0 || mbx > 0,
        !vertical ==> e > 0 || mby > 0,
    ensures
        vertical ==> (size * mby) * w + (size * mbx + 4 * e) >= 4,
        vertical ==> (size * mby) * w + (size * mbx + 4 * e) + (size - 1) * w + 3 < len,
        !vertical ==> (size * mby + 4 * e) * w + size * mbx >= 4 * w,
        !vertical ==> (size * mby + 4 * e) * w + size * mbx + (size - 1) + 3 * w < len,
        size * mby + size <= len,
        w <= len,
{
    assert(w >= 8);
    assert(size * mbx >= 0 && size * mby >= 0) by (nonlinear_arith)
        requires
            size >= 0,
            mbx >= 0,
            mby >= 0,
    ;
    assert(mbx >= 1 ==> size * mbx >= size) by (nonlinear_arith)
        requires
            size >= 0,
    ;
    assert(mby >= 1 ==> size * mby >= size) by (nonlinear_arith)
        requires
            size >= 0,
    ;
    assert(size * mby * w >= 0) by (nonlinear_arith)
        requires
            size >= 0,
            mby >= 0,
            w >= 0,
    ;
    assert((size * mby + size - 1) * w >= size * mby + size - 1) by (nonlinear_arith)
        requires
            w >= 1,
            size * mby + size - 1 >= 0,
    ;
    if vertical {
        assert((size * mby) * w + (size - 1) * w == (size * mby + size - 1) * w) by (nonlinear_arith);
    } else {
        assert((size * mby + 4 * e) * w + 3 * w == (size * mby + 4 * e + 3) * w) by (nonlinear_arith);
        assert((size * mby + 4 * e + 3) * w <= (size * mby + size - 1) * w) by (nonlinear_arith)
            requires
                4 * e + 3 <= size - 1,
                w >= 0,
        ;
        assert((size * mby + 4 * e) * w >= 4 * w) by (nonlinear_arith)
            requires
                size * mby + 4 * e >= 4,
                w >= 0,
        ;
    }
}

/// Edges `0..size/4` of a block in one direction, in place.
fn mb_edges_at(
    plane: &mut [u8],
    w: usize,
    size: usize,
    vertical: bool,
    mbx: usize,
    mby: usize,
    here: i32,
    nbr: Option<i32>,
    chroma: bool,
)
    requires
        size == 8 || size == 16,
        block_inside(old(plane)@.len() as int, w as int, size as int, mbx as int, mby as int),
        nbr is Some ==> (if vertical {
            mbx > 0
        } else {
            mby > 0
        }),
    ensures
        final(plane)@ == mb_edges(
            old(plane)@,
            w as int,
            size as int,
            vertical,
            mbx as int,
            mby as int,
            (size / 4) as int,
            here as int,
            nbr,
            chroma,
        ),
        final(plane)@.len() == old(plane)@.len(),
{
    let ghost s = plane@;
    let plen = plane.len();
    let n = size / 4;
    let mut e: usize = 0;
    while e < n
        invariant
            n == size / 4,
            size == 8 || size == 16,
            e <= n,
            plen == s.len(),
            plane@.len() == s.len(),
            block_inside(s.len() as int, w as int, size as int, mbx as int, mby as int),
            nbr is Some ==> (if vertical {
                mbx > 0
            } else {
                mby > 0
            }),
            plane@ == mb_edges(s, w as int, size as int, vertical, mbx as int, mby as int, e as int, here as int, nbr, chroma),
        decreases n - e,
    {
        let ghost before = plane@;
        if e > 0 || nbr.is_some() {
            let (bs, qp_p): (usize, i32) = if e == 0 {
                (BS_MB_EDGE, nbr.unwrap())
            } else {
                (BS_INTERNAL, here)
            };
            proof {
                lemma_edge_geometry(s.len() as int, w as int, size as int, mbx as int, mby as int, e as int, vertical);
                assert(size * mbx + 4 * e <= w);
            }
            if vertical {
                filter_edge_at(plane, w, size * mbx + 4 * e, size * mby, 1, w, size, bs, qp_p, here, chroma);
            } else {
                filter_edge_at(plane, w, size * mbx, size * mby + 4 * e, w, 1, size, bs, qp_p, here, chroma);
            }
            proof {
                lemma_filter_edge_len(before, w as int, (if vertical { size * mbx + 4 * e } else { size * mbx }) as int,
                    (if vertical { size * mby } else { size * mby + 4 * e }) as int,
                    (if vertical { 1 } else { w }) as int, (if vertical { w } else { 1 }) as int, size as int, bs as int,
                    qp_p as int, here as int, chroma);
            }
        }
        e = e + 1;
    }
}


/// A whole plane: macroblocks in raster order, each its vertical edges then
/// its horizontal ones. `q` holds one quantizer per macroblock.
fn filter_plane_at(plane: &mut [u8], w: usize, size: usize, mbw: usize, mbh: usize, q: &[i32], chroma: bool)
    requires
        size == 8 || size == 16,
        plane_holds(old(plane)@.len() as int, w as int, size as int, mbw as int, mbh as int),
        q@.len() >= mbw * mbh,
    ensures
        final(plane)@ == filter_plane(old(plane)@, w as int, size as int, mbw as int, q@, mbh as int, chroma),
{
    let ghost s = plane@;
    let plen = plane.len();
    let qlen = q.len();
    let mut mby: usize = 0;
    while mby < mbh
        invariant
            size == 8 || size == 16,
            plane_holds(s.len() as int, w as int, size as int, mbw as int, mbh as int),
            q@.len() >= mbw * mbh,
            qlen == q@.len(),
            mby <= mbh,
            plen == s.len(),
            plane@.len() == s.len(),
            plane@ == filter_plane(s, w as int, size as int, mbw as int, q@, mby as int, chroma),
        decreases mbh - mby,
    {
        let ghost row_start = plane@;
        let mut mbx: usize = 0;
        while mbx < mbw
            invariant
                size == 8 || size == 16,
                plane_holds(s.len() as int, w as int, size as int, mbw as int, mbh as int),
                q@.len() >= mbw * mbh,
                qlen == q@.len(),
                mby < mbh,
                mbx <= mbw,
                plen == s.len(),
                plane@.len() == s.len(),
                plane@ == filter_row(row_start, w as int, size as int, mbw as int, q@, mby as int, mbx as int, chroma),
            decreases mbw - mbx,
        {
            proof {
                assert(mby * mbw + mbx < mbw * mbh) by (nonlinear_arith)
                    requires
                        mby < mbh,
                        mbx < mbw,
                ;
                assert(mby >= 1 ==> mby * mbw + mbx >= mbw) by (nonlinear_arith);
                assert(size * mbx + size <= size * mbw) by (nonlinear_arith)
                    requires
                        mbx < mbw,
                        size >= 0,
                ;
                assert((size * mby + size - 1) * w <= (size * mbh - 1) * w) by (nonlinear_arith)
                    requires
                        mby < mbh,
                        size >= 0,
                ;
                assert(block_inside(s.len() as int, w as int, size as int, mbx as int, mby as int));
            }
            let i = mby * mbw + mbx;
            let here = q[i];
            let left = if mbx > 0 {
                Some(q[i - 1])
            } else {
                None
            };
            let above = if mby > 0 {
                Some(q[i - mbw])
            } else {
                None
            };
            mb_edges_at(plane, w, size, true, mbx, mby, here, left, chroma);
            mb_edges_at(plane, w, size, false, mbx, mby, here, above, chroma);
            mbx = mbx + 1;
        }
        mby = mby + 1;
    }
}

/// Filter the whole picture in place, given each macroblock's luma quantizer
/// `mb_qp` (the decoder's `QP_Y`, raster order) and its chroma quantizer
/// `mb_qpc`. `cw`, `ch` are the coded luma dimensions; chroma is 4:2:0.
pub fn deblock_with_chroma_qp(
    y: &mut [u8],
    u: &mut [u8],
    v: &mut [u8],
    cw: u32,
    ch: u32,
    mb_qp: &[i32],
    mb_qpc: &[i32],
)
    requires
        mb_qp@.len() >= (cw / 16) * (ch / 16),
        mb_qpc@.len() >= (cw / 16) * (ch / 16),
        plane_holds(old(y)@.len() as int, cw as int, 16, (cw / 16) as int, (ch / 16) as int),
        plane_holds(old(u)@.len() as int, (cw / 2) as int, 8, (cw / 16) as int, (ch / 16) as int),
        plane_holds(old(v)@.len() as int, (cw / 2) as int, 8, (cw / 16) as int, (ch / 16) as int),
    ensures
        final(y)@ == filter_plane(old(y)@, cw as int, 16, (cw / 16) as int, mb_qp@, (ch / 16) as int, false),
        final(u)@ == filter_plane(old(u)@, (cw / 2) as int, 8, (cw / 16) as int, mb_qpc@, (ch / 16) as int, true),
        final(v)@ == filter_plane(old(v)@, (cw / 2) as int, 8, (cw / 16) as int, mb_qpc@, (ch / 16) as int, true),
{
    let mbw = (cw / 16) as usize;
    let mbh = (ch / 16) as usize;
    let cwc = (cw / 2) as usize;
    filter_plane_at(y, cw as usize, 16, mbw, mbh, mb_qp, false);
    filter_plane_at(u, cwc, 8, mbw, mbh, mb_qpc, true);
    filter_plane_at(v, cwc, 8, mbw, mbh, mb_qpc, true);
}

/// Filter the whole picture in place.
///
/// `mb_qp` is the decoder's `QP_Y` per macroblock in raster order, and `qp_c`
/// maps a luma QP to its chroma counterpart. Macroblocks are filtered in
/// raster order, and within each one every vertical edge before any
/// horizontal one, each step reading what the previous step wrote.
pub fn deblock(
    y: &mut [u8],
    u: &mut [u8],
    v: &mut [u8],
    cw: u32,
    ch: u32,
    mb_qp: &[i32],
    qp_c: impl Fn(i32) -> i32,
)
    requires
        forall|q: i32| call_requires(qp_c, (q,)),
        mb_qp@.len() >= (cw / 16) * (ch / 16),
        plane_holds(old(y)@.len() as int, cw as int, 16, (cw / 16) as int, (ch / 16) as int),
        plane_holds(old(u)@.len() as int, (cw / 2) as int, 8, (cw / 16) as int, (ch / 16) as int),
        plane_holds(old(v)@.len() as int, (cw / 2) as int, 8, (cw / 16) as int, (ch / 16) as int),
    ensures
        final(y)@ == filter_plane(old(y)@, cw as int, 16, (cw / 16) as int, mb_qp@, (ch / 16) as int, false),
        exists|qc: Seq<i32>|
            #![trigger filter_plane(old(u)@, (cw / 2) as int, 8, (cw / 16) as int, qc, (ch / 16) as int, true)]
            {
                &&& qc.len() == mb_qp@.len()
                &&& forall|i: int| 0 <= i < qc.len() ==> call_ensures(qp_c, (mb_qp@[i],), #[trigger] qc[i])
                &&& final(u)@ == filter_plane(old(u)@, (cw / 2) as int, 8, (cw / 16) as int, qc, (ch / 16) as int, true)
                &&& final(v)@ == filter_plane(old(v)@, (cw / 2) as int, 8, (cw / 16) as int, qc, (ch / 16) as int, true)
            },
{
    let mut qc: Vec<i32> = Vec::new();
    let mut i: usize = 0;
    while i < mb_qp.len()
        invariant
            forall|q: i32| call_requires(qp_c, (q,)),
            i <= mb_qp@.len(),
            qc@.len() == i,
            forall|k: int| 0 <= k < i ==> call_ensures(qp_c, (mb_qp@[k],), #[trigger] qc@[k]),
        decreases mb_qp@.len() - i,
    {
        let c = qp_c(mb_qp[i]);
        qc.push(c);
        i = i + 1;
    }
    deblock_with_chroma_qp(y, u, v, cw, ch, mb_qp, qc.as_slice());
}


/// `alpha` is zero for every `indexA` below 16.
proof fn lemma_alpha_off(idx: int)
    requires
        0 <= idx <= 15,
    ensures
        ALPHA[idx] == 0,
{
}

/// An edge between macroblocks whose quantizers are at most 15 is left alone.
proof fn lemma_low_qp_edges(
    plane: Seq<u8>,
    w: int,
    size: int,
    vertical: bool,
    mbx: int,
    mby: int,
    n: int,
    here: int,
    nbr: Option<i32>,
    chroma: bool,
)
    requires
        here <= 15,
        nbr matches Some(q) ==> q <= 15,
    ensures
        mb_edges(plane, w, size, vertical, mbx, mby, n, here, nbr, chroma) == plane,
    decreases n,
{
    if n > 0 {
        lemma_low_qp_edges(plane, w, size, vertical, mbx, mby, n - 1, here, nbr, chroma);
        let e = n - 1;
        if !(e == 0 && nbr is None) {
            let qp_p = if e == 0 {
                nbr->0 as int
            } else {
                here
            };
            let idx = edge_index(qp_p, here);
            lemma_alpha_off(idx);
        }
    }
}

/// The macroblocks of row `mby` up to `n`, at quantizers of at most 15.
proof fn lemma_low_qp_row(
    plane: Seq<u8>,
    w: int,
    size: int,
    mbw: int,
    q: Seq<i32>,
    mby: int,
    n: int,
    chroma: bool,
)
    requires
        0 <= mby,
        n <= mbw,
        q.len() >= mbw * (mby + 1),
        forall|i: int| 0 <= i < q.len() ==> #[trigger] q[i] <= 15,
    ensures
        filter_row(plane, w, size, mbw, q, mby, n, chroma) == plane,
    decreases n,
{
    if n > 0 {
        lemma_low_qp_row(plane, w, size, mbw, q, mby, n - 1, chroma);
        let mbx = n - 1;
        assert(0 <= mby * mbw + mbx < mbw * (mby + 1)) by (nonlinear_arith)
            requires
                0 <= mbx < mbw,
                0 <= mby,
        ;
        assert(mby > 0 ==> mby * mbw + mbx >= mbw) by (nonlinear_arith)
            requires
                0 <= mbx,
                0 <= mbw,
        ;
        let (here, left, above) = mb_qps(q, mbw, mbx, mby);
        lemma_low_qp_edges(plane, w, size, true, mbx, mby, size / 4, here, left, chroma);
        lemma_low_qp_edges(plane, w, size, false, mbx, mby, size / 4, here, above, chroma);
    }
}

/// Below `indexA = 16` every threshold is zero: where no macroblock's
/// quantizer exceeds 15, filtering leaves a plane untouched, however blocky.
pub proof fn lemma_low_qp_is_a_no_op(
    plane: Seq<u8>,
    w: int,
    size: int,
    mbw: int,
    q: Seq<i32>,
    rows: int,
    chroma: bool,
)
    requires
        mbw >= 0,
        q.len() >= mbw * rows,
        forall|i: int| 0 <= i < q.len() ==> #[trigger] q[i] <= 15,
    ensures
        filter_plane(plane, w, size, mbw, q, rows, chroma) == plane,
    decreases rows,
{
    if rows > 0 {
        assert(mbw * (rows - 1) <= mbw * rows) by (nonlinear_arith)
            requires
                mbw >= 0,
        ;
        lemma_low_qp_is_a_no_op(plane, w, size, mbw, q, rows - 1, chroma);
        lemma_low_qp_row(plane, w, size, mbw, q, rows - 1, mbw, chroma);
    }
}


/// Every sample of the plane is `c`.
pub open spec fn is_flat(plane: Seq<u8>, c: u8) -> bool {
    forall|i: int| 0 <= i < plane.len() ==> plane[i] == c
}

/// A line across a flat stretch is written back unchanged.
proof fn lemma_flat_line(plane: Seq<u8>, o: int, step: int, bs: int, idx: int, chroma: bool, c: u8)
    requires
        is_flat(plane, c),
        step >= 1,
        o >= 4 * step,
        o + 3 * step < plane.len(),
        0 <= idx < 52,
        bs == 3 || bs == 4,
    ensures
        filter_line(plane, o, step, bs, idx, chroma) == plane,
{
    lemma_tables(idx, 3);
    let v = c as int;
    assert(tap(plane, o, step, -4) == v);
    assert(tap(plane, o, step, -3) == v);
    assert(tap(plane, o, step, -2) == v);
    assert(tap(plane, o, step, -1) == v);
    assert(tap(plane, o, step, 0) == v);
    assert(tap(plane, o, step, 1) == v);
    assert(tap(plane, o, step, 2) == v);
    assert(tap(plane, o, step, 3) == v);
    assert(clip1(v) == c);
    assert((2 * v + 1) / 2 == v);
    assert((8 * v + 4) / 8 == v);
    assert((4 * v + 2) / 4 == v);
    if line_filtered(plane, o, step, idx) {
        if bs < 4 {
            let tc0 = TC0[idx][bs] as int;
            assert(side_delta(v, v, v, v, tc0) == 0);
            assert(edge_delta(v, v, v, v, normal_tc(tc0, chroma, true, true)) == 0);
            assert(normal_filter(plane, o, step, bs, idx, chroma) =~= plane);
        } else {
            assert(strong_filter(plane, o, step, idx, chroma) =~= plane);
        }
    }
}

/// The lines of an edge across a flat plane leave it as it was.
proof fn lemma_flat_lines(
    plane: Seq<u8>,
    base: int,
    step: int,
    along: int,
    n: int,
    bs: int,
    idx: int,
    chroma: bool,
    c: u8,
)
    requires
        is_flat(plane, c),
        step >= 1,
        along >= 0,
        base >= 4 * step,
        n >= 1 ==> base + (n - 1) * along + 3 * step < plane.len(),
        0 <= idx < 52,
        bs == 3 || bs == 4,
    ensures
        filter_lines(plane, base, step, along, n, bs, idx, chroma) == plane,
    decreases n,
{
    if n > 0 {
        if n > 1 {
            assert((n - 2) * along <= (n - 1) * along) by (nonlinear_arith)
                requires
                    along >= 0,
            ;
        }
        lemma_flat_lines(plane, base, step, along, n - 1, bs, idx, chroma, c);
        assert(0 <= (n - 1) * along) by (nonlinear_arith)
            requires
                along >= 0,
                n >= 1,
        ;
        lemma_flat_line(plane, base + (n - 1) * along, step, bs, idx, chroma, c);
    }
}

/// The edges of one block across a flat plane leave it as it was.
proof fn lemma_flat_edges(
    plane: Seq<u8>,
    w: int,
    size: int,
    vertical: bool,
    mbx: int,
    mby: int,
    n: int,
    here: int,
    nbr: Option<i32>,
    chroma: bool,
    c: u8,
)
    requires
        is_flat(plane, c),
        size == 8 || size == 16,
        n <= size / 4,
        block_inside(plane.len() as int, w, size, mbx, mby),
        nbr is Some ==> (if vertical {
            mbx > 0
        } else {
            mby > 0
        }),
    ensures
        mb_edges(plane, w, size, vertical, mbx, mby, n, here, nbr, chroma) == plane,
    decreases n,
{
    if n > 0 {
        lemma_flat_edges(plane, w, size, vertical, mbx, mby, n - 1, here, nbr, chroma, c);
        let e = n - 1;
        if !(e == 0 && nbr is None) {
            let bs = if e == 0 {
                4int
            } else {
                3int
            };
            let qp_p = if e == 0 {
                nbr->0 as int
            } else {
                here
            };
            let idx = edge_index(qp_p, here);
            lemma_edge_geometry(plane.len() as int, w, size, mbx, mby, e, vertical);
            if vertical {
                lemma_flat_lines(plane, (size * mby) * w + (size * mbx + 4 * e), 1, w, size, bs, idx, chroma, c);
            } else {
                lemma_flat_lines(plane, (size * mby + 4 * e) * w + size * mbx, w, 1, size, bs, idx, chroma, c);
            }
        }
    }
}

/// The macroblocks of row `mby` up to `n` leave a flat plane as it was.
proof fn lemma_flat_row(
    plane: Seq<u8>,
    w: int,
    size: int,
    mbw: int,
    mbh: int,
    q: Seq<i32>,
    mby: int,
    n: int,
    chroma: bool,
    c: u8,
)
    requires
        is_flat(plane, c),
        size == 8 || size == 16,
        plane_holds(plane.len() as int, w, size, mbw, mbh),
        0 <= mby < mbh,
        n <= mbw,
    ensures
        filter_row(plane, w, size, mbw, q, mby, n, chroma) == plane,
    decreases n,
{
    if n > 0 {
        lemma_flat_row(plane, w, size, mbw, mbh, q, mby, n - 1, chroma, c);
        let mbx = n - 1;
        assert(size * mbx + size <= size * mbw) by (nonlinear_arith)
            requires
                mbx < mbw,
                size >= 0,
        ;
        assert((size * mby + size - 1) * w <= (size * mbh - 1) * w) by (nonlinear_arith)
            requires
                mby < mbh,
                size >= 0,
                w >= 0,
        ;
        let (here, left, above) = mb_qps(q, mbw, mbx, mby);
        lemma_flat_edges(plane, w, size, true, mbx, mby, size / 4, here, left, chroma, c);
        lemma_flat_edges(plane, w, size, false, mbx, mby, size / 4, here, above, chroma, c);
    }
}

/// A flat plane has no edges to find: filtering leaves it as it was, at any
/// quantizers.
pub proof fn lemma_flat_plane_is_kept(
    plane: Seq<u8>,
    w: int,
    size: int,
    mbw: int,
    q: Seq<i32>,
    rows: int,
    chroma: bool,
    c: u8,
)
    requires
        is_flat(plane, c),
        size == 8 || size == 16,
        w >= 0,
        mbw >= 0,
        plane_holds(plane.len() as int, w, size, mbw, rows),
    ensures
        filter_plane(plane, w, size, mbw, q, rows, chroma) == plane,
    decreases rows,
{
    if rows > 0 {
        if mbw > 0 && rows > 1 {
            assert((size * (rows - 1) - 1) * w <= (size * rows - 1) * w) by (nonlinear_arith)
                requires
                    size >= 0,
                    w >= 0,
            ;
            assert(size * (rows - 1) == size * rows - size) by (nonlinear_arith);
        }
        assert(plane_holds(plane.len() as int, w, size, mbw, rows - 1));
        lemma_flat_plane_is_kept(plane, w, size, mbw, q, rows - 1, chroma, c);
        lemma_flat_row(plane, w, size, mbw, rows, q, rows - 1, mbw, chroma, c);
    }
}

} // verus!
