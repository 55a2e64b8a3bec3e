//! Coding one 4×4 residual as the decoder will see it: subtract the
//! prediction, transform, quantize, and reconstruct from the levels alone.

use crate::codec::h264::cavlc::ZIGZAG4;
use crate::codec::h264::intra::SAMPLE_BOUND;
use crate::codec::h264::transform::{
    bounded,
    dequant4,
    dequant4_fits,
    forward4,
    inv_butterfly,
    inverse4,
    inverse4_rows,
    ints,
    lemma_quantized_levels_dequantize_in_range,
    quant4,
    spec_dequant,
    spec_forward4,
    spec_inverse4,
    spec_level_scale,
    spec_quant,
    spec_max_level,
    MAX_DEQUANT,
};
use crate::num::{abs, clamp, clamp_i32};
use vstd::arithmetic::power2::{lemma2_to64, lemma_pow2_pos, pow2};
use vstd::prelude::*;

verus! {

/// `orig − pred`, sample by sample.
pub open spec fn residual4(orig: Seq<i32>, pred: Seq<int>) -> Seq<int> {
    Seq::new(16, |k: int| orig[k] - pred[k])
}

/// The intra-quantized levels of a residual's transform, in raster order.
pub open spec fn quantized4(r: Seq<int>, qp: int) -> Seq<int> {
    Seq::new(16, |k: int| spec_quant(spec_forward4(r)[k], qp, k / 4, k % 4, true))
}

/// The dequantized coefficients of `levels`, in raster order.
pub open spec fn dequantized4(levels: Seq<int>, qp: int) -> Seq<int> {
    Seq::new(16, |k: int| spec_dequant(levels[k], qp, k / 4, k % 4))
}

/// What a decoder rebuilds from `levels` on top of `pred`: the inverse
/// transform of their dequantized values, added and clipped to 8 bits.
pub open spec fn reconstructed4(pred: Seq<int>, levels: Seq<int>, qp: int) -> Seq<int> {
    Seq::new(16, |k: int| clamp(pred[k] + spec_inverse4(dequantized4(levels, qp))[k], 0, 255))
}

/// `Σ_{k<m} (orig[k] − rec[k])²`.
pub open spec fn sq_err(orig: Seq<i32>, rec: Seq<int>, m: int) -> int
    decreases m,
{
    if m <= 0 {
        0
    } else {
        sq_err(orig, rec, m - 1) + (orig[m - 1] - rec[m - 1]) * (orig[m - 1] - rec[m - 1])
    }
}

/// Every entry is an 8-bit sample value.
pub open spec fn samples8(s: Seq<i32>) -> bool {
    forall|k: int| 0 <= k < s.len() ==> 0 <= #[trigger] s[k] <= 255
}

/// `levels` in zig-zag scan order.
pub open spec fn zigzag(levels: Seq<int>) -> Seq<int> {
    Seq::new(16, |s: int| levels[ZIGZAG4[s] as int])
}

/// How many entries of `s` are non-zero.
pub open spec fn nonzero_count(s: Seq<int>, m: int) -> int
    decreases m,
{
    if m <= 0 {
        0
    } else {
        nonzero_count(s, m - 1) + if s[m - 1] != 0 {
            1int
        } else {
            0
        }
    }
}

/// One inverse butterfly of entries within `b` stays within `4·b`.
proof fn lemma_inv_butterfly_bound(d0: int, d1: int, d2: int, d3: int, i: int, b: int)
    requires
        -b <= d0 <= b,
        -b <= d1 <= b,
        -b <= d2 <= b,
        -b <= d3 <= b,
    ensures
        -4 * b <= inv_butterfly(d0, d1, d2, d3, i) <= 4 * b,
{
    assert(-b <= d1 / 2 <= b);
    assert(-b <= d3 / 2 <= b);
}

/// The inverse transform of coefficients within `b` stays within `b`.
pub proof fn lemma_inverse4_bound(x: Seq<int>, b: int)
    requires
        x.len() == 16,
        b >= 1,
        forall|k: int| 0 <= k < 16 ==> -b <= #[trigger] x[k] <= b,
    ensures
        forall|k: int| 0 <= k < 16 ==> -b <= #[trigger] spec_inverse4(x)[k] <= b,
{
    let t = inverse4_rows(x);
    assert forall|k: int| 0 <= k < 16 implies -4 * b <= #[trigger] t[k] <= 4 * b by {
        let r = 4 * (k / 4);
        assert(0 <= r && r + 3 < 16);
        lemma_inv_butterfly_bound(x[r], x[r + 1], x[r + 2], x[r + 3], k % 4, b);
    }
    assert forall|k: int| 0 <= k < 16 implies -b <= #[trigger] spec_inverse4(x)[k] <= b by {
        let c = k % 4;
        assert(-4 * b <= t[c] <= 4 * b);
        assert(-4 * b <= t[4 + c] <= 4 * b);
        assert(-4 * b <= t[8 + c] <= 4 * b);
        assert(-4 * b <= t[12 + c] <= 4 * b);
        lemma_inv_butterfly_bound(t[c], t[4 + c], t[8 + c], t[12 + c], k / 4, 4 * b);
        let v = inv_butterfly(t[c], t[4 + c], t[8 + c], t[12 + c], k / 4);
        assert(-16 * b <= v <= 16 * b);
        assert(-b <= (v + 32) / 64 <= b);
    }
}

/// Quantized levels of any coefficients dequantize within [`MAX_DEQUANT`]
/// and every step of [`dequant4`] on them fits in `i32`.
pub proof fn lemma_quantized4_fits(c: Seq<int>, qp: int)
    requires
        c.len() == 16,
        0 <= qp <= 51,
    ensures
        forall|k: int|
            #![trigger spec_quant(c[k], qp, k / 4, k % 4, true)]
            0 <= k < 16 ==> {
                &&& -MAX_DEQUANT <= spec_dequant(spec_quant(c[k], qp, k / 4, k % 4, true), qp, k / 4, k % 4) <= MAX_DEQUANT
                &&& -16 * MAX_DEQUANT <= spec_quant(c[k], qp, k / 4, k % 4, true) * spec_level_scale(qp % 6, k / 4, k % 4)
                    <= 16 * MAX_DEQUANT
            },
{
    assert forall|k: int| 0 <= k < 16 implies {
        &&& -MAX_DEQUANT <= #[trigger] spec_dequant(spec_quant(c[k], qp, k / 4, k % 4, true), qp, k / 4, k % 4)
            <= MAX_DEQUANT
        &&& -16 * MAX_DEQUANT <= spec_quant(c[k], qp, k / 4, k % 4, true) * spec_level_scale(qp % 6, k / 4, k % 4) <= 16
            * MAX_DEQUANT
    } by {
        lemma_quantized_levels_dequantize_in_range(c[k], qp, k / 4, k % 4, true);
    }
}

/// Intra levels of any coefficients pass every step of [`dequant4`].
pub proof fn lemma_levels_dequant_fit(c: Seq<int>, qp: int, lv: Seq<i32>)
    requires
        c.len() == 16,
        lv.len() == 16,
        0 <= qp <= 51,
        forall|k: int| 0 <= k < 16 ==> #[trigger] lv[k] as int == spec_quant(c[k], qp, k / 4, k % 4, true),
    ensures
        dequant4_fits(lv, qp),
        forall|k: int| 0 <= k < 16 ==> -MAX_DEQUANT <= #[trigger] spec_dequant(lv[k] as int, qp, k / 4, k % 4) <= MAX_DEQUANT,
{
    lemma_quantized4_fits(c, qp);
    assert forall|k: int| 0 <= k < 16 implies {
        let pp = lv[k] * spec_level_scale(qp % 6, k / 4, k % 4);
        &&& crate::num::fits_i32(pp)
        &&& crate::num::fits_i32(pp + 8)
        &&& crate::num::fits_i32(#[trigger] spec_dequant(lv[k] as int, qp, k / 4, k % 4))
    } by {
        assert(lv[k] as int == spec_quant(c[k], qp, k / 4, k % 4, true));
    }
}

/// `orig − pred` of an 8-bit original against an in-range prediction.
fn residual_of(orig: &[i32], pred: &[i32; 16]) -> (resid: [i32; 16])
    requires
        orig@.len() == 16,
        samples8(orig@),
        bounded(pred@, SAMPLE_BOUND as int),
    ensures
        ints(resid@) == residual4(orig@, ints(pred@)),
        bounded(resid@, 0x200_0000),
{
    let mut resid = [0i32; 16];
    let mut i: usize = 0;
    while i < 16
        invariant
            orig@.len() == 16,
            samples8(orig@),
            bounded(pred@, SAMPLE_BOUND as int),
            i <= 16,
            forall|k: int| 0 <= k < i ==> #[trigger] resid@[k] as int == residual4(orig@, ints(pred@))[k],
            forall|k: int| 0 <= k < 16 ==> -0x20_0000 <= #[trigger] resid@[k] <= 0x20_0000,
        decreases 16 - i,
    {
        proof {
            assert(0 <= orig@[i as int] <= 255);
            assert(-SAMPLE_BOUND <= pred@[i as int] <= SAMPLE_BOUND);
        }
        resid[i] = orig[i] - pred[i];
        i = i + 1;
    }
    proof {
        assert(ints(resid@) =~= residual4(orig@, ints(pred@)));
    }
    resid
}

/// The intra levels of a residual and their dequantized coefficients.
fn quantize_residual(resid: &[i32; 16], qp: i32) -> (r: ([i32; 16], [i32; 16]))
    requires
        bounded(resid@, 0x200_0000),
        0 <= qp <= 51,
    ensures
        ints(r.0@) == quantized4(ints(resid@), qp as int),
        ints(r.1@) == dequantized4(ints(r.0@), qp as int),
        bounded(r.1@, MAX_DEQUANT as int),
{
    let coeff = forward4(resid);
    let levels = quant4(&coeff, qp, true);
    let ghost c = spec_forward4(ints(resid@));
    proof {
        assert forall|k: int| 0 <= k < 16 implies #[trigger] levels[k] as int == spec_quant(c[k], qp as int, k / 4, k % 4, true) by {
            assert(coeff[k] == c[k]);
        }
        assert(ints(levels@) =~= quantized4(ints(resid@), qp as int));
        lemma_quantized4_fits(c, qp as int);
        assert forall|k: int| 0 <= k < 16 implies {
            let pp = levels@[k] * spec_level_scale(qp as int % 6, k / 4, k % 4);
            &&& crate::num::fits_i32(pp)
            &&& crate::num::fits_i32(pp + 8)
            &&& crate::num::fits_i32(#[trigger] spec_dequant(levels@[k] as int, qp as int, k / 4, k % 4))
        } by {
            assert(levels@[k] as int == spec_quant(c[k], qp as int, k / 4, k % 4, true));
        }
    }
    let deq = dequant4(&levels, qp);
    proof {
        assert forall|k: int| 0 <= k < 16 implies -MAX_DEQUANT <= #[trigger] deq@[k] <= MAX_DEQUANT by {
            assert(levels@[k] as int == spec_quant(c[k], qp as int, k / 4, k % 4, true));
        }
        assert(ints(deq@) =~= dequantized4(ints(levels@), qp as int));
    }
    (levels, deq)
}

/// Add the decoded residual to the prediction, clip, and measure the
/// squared error against the original.
fn add_and_measure(orig: &[i32], pred: &[i32; 16], res: &[i32; 16]) -> (r: ([i32; 16], u64))
    requires
        orig@.len() == 16,
        samples8(orig@),
        bounded(pred@, SAMPLE_BOUND as int),
        bounded(res@, MAX_DEQUANT as int),
    ensures
        forall|j: int| 0 <= j < 16 ==> #[trigger] r.0@[j] as int == clamp(pred@[j] + res@[j], 0, 255),
        r.1 == sq_err(orig@, ints(r.0@), 16),
        r.1 <= 16 * 65025,
{
    let mut rec = [0i32; 16];
    let mut ssd: u64 = 0;
    let mut k: usize = 0;
    while k < 16
        invariant
            orig@.len() == 16,
            samples8(orig@),
            bounded(pred@, SAMPLE_BOUND as int),
            bounded(res@, MAX_DEQUANT as int),
            k <= 16,
            forall|j: int| 0 <= j < k ==> #[trigger] rec@[j] as int == clamp(pred@[j] + res@[j], 0, 255),
            ssd == sq_err(orig@, ints(rec@), k as int),
            ssd <= k * 65025,
        decreases 16 - k,
    {
        proof {
            assert(0 <= orig@[k as int] <= 255);
            assert(-SAMPLE_BOUND <= pred@[k as int] <= SAMPLE_BOUND);
            assert(-MAX_DEQUANT <= res@[k as int] <= MAX_DEQUANT);
        }
        let v = crate::num::clamp_i32(pred[k] + res[k], 0, 255);
        let ghost before = ints(rec@);
        rec[k] = v;
        let e = orig[k] - v;
        proof {
            assert(0 <= e * e <= 65025) by (nonlinear_arith)
                requires
                    -255 <= e <= 255,
            ;
            assert forall|j: int| 0 <= j < k implies ints(rec@)[j] == before[j] by {}
            lemma_sq_err_prefix(orig@, before, ints(rec@), k as int);
        }
        ssd = ssd + (e * e) as u64;
        k = k + 1;
    }
    (rec, ssd)
}

/// Transform, quantize and reconstruct one 4×4 residual of an 8-bit
/// original against a prediction: the levels (raster order), the
/// reconstruction the decoder will compute, and its squared error.
pub fn code_block4(orig: &[i32], pred: &[i32; 16], qp: i32) -> (r: ([i32; 16], [i32; 16], u64))
    requires
        orig@.len() == 16,
        samples8(orig@),
        0 <= qp <= 51,
        bounded(pred@, SAMPLE_BOUND as int),
    ensures
        ints(r.0@) == quantized4(residual4(orig@, ints(pred@)), qp as int),
        ints(r.1@) == reconstructed4(ints(pred@), ints(r.0@), qp as int),
        r.2 == sq_err(orig@, ints(r.1@), 16),
        r.2 <= 16 * 65025,
{
    let resid = residual_of(orig, pred);
    let (levels, deq) = quantize_residual(&resid, qp);
    let ghost d = dequantized4(ints(levels@), qp as int);
    proof {
        lemma_inverse4_bound(d, MAX_DEQUANT as int);
    }
    let res = inverse4(&deq);
    proof {
        assert forall|j: int| 0 <= j < 16 implies -MAX_DEQUANT <= #[trigger] res@[j] <= MAX_DEQUANT by {
            assert(res[j] == spec_inverse4(d)[j]);
        }
    }
    let (rec, ssd) = add_and_measure(orig, pred, &res);
    proof {
        assert forall|j: int| 0 <= j < 16 implies #[trigger] ints(rec@)[j] == reconstructed4(
            ints(pred@),
            ints(levels@),
            qp as int,
        )[j] by {
            assert(res[j] == spec_inverse4(d)[j]);
            assert(rec@[j] as int == clamp(pred@[j] + res@[j], 0, 255));
        }
        assert(ints(rec@) =~= reconstructed4(ints(pred@), ints(levels@), qp as int));
    }
    (levels, rec, ssd)
}

/// The squared error over a prefix reads only that prefix.
proof fn lemma_sq_err_prefix(orig: Seq<i32>, a: Seq<int>, b: Seq<int>, m: int)
    requires
        forall|j: int| 0 <= j < m ==> a[j] == b[j],
    ensures
        sq_err(orig, a, m) == sq_err(orig, b, m),
    decreases m,
{
    if m > 0 {
        lemma_sq_err_prefix(orig, a, b, m - 1);
    }
}

/// Every scan position names a raster position of the block.
pub proof fn lemma_zigzag_in_range()
    ensures
        forall|s: int| 0 <= s < 16 ==> #[trigger] ZIGZAG4[s] < 16,
{
}

/// The levels of a 4×4 block in zig-zag order and how many are non-zero.
pub fn scan4(levels: &[i32; 16]) -> (r: ([i32; 16], usize))
    ensures
        ints(r.0@) == zigzag(ints(levels@)),
        r.1 == nonzero_count(ints(r.0@), 16),
        r.1 <= 16,
{
    let mut scan = [0i32; 16];
    let mut s: usize = 0;
    while s < 16
        invariant
            s <= 16,
            forall|j: int| 0 <= j < s ==> #[trigger] scan@[j] as int == zigzag(ints(levels@))[j],
        decreases 16 - s,
    {
        let r = ZIGZAG4[s];
        proof {
            lemma_zigzag_in_range();
        }
        scan[s] = levels[r];
        s = s + 1;
    }
    proof {
        assert(ints(scan@) =~= zigzag(ints(levels@)));
    }
    let nnz = count_nonzero(&scan, 16);
    (scan, nnz)
}

/// How many of the first `m` entries of `s` are non-zero.
pub fn count_nonzero(s: &[i32], m: usize) -> (n: usize)
    requires
        m <= s@.len(),
    ensures
        n == nonzero_count(ints(s@), m as int),
        n <= m,
{
    let mut n: usize = 0;
    let mut i: usize = 0;
    while i < m
        invariant
            m <= s@.len(),
            i <= m,
            n == nonzero_count(ints(s@), i as int),
            n <= i,
        decreases m - i,
    {
        if s[i] != 0 {
            n = n + 1;
        }
        i = i + 1;
    }
    n
}

/// A zero coefficient quantizes to a zero level at every standard QP.
proof fn lemma_quant_zero(qp: int, i: int, j: int)
    requires
        0 <= qp <= 51,
        0 <= i < 4,
        0 <= j < 4,
    ensures
        spec_quant(0, qp, i, j, true) == 0,
{
    let m = qp % 6;
    let shift = qp / 6;
    lemma2_to64();
    let qbits = (15 + shift) as nat;
    lemma_pow2_pos(qbits);
    let q = pow2(qbits) as int;
    let f = q / 3;
    assert(0 <= f < q);
    assert((abs(0) * crate::codec::h264::transform::QUANT_MF[m][crate::codec::h264::transform::spec_class(i, j)] + f) / q
        == 0) by (nonlinear_arith)
        requires
            0 <= f < q,
            abs(0) == 0,
    ;
    lemma_max_level_nonneg(qp, i, j);
}

/// The largest level the quantizer allows is never negative.
proof fn lemma_max_level_nonneg(qp: int, i: int, j: int)
    requires
        0 <= qp <= 51,
    ensures
        spec_max_level(qp, i, j) >= 0,
{
    let ls = spec_level_scale(qp % 6, i, j);
    assert(160 <= ls <= 464) by {
        let c = crate::codec::h264::transform::spec_class(i, j);
        assert(0 <= c < 3);
        assert(0 <= qp % 6 < 6);
    }
    let shift = qp / 6;
    lemma2_to64();
    let mx = MAX_DEQUANT as int;
    if shift >= 4 {
        let p = pow2((shift - 4) as nat) as int;
        lemma_pow2_pos((shift - 4) as nat);
        assert((mx / p) / ls >= 0) by (nonlinear_arith)
            requires
                mx > 0,
                p > 0,
                ls > 0,
        ;
    } else {
        let d = pow2((4 - shift) as nat) as int;
        let r = pow2((3 - shift) as nat) as int;
        assert(d == 2 * r && r >= 1) by {
            vstd::arithmetic::power2::lemma_pow2_unfold((4 - shift) as nat);
            lemma_pow2_pos((3 - shift) as nat);
        }
        assert((mx * d - r) / ls >= 0) by (nonlinear_arith)
            requires
                mx > 0,
                d == 2 * r,
                r >= 1,
                ls > 0,
        ;
    }
}

/// A zero level dequantizes to zero at every standard QP.
proof fn lemma_dequant_zero(qp: int, i: int, j: int)
    requires
        0 <= qp <= 51,
    ensures
        spec_dequant(0, qp, i, j) == 0,
{
    let shift = qp / 6;
    lemma2_to64();
    if shift < 4 {
        let d = pow2((4 - shift) as nat) as int;
        let r = pow2((3 - shift) as nat) as int;
        assert(d == 2 * r && r >= 1) by {
            vstd::arithmetic::power2::lemma_pow2_unfold((4 - shift) as nat);
            lemma_pow2_pos((3 - shift) as nat);
        }
        assert((0 * spec_level_scale(qp % 6, i, j) + r) / d == 0) by (nonlinear_arith)
            requires
                d == 2 * r,
                r >= 1,
        ;
    } else {
        assert(0 * spec_level_scale(qp % 6, i, j) * pow2((shift - 4) as nat) == 0) by (nonlinear_arith);
    }
}

/// Sixteen zeros.
pub open spec fn zero16() -> Seq<int> {
    Seq::new(16, |k: int| 0int)
}

/// The forward transform of nothing is nothing.
proof fn lemma_forward_of_zero()
    ensures
        spec_forward4(zero16()) == zero16(),
{
    let z = zero16();
    let t = crate::codec::h264::transform::forward4_rows(z);
    assert forall|k: int| 0 <= k < 16 implies #[trigger] t[k] == 0 by {
        let r = 4 * (k / 4);
        assert(0 <= r && r + 3 < 16);
        assert(z[r] == 0 && z[r + 1] == 0 && z[r + 2] == 0 && z[r + 3] == 0);
    }
    assert forall|k: int| 0 <= k < 16 implies #[trigger] spec_forward4(z)[k] == 0 by {
        let c = k % 4;
        assert(t[c] == 0 && t[4 + c] == 0 && t[8 + c] == 0 && t[12 + c] == 0);
    }
    assert(spec_forward4(z) =~= z);
}

/// The inverse transform of nothing is nothing.
proof fn lemma_inverse_of_zero()
    ensures
        spec_inverse4(zero16()) == zero16(),
{
    let z = zero16();
    let t = inverse4_rows(z);
    assert forall|k: int| 0 <= k < 16 implies #[trigger] t[k] == 0 by {
        let r = 4 * (k / 4);
        assert(0 <= r && r + 3 < 16);
        assert(z[r] == 0 && z[r + 1] == 0 && z[r + 2] == 0 && z[r + 3] == 0);
    }
    assert forall|k: int| 0 <= k < 16 implies #[trigger] spec_inverse4(z)[k] == 0 by {
        let c = k % 4;
        assert(t[c] == 0 && t[4 + c] == 0 && t[8 + c] == 0 && t[12 + c] == 0);
    }
    assert(spec_inverse4(z) =~= z);
}

/// Zero levels everywhere, and their dequantized values.
proof fn lemma_levels_of_zero(qp: int)
    requires
        0 <= qp <= 51,
    ensures
        quantized4(zero16(), qp) == zero16(),
        dequantized4(zero16(), qp) == zero16(),
{
    lemma_forward_of_zero();
    assert forall|k: int| 0 <= k < 16 implies #[trigger] quantized4(zero16(), qp)[k] == 0 by {
        lemma_quant_zero(qp, k / 4, k % 4);
    }
    assert(quantized4(zero16(), qp) =~= zero16());
    assert forall|k: int| 0 <= k < 16 implies #[trigger] dequantized4(zero16(), qp)[k] == 0 by {
        lemma_dequant_zero(qp, k / 4, k % 4);
    }
    assert(dequantized4(zero16(), qp) =~= zero16());
}

/// A block its prediction matches exactly codes to no levels at all and is
/// reconstructed exactly, at every standard QP.
#[verifier::spinoff_prover]
#[verifier::rlimit(40)]
pub proof fn lemma_exact_prediction_codes_nothing(orig: Seq<i32>, qp: int)
    requires
        orig.len() == 16,
        samples8(orig),
        0 <= qp <= 51,
    ensures
        quantized4(residual4(orig, ints(orig)), qp) == zero16(),
        reconstructed4(ints(orig), quantized4(residual4(orig, ints(orig)), qp), qp) == ints(orig),
{
    assert(residual4(orig, ints(orig)) =~= zero16());
    lemma_levels_of_zero(qp);
    lemma_inverse_of_zero();
    assert forall|k: int| 0 <= k < 16 implies #[trigger] reconstructed4(ints(orig), zero16(), qp)[k] == ints(orig)[k] by {
        assert(0 <= orig[k] <= 255);
    }
    assert(reconstructed4(ints(orig), zero16(), qp) =~= ints(orig));
}

} // verus!
