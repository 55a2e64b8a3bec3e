//! Context layout of H.264 CABAC for intra slices (§9.3.3.1).
//!
//! CABAC keeps one adaptive probability state per `ctxIdx`. Every syntax
//! element of an I slice owns a block of those indices, and the residual
//! elements split theirs again by `ctxBlockCat`. This module holds that map
//! and the laws it has to obey: an I slice never reaches an index the
//! initialisation leaves undefined, each category's significance contexts
//! stay inside its own span, and the residual blocks tile end to end.

use vstd::prelude::*;

verus! {

/// `ctxIdx` base of `mb_type` in an I slice (Table 9-11).
pub const MB_TYPE_I: usize = 3;

/// `ctxIdx` base of `mb_qp_delta`.
pub const MB_QP_DELTA: usize = 60;

/// `ctxIdx` base of `intra_chroma_pred_mode`.
pub const CHROMA_PRED: usize = 64;

/// `ctxIdx` of `prev_intra4x4_pred_mode_flag`.
pub const PREV_INTRA_FLAG: usize = 68;

/// `ctxIdx` of `rem_intra4x4_pred_mode`.
pub const REM_INTRA_MODE: usize = 69;

/// `ctxIdx` base of the luma bins of `coded_block_pattern`.
pub const CBP_LUMA: usize = 73;

/// `ctxIdx` base of the chroma bins of `coded_block_pattern`.
pub const CBP_CHROMA: usize = 77;

/// `ctxIdx` base of `coded_block_flag`.
pub const CBF: usize = 85;

/// `ctxIdx` base of `significant_coeff_flag`.
pub const SIG: usize = 105;

/// `ctxIdx` base of `last_significant_coeff_flag`.
pub const LAST_SIG: usize = 166;

/// `ctxIdx` base of `coeff_abs_level_minus1`.
pub const ABS_LEVEL: usize = 227;

/// Number of context states an I slice initialises, `ctxIdx` 0 to 275.
pub const NUM_CTX: usize = 276;

/// Per-`ctxBlockCat` offset within the `coded_block_flag` block (Table 9-40).
pub const CBF_CAT: [usize; 5] = [0, 4, 8, 12, 16];

/// Per-`ctxBlockCat` offset within the significance blocks.
pub const SIG_CAT: [usize; 5] = [0, 15, 29, 44, 47];

/// Per-`ctxBlockCat` offset within the `coeff_abs_level_minus1` block.
pub const ABS_CAT: [usize; 5] = [0, 10, 20, 30, 39];

/// `ctxBlockCat` of an `Intra16x16` luma DC block (Table 9-42).
pub const CAT_LUMA_DC: usize = 0;

/// `ctxBlockCat` of an `Intra16x16` luma AC block.
pub const CAT_LUMA_AC: usize = 1;

/// `ctxBlockCat` of a luma 4×4 block.
pub const CAT_LUMA_4X4: usize = 2;

/// `ctxBlockCat` of a chroma DC block.
pub const CAT_CHROMA_DC: usize = 3;

/// `ctxBlockCat` of a chroma AC block.
pub const CAT_CHROMA_AC: usize = 4;

/// Coefficients a block of category `cat` carries.
pub open spec fn cat_max_coeff(cat: int) -> int {
    if cat == 0 {
        16
    } else if cat == 1 {
        15
    } else if cat == 2 {
        16
    } else if cat == 3 {
        4
    } else {
        15
    }
}

/// First significance offset past category `cat`'s span.
pub open spec fn sig_span_end(cat: int) -> int {
    if cat < 4 {
        SIG_CAT[cat + 1] as int
    } else {
        SIG_CAT[4] + 14
    }
}

/// `ctxIdxInc` for `significant_coeff_flag` and
/// `last_significant_coeff_flag` at scan position `pos`.
pub open spec fn spec_sig_inc(cat: int, pos: int) -> int {
    if cat == CAT_CHROMA_DC && pos > 2 {
        2
    } else {
        pos
    }
}

/// `ctxIdxInc` for `significant_coeff_flag` / `last_significant_coeff_flag`.
///
/// Every category keys off the scan position directly except chroma DC,
/// whose four coefficients share three contexts.
pub fn sig_inc(cat: usize, scan_pos: usize) -> (inc: usize)
    ensures
        inc == spec_sig_inc(cat as int, scan_pos as int),
{
    if cat == CAT_CHROMA_DC && scan_pos > 2 {
        2
    } else {
        scan_pos
    }
}

/// Every I-slice element's contexts lie in `ctxIdx` 0..=10 or 60..=275: the
/// ones between are P/B-only and hold no initialisation here, and a wrong
/// probability does not make the coder object, it only decodes wrong.
pub proof fn lemma_i_slice_contexts_are_initialised()
    ensures
        MB_TYPE_I + 7 <= 10,
        60 <= MB_QP_DELTA && MB_QP_DELTA + 3 < CHROMA_PRED,
        CHROMA_PRED + 3 < PREV_INTRA_FLAG,
        PREV_INTRA_FLAG < REM_INTRA_MODE < CBP_LUMA,
        CBP_LUMA + 3 < CBP_CHROMA,
        CBP_CHROMA + 7 < CBF,
        ABS_LEVEL + ABS_CAT[4] + 9 < NUM_CTX,
{
}

/// Every significance category gets one context per scan position it can
/// report, except the last, whose significance is implied; chroma DC's four
/// positions share three. No position of a category reaches into the next
/// category's span.
pub proof fn lemma_significance_stays_in_its_category(cat: int, pos: int)
    requires
        0 <= cat < 5,
        0 <= pos < cat_max_coeff(cat) - 1,
    ensures
        SIG_CAT[cat] <= SIG_CAT[cat] + spec_sig_inc(cat, pos) < sig_span_end(cat),
        sig_span_end(cat) - SIG_CAT[cat] == if cat == CAT_CHROMA_DC {
            3
        } else {
            cat_max_coeff(cat) - 1
        },
{
}

/// The residual context blocks tile end to end: `coded_block_flag` ends at
/// 104, the significance flags at 165, the last-significance flags at 226
/// and the level magnitudes at 275, each block starting right after the one
/// before, so no two block types share a probability state.
pub proof fn lemma_residual_blocks_tile()
    ensures
        CBF + CBF_CAT[4] + 3 == 104,
        SIG == 104 + 1,
        SIG + SIG_CAT[4] + 13 == 165,
        LAST_SIG == 165 + 1,
        LAST_SIG + SIG_CAT[4] + 13 == 226,
        ABS_LEVEL == 226 + 1,
        ABS_LEVEL + ABS_CAT[4] + 9 == 275,
        forall|c: int| 0 <= c < 4 ==> CBF_CAT[c] + 4 == #[trigger] CBF_CAT[c + 1],
        forall|c: int| 0 <= c < 4 ==> ABS_CAT[c] < #[trigger] ABS_CAT[c + 1],
{
}

} // verus!
