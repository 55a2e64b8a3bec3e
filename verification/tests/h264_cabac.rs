use lib::codec::h264::cabac::{sig_inc, CAT_CHROMA_DC, SIG_CAT};

/// Every significance category needs one context per scan position it can
/// report, and chroma DC needs three.
#[test]
fn significance_categories_get_the_span_they_need() {
    for (cat, span) in [(0usize, 15usize), (1, 14), (2, 15), (3, 3), (4, 14)] {
        let next = SIG_CAT.get(cat + 1).copied().unwrap_or(SIG_CAT[4] + 14);
        assert_eq!(next - SIG_CAT[cat], span, "category {cat} span");
    }
}

/// `sig_inc` must stay inside its category's span for every position the
/// category can produce.
#[test]
fn significance_context_stays_in_its_category() {
    for (cat, max_coeff) in [(0usize, 16usize), (1, 15), (2, 16), (3, 4), (4, 15)] {
        let limit = SIG_CAT.get(cat + 1).copied().unwrap_or(SIG_CAT[4] + 14);
        for pos in 0..max_coeff - 1 {
            let idx = SIG_CAT[cat] + sig_inc(cat, pos);
            assert!(idx < limit, "category {cat} position {pos} -> {idx}");
        }
    }
}

#[test]
fn chroma_dc_positions_share_the_last_context() {
    assert_eq!(sig_inc(CAT_CHROMA_DC, 0), 0);
    assert_eq!(sig_inc(CAT_CHROMA_DC, 2), 2);
    assert_eq!(sig_inc(CAT_CHROMA_DC, 3), 2);
    assert_eq!(sig_inc(2, 14), 14);
}
