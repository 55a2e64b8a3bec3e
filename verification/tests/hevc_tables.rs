use lib::codec::hevc::tables::{RANGE_TAB_LPS, TRANS_IDX_LPS, TRANS_IDX_MPS};

/// Structural invariants of the normative tables.
#[test]
fn tables_match_the_spec() {
    for i in 1..63 {
        assert!(
            TRANS_IDX_LPS[i] >= TRANS_IDX_LPS[i - 1],
            "transIdxLps decreases at {i}: {} -> {}",
            TRANS_IDX_LPS[i - 1],
            TRANS_IDX_LPS[i]
        );
    }
    assert_eq!(TRANS_IDX_LPS[63], 63, "state 63 is the LPS fixed point");
    for i in 0..63 {
        assert_eq!(TRANS_IDX_MPS[i], (i as u8 + 1).min(62), "transIdxMps[{i}]");
    }
    assert_eq!(TRANS_IDX_MPS[63], 63);
    for i in 0..63 {
        for q in 0..4 {
            if i > 0 {
                assert!(RANGE_TAB_LPS[i][q] <= RANGE_TAB_LPS[i - 1][q], "rangeTabLps column {q} increases at state {i}");
            }
            if q > 0 {
                assert!(RANGE_TAB_LPS[i][q] > RANGE_TAB_LPS[i][q - 1], "rangeTabLps row {i} not increasing at q={q}");
            }
        }
    }
    assert_eq!(RANGE_TAB_LPS[63], [2, 2, 2, 2]);
}
