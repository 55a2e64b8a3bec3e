use lib::codec::h264::compress::{blk_index, blk_origin, chroma_qp, grid_index, BLK_POS, CBP_INTRA_CODE};
use lib::codec::hevc::compress::chroma_qp as hevc_chroma_qp;
use lib::codec::hevc::compress::{
    available, decode_order, extract, filter_flag, morton, mpm_list, refs_generic, scan_idx, smooth_refs, split_ctx,
    split_refs, spread, tile_spans, Geo, Grid, DC, PLANAR,
};

/// Table 9-4 maps code numbers onto CBP values one-to-one.
#[test]
fn cbp_table_is_a_permutation() {
    let mut seen = [false; 48];
    for &c in CBP_INTRA_CODE.iter() {
        assert!(c < 48, "code number {c} out of range");
        assert!(!seen[c as usize], "code number {c} used twice");
        seen[c as usize] = true;
    }
    assert!(seen.iter().all(|&s| s), "some code number is unused");
}

#[test]
fn block_positions_are_a_permutation() {
    let mut seen = [[false; 4]; 4];
    for &(x, y) in BLK_POS.iter() {
        assert!(!seen[y][x], "block position ({x},{y}) repeats");
        seen[y][x] = true;
    }
    assert!(seen.iter().flatten().all(|&s| s));
    assert_eq!(BLK_POS[3], (1, 1));
    assert_eq!(BLK_POS[4], (2, 0));
    assert_eq!(blk_index(2, 0), 4);
}

#[test]
fn chroma_qp_follows_table_8_15() {
    assert_eq!(chroma_qp(0), 0);
    assert_eq!(chroma_qp(29), 29);
    assert_eq!(chroma_qp(30), 29);
    assert_eq!(chroma_qp(39), 35);
    assert_eq!(chroma_qp(51), 39);
    for q in 0..=51 {
        assert!(chroma_qp(q) <= q.max(0));
        if q > 0 {
            assert!(chroma_qp(q) >= chroma_qp(q - 1));
        }
    }
}

#[test]
fn out_of_range_luma_qp_is_clamped_first() {
    assert_eq!(chroma_qp(-5), 0);
    assert_eq!(chroma_qp(70), 39);
}

#[test]
fn block_geometry_in_pictures() {
    for b in 0..16 {
        let (x, y) = BLK_POS[b];
        assert_eq!(blk_index(x, y), b);
    }
    assert_eq!(blk_origin(1, 2, 5), (16 + 12, 32));
    assert_eq!(grid_index(64, 20, 9), 2 * 16 + 5);
}

#[test]
fn mpm_list_cases() {
    // Both neighbors DC → planar/DC/vertical fallback.
    assert_eq!(mpm_list(1, 1), [PLANAR, DC, 26]);
    // Distinct non-planar/non-DC → third is planar.
    assert_eq!(mpm_list(10, 26), [10, 26, PLANAR]);
    // Distinct incl. planar → third is DC.
    assert_eq!(mpm_list(PLANAR, 26), [0, 26, DC]);
    // Equal angular → derived neighbors.
    let l = mpm_list(20, 20);
    assert_eq!(l[0], 20);
    assert!(l[1] >= 2 && l[2] >= 2 && l[1] != l[2]);
}

#[test]
fn filter_flag_rules() {
    assert!(!filter_flag(DC, 16)); // DC never filtered
    assert!(!filter_flag(10, 4)); // 4x4 never filtered
    assert!(!filter_flag(26, 16)); // pure vertical: minDist 0 <= 1
    assert!(filter_flag(PLANAR, 16)); // planar minDist 10 > 1
    assert!(filter_flag(18, 16)); // diagonal filtered
}

#[test]
fn rem_mode_roundtrips_through_mpm() {
    let list = mpm_list(1, 1);
    let mut sorted = list;
    sorted.sort_unstable();
    for mode in 0..=34u8 {
        if list.contains(&mode) {
            continue;
        }
        let mut rem = mode as i32;
        for &c in sorted.iter().rev() {
            if rem > c as i32 {
                rem -= 1;
            }
        }
        let mut dec = rem;
        for &c in sorted.iter() {
            if dec >= c as i32 {
                dec += 1;
            }
        }
        assert_eq!(dec as u8, mode, "rem roundtrip for mode {mode}");
    }
}

#[test]
fn equal_angular_candidates_wrap_their_neighbours() {
    assert_eq!(mpm_list(2, 2), [2, 33, 3]);
    assert_eq!(mpm_list(34, 34), [34, 33, 3]);
    assert_eq!(mpm_list(0, 1), [0, 1, 26]);
}

#[test]
fn scan_follows_the_prediction_direction() {
    assert_eq!(scan_idx(10, 2, false), 2);
    assert_eq!(scan_idx(26, 3, false), 1);
    assert_eq!(scan_idx(26, 3, true), 0);
    assert_eq!(scan_idx(18, 2, true), 0);
    assert_eq!(scan_idx(10, 4, false), 0);
}

#[test]
fn morton_interleaves_bits() {
    assert_eq!(spread(0b1011), 0b1000101);
    assert_eq!(morton(3, 0), 5);
    assert_eq!(morton(0, 3), 10);
    assert_eq!(morton(0xFFFF, 0xFFFF), u32::MAX);
    assert_eq!(decode_order(70, 5, 32, 4), (2, morton(6, 5)));
}

#[test]
fn availability_follows_decoding_order() {
    // 64x64 picture, 32x32 CTBs, two to a row. Block at (32, 32).
    assert!(available(31, 32, 32, 32, 64, 64, 32, 2)); // left CTB, earlier
    assert!(available(40, 31, 32, 32, 64, 64, 32, 2)); // above CTB
    assert!(!available(64, 31, 32, 32, 64, 64, 32, 2)); // outside the picture
    assert!(!available(-1, 40, 32, 32, 64, 64, 32, 2));
    // Inside one CTB: z-order decides.
    assert!(available(3, 4, 4, 4, 64, 64, 32, 2)); // left neighbour block, earlier
    assert!(!available(8, 3, 4, 4, 64, 64, 32, 2)); // above-right, later in z-order
}

#[test]
fn reference_chain_substitutes_missing_samples() {
    // 16x16 plane, one 16x16 CTB per row; the 4x4 block at (4, 4).
    let recon: Vec<u8> = (0..256).map(|i| i as u8).collect();
    let vals = refs_generic(&recon, 16, 16, 4, 4, 4, 16, 1);
    assert_eq!(vals.len(), 17);
    // Left column, bottom-left first: rows 11..4 at x = 3; rows 8..11 are later
    // in z-order and substituted by the nearest earlier value.
    assert_eq!(vals[4], 7 * 16 + 3);
    assert_eq!(vals[7], 4 * 16 + 3);
    assert_eq!(vals[0], vals[4]);
    assert_eq!(vals[8], 3 * 16 + 3); // corner
    assert_eq!(vals[9], 3 * 16 + 4); // top row
    // The above-right block comes later in z-order: substituted from (7, 3).
    assert_eq!(vals[16], 3 * 16 + 7);
    assert_eq!(vals[1], vals[0]);
    // Nothing available at the picture's origin: all 128.
    assert!(refs_generic(&recon, 16, 16, 0, 0, 4, 16, 1).iter().all(|&v| v == 128));
}

#[test]
fn smoothing_keeps_the_ends_and_splitting_starts_at_the_corner() {
    let vals: Vec<i32> = vec![0, 4, 8, 4, 0, 8, 16, 8, 0];
    assert_eq!(smooth_refs(&vals), vec![0, 4, 6, 4, 3, 8, 12, 8, 0]);
    let (a, l) = split_refs(&vals, 2);
    assert_eq!(a, vec![0, 8, 16, 8, 0]);
    assert_eq!(l, vec![0, 4, 8, 4, 0]);
    let (fa, fl) = extract(&vals, 2, 18, true);
    assert_eq!((fa, fl), split_refs(&vals, 2)); // too small to be smoothed
    let big: Vec<i32> = (0..33).map(|i| if i % 2 == 0 { 0 } else { 8 }).collect();
    let (sa, _) = extract(&big, 8, 18, true);
    assert_eq!(sa[1], 4);
    let (ca, _) = extract(&big, 8, 18, false);
    assert_eq!(ca[1], 8); // chroma is never smoothed
}

#[test]
fn hevc_chroma_qp_follows_the_table() {
    assert_eq!(hevc_chroma_qp(-3), 0);
    assert_eq!(hevc_chroma_qp(29), 29);
    assert_eq!(hevc_chroma_qp(30), 29);
    assert_eq!(hevc_chroma_qp(34), 33);
    assert_eq!(hevc_chroma_qp(43), 37);
    assert_eq!(hevc_chroma_qp(44), 38);
    assert_eq!(hevc_chroma_qp(51), 45);
    assert_eq!(hevc_chroma_qp(60), 45);
}

#[test]
fn tile_spans_spread_the_remainder_over_the_leading_tiles() {
    assert_eq!(tile_spans(10, 3), vec![(0, 3), (3, 3), (6, 4)]);
    assert_eq!(tile_spans(4, 4), vec![(0, 1), (1, 1), (2, 1), (3, 1)]);
    assert_eq!(tile_spans(2, 3), vec![(0, 0), (0, 1), (1, 1)]);
}

#[test]
fn grid_stamps_saves_and_restores_a_square() {
    // 32x32 picture of 8x8 blocks: a 4x4 grid.
    let mut g = Grid::new(32, 32, 3);
    assert_eq!(g.mode_at(5, 5), DC); // nothing coded yet
    g.set_cu(0, 0, 4, 26, 1, 30); // 16x16 at the origin: blocks (0..2, 0..2)
    assert_eq!(g.mode_at(15, 15), 26);
    assert_eq!(g.depth_at(8, 0), 1);
    assert_eq!(g.qp_at(0, 8), 30);
    assert_eq!(g.mode_at(16, 0), DC);
    let saved = g.save(16, 0, 4);
    assert_eq!(saved.len(), 4);
    g.set_cu(16, 0, 4, 10, 2, 40);
    assert_eq!(g.mode_at(24, 8), 10);
    g.restore(16, 0, 4, &saved);
    assert_eq!(g.mode_at(24, 8), DC);
    assert_eq!(g.depth_at(16, 0), 0);
    // A square hanging off the right edge stamps only what is inside.
    g.set_cu(24, 24, 4, 18, 3, 20);
    assert_eq!(g.mode_at(31, 31), 18);
    // split context: the block at (16, 16) sees a deeper left neighbour.
    let geo = Geo { cw: 32, ch: 32, ctb: 16, nx: 2 };
    g.set_cu(8, 16, 3, 1, 3, 26);
    assert_eq!(split_ctx(&g, geo, 16, 16, 1), 1);
    assert_eq!(split_ctx(&g, geo, 16, 16, 3), 0);
    assert_eq!(split_ctx(&g, geo, 0, 0, 0), 0);
    let q = g.into_qp();
    assert_eq!(q.len(), 16);
    assert_eq!(q[0], 30);
}
