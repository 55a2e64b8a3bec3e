use lib::codec::h264::intra::{
    allowed, allowed16, predict16, predict4, predict_chroma, Neighbors16, Neighbors4, NeighborsC, C_DC, DC,
    DIAG_DOWN_LEFT, DIAG_DOWN_RIGHT, HORIZ, HORIZ_UP, I16_DC, I16_HORIZ, I16_PLANE, I16_VERT, VERT, VERT_RIGHT,
};

fn n4(above: [i32; 4], ar: [i32; 4], left: [i32; 4], corner: i32) -> Neighbors4 {
    Neighbors4::new(Some(above), Some(ar), Some(left), Some(corner))
}

#[test]
fn nothing_available_predicts_mid_grey() {
    let n = Neighbors4::default();
    assert_eq!(predict4(DC, &n), [128; 16]);
    // An unavailable mode must not read absent samples; it falls back.
    assert_eq!(predict4(VERT_RIGHT, &n), [128; 16]);
    assert!(!allowed(VERT, &n) && allowed(DC, &n));
}

#[test]
fn vertical_and_horizontal_copy_their_edge() {
    let n = n4([10, 20, 30, 40], [40; 4], [1, 2, 3, 4], 99);
    let v = predict4(VERT, &n);
    for y in 0..4 {
        assert_eq!(&v[y * 4..y * 4 + 4], &[10, 20, 30, 40]);
    }
    let h = predict4(HORIZ, &n);
    for y in 0..4 {
        assert!(h[y * 4..y * 4 + 4].iter().all(|&s| s == (y as i32 + 1)));
    }
}

#[test]
fn dc_averages_what_exists() {
    // Both edges: (40 + 40 + 4) >> 3 = 10.
    let n = n4([10; 4], [10; 4], [10; 4], 0);
    assert_eq!(predict4(DC, &n)[0], 10);
    // Above only.
    let n = Neighbors4::new(Some([20; 4]), None, None, None);
    assert_eq!(predict4(DC, &n)[0], 20);
    // Left only.
    let n = Neighbors4::new(None, None, Some([30; 4]), None);
    assert_eq!(predict4(DC, &n)[0], 30);
}

/// Every directional mode on a constant field must reproduce that constant.
#[test]
fn flat_input_stays_flat_in_every_mode() {
    let n = n4([77; 4], [77; 4], [77; 4], 77);
    for mode in 0..=8u8 {
        let p = predict4(mode, &n);
        assert!(p.iter().all(|&v| v == 77), "mode {mode} broke flatness: {p:?}");
    }
}

#[test]
fn availability_gates_modes() {
    let above_only = Neighbors4::new(Some([1; 4]), None, None, None);
    assert!(allowed(VERT, &above_only));
    assert!(allowed(DIAG_DOWN_LEFT, &above_only));
    assert!(!allowed(HORIZ, &above_only));
    assert!(!allowed(DIAG_DOWN_RIGHT, &above_only), "needs left+corner");

    let left_only = Neighbors4::new(None, None, Some([1; 4]), None);
    assert!(allowed(HORIZ, &left_only) && allowed(HORIZ_UP, &left_only));
    assert!(!allowed(VERT, &left_only));
}

/// Above-right substitution: with no above-right, `p[4..7,-1]` become
/// `p[3,-1]`.
#[test]
fn above_right_substitution() {
    let n = Neighbors4::new(Some([5, 6, 7, 8]), None, None, None);
    let a = n.above.unwrap();
    assert_eq!(&a[4..], &[8, 8, 8, 8]);
}

#[test]
fn chroma_flat_stays_flat() {
    let n = NeighborsC { above: Some([64; 8]), left: Some([64; 8]), corner: Some(64) };
    for mode in 0..=3u8 {
        let p = predict_chroma(mode, &n);
        assert!(p.iter().all(|&v| v == 64), "chroma mode {mode}: {:?}", &p[..8]);
    }
}

#[test]
fn chroma_dc_quadrants_use_different_edges() {
    // Above is 100s on the left half, 200s on the right; left edge all 0.
    let n = NeighborsC {
        above: Some([100, 100, 100, 100, 200, 200, 200, 200]),
        left: Some([0; 8]),
        corner: Some(0),
    };
    let p = predict_chroma(C_DC, &n);
    assert_eq!(p[0], (400 + 4) >> 3, "top-left averages both edges (left is all zero)");
    assert_eq!(p[4], (800 + 2) >> 2, "top-right prefers above");
    assert_eq!(p[4 * 8], 0, "bottom-left prefers left, which is all zero");
}

#[test]
fn luma16_modes_need_their_edges() {
    let none = Neighbors16::default();
    assert!(allowed16(I16_DC, &none));
    assert!(!allowed16(I16_VERT, &none) && !allowed16(I16_HORIZ, &none) && !allowed16(I16_PLANE, &none));
    assert_eq!(predict16(I16_DC, &none), [128; 256]);
    // A plane with no corner is not allowed and falls back to DC.
    let n = Neighbors16 { above: Some([50; 16]), left: Some([90; 16]), corner: None };
    assert!(!allowed16(I16_PLANE, &n));
    let p = predict16(I16_PLANE, &n);
    assert!(p.iter().all(|&v| v == (16 * 50 + 16 * 90 + 16) >> 5));
}

#[test]
fn luma16_vertical_copies_the_row_above() {
    let mut above = [0i32; 16];
    for (k, a) in above.iter_mut().enumerate() {
        *a = 10 * k as i32;
    }
    let n = Neighbors16 { above: Some(above), left: None, corner: None };
    let p = predict16(I16_VERT, &n);
    for y in 0..16 {
        assert_eq!(&p[y * 16..y * 16 + 16], &above[..]);
    }
}

#[test]
fn flat_neighbours_predict_a_flat_macroblock() {
    for c in [0, 77, 255] {
        let n = Neighbors16 { above: Some([c; 16]), left: Some([c; 16]), corner: Some(c) };
        for mode in [I16_VERT, I16_HORIZ, I16_DC, I16_PLANE] {
            assert_eq!(predict16(mode, &n), [c; 256], "mode {mode} on {c}");
        }
    }
}
