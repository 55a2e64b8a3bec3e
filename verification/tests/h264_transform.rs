use lib::codec::h264::transform::{
    chroma_dc_forward, chroma_dc_inverse, dequant4, fit_chroma_dc_levels, fit_luma_dc_levels, forward4, inverse4,
    level_scale, luma_dc_hadamard, luma_dc_inverse, quant4, MAX_DEQUANT, NORM_ADJUST,
};

#[test]
fn inverse_of_zero_is_zero() {
    assert_eq!(inverse4(&[0; 16]), [0; 16]);
    assert_eq!(quant4(&[0; 16], 26, true), [0; 16]);
    assert_eq!(dequant4(&[0; 16], 26), [0; 16]);
}

/// A DC-only block reconstructs to a flat field.
#[test]
fn dc_only_reconstructs_flat() {
    let mut c = [0i32; 16];
    c[0] = 64 * 16; // 16 in each sample after the >>6
    let r = inverse4(&c);
    assert!(r.iter().all(|&v| v == r[0]), "not flat: {r:?}");
    assert_eq!(r[0], 16);
}

/// Quantize→dequantize→inverse must land near the original residual.
#[test]
fn roundtrip_is_close_at_low_qp() {
    let orig: [i32; 16] = [12, -7, 3, 0, -5, 9, -2, 1, 4, -1, 6, -3, 0, 2, -4, 8];
    let levels = quant4(&forward4(&orig), 10, true);
    let back = inverse4(&dequant4(&levels, 10));
    for (a, b) in orig.iter().zip(&back) {
        assert!((a - b).abs() <= 3, "drifted: {orig:?} vs {back:?}");
    }
}

#[test]
fn higher_qp_zeroes_more() {
    let orig: [i32; 16] = [40, -18, 9, 2, -14, 22, -6, 3, 11, -4, 15, -8, 1, 5, -9, 20];
    let c = forward4(&orig);
    let low = quant4(&c, 12, true).iter().filter(|&&v| v != 0).count();
    let high = quant4(&c, 40, true).iter().filter(|&&v| v != 0).count();
    assert!(high <= low, "qp 40 kept {high}, qp 12 kept {low}");
}

/// Every level the quantizer can emit must dequantize inside the 16-bit
/// range, at every QP and every position class.
#[test]
fn quantized_levels_never_overflow_dequantization() {
    for qp in 0..=51 {
        let coeff = [20000i32; 16];
        for &c in &[coeff, [-20000; 16], [32767; 16]] {
            let levels = quant4(&c, qp, true);
            let d = dequant4(&levels, qp);
            for (k, &v) in d.iter().enumerate() {
                assert!(
                    (v as i64).abs() <= MAX_DEQUANT,
                    "qp {qp}, position {k}: dequantized to {v}, over the inverse-transform bound {MAX_DEQUANT}"
                );
            }
            for r in 0..4 {
                let (d0, d1, d2, d3) = (d[r * 4], d[r * 4 + 1], d[r * 4 + 2], d[r * 4 + 3]);
                for v in [d0 + d2 + d1 + (d3 / 2), (d0 - d2) + ((d1 / 2) - d3)] {
                    assert!((-32768..=32767).contains(&v), "qp {qp}, row {r}: inverse-transform intermediate {v}");
                }
            }
        }
    }
}

/// `H·H = 4I` on each side, so applying the 4×4 Hadamard twice scales by 16.
#[test]
fn luma_dc_hadamard_is_an_involution_up_to_scale() {
    let dc: [i32; 16] = [5, -3, 2, 7, 11, -8, 0, 4, -6, 9, 1, -2, 3, 3, -5, 10];
    let twice = luma_dc_hadamard(&luma_dc_hadamard(&dc));
    for k in 0..16 {
        assert_eq!(twice[k], 16 * dc[k], "position {k}");
    }
}

/// Pin every entry of the matrix, not just its symmetry.
#[test]
fn luma_dc_matrix_is_the_one_in_the_spec() {
    const H: [[i32; 4]; 4] = [[1, 1, 1, 1], [1, 1, -1, -1], [1, -1, -1, 1], [1, -1, 1, -1]];
    for r in 0..4 {
        for c in 0..4 {
            let mut imp = [0i32; 16];
            imp[r * 4 + c] = 1;
            let got = luma_dc_hadamard(&imp);
            for i in 0..4 {
                for j in 0..4 {
                    assert_eq!(got[i * 4 + j], H[i][r] * H[c][j], "impulse at ({r},{c}), output ({i},{j})");
                }
            }
        }
    }
}

/// A flat set of DCs must stay flat through the transform and its scaling.
#[test]
fn luma_dc_flat_stays_flat() {
    let f = luma_dc_hadamard(&[7; 16]);
    assert_eq!(f[0], 16 * 7, "DC of a flat field");
    assert!(f[1..].iter().all(|&v| v == 0), "no AC from a flat field");
    let rec = luma_dc_inverse(&[3, 0, 0, 0, 0, 0, 0, 0, 0, 0, 0, 0, 0, 0, 0, 0], 28);
    assert!(rec.iter().all(|&v| v == rec[0]), "flat DC level -> flat output");
}

#[test]
fn chroma_dc_hadamard_is_its_own_shape() {
    let dc = [5i32, -3, 2, 7];
    let f = chroma_dc_forward(&dc);
    let again = chroma_dc_forward(&f);
    for k in 0..4 {
        assert_eq!(again[k], 4 * dc[k]);
    }
}

/// `LevelScale` must follow the position classes, not a single constant.
#[test]
fn level_scale_follows_position_class() {
    for (m, adj) in NORM_ADJUST.iter().enumerate() {
        assert_eq!(level_scale(m, 0, 0), 16 * adj[0]);
        assert_eq!(level_scale(m, 1, 1), 16 * adj[1]);
        assert_eq!(level_scale(m, 0, 1), 16 * adj[2]);
        assert_eq!(level_scale(m, 2, 0), 16 * adj[0]);
    }
}

#[test]
fn chroma_dc_inverse_scales_a_lone_level() {
    // f = [8, 8, 8, 8]; LevelScale(0,0,0) = 160; qp 12 → shift 2: (8*160*4) >> 5 = 160.
    assert_eq!(chroma_dc_inverse(&[8, 0, 0, 0], 12), [160; 4]);
}

#[test]
fn fitting_leaves_small_chroma_dc_alone() {
    let mut levels = [10, -3, 2, 0];
    fit_chroma_dc_levels(&mut levels, 26);
    assert_eq!(levels, [10, -3, 2, 0]);
}

#[test]
fn fitting_shrinks_chroma_dc_until_it_fits() {
    let mut levels = [40, 40, 40, 40];
    fit_chroma_dc_levels(&mut levels, 26);
    let worst = chroma_dc_inverse(&levels, 26).iter().map(|v| (*v as i64).abs()).max().unwrap();
    assert!(worst <= MAX_DEQUANT, "still overflows: {worst}");
    // Each round moves every level one step toward zero, and only as far as needed.
    let mut one_less = levels;
    for l in one_less.iter_mut() {
        *l += l.signum();
    }
    let before = chroma_dc_inverse(&one_less, 26).iter().map(|v| (*v as i64).abs()).max().unwrap();
    assert!(before > MAX_DEQUANT);
    assert_eq!(levels, [19; 4]);
}

#[test]
fn fitting_shrinks_luma_dc_until_it_fits() {
    let mut levels = [0i32; 16];
    levels[0] = 150;
    fit_luma_dc_levels(&mut levels, 28);
    let worst = luma_dc_inverse(&levels, 28).iter().map(|v| (*v as i64).abs()).max().unwrap();
    assert!(worst <= MAX_DEQUANT, "still overflows: {worst}");
    assert_eq!(levels[0], 127);
    assert!(levels[1..].iter().all(|&v| v == 0));
    let mut small = [0i32; 16];
    small[0] = 3;
    fit_luma_dc_levels(&mut small, 28);
    assert_eq!(small[0], 3);
}

#[test]
fn forward_transform_is_linear() {
    let a: [i32; 16] = [3, -1, 4, 1, -5, 9, 2, -6, 5, 3, -5, 8, 9, -7, 9, 3];
    let b: [i32; 16] = [2, 7, -1, 8, 2, -8, 1, 8, -2, 8, 4, -5, 9, 0, 4, 5];
    let mut s = [0i32; 16];
    for k in 0..16 {
        s[k] = a[k] + b[k];
    }
    let (fa, fb, fs) = (forward4(&a), forward4(&b), forward4(&s));
    for k in 0..16 {
        assert_eq!(fs[k], fa[k] + fb[k]);
    }
    let mut dc = [0i32; 16];
    dc[0] = 16 * 7;
    assert_eq!(forward4(&[7; 16]), dc);
}
