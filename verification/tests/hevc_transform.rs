use lib::codec::hevc::transform::{
    forward, forward_buf, forward_into, inverse, inverse_buf, inverse_into, TransformKind, DCT16, DCT32, DCT4, DCT8,
    DST4, G32,
};

/// Rebuild an `n`-point matrix from the `n/2`-point one plus its own first
/// odd row.
fn construct(n: usize, prev: &[&[i32]], g: &[i32]) -> Vec<Vec<i32>> {
    let mut m = vec![vec![0i32; n]; n];
    for i in 0..n / 2 {
        for j in 0..n / 2 {
            m[2 * i][j] = prev[i][j];
            m[2 * i][n - 1 - j] = prev[i][j];
            let k = ((2 * i + 1) * (2 * j + 1)) % (4 * n);
            let (s, idx): (i32, usize) = if k < n {
                (1, (k - 1) / 2)
            } else if k < 2 * n {
                (-1, (2 * n - k - 1) / 2)
            } else if k < 3 * n {
                (-1, (k - 2 * n - 1) / 2)
            } else {
                (1, (4 * n - k - 1) / 2)
            };
            m[2 * i + 1][j] = s * g[idx];
            m[2 * i + 1][n - 1 - j] = -s * g[idx];
        }
    }
    m
}

fn rows_of<const N: usize>(m: &[[i32; N]; N]) -> Vec<Vec<i32>> {
    m.iter().map(|r| r.to_vec()).collect()
}

#[test]
fn the_matrix_generator_reproduces_the_known_tables() {
    let d4: Vec<&[i32]> = DCT4.iter().map(|r| &r[..]).collect();
    let g8: Vec<i32> = DCT8[1][..4].to_vec();
    assert_eq!(construct(8, &d4, &g8), rows_of(&DCT8), "8-point from 4-point");

    let d8: Vec<&[i32]> = DCT8.iter().map(|r| &r[..]).collect();
    let g16: Vec<i32> = DCT16[1][..8].to_vec();
    assert_eq!(construct(16, &d8, &g16), rows_of(&DCT16), "16-point from 8-point");

    let d16: Vec<&[i32]> = DCT16.iter().map(|r| &r[..]).collect();
    assert_eq!(construct(32, &d16, &G32), rows_of(&DCT32), "32-point matches the table");
}

/// The DC row is what every flat block rides on: all 64s, no exceptions.
#[test]
fn dct32_dc_row_is_flat_and_the_matrix_is_centre_symmetric() {
    assert!(DCT32[0].iter().all(|&v| v == 64), "row 0 is the DC row");
    for (i, row) in DCT32.iter().enumerate() {
        let sign = if i % 2 == 0 { 1 } else { -1 };
        for j in 0..16 {
            assert_eq!(row[31 - j], sign * row[j], "row {i}, column {j}");
        }
    }
}

#[test]
fn dct4_rows_orthogonal() {
    for i in 0..4 {
        for j in 0..4 {
            let dot: i32 = (0..4).map(|k| DCT4[i][k] * DCT4[j][k]).sum();
            if i != j {
                assert_eq!(dot, 0, "DCT4 rows {i},{j} not orthogonal");
            } else {
                assert!(dot > 0);
            }
        }
    }
}

#[test]
fn dct8_rows_near_orthogonal() {
    for i in 0..8 {
        for j in 0..8 {
            let dot: i32 = (0..8).map(|k| DCT8[i][k] * DCT8[j][k]).sum();
            if i != j {
                assert!(dot.abs() <= 64, "DCT8 rows {i},{j} dot={dot} too large");
                if (i + j) % 2 == 1 {
                    assert_eq!(dot, 0, "opposite-parity DCT8 rows {i},{j} must be exact");
                }
            } else {
                assert!(dot > 30000, "DCT8 row {i} norm too small: {dot}");
            }
        }
    }
}

fn roundtrip(n: usize, kind: TransformKind, block: &[i32]) {
    let coeff = forward(block, n, kind);
    let recon = inverse(&coeff, n, kind);
    let mut max_err = 0;
    for k in 0..n * n {
        max_err = i32::max(max_err, (recon[k] - block[k]).abs());
    }
    assert!(max_err <= 2, "roundtrip err {max_err} for size {n} {kind:?}");
}

#[test]
fn dct_roundtrips() {
    let b4: Vec<i32> = (0..16).map(|i| (i * 7 % 40) - 20).collect();
    roundtrip(4, TransformKind::Dct, &b4);
    roundtrip(4, TransformKind::Dst, &b4);
    let b8: Vec<i32> = (0..64).map(|i| ((i * 13) % 60) - 30).collect();
    roundtrip(8, TransformKind::Dct, &b8);
    let b16: Vec<i32> = (0..256).map(|i| ((i * 17) % 80) - 40).collect();
    roundtrip(16, TransformKind::Dct, &b16);
}

#[test]
fn dct16_nests_dct8() {
    for i in 0..8 {
        for j in 0..8 {
            assert_eq!(DCT16[2 * i][j], DCT8[i][j], "DCT16 nesting at {i},{j}");
        }
    }
}

#[test]
fn dc_only_is_flat() {
    let flat = vec![10i32; 16];
    let coeff = forward(&flat, 4, TransformKind::Dct);
    assert!(coeff[0].abs() > 0, "DC present");
    for (i, &c) in coeff.iter().enumerate().skip(1) {
        assert_eq!(c, 0, "non-DC coeff {i} should be ~0 for flat input");
    }
}

#[test]
fn a_flat_4x4_has_the_dc_the_shifts_give() {
    // 4-point: first stage (64*4*10 + 1) >> 1 = 1280, second (64*4*1280 + 128) >> 8 = 1280.
    let coeff = forward(&vec![10i32; 16], 4, TransformKind::Dct);
    assert_eq!(coeff[0], 1280);
    let back = inverse(&coeff, 4, TransformKind::Dct);
    assert!(back.iter().all(|&v| v == 10), "{back:?}");
}

#[test]
fn a_flat_32x32_roundtrips_exactly() {
    let flat = vec![-7i32; 1024];
    let coeff = forward(&flat, 32, TransformKind::Dct);
    assert!(coeff[1..].iter().all(|&c| c == 0));
    let back = inverse(&coeff, 32, TransformKind::Dct);
    assert!(back.iter().all(|&v| v == -7), "{:?}", &back[..8]);
}

#[test]
fn buffered_and_in_place_forms_agree() {
    let block: Vec<i32> = (0..64).map(|i| ((i * 29) % 50) - 25).collect();
    let direct = forward(&block, 8, TransformKind::Dct);
    let mut buf = vec![1, 2, 3];
    forward_buf(&block, 8, TransformKind::Dct, &mut buf);
    assert_eq!(buf, direct);
    let mut slot = vec![0i32; 64];
    forward_into(&block, &mut slot, 8, TransformKind::Dct);
    assert_eq!(slot, direct);

    let recon = inverse(&direct, 8, TransformKind::Dct);
    let mut rbuf = Vec::new();
    inverse_buf(&direct, 8, TransformKind::Dct, &mut rbuf);
    assert_eq!(rbuf, recon);
    let mut rslot = vec![0i32; 64];
    inverse_into(&direct, &mut rslot, 8, TransformKind::Dct);
    assert_eq!(rslot, recon);
}

#[test]
fn dst_basis_is_the_spec_one() {
    assert_eq!(DST4[0], [29, 55, 74, 84]);
    assert_eq!(DST4[1], [74, 74, 0, -74]);
    assert_eq!(DST4[2], [84, -29, -74, 55]);
}
