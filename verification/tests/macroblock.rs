use lib::bitstream::BitWriter;
use lib::codec::h264::compress::{
    align_with_ones, best_chroma_mode, best_luma16_mode, chroma_mode_scan, hadamard_sad, write_slice_header, Ctx,
    CBP_INTRA_CODE,
};
use lib::codec::h264::candidates::{build_nxn, restore_luma, save_luma};
use lib::codec::h264::chroma::{code_chroma_dc, encode_chroma};
use lib::codec::h264::luma16::{build_i16, code_luma_dc};
use lib::codec::h264::intra::{Neighbors16, NeighborsC, C_DC, C_VERT, I16_DC, I16_VERT};
use lib::codec::h264::residual::{code_block4, scan4};
use lib::codec::h264::macroblock::{
    quant_mf0, sends_qp_delta, write_macroblock, ChromaData, I16Luma, LumaCoding, NxNLuma,
};

fn no_chroma() -> ChromaData {
    ChromaData { mode: C_DC, dc: [[0; 4]; 2], ac: [[[0; 15]; 4]; 2], cbp: 0 }
}

#[test]
fn dc_quantizer_multipliers() {
    assert_eq!(quant_mf0(0), 13107);
    assert_eq!(quant_mf0(4), 8192);
    assert_eq!(quant_mf0(5), 7282);
}

#[test]
fn qp_delta_goes_with_coded_residual() {
    let i16 = LumaCoding::I16(I16Luma { pred_mode: I16_DC, dc: [0; 16], ac: [[0; 15]; 16], cbp_luma: 0 });
    assert!(sends_qp_delta(&i16, &no_chroma()));
    let nxn = LumaCoding::NxN(NxNLuma { modes: [2; 16], levels: [[0; 16]; 16], cbp_luma: 0 });
    assert!(!sends_qp_delta(&nxn, &no_chroma()));
    let mut c = no_chroma();
    c.cbp = 1;
    assert!(sends_qp_delta(&nxn, &c));
    let coded = LumaCoding::NxN(NxNLuma { modes: [2; 16], levels: [[0; 16]; 16], cbp_luma: 4 });
    assert!(sends_qp_delta(&coded, &no_chroma()));
}

#[test]
fn an_empty_i16_macroblock_is_one_byte() {
    let ctx = Ctx::new(16, 16);
    let luma = LumaCoding::I16(I16Luma { pred_mode: I16_DC, dc: [0; 16], ac: [[0; 15]; 16], cbp_luma: 0 });
    let mut w = BitWriter::new();
    write_macroblock(&mut w, &ctx, &luma, &no_chroma(), 0, 0, 0);
    // ue(3) = 00100, ue(0) = 1, se(0) = 1, empty DC block at nC 0 = 1.
    assert_eq!(w.bit_len(), 8);
    assert_eq!(w.finish(), vec![0b0010_0111]);
}

#[test]
fn an_empty_nxn_macroblock_signals_every_mode_as_most_probable() {
    let ctx = Ctx::new(16, 16);
    let luma = LumaCoding::NxN(NxNLuma { modes: [2; 16], levels: [[0; 16]; 16], cbp_luma: 0 });
    let mut w = BitWriter::new();
    write_macroblock(&mut w, &ctx, &luma, &no_chroma(), 0, 0, 5);
    assert_eq!(CBP_INTRA_CODE[0], 3);
    // ue(0), sixteen set flags, ue(0), ue(3); no qp delta, no residual.
    assert_eq!(w.bit_len(), 1 + 16 + 1 + 5);
    assert_eq!(w.finish(), vec![0xff, 0xff, 0xc8]);
}

#[test]
fn a_different_mode_costs_its_remainder() {
    let ctx = Ctx::new(16, 16);
    let mut modes = [2u8; 16];
    modes[0] = 7; // against DC: flag 0, remainder 6 in three bits
    modes[1] = 0; // flag 0, remainder 0
    let luma = LumaCoding::NxN(NxNLuma { modes, levels: [[0; 16]; 16], cbp_luma: 0 });
    let mut w = BitWriter::new();
    write_macroblock(&mut w, &ctx, &luma, &no_chroma(), 0, 0, 0);
    assert_eq!(w.bit_len(), 1 + 4 + 4 + 14 + 1 + 5);
    // 1 | 0110 | 0000 | 14 ones | 1 | 00100
    assert_eq!(w.finish(), vec![0b1011_0000, 0b0111_1111, 0b1111_1111, 0b0010_0000]);
}

#[test]
fn slice_header_and_alignment() {
    let mut w = BitWriter::new();
    write_slice_header(&mut w, 26, true);
    // 1 0001000 1 0000 1 00 1 | 1 1 1
    assert_eq!(w.bit_len(), 20);
    assert_eq!(w.finish(), vec![0x88, 0x84, 0xf0]);
    let mut w = BitWriter::new();
    write_slice_header(&mut w, 27, false);
    // ... se(1) = 010, ue(1) = 010
    assert_eq!(w.bit_len(), 16 + 3 + 3);
    let mut w = BitWriter::new();
    w.write_bits(0b101, 3);
    align_with_ones(&mut w);
    assert_eq!(w.bit_len(), 8);
    assert_eq!(w.finish(), vec![0xbf]);
}

#[test]
fn fresh_picture_state_is_grey_and_empty() {
    let c = Ctx::new(32, 16);
    assert_eq!(c.ry.len(), 512);
    assert_eq!(c.ru.len(), 128);
    assert!(c.ry.iter().all(|&s| s == 128));
    assert_eq!(c.mbw, 2);
    assert_eq!(c.mb.len(), 2);
    assert!(c.modes.iter().all(|m| m.is_none()));
    assert_eq!(c.nnz_y.len(), 32);
}

#[test]
fn hadamard_sad_of_simple_blocks() {
    assert_eq!(hadamard_sad(&[0; 16]), 0);
    // A flat block has only a DC coefficient, sixteen times the sample.
    assert_eq!(hadamard_sad(&[5; 16]), 80 / 4);
    // An impulse spreads into sixteen coefficients of magnitude one.
    let mut imp = [0i32; 16];
    imp[0] = 1;
    assert_eq!(hadamard_sad(&imp), 4);
    let mut neg = [0i32; 16];
    neg[5] = -3;
    assert_eq!(hadamard_sad(&neg), 12);
}

#[test]
fn luma16_mode_decision() {
    let flat = vec![100i32; 256];
    let none = Neighbors16 { above: None, left: None, corner: None };
    assert_eq!(best_luma16_mode(&flat, &none), I16_DC);
    let above: [i32; 16] = core::array::from_fn(|k| 10 * k as i32);
    let cols: Vec<i32> = (0..256).map(|k| above[k % 16]).collect();
    let n = Neighbors16 { above: Some(above), left: None, corner: None };
    assert_eq!(best_luma16_mode(&cols, &n), I16_VERT);
    // A flat original against a flat edge: vertical and DC tie at zero, and
    // the earlier mode wins.
    let n = Neighbors16 { above: Some([100; 16]), left: None, corner: None };
    assert_eq!(best_luma16_mode(&flat, &n), I16_VERT);
}

#[test]
fn chroma_mode_decision() {
    let ctx = Ctx::new(16, 16);
    let u = vec![50u8; 64];
    let v = vec![60u8; 64];
    let none = NeighborsC { above: None, left: None, corner: None };
    // Nothing around the first macroblock: only DC is allowed.
    assert_eq!(best_chroma_mode(&ctx, &u, &v, 0, 0, &none), C_DC);
    let above: [i32; 8] = [10, 20, 30, 40, 50, 60, 70, 80];
    let ou: Vec<i32> = (0..64).map(|k| above[k % 8]).collect();
    let n = NeighborsC { above: Some(above), left: None, corner: None };
    assert_eq!(chroma_mode_scan(&ou, &ou, &n, &n), C_VERT);
    // One plane lacking the edge rules the mode out for both.
    assert_eq!(chroma_mode_scan(&ou, &ou, &n, &none), C_DC);
}

#[test]
fn a_perfect_prediction_codes_nothing_and_loses_nothing() {
    let orig = vec![100i32; 16];
    let (levels, rec, ssd) = code_block4(&orig, &[100; 16], 28);
    assert_eq!(levels, [0; 16]);
    assert_eq!(rec, [100; 16]);
    assert_eq!(ssd, 0);
}

#[test]
fn a_dc_offset_codes_one_level() {
    // A residual of 10 everywhere: forward DC 160, at QP 28 one level of 2,
    // which dequantizes to 512 and reconstructs an offset of 8.
    let orig = vec![110i32; 16];
    let (levels, rec, ssd) = code_block4(&orig, &[100; 16], 28);
    let mut want = [0i32; 16];
    want[0] = 2;
    assert_eq!(levels, want);
    assert_eq!(rec, [108; 16]);
    assert_eq!(ssd, 16 * 4);
    let (scan, nnz) = scan4(&levels);
    assert_eq!(scan[0], 2);
    assert_eq!(nnz, 1);
}

#[test]
fn a_flat_macroblock_builds_an_empty_nxn_candidate() {
    let mut ctx = Ctx::new(16, 16);
    let y = vec![128u8; 256];
    let c = build_nxn(&mut ctx, &y, 0, 0, 26);
    assert_eq!(c.ssd, 0);
    match c.coding {
        LumaCoding::NxN(l) => {
            assert_eq!(l.cbp_luma, 0);
            assert!(l.levels.iter().all(|b| b.iter().all(|&v| v == 0)));
            assert_eq!(l.modes[0], 2, "the first block has no neighbours: DC");
        }
        LumaCoding::I16(_) => panic!("expected I_NxN"),
    }
    assert!(ctx.ry.iter().all(|&s| s == 128));
    assert!(ctx.modes.iter().all(|m| m.is_some()));
}

#[test]
fn restore_luma_undoes_a_candidate() {
    let mut ctx = Ctx::new(16, 16);
    let saved = save_luma(&ctx, 0, 0);
    assert_eq!(saved.rec.len(), 256);
    let y: Vec<u8> = (0..256u32).map(|i| (i * 7 % 256) as u8).collect();
    let c = build_nxn(&mut ctx, &y, 0, 0, 20);
    assert!(c.ssd > 0 || ctx.ry.iter().any(|&s| s != 128));
    restore_luma(&mut ctx, 0, 0, &saved);
    assert!(ctx.ry.iter().all(|&s| s == 128));
    assert!(ctx.modes.iter().all(|m| m.is_none()));
    assert!(ctx.nnz_y.iter().all(|&n| n == 0));
}

#[test]
fn flat_chroma_codes_nothing() {
    let mut ctx = Ctx::new(16, 16);
    let u = vec![128u8; 64];
    let v = vec![128u8; 64];
    let (d, _, _) = encode_chroma(&mut ctx, &u, &v, 0, 0, 28);
    assert_eq!(d.mode, C_DC);
    assert_eq!(d.cbp, 0);
    assert_eq!(d.dc, [[0; 4]; 2]);
    assert!(ctx.ru.iter().chain(ctx.rv.iter()).all(|&s| s == 128));
}

#[test]
fn a_chroma_offset_travels_in_the_dc() {
    // +10 over the whole 8×8 block: each block DC is 160, the 2×2 Hadamard
    // gathers 640 into its first entry, which quantizes to 5 at QP 28 and
    // reconstructs the offset exactly.
    let mut ctx = Ctx::new(16, 16);
    let u = vec![138u8; 64];
    let v = vec![128u8; 64];
    let (d, _, _) = encode_chroma(&mut ctx, &u, &v, 0, 0, 28);
    assert_eq!(d.dc[0], [5, 0, 0, 0]);
    assert_eq!(d.dc[1], [0; 4]);
    assert_eq!(d.cbp, 1);
    assert!(d.ac.iter().all(|p| p.iter().all(|b| b.iter().all(|&l| l == 0))));
    assert!(ctx.ru.iter().all(|&s| s == 138));
    assert!(ctx.rv.iter().all(|&s| s == 128));
    let (levels, rec) = code_chroma_dc(&[160, 160, 160, 160], 28);
    assert_eq!(levels, [5, 0, 0, 0]);
    assert_eq!(rec, [640; 4]);
}

#[test]
fn flat_luma_i16_codes_nothing() {
    let mut ctx = Ctx::new(16, 16);
    let y = vec![128u8; 256];
    let (c, n) = build_i16(&mut ctx, &y, 0, 0, 26);
    assert!(n.above.is_none() && n.left.is_none());
    assert_eq!(c.ssd, 0);
    match c.coding {
        LumaCoding::I16(l) => {
            assert_eq!(l.pred_mode, I16_DC);
            assert_eq!(l.cbp_luma, 0);
            assert_eq!(l.dc, [0; 16]);
            assert!(l.ac.iter().all(|b| b.iter().all(|&v| v == 0)));
        }
        LumaCoding::NxN(_) => panic!("expected I_16x16"),
    }
    assert!(ctx.ry.iter().all(|&s| s == 128));
    assert!(ctx.modes.iter().all(|m| m.is_none()));
    assert!(ctx.nnz_y.iter().all(|&n| n == 0));
}

#[test]
fn an_i16_offset_travels_in_the_luma_dc() {
    let mut ctx = Ctx::new(16, 16);
    let y = vec![138u8; 256];
    let (c, _) = build_i16(&mut ctx, &y, 0, 0, 26);
    match c.coding {
        LumaCoding::I16(l) => {
            assert_eq!(l.cbp_luma, 0);
            assert!(l.dc[0] > 0);
            assert!(l.dc[1..].iter().all(|&v| v == 0));
            assert!(l.ac.iter().all(|b| b.iter().all(|&v| v == 0)));
        }
        LumaCoding::NxN(_) => panic!("expected I_16x16"),
    }
    let first = ctx.ry[0];
    assert!(ctx.ry.iter().all(|&s| s == first));
    assert!((136..=140).contains(&first));
    assert_eq!(c.ssd, 256 * ((first as u64).abs_diff(138)).pow(2));
}

#[test]
fn zero_luma_dcs_stay_zero() {
    let (levels, rec) = code_luma_dc(&[0; 16], 30);
    assert_eq!(levels, [0; 16]);
    assert_eq!(rec, [0; 16]);
}
