use lib::bitstream::BitWriter;
use lib::codec::h264::cavlc::{
    derive_nc, encode_block, write_level, BlockKind, Vlc, CT0_CODE, CT0_LEN, CT1_CODE, CT1_LEN, CT2_CODE,
    CT2_LEN, CT_CHROMA_DC_CODE, CT_CHROMA_DC_LEN, RUN_BEFORE_CODE, RUN_BEFORE_LEN, TOTAL_ZEROS_4X4_CODE,
    TOTAL_ZEROS_4X4_LEN, TOTAL_ZEROS_CHROMA_DC_CODE, TOTAL_ZEROS_CHROMA_DC_LEN, ZIGZAG4,
};

/// No code may be a prefix of another.
fn assert_prefix_free(name: &str, codes: &[Vlc]) {
    for (i, a) in codes.iter().enumerate() {
        assert!(a.len > 0 && a.len <= 32, "{name}: bad length {}", a.len);
        assert!((a.code as u64) < (1u64 << a.len), "{name}: code {:b} wider than its {} bits", a.code, a.len);
        for (j, b) in codes.iter().enumerate() {
            if i == j {
                continue;
            }
            let (short, long) = if a.len <= b.len { (a, b) } else { (b, a) };
            let shifted = long.code >> (long.len - short.len);
            assert_ne!(shifted, short.code, "{name}: entry {i} prefixes entry {j} or the other way");
        }
    }
}

/// Kraft's inequality, with a sanity floor.
fn assert_kraft_sane(name: &str, codes: &[Vlc]) {
    let sum: f64 = codes.iter().map(|c| 2f64.powi(-(c.len as i32))).sum();
    assert!(sum <= 1.0 + 1e-9, "{name}: Kraft sum {sum} exceeds 1");
    assert!(sum > 0.9, "{name}: Kraft sum {sum} far below 1");
}

/// The live `coeff_token` cells of a table: `total >= t1`, length set.
fn live<const N: usize>(len: &[[u8; N]; 4], code: &[[u32; N]; 4]) -> Vec<Vlc> {
    let mut out = Vec::new();
    for t1 in 0..4 {
        for total in 0..N {
            if total >= t1 && len[t1][total] > 0 {
                out.push(Vlc { len: len[t1][total], code: code[t1][total] });
            }
        }
    }
    out
}

/// The set cells of one row of a length/code table pair.
fn row<const N: usize>(len: &[u8; N], code: &[u32; N]) -> Vec<Vlc> {
    (0..N).filter(|&k| len[k] > 0).map(|k| Vlc { len: len[k], code: code[k] }).collect()
}

#[test]
fn coeff_token_tables_are_prefix_free_and_complete() {
    for (name, l, c) in [("CT0", &CT0_LEN, &CT0_CODE), ("CT1", &CT1_LEN, &CT1_CODE), ("CT2", &CT2_LEN, &CT2_CODE)] {
        let codes = live(l, c);
        assert_eq!(codes.len(), 62, "{name}: expected 62 live entries");
        assert_prefix_free(name, &codes);
        assert_kraft_sane(name, &codes);
    }
    let cdc = live(&CT_CHROMA_DC_LEN, &CT_CHROMA_DC_CODE);
    assert_eq!(cdc.len(), 14, "chroma DC: expected 14 live entries");
    assert_prefix_free("CT_CHROMA_DC", &cdc);
    assert_kraft_sane("CT_CHROMA_DC", &cdc);
}

#[test]
fn total_zeros_tables_are_prefix_free_and_complete() {
    for i in 0..15 {
        let name = format!("total_zeros[tzVlcIndex={}]", i + 1);
        let t = row(&TOTAL_ZEROS_4X4_LEN[i], &TOTAL_ZEROS_4X4_CODE[i]);
        // tzVlcIndex n covers total_zeros 0..=(16-n).
        assert_eq!(t.len(), 16 - i, "{name}: wrong entry count");
        assert_prefix_free(&name, &t);
        assert_kraft_sane(&name, &t);
    }
    for i in 0..3 {
        let name = format!("total_zeros_chroma_dc[{}]", i + 1);
        let t = row(&TOTAL_ZEROS_CHROMA_DC_LEN[i], &TOTAL_ZEROS_CHROMA_DC_CODE[i]);
        assert_eq!(t.len(), 4 - i, "{name}: wrong entry count");
        assert_prefix_free(&name, &t);
        assert_kraft_sane(&name, &t);
    }
}

#[test]
fn run_before_tables_are_prefix_free() {
    for i in 0..7 {
        let name = format!("run_before[zerosLeft={}]", i + 1);
        let t = row(&RUN_BEFORE_LEN[i], &RUN_BEFORE_CODE[i]);
        assert_prefix_free(&name, &t);
        if i < 6 {
            assert_eq!(t.len(), i + 2, "{name}: wrong entry count");
            assert_kraft_sane(&name, &t);
        }
    }
}

#[test]
fn zigzag_is_a_permutation() {
    let mut seen = [false; 16];
    for &i in &ZIGZAG4 {
        assert!(!seen[i], "zigzag repeats index {i}");
        seen[i] = true;
    }
    assert!(seen.iter().all(|&s| s));
}

#[test]
fn an_empty_block_is_just_its_token() {
    let mut w = BitWriter::new();
    let n = encode_block(&mut w, &[0; 16], BlockKind::Luma4x4, 0);
    assert_eq!(n, 0);
    // nC < 2, (0,0) → the single bit `1`.
    assert_eq!(w.bit_len(), 1);
}

#[test]
fn nc_derivation_follows_availability() {
    assert_eq!(derive_nc(Some(3), Some(4)), 4); // (3+4+1)>>1
    assert_eq!(derive_nc(Some(5), None), 5);
    assert_eq!(derive_nc(None, Some(2)), 2);
    assert_eq!(derive_nc(None, None), 0);
}

/// Levels beyond the 12-bit escape still encode — the prefix widens instead
/// of the value being silently clamped.
#[test]
fn very_large_levels_use_the_widening_escape() {
    for code in [30u32, 4125, 4126, 12000, 20000, 60000] {
        let mut w = BitWriter::new();
        write_level(&mut w, code, 0);
        assert!(w.bit_len() > 0 && w.bit_len() < 64, "code {code}");
    }
}

#[test]
fn a_single_trailing_one_codes_its_token_and_sign() {
    // One coefficient +1 at scan position 0 of a 4x4 block, nC = 0:
    // coeff_token(1, 1) = `01`, sign `0`, total_zeros(1, 0) = `1`.
    let mut block = [0i32; 16];
    block[0] = 1;
    let mut w = BitWriter::new();
    let n = encode_block(&mut w, &block, BlockKind::Luma4x4, 0);
    assert_eq!(n, 1);
    assert_eq!(w.bit_len(), 4);
    let bytes = w.finish();
    assert_eq!(bytes, vec![0b0101_0000]);
}

#[test]
fn small_levels_use_the_short_prefix() {
    // level_code 0 with suffix length 0 is the single bit `1`.
    let mut w = BitWriter::new();
    write_level(&mut w, 0, 0);
    assert_eq!(w.bit_len(), 1);
    // level_code 3 with suffix length 0: prefix 3 → `0001`.
    let mut w = BitWriter::new();
    write_level(&mut w, 3, 0);
    assert_eq!(w.bit_len(), 4);
}
