use lib::codec::h264::compress::chroma_qp;
use lib::codec::h264::deblock::{deblock as deblock_h264, deblock_with_chroma_qp};
use lib::codec::hevc::deblock::{deblock as deblock_hevc, deblock_with_qps, EdgeMap};

fn full_map(cw: u32, ch: u32, tu: u32) -> EdgeMap {
    let mut m = EdgeMap::new(cw, ch);
    for y in (0..ch).step_by(tu as usize) {
        for x in (0..cw).step_by(tu as usize) {
            m.mark(x, y, tu);
        }
    }
    m
}

/// Below the thresholds' floor every `α`/`β` is zero, so the H.264 filter
/// must leave the picture untouched however blocky it is.
#[test]
fn low_qp_is_a_no_op() {
    // Below indexA = 16.
    let (cw, ch) = (32u32, 32u32);
    let mut y: Vec<u8> = (0..cw * ch).map(|i| ((i * 37) % 256) as u8).collect();
    let mut u = vec![100u8; (cw * ch / 4) as usize];
    let mut v = vec![160u8; (cw * ch / 4) as usize];
    let (y0, u0, v0) = (y.clone(), u.clone(), v.clone());
    deblock_h264(&mut y, &mut u, &mut v, cw, ch, &[10; 4], |q| q);
    assert_eq!(y, y0, "luma untouched at qp 10");
    assert_eq!((u, v), (u0, v0), "chroma untouched at qp 10");
}

/// Below `Q = 16` the HEVC filter's `β` and `tC` are zero: nothing moves.
#[test]
fn deblock_low_qp_is_a_no_op() {
    let (cw, ch) = (64u32, 32u32);
    let mut y: Vec<u8> = (0..cw * ch).map(|i| ((i * 43) % 256) as u8).collect();
    let mut u = vec![70u8; (cw * ch / 4) as usize];
    let mut v = vec![190u8; (cw * ch / 4) as usize];
    let (y0, u0, v0) = (y.clone(), u.clone(), v.clone());
    deblock_hevc(&mut y, &mut u, &mut v, cw, ch, &full_map(cw, ch, 8), |_, _| 10, |q| q);
    assert_eq!(y, y0, "luma untouched");
    assert_eq!((u, v), (u0, v0), "chroma untouched");
}

/// A flat picture has no edges to find, so the H.264 filter moves nothing
/// at any QP.
#[test]
fn flat_picture_survives_any_qp() {
    let (cw, ch) = (48u32, 32u32);
    for qp in [20, 30, 40, 51] {
        let mut y = vec![137u8; (cw * ch) as usize];
        let mut u = vec![90u8; (cw * ch / 4) as usize];
        let mut v = vec![210u8; (cw * ch / 4) as usize];
        deblock_h264(&mut y, &mut u, &mut v, cw, ch, &[qp; 6], |q| q);
        assert!(y.iter().all(|&s| s == 137), "luma moved at qp {qp}");
        assert!(u.iter().all(|&s| s == 90), "cb moved at qp {qp}");
        assert!(v.iter().all(|&s| s == 210), "cr moved at qp {qp}");
    }
}

/// The same for the HEVC filter.
#[test]
fn deblock_flat_picture_survives_any_qp() {
    let (cw, ch) = (64u32, 64u32);
    for qp in [20, 30, 40, 51] {
        let mut y = vec![144u8; (cw * ch) as usize];
        let mut u = vec![88u8; (cw * ch / 4) as usize];
        let mut v = vec![201u8; (cw * ch / 4) as usize];
        deblock_hevc(&mut y, &mut u, &mut v, cw, ch, &full_map(cw, ch, 8), |_, _| qp, |q| q);
        assert!(y.iter().all(|&s| s == 144), "luma moved at qp {qp}");
        assert!(u.iter().all(|&s| s == 88), "cb moved at qp {qp}");
        assert!(v.iter().all(|&s| s == 201), "cr moved at qp {qp}");
    }
}

/// A step at a macroblock edge is what the filter exists for: it must
/// shrink, and only near the edge.
#[test]
fn a_macroblock_edge_step_is_smoothed_locally() {
    let (cw, ch) = (32u32, 16u32);
    let mut y: Vec<u8> = (0..cw * ch).map(|i| if (i % cw) < 16 { 100u8 } else { 130u8 }).collect();
    let before = y.clone();
    let mut u = vec![128u8; (cw * ch / 4) as usize];
    let mut v = vec![128u8; (cw * ch / 4) as usize];
    deblock_h264(&mut y, &mut u, &mut v, cw, ch, &[36; 2], |q| q);
    let row = 8 * cw as usize;
    let step_before = (before[row + 16] as i32 - before[row + 15] as i32).abs();
    let step_after = (y[row + 16] as i32 - y[row + 15] as i32).abs();
    assert!(step_after < step_before, "step {step_before} -> {step_after} at the macroblock edge");
    for k in 0..11 {
        assert_eq!(y[row + k], before[row + k], "column {k} is out of reach");
    }
    for k in 20..32 {
        assert_eq!(y[row + k], before[row + k], "column {k} is out of reach");
    }
}

/// Nothing may move where no transform block ends.
#[test]
fn only_marked_edges_are_filtered() {
    let (cw, ch) = (64u32, 32u32);
    let mut y: Vec<u8> = (0..cw * ch).map(|i| if (i % cw) % 8 < 4 { 60u8 } else { 190u8 }).collect();
    let before = y.clone();
    let mut u = vec![128u8; (cw * ch / 4) as usize];
    let mut v = vec![128u8; (cw * ch / 4) as usize];
    deblock_hevc(&mut y, &mut u, &mut v, cw, ch, &full_map(cw, ch, 32), |_, _| 40, |q| q);
    for row in 0..ch {
        for col in 0..cw {
            let near_marked = col % 32 < 4 || col % 32 >= 29;
            if !near_marked {
                let i = (row * cw + col) as usize;
                assert_eq!(y[i], before[i], "({col},{row}) is not near a marked edge");
            }
        }
    }
}

#[test]
fn explicit_chroma_quantizers_match_the_mapped_ones() {
    let (cw, ch) = (32u32, 32u32);
    let base: Vec<u8> = (0..cw * ch).map(|i| if (i % cw) < 16 { 90u8 } else { 120u8 }).collect();
    let cb: Vec<u8> = (0..cw * ch / 4).map(|i| if (i % (cw / 2)) < 8 { 60u8 } else { 80u8 }).collect();
    let qps = [45, 38, 30, 51];
    let qpc: Vec<i32> = qps.iter().map(|&q| chroma_qp(q)).collect();
    let (mut y1, mut u1, mut v1) = (base.clone(), cb.clone(), cb.clone());
    deblock_h264(&mut y1, &mut u1, &mut v1, cw, ch, &qps, chroma_qp);
    let (mut y2, mut u2, mut v2) = (base.clone(), cb.clone(), cb.clone());
    deblock_with_chroma_qp(&mut y2, &mut u2, &mut v2, cw, ch, &qps, &qpc);
    assert_eq!(y1, y2);
    assert_eq!(u1, u2);
    assert_eq!(v1, v2);
    assert_ne!(u1, cb, "the chroma step at the macroblock edge is filtered");
}

#[test]
fn hevc_explicit_quantizers_match_the_callback() {
    let (cw, ch) = (32u32, 32u32);
    let base: Vec<u8> = (0..cw * ch).map(|i| if (i % cw) < 16 { 90u8 } else { 130u8 }).collect();
    let map = full_map(cw, ch, 16);
    let n = ((cw / 4) * (ch / 4)) as usize;
    let (mut y1, mut u1, mut v1) = (base.clone(), vec![128u8; n * 4], vec![128u8; n * 4]);
    deblock_hevc(&mut y1, &mut u1, &mut v1, cw, ch, &map, |_, _| 37, |q| q);
    let q = vec![37i32; n];
    let (mut y2, mut u2, mut v2) = (base.clone(), vec![128u8; n * 4], vec![128u8; n * 4]);
    deblock_with_qps(&mut y2, &mut u2, &mut v2, cw, ch, &map, &q, &q, &q, &q);
    assert_eq!(y1, y2);
    assert_ne!(y1, base, "the step at x = 16 is smoothed");
}
