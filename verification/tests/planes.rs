use lib::codec::hevc::compress::{refs_generic, refs_luma, restore_rect, save_rect};
use lib::codec::planes::{crop, gather, gather_into, paste, store};

#[test]
fn gather_reads_a_square_row_major() {
    let plane: Vec<u8> = (0..16).collect();
    assert_eq!(gather(&plane, 4, 1, 1, 2), vec![5, 6, 9, 10]);
    let mut out = vec![-1i32; 6];
    gather_into(&plane, 4, 2, 0, 2, &mut out);
    assert_eq!(out, vec![2, 3, 6, 7, -1, -1]);
}

#[test]
fn store_clamps_and_gather_reads_it_back() {
    let mut plane: Vec<u8> = (0..16).collect();
    store(&mut plane, 4, 0, 2, 2, &[-5, 300, 7, 8]);
    assert_eq!(plane[8], 0);
    assert_eq!(plane[9], 255);
    assert_eq!(plane[12], 7);
    assert_eq!(plane[13], 8);
    assert_eq!(plane[10], 10, "outside the block nothing moves");
    assert_eq!(gather(&plane, 4, 0, 2, 2), vec![0, 255, 7, 8]);
}

#[test]
fn crop_then_paste_round_trips() {
    let plane: Vec<u8> = (0..15).collect(); // 5 wide, 3 high
    let c = crop(&plane, 5, 1, 0, 3, 2);
    assert_eq!(c, vec![1, 2, 3, 6, 7, 8]);
    let mut dst = vec![0u8; 15];
    paste(&mut dst, 5, &c, 3, 1, 1, 3, 2);
    assert_eq!(dst, vec![0, 0, 0, 0, 0, 0, 1, 2, 3, 0, 0, 6, 7, 8, 0]);
    assert_eq!(crop(&dst, 5, 1, 1, 3, 2), c);
    let mut same = plane.clone();
    paste(&mut same, 5, &c, 3, 1, 0, 3, 2);
    assert_eq!(same, plane, "pasting a crop back changes nothing");
}

#[test]
fn restore_rect_undoes_what_came_after_save_rect() {
    let mut ry: Vec<u8> = (0..256u32).map(|i| (i % 251) as u8).collect();
    let mut ru: Vec<u8> = (0..64u32).map(|i| (3 * i) as u8).collect();
    let mut rv: Vec<u8> = (0..64u32).map(|i| (200 - i) as u8).collect();
    let (y0, u0, v0) = (ry.clone(), ru.clone(), rv.clone());
    let saved = save_rect(&ry, &ru, &rv, 16, 8, 8, 8, 3);
    assert_eq!(saved.len(), 64 + 16 + 16);
    assert_eq!(saved[0], ry[8 * 16 + 8]);
    assert_eq!(saved[64], ru[4 * 8 + 4]);
    assert_eq!(saved[80], rv[4 * 8 + 4]);
    for s in ry.iter_mut() {
        *s = 0;
    }
    for s in ru.iter_mut().chain(rv.iter_mut()) {
        *s = 9;
    }
    restore_rect(&mut ry, &mut ru, &mut rv, 16, 8, 8, 8, 3, &saved);
    for yy in 0..16usize {
        for xx in 0..16usize {
            let i = yy * 16 + xx;
            let inside = yy >= 8 && xx >= 8;
            assert_eq!(ry[i], if inside { y0[i] } else { 0 }, "luma ({xx},{yy})");
        }
    }
    for yy in 0..8usize {
        for xx in 0..8usize {
            let i = yy * 8 + xx;
            let inside = yy >= 4 && xx >= 4;
            assert_eq!(ru[i], if inside { u0[i] } else { 9 });
            assert_eq!(rv[i], if inside { v0[i] } else { 9 });
        }
    }
}

#[test]
fn luma_references_are_the_generic_chain() {
    let recon: Vec<u8> = (0..256).map(|i| i as u8).collect();
    assert_eq!(refs_luma(&recon, 16, 16, 4, 4, 4, 1, 16), refs_generic(&recon, 16, 16, 4, 4, 4, 16, 1));
    assert_eq!(refs_luma(&recon, 16, 16, 4, 4, 4, 1, 16)[8], 3 * 16 + 3);
}
