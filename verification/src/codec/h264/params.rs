//! H.264 high-level syntax: the sequence parameter set for a Baseline-profile
//! 4:2:0 8-bit stream, with frame cropping for sizes that are not a whole
//! number of macroblocks.

use crate::bitstream::{
    bits_of, bits_value, lemma_bits_value_of, lemma_read_ue_of, packed, rbsp_trailing_bits, read_ue, ue_bits,
    with_trailing_bits, BitWriter,
};
use vstd::prelude::*;

verus! {

/// Luma macroblock edge in samples (16×16).
pub const MB_SIZE: u32 = 16;

/// Fixed configuration of an encoder.
#[derive(Clone, Copy, Debug)]
pub struct H264Config {
    pub width: u32,
    pub height: u32,
    pub coded_width: u32,
    pub coded_height: u32,
    pub level_idc: u8,
    pub qp: i32,
}

/// `v` rounded up to a whole number of macroblocks.
pub open spec fn mb_align(v: int) -> int {
    ((v + 15) / 16) * 16
}

/// A configuration the SPS writer accepts: at least one macroblock each way
/// and a coded size no smaller than the picture.
pub open spec fn config_ok(cfg: H264Config) -> bool {
    &&& cfg.coded_width >= 16
    &&& cfg.coded_height >= 16
    &&& cfg.coded_width >= cfg.width
    &&& cfg.coded_height >= cfg.height
}

/// Whether the coded size differs from the picture size.
pub open spec fn spec_needs_crop(cfg: H264Config) -> bool {
    cfg.coded_width != cfg.width || cfg.coded_height != cfg.height
}

/// The SPS syntax, before the trailing bits (§7.3.2.1.1).
pub open spec fn sps_syntax(cfg: H264Config) -> Seq<bool> {
    let mbs_w = cfg.coded_width / 16;
    let mbs_h = cfg.coded_height / 16;
    let crop = spec_needs_crop(cfg);
    let head = bits_of(66, 8) + seq![false, false, false, false, false, false] + bits_of(0, 2)
        + bits_of(cfg.level_idc as nat, 8) + ue_bits(0) + ue_bits(0) + ue_bits(2) + ue_bits(0)
        + seq![false] + ue_bits((mbs_w - 1) as nat) + ue_bits((mbs_h - 1) as nat) + seq![
        true,
        true,
        crop,
    ];
    let cropping = if crop {
        ue_bits(0) + ue_bits(((cfg.coded_width - cfg.width) / 2) as nat) + ue_bits(0) + ue_bits(
            ((cfg.coded_height - cfg.height) / 2) as nat,
        )
    } else {
        Seq::empty()
    };
    head + cropping + seq![false]
}

/// The SPS RBSP bytes.
pub open spec fn spec_sps(cfg: H264Config) -> Seq<u8> {
    packed(with_trailing_bits(sps_syntax(cfg)))
}

impl H264Config {
    /// Configuration for a `width`×`height` picture: the coded size rounded up
    /// to whole macroblocks, level 1.0, QP 26.
    pub fn new(width: u32, height: u32) -> (cfg: H264Config)
        requires
            width <= u32::MAX - 15,
            height <= u32::MAX - 15,
        ensures
            cfg.width == width,
            cfg.height == height,
            cfg.coded_width == mb_align(width as int),
            cfg.coded_height == mb_align(height as int),
            cfg.level_idc == 10,
            cfg.qp == 26,
    {
        let coded_width = (width + 15) / MB_SIZE * MB_SIZE;
        let coded_height = (height + 15) / MB_SIZE * MB_SIZE;
        H264Config { width, height, coded_width, coded_height, level_idc: 10, qp: 26 }
    }

    /// Macroblocks across and down.
    pub fn mbs(&self) -> (r: (u32, u32))
        ensures
            r == (self.coded_width / 16, self.coded_height / 16),
    {
        (self.coded_width / MB_SIZE, self.coded_height / MB_SIZE)
    }

    /// Whether the coded size differs from the picture size.
    pub fn needs_crop(&self) -> (b: bool)
        ensures
            b == spec_needs_crop(*self),
    {
        self.coded_width != self.width || self.coded_height != self.height
    }

    /// Frame-crop offsets `(left, right, top, bottom)` in crop units of two
    /// samples; padding is on the right and bottom only.
    pub fn crop_offsets(&self) -> (r: (u32, u32, u32, u32))
        requires
            self.coded_width >= self.width,
            self.coded_height >= self.height,
        ensures
            r == (
                0u32,
                ((self.coded_width - self.width) / 2) as u32,
                0u32,
                ((self.coded_height - self.height) / 2) as u32,
            ),
    {
        let dx = self.coded_width - self.width;
        let dy = self.coded_height - self.height;
        (0, dx / 2, 0, dy / 2)
    }
}

/// Write an SPS RBSP: Baseline profile, 4:2:0 8-bit, frame-only, POC type 2,
/// no reference frames, optional cropping, no VUI.
pub fn write_sps(cfg: &H264Config) -> (out: Vec<u8>)
    requires
        config_ok(*cfg),
    ensures
        out@ == spec_sps(*cfg),
{
    let (mbs_w, mbs_h) = cfg.mbs();
    let mut w = BitWriter::new();
    w.write_byte(66);
    w.flag(false);
    w.flag(false);
    w.flag(false);
    w.flag(false);
    w.flag(false);
    w.flag(false);
    w.write_bits(0, 2);
    w.write_byte(cfg.level_idc);
    w.write_ue(0);
    w.write_ue(0);
    w.write_ue(2);
    w.write_ue(0);
    w.flag(false);
    w.write_ue(mbs_w - 1);
    w.write_ue(mbs_h - 1);
    w.flag(true);
    w.flag(true);
    let crop = cfg.needs_crop();
    w.flag(crop);
    let ghost head = w@;
    if crop {
        let (l, r, t, b) = cfg.crop_offsets();
        w.write_ue(l);
        w.write_ue(r);
        w.write_ue(t);
        w.write_ue(b);
    }
    w.flag(false);
    proof {
        let cropping = if crop {
            ue_bits(0) + ue_bits(((cfg.coded_width - cfg.width) / 2) as nat) + ue_bits(0) + ue_bits(
                ((cfg.coded_height - cfg.height) / 2) as nat,
            )
        } else {
            Seq::empty()
        };
        assert(head =~= bits_of(66, 8) + seq![false, false, false, false, false, false] + bits_of(
            0,
            2,
        ) + bits_of(cfg.level_idc as nat, 8) + ue_bits(0) + ue_bits(0) + ue_bits(2) + ue_bits(0)
            + seq![false] + ue_bits((mbs_w - 1) as nat) + ue_bits((mbs_h - 1) as nat) + seq![
            true,
            true,
            crop,
        ]);
        assert(w@ =~= head + cropping + seq![false]);
    }
    rbsp_trailing_bits(&mut w);
    w.finish()
}

/// What a decoder parses from the SPS syntax (§7.3.2.1.1): Baseline profile
/// and the configured level in the fixed-length head, then `sps_id` 0,
/// `log2_max_frame_num_minus4` 0, `pic_order_cnt_type` 2, no reference
/// frames, the gaps flag, and the picture size in macroblocks, width before
/// height: `coded_width / 16 − 1`, then `coded_height / 16 − 1`.
#[verifier::spinoff_prover]
#[verifier::rlimit(80)]
pub proof fn lemma_sps_parses_back(cfg: H264Config)
    requires
        config_ok(cfg),
    ensures
        ({
            let s = sps_syntax(cfg);
            let (sps_id, p1) = read_ue(s, 24);
            let (log2_max_frame_num_minus4, p2) = read_ue(s, p1);
            let (poc_type, p3) = read_ue(s, p2);
            let (max_num_ref_frames, p4) = read_ue(s, p3);
            let (width_in_mbs_minus1, p5) = read_ue(s, p4 + 1);
            let (height_in_map_units_minus1, p6) = read_ue(s, p5);
            &&& bits_value(s.subrange(0, 8)) == 66
            &&& bits_value(s.subrange(16, 24)) == cfg.level_idc
            &&& sps_id == 0
            &&& log2_max_frame_num_minus4 == 0
            &&& poc_type == 2
            &&& max_num_ref_frames == 0
            &&& !s[p4]
            &&& width_in_mbs_minus1 == cfg.coded_width / 16 - 1
            &&& height_in_map_units_minus1 == cfg.coded_height / 16 - 1
        }),
{
    let s = sps_syntax(cfg);
    let mbs_w = cfg.coded_width / 16;
    let mbs_h = cfg.coded_height / 16;
    let crop = spec_needs_crop(cfg);
    let f0 = bits_of(66, 8);
    let f1 = seq![false, false, false, false, false, false] + bits_of(0, 2);
    let f2 = bits_of(cfg.level_idc as nat, 8);
    let u0 = ue_bits(0);
    let u2 = ue_bits(2);
    let uw = ue_bits((mbs_w - 1) as nat);
    let uh = ue_bits((mbs_h - 1) as nat);
    let tail_h = seq![true, true, crop];
    let cropping = if crop {
        ue_bits(0) + ue_bits(((cfg.coded_width - cfg.width) / 2) as nat) + ue_bits(0) + ue_bits(
            ((cfg.coded_height - cfg.height) / 2) as nat,
        )
    } else {
        Seq::empty()
    };
    let rest = tail_h + cropping + seq![false];
    lemma_bits_value_of(66, 8);
    lemma_bits_value_of(0, 2);
    lemma_bits_value_of(cfg.level_idc as nat, 8);
    vstd::arithmetic::power2::lemma2_to64();
    let head24 = f0 + f1 + f2;
    assert(head24.len() == 24);
    assert(s =~= head24 + u0 + u0 + u2 + u0 + seq![false] + uw + uh + rest);
    assert(s.subrange(0, 8) =~= f0);
    assert(s.subrange(16, 24) =~= f2);
    assert(bits_value(f2) == cfg.level_idc) by {
        vstd::arithmetic::div_mod::lemma_small_mod(cfg.level_idc as nat, 256);
    }
    // ue(0) is one bit, ue(2) three.
    lemma_read_ue_of(head24, 0, u0 + u2 + u0 + seq![false] + uw + uh + rest);
    assert(s =~= head24 + u0 + (u0 + u2 + u0 + seq![false] + uw + uh + rest));
    let q1 = head24 + u0;
    lemma_read_ue_of(q1, 0, u2 + u0 + seq![false] + uw + uh + rest);
    assert(s =~= q1 + u0 + (u2 + u0 + seq![false] + uw + uh + rest));
    let q2 = q1 + u0;
    lemma_read_ue_of(q2, 2, u0 + seq![false] + uw + uh + rest);
    assert(s =~= q2 + u2 + (u0 + seq![false] + uw + uh + rest));
    let q3 = q2 + u2;
    lemma_read_ue_of(q3, 0, seq![false] + uw + uh + rest);
    assert(s =~= q3 + u0 + (seq![false] + uw + uh + rest));
    let q4 = q3 + u0;
    assert(s[q4.len() as int] == false) by {
        assert(s =~= q4 + seq![false] + uw + uh + rest);
    }
    let q5 = q4 + seq![false];
    lemma_read_ue_of(q5, (mbs_w - 1) as nat, uh + rest);
    assert(s =~= q5 + uw + (uh + rest));
    let q6 = q5 + uw;
    lemma_read_ue_of(q6, (mbs_h - 1) as nat, rest);
    assert(s =~= q6 + uh + rest);
}

} // verus!
