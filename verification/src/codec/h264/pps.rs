//! The picture parameter set (§7.3.2.2): PPS 0 referring to SPS 0, one slice
//! group, `SliceQPY = 26` by default, optional deblocking-filter control.

use crate::bitstream::{
    bit_len, bits_of, lemma_read_se_of, lemma_read_ue_of, packed, rbsp_trailing_bits, read_se, read_ue, se_bits,
    se_code, ue_bits, with_trailing_bits, zeros, BitWriter,
};
use vstd::prelude::*;

verus! {

/// The PPS syntax before the trailing bits.
pub open spec fn pps_syntax(deblock_control: bool, cabac: bool) -> Seq<bool> {
    ue_bits(0) + ue_bits(0) + seq![cabac, false] + ue_bits(0) + ue_bits(0) + ue_bits(0) + seq![
        false,
    ] + bits_of(0, 2) + se_bits(0) + se_bits(0) + se_bits(0) + seq![deblock_control, false, false]
}

/// The PPS RBSP bytes.
pub open spec fn spec_pps(deblock_control: bool, cabac: bool) -> Seq<u8> {
    packed(with_trailing_bits(pps_syntax(deblock_control, cabac)))
}

/// RBSP payload for PPS 0: CAVLC, no deblocking-filter control (the `I_PCM`
/// path codes at `qP = 0`, where the filter is a no-op).
pub fn write_pps() -> (out: Vec<u8>)
    ensures
        out@ == spec_pps(false, false),
{
    write_pps_inner(false, false)
}

/// As [`write_pps`], but with `deblocking_filter_control_present_flag` set so
/// a slice can turn the in-loop filter off, and the entropy coder chosen by
/// `cabac`.
pub fn write_pps_deblock_control(cabac: bool) -> (out: Vec<u8>)
    ensures
        out@ == spec_pps(true, cabac),
{
    write_pps_inner(true, cabac)
}

/// The PPS with both flags chosen.
pub fn write_pps_inner(deblock_control: bool, cabac: bool) -> (out: Vec<u8>)
    ensures
        out@ == spec_pps(deblock_control, cabac),
{
    let mut w = BitWriter::new();
    w.write_ue(0);
    w.write_ue(0);
    w.flag(cabac);
    w.flag(false);
    w.write_ue(0);
    w.write_ue(0);
    w.write_ue(0);
    w.flag(false);
    w.write_bits(0, 2);
    w.write_se(0);
    w.write_se(0);
    w.write_se(0);
    w.flag(deblock_control);
    w.flag(false);
    w.flag(false);
    proof {
        assert(w@ =~= pps_syntax(deblock_control, cabac));
    }
    rbsp_trailing_bits(&mut w);
    w.finish()
}

/// What a decoder parses from the PPS syntax (§7.3.2.2): PPS 0 of SPS 0,
/// the entropy-coding flag (`cabac`), one slice group, one reference index
/// each way, no weighted prediction, all three QP offsets zero, and the
/// deblocking-filter control flag (`deblock_control`), in that order.
pub proof fn lemma_pps_parses_back(deblock_control: bool, cabac: bool)
    ensures
        ({
            let s = pps_syntax(deblock_control, cabac);
            let (pps_id, p1) = read_ue(s, 0);
            let (sps_id, p2) = read_ue(s, p1);
            let (slice_groups_minus1, p3) = read_ue(s, p2 + 2);
            let (ref_l0_minus1, p4) = read_ue(s, p3);
            let (ref_l1_minus1, p5) = read_ue(s, p4);
            let (init_qp_minus26, p6) = read_se(s, p5 + 3);
            let (init_qs_minus26, p7) = read_se(s, p6);
            let (chroma_qp_offset, p8) = read_se(s, p7);
            &&& pps_id == 0 && sps_id == 0
            &&& s[p2] == cabac && !s[p2 + 1]
            &&& slice_groups_minus1 == 0 && ref_l0_minus1 == 0 && ref_l1_minus1 == 0
            &&& !s[p5] && !s[p5 + 1] && !s[p5 + 2]
            &&& init_qp_minus26 == 0 && init_qs_minus26 == 0 && chroma_qp_offset == 0
            &&& s[p8] == deblock_control && !s[p8 + 1] && !s[p8 + 2]
            &&& s.len() == p8 + 3
        }),
{
    let s = pps_syntax(deblock_control, cabac);
    let u0 = ue_bits(0);
    let s0 = se_bits(0);
    assert(se_code(0) == 0);
    assert(u0 =~= seq![true]) by {
        assert(bit_len(1) == 1) by {
            assert(bit_len(0) == 0);
        }
        assert(bits_of(1, 1) =~= seq![true]) by {
            reveal_with_fuel(bits_of, 2);
        }
        assert(zeros(0) =~= Seq::<bool>::empty());
    }
    assert(s0 == u0);
    assert(bits_of(0, 2) =~= seq![false, false]) by {
        reveal_with_fuel(bits_of, 3);
    }
    assert(s =~= seq![
        true,
        true,
        cabac,
        false,
        true,
        true,
        true,
        false,
        false,
        false,
        true,
        true,
        true,
        deblock_control,
        false,
        false,
    ]);
    lemma_read_ue_of(Seq::empty(), 0, s.subrange(1, 16));
    assert(s =~= Seq::<bool>::empty() + u0 + s.subrange(1, 16));
    lemma_read_ue_of(s.subrange(0, 1), 0, s.subrange(2, 16));
    assert(s =~= s.subrange(0, 1) + u0 + s.subrange(2, 16));
    lemma_read_ue_of(s.subrange(0, 4), 0, s.subrange(5, 16));
    assert(s =~= s.subrange(0, 4) + u0 + s.subrange(5, 16));
    lemma_read_ue_of(s.subrange(0, 5), 0, s.subrange(6, 16));
    assert(s =~= s.subrange(0, 5) + u0 + s.subrange(6, 16));
    lemma_read_ue_of(s.subrange(0, 6), 0, s.subrange(7, 16));
    assert(s =~= s.subrange(0, 6) + u0 + s.subrange(7, 16));
    lemma_read_se_of(s.subrange(0, 10), 0, s.subrange(11, 16));
    assert(s =~= s.subrange(0, 10) + s0 + s.subrange(11, 16));
    lemma_read_se_of(s.subrange(0, 11), 0, s.subrange(12, 16));
    assert(s =~= s.subrange(0, 11) + s0 + s.subrange(12, 16));
    lemma_read_se_of(s.subrange(0, 12), 0, s.subrange(13, 16));
    assert(s =~= s.subrange(0, 12) + s0 + s.subrange(13, 16));
}

} // verus!
