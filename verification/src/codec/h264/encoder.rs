//! Frame-level H.264 encoder: padded pictures in, Annex-B access units and MP4
//! samples out.
//!
//! [`H264Encoder`] emits SPS/PPS once, ahead of the first access unit, then an
//! IDR slice per frame. Baseline profile with CAVLC `I_PCM` macroblocks
//! (lossless in the YUV domain).

use crate::codec::h264::avcc::{build_avcc, spec_avcc};
use crate::codec::h264::nal::{
    annexb, lemma_nal_unit_has_no_start_code, lemma_split_undoes_push, nal_unit_base, push_annexb, spec_nal_unit,
    spec_split, split_annexb, start_code, NalUnitType,
};
use crate::codec::h264::params::{config_ok, mb_align, spec_sps, write_sps, H264Config};
use crate::codec::h264::pps::{spec_pps, write_pps};
use crate::codec::h264::slice::{idr_slice_rbsp, padded_ok, spec_idr_slice, PaddedYuv};
use vstd::prelude::*;

verus! {

/// A from-scratch H.264 encoder (IDR-only, `I_PCM`).
pub struct H264Encoder {
    cfg: H264Config,
    headers_emitted: bool,
    sps: Vec<u8>,
    pps: Vec<u8>,
}

/// The SPS NAL unit for a configuration.
pub open spec fn sps_nal(cfg: H264Config) -> Seq<u8> {
    spec_nal_unit(NalUnitType::Sps, 3, spec_sps(cfg))
}

/// The PPS NAL unit (CAVLC, no deblocking control).
pub open spec fn pps_nal() -> Seq<u8> {
    spec_nal_unit(NalUnitType::Pps, 3, spec_pps(false, false))
}

impl H264Encoder {
    /// The encoder's configuration.
    pub closed spec fn spec_config(&self) -> H264Config {
        self.cfg
    }

    /// Whether the parameter sets have gone out yet.
    pub closed spec fn headers_sent(&self) -> bool {
        self.headers_emitted
    }

    #[verifier::type_invariant]
    spec fn well_formed(&self) -> bool {
        &&& config_ok(self.cfg)
        &&& self.sps@ == sps_nal(self.cfg)
        &&& self.pps@ == pps_nal()
    }

    /// An encoder for `width`×`height` pictures (coded size rounded up to
    /// whole macroblocks) that has sent nothing yet.
    pub fn new(width: u32, height: u32) -> (e: Self)
        requires
            1 <= width <= u32::MAX - 15,
            1 <= height <= u32::MAX - 15,
        ensures
            e.spec_config().width == width,
            e.spec_config().height == height,
            e.spec_config().coded_width == mb_align(width as int),
            e.spec_config().coded_height == mb_align(height as int),
            e.spec_config().level_idc == 10,
            e.spec_config().qp == 26,
            !e.headers_sent(),
    {
        let cfg = H264Config::new(width, height);
        let sps = nal_unit_base(NalUnitType::Sps, &write_sps(&cfg));
        let pps = nal_unit_base(NalUnitType::Pps, &write_pps());
        H264Encoder { cfg, headers_emitted: false, sps, pps }
    }

    /// The encoder's configuration.
    pub fn config(&self) -> (c: &H264Config)
        ensures
            *c == self.spec_config(),
    {
        &self.cfg
    }

    /// SPS NAL (1-byte header + EBSP) for muxing.
    pub fn sps(&self) -> (s: &[u8])
        ensures
            s@ == sps_nal(self.spec_config()),
    {
        proof {
            use_type_invariant(self);
        }
        self.sps.as_slice()
    }

    /// PPS NAL for muxing.
    pub fn pps(&self) -> (s: &[u8])
        ensures
            s@ == pps_nal(),
    {
        proof {
            use_type_invariant(self);
        }
        self.pps.as_slice()
    }

    /// `avcC` payload built from this encoder's parameter sets.
    pub fn avcc(&self) -> (v: Vec<u8>)
        ensures
            v@ == spec_avcc(sps_nal(self.spec_config()), pps_nal()),
    {
        proof {
            use_type_invariant(self);
        }
        build_avcc(&self.sps, &self.pps)
    }

    /// Encode one picture already padded to the coded size into an Annex-B
    /// access unit: SPS and PPS first if they have not gone out yet, then the
    /// IDR slice.
    pub fn assemble_au(&mut self, padded: &PaddedYuv) -> (au: Vec<u8>)
        requires
            padded_ok(*padded),
        ensures
            final(self).spec_config() == old(self).spec_config(),
            final(self).headers_sent(),
            au@ == (if old(self).headers_sent() {
                Seq::empty()
            } else {
                start_code() + sps_nal(old(self).spec_config()) + start_code() + pps_nal()
            }) + start_code() + spec_nal_unit(
                NalUnitType::Idr,
                3,
                spec_idr_slice(
                    padded.y@,
                    padded.u@,
                    padded.v@,
                    padded.coded_width as int,
                    padded.coded_height as int,
                ),
            ),
    {
        proof {
            use_type_invariant(&*self);
        }
        let slice = idr_slice_rbsp(&self.cfg, padded);
        let mut au: Vec<u8> = Vec::new();
        if !self.headers_emitted {
            push_annexb(&mut au, &self.sps);
            push_annexb(&mut au, &self.pps);
            self.headers_emitted = true;
        }
        let ghost head = au@;
        push_annexb(&mut au, &nal_unit_base(NalUnitType::Idr, &slice));
        proof {
            assert(head == (if old(self).headers_sent() {
                Seq::empty()
            } else {
                start_code() + sps_nal(old(self).spec_config()) + start_code() + pps_nal()
            }));
        }
        au
    }
}

/// Whether a NAL unit is a parameter set (SPS or PPS), by its header byte.
pub open spec fn is_parameter_set(nal: Seq<u8>) -> bool {
    (nal[0] & 0x1F) == 7 || (nal[0] & 0x1F) == 8
}

/// A 32-bit length, big-endian.
pub open spec fn be32(v: u32) -> Seq<u8> {
    seq![(v >> 24u32) as u8, (v >> 16u32) as u8, (v >> 8u32) as u8, v as u8]
}

/// The MP4 sample of a sequence of NAL units: every one that is not a
/// parameter set, prefixed with its length.
pub open spec fn sample_of(nals: Seq<Seq<u8>>) -> Seq<u8>
    decreases nals.len(),
{
    if nals.len() == 0 {
        Seq::empty()
    } else {
        let nal = nals.last();
        sample_of(nals.drop_last()) + if is_parameter_set(nal) {
            Seq::empty()
        } else {
            be32(nal.len() as u32) + nal
        }
    }
}

impl H264Encoder {
    /// Turn one Annex-B access unit into an MP4 sample (length-prefixed NALs),
    /// leaving the parameter sets out: they travel in `avcC`.
    pub fn sample_from_au(au: &[u8]) -> (sample: Vec<u8>)
        requires
            forall|i: int| 0 <= i < spec_split(au@).len() ==> (#[trigger] spec_split(au@)[i]).len() > 0,
        ensures
            sample@ == sample_of(spec_split(au@)),
    {
        let nals = split_annexb(au);
        let ghost parts = spec_split(au@);
        let mut sample: Vec<u8> = Vec::new();
        let mut k: usize = 0;
        while k < nals.len()
            invariant
                parts == spec_split(au@),
                nals@.len() == parts.len(),
                forall|n: int| 0 <= n < nals@.len() ==> (#[trigger] nals@[n])@ == parts[n],
                forall|i: int| 0 <= i < parts.len() ==> (#[trigger] parts[i]).len() > 0,
                k <= nals@.len(),
                sample@ == sample_of(parts.subrange(0, k as int)),
            decreases nals@.len() - k,
        {
            let nal = &nals[k];
            proof {
                assert(nal@ == parts[k as int]);
                assert(parts.subrange(0, k + 1).drop_last() =~= parts.subrange(0, k as int));
            }
            let t = nal[0] & 0x1F;
            if t == NalUnitType::Sps.code() || t == NalUnitType::Pps.code() {
                k = k + 1;
                continue;
            }
            let len = nal.len() as u32;
            sample.push((len >> 24u32) as u8);
            sample.push((len >> 16u32) as u8);
            sample.push((len >> 8u32) as u8);
            sample.push(len as u8);
            let ghost before = sample@;
            crate::codec::h264::nal::append_bytes(&mut sample, nal.as_slice());
            k = k + 1;
            proof {
                assert(sample@ =~= sample_of(parts.subrange(0, k as int)));
            }
        }
        proof {
            assert(parts.subrange(0, k as int) =~= parts);
        }
        sample
    }
}

/// The access units [`H264Encoder::assemble_au`] writes split back into
/// their NAL units: the first into SPS (`0x67`), PPS (`0x68`) and the IDR
/// slice (`0x65`), every later one into the IDR slice alone.
pub proof fn lemma_access_units_split(cfg: H264Config, rbsp: Seq<u8>)
    ensures
        ({
            let idr = spec_nal_unit(NalUnitType::Idr, 3, rbsp);
            &&& spec_split(start_code() + sps_nal(cfg) + start_code() + pps_nal() + start_code() + idr) == seq![
                sps_nal(cfg),
                pps_nal(),
                idr,
            ]
            &&& spec_split(start_code() + idr) == seq![idr]
            &&& sps_nal(cfg)[0] == 0x67
            &&& pps_nal()[0] == 0x68
            &&& idr[0] == 0x65
        }),
{
    let idr = spec_nal_unit(NalUnitType::Idr, 3, rbsp);
    let s = sps_nal(cfg);
    let p = pps_nal();
    lemma_nal_unit_has_no_start_code(NalUnitType::Sps, 3, spec_sps(cfg));
    lemma_nal_unit_has_no_start_code(NalUnitType::Pps, 3, spec_pps(false, false));
    lemma_nal_unit_has_no_start_code(NalUnitType::Idr, 3, rbsp);
    let three = seq![s, p, idr];
    let one = seq![idr];
    assert(one.drop_first() =~= Seq::<Seq<u8>>::empty());
    assert(annexb(one) =~= start_code() + idr) by {
        assert(annexb(Seq::<Seq<u8>>::empty()) == Seq::<u8>::empty());
    }
    assert(three.drop_first() =~= seq![p, idr]);
    assert(seq![p, idr].drop_first() =~= one);
    assert(annexb(seq![p, idr]) =~= start_code() + p + start_code() + idr);
    assert(annexb(three) =~= start_code() + s + start_code() + p + start_code() + idr);
    lemma_split_undoes_push(three);
    lemma_split_undoes_push(one);
}

} // verus!
