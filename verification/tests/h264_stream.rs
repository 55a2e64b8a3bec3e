use lib::codec::h264::avcc::build_avcc;
use lib::codec::h264::encoder::H264Encoder;
use lib::codec::h264::nal::{nal_unit, nal_unit_base, push_annexb, split_annexb, NalUnitType, START_CODE};
use lib::codec::h264::params::{write_sps, H264Config};
use lib::codec::h264::pps::write_pps;
use lib::codec::h264::slice::PaddedYuv;

#[test]
fn header_bytes() {
    assert_eq!(nal_unit_base(NalUnitType::Sps, &[])[0], 0x67);
    assert_eq!(nal_unit_base(NalUnitType::Pps, &[])[0], 0x68);
    assert_eq!(nal_unit_base(NalUnitType::Idr, &[])[0], 0x65);
}

#[test]
fn payload_gets_emulation_prevention() {
    let nal = nal_unit_base(NalUnitType::Pps, &[0x00, 0x00, 0x01, 0xFF]);
    assert_eq!(&nal[1..], &[0x00, 0x00, 0x03, 0x01, 0xFF]);
}

#[test]
fn annexb_and_split_roundtrip() {
    let nals = [nal_unit_base(NalUnitType::Sps, &[0xAA]), nal_unit_base(NalUnitType::Pps, &[0xBB])];
    let mut stream = Vec::new();
    for nal in &nals {
        push_annexb(&mut stream, nal);
    }
    assert_eq!(split_annexb(&stream), nals);
}

#[test]
fn nal_ref_idc_goes_in_bits_five_and_six() {
    assert_eq!(nal_unit(NalUnitType::Idr, 0, &[1])[0], 0x05);
    assert_eq!(nal_unit(NalUnitType::Sps, 1, &[1])[0], 0x27);
    assert_eq!(nal_unit(NalUnitType::Idr, 3, &[1]), vec![0x65, 1]);
}

#[test]
fn three_byte_start_codes_split_too() {
    let stream = [0x00, 0x00, 0x01, 0x67, 0x42, 0x00, 0x00, 0x00, 0x01, 0x68, 0x00, 0x00, 0x01];
    assert_eq!(split_annexb(&stream), vec![vec![0x67, 0x42], vec![0x68], vec![]]);
    assert!(split_annexb(&[0x12, 0x34]).is_empty());
}

#[test]
fn avcc_carries_parameter_sets() {
    let cfg = H264Config::new(64, 64);
    let sps = nal_unit_base(NalUnitType::Sps, &write_sps(&cfg));
    let pps = nal_unit_base(NalUnitType::Pps, &write_pps());
    let avcc = build_avcc(&sps, &pps);
    assert_eq!(avcc[0], 1);
    assert_eq!(avcc[1], 66); // Baseline profile
    assert!(avcc.len() > 8 + sps.len() + pps.len());
}

fn gradient(width: u32, height: u32) -> (Vec<u8>, Vec<u8>, Vec<u8>) {
    let mut y = vec![0u8; (width * height) as usize];
    for j in 0..height {
        for i in 0..width {
            y[(j * width + i) as usize] = ((i * 3 + j * 5) & 0xFF) as u8;
        }
    }
    let (cw, ch) = (width / 2, height / 2);
    let mut u = vec![0u8; (cw * ch) as usize];
    let mut v = vec![0u8; (cw * ch) as usize];
    for j in 0..ch {
        for i in 0..cw {
            u[(j * cw + i) as usize] = ((i * 7 + 30) & 0xFF) as u8;
            v[(j * cw + i) as usize] = ((j * 11 + 60) & 0xFF) as u8;
        }
    }
    (y, u, v)
}

fn nal_starts_with(au: &[u8], header: u8) -> bool {
    split_annexb(au).iter().any(|nal| !nal.is_empty() && nal[0] == header)
}

#[test]
fn access_unit_has_expected_nals() {
    let mut enc = H264Encoder::new(64, 64);
    let (y, u, v) = gradient(64, 64);
    let padded = PaddedYuv { y: &y, u: &u, v: &v, coded_width: 64, coded_height: 64 };
    let au = enc.assemble_au(&padded);
    assert!(au.starts_with(&START_CODE));
    assert!(nal_starts_with(&au, 0x67), "SPS NAL header");
    assert!(nal_starts_with(&au, 0x68), "PPS NAL header");
    assert!(nal_starts_with(&au, 0x65), "IDR slice NAL header");

    let au2 = enc.assemble_au(&padded);
    assert!(!nal_starts_with(&au2, 0x67), "SPS must not repeat");
    assert!(nal_starts_with(&au2, 0x65), "IDR slice present");
}

#[test]
fn a_sample_drops_parameter_sets_and_prefixes_lengths() {
    let mut enc = H264Encoder::new(16, 16);
    let (y, u, v) = gradient(16, 16);
    let padded = PaddedYuv { y: &y, u: &u, v: &v, coded_width: 16, coded_height: 16 };
    let au = enc.assemble_au(&padded);
    let sample = H264Encoder::sample_from_au(&au);
    let nals = split_annexb(&au);
    assert_eq!(nals.len(), 3);
    let idr = &nals[2];
    assert_eq!(sample.len(), 4 + idr.len());
    assert_eq!(&sample[..4], &(idr.len() as u32).to_be_bytes());
    assert_eq!(&sample[4..], &idr[..]);
}

#[test]
fn encoder_exposes_its_parameter_sets() {
    let enc = H264Encoder::new(20, 30);
    assert_eq!(enc.config().coded_width, 32);
    assert_eq!(enc.config().coded_height, 32);
    assert_eq!(enc.sps()[0], 0x67);
    assert_eq!(enc.pps()[0], 0x68);
    assert_eq!(enc.avcc(), build_avcc(enc.sps(), enc.pps()));
}
