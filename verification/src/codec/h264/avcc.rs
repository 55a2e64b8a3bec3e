//! `AVCDecoderConfigurationRecord` (`avcC`) — ISO/IEC 14496-15 §5.2.4.1: the
//! SPS and PPS NAL units an MP4 `avc1` sample entry carries.

use crate::codec::h264::nal::append_bytes;
use vstd::prelude::*;

verus! {

/// Byte `i` of `s`, or `default` past its end.
pub open spec fn byte_or(s: Seq<u8>, i: int, default: u8) -> u8 {
    if i < s.len() {
        s[i]
    } else {
        default
    }
}

/// A length written as 16 bits, big-endian (truncated to 16 bits).
pub open spec fn be16(n: nat) -> Seq<u8> {
    seq![((n / 256) % 256) as u8, (n % 256) as u8]
}

/// The `avcC` payload for `sps` and `pps` (both with their NAL headers).
pub open spec fn spec_avcc(sps: Seq<u8>, pps: Seq<u8>) -> Seq<u8> {
    seq![1u8, byte_or(sps, 1, 100), byte_or(sps, 2, 0), byte_or(sps, 3, 31), 0xFFu8, 0xE1u8]
        + be16(sps.len()) + sps + seq![1u8] + be16(pps.len()) + pps
}

/// Byte `i` of `s`, or `default` past its end.
fn get_or(s: &[u8], i: usize, default: u8) -> (b: u8)
    ensures
        b == byte_or(s@, i as int, default),
{
    if i < s.len() {
        s[i]
    } else {
        default
    }
}

/// Append a length as 16 big-endian bits.
fn push_be16(v: &mut Vec<u8>, n: usize)
    ensures
        final(v)@ == old(v)@ + be16(n as nat),
{
    let low = n % 65536;
    v.push((low / 256) as u8);
    v.push((low % 256) as u8);
    proof {
        assert((n as nat / 256) % 256 == (low as nat) / 256) by (nonlinear_arith)
            requires
                low == n % 65536,
        ;
    }
}

/// Build the `avcC` box payload (without the 8-byte box header).
pub fn build_avcc(sps: &[u8], pps: &[u8]) -> (v: Vec<u8>)
    ensures
        v@ == spec_avcc(sps@, pps@),
{
    let profile = get_or(sps, 1, 100);
    let compat = get_or(sps, 2, 0);
    let level = get_or(sps, 3, 31);
    let mut v: Vec<u8> = Vec::new();
    v.push(1);
    v.push(profile);
    v.push(compat);
    v.push(level);
    let reserved: u8 = 0xFC | 3;
    proof {
        assert((0xFCu8 | 3u8) == 0xFFu8) by (bit_vector);
    }
    v.push(reserved);
    v.push(0xE1);
    push_be16(&mut v, sps.len());
    append_bytes(&mut v, sps);
    v.push(1);
    push_be16(&mut v, pps.len());
    append_bytes(&mut v, pps);
    proof {
        assert(v@ =~= spec_avcc(sps@, pps@));
    }
    v
}

/// A reader of the record gets the parameter sets back (ISO/IEC 14496-15
/// §5.2.4.1): version 1, the SPS's profile, compatibility and level bytes,
/// four-byte NAL lengths, one SPS of the length the big-endian count gives,
/// then one PPS likewise, and nothing after.
pub proof fn lemma_avcc_reads_back(sps: Seq<u8>, pps: Seq<u8>)
    requires
        4 <= sps.len() < 0x10000,
        pps.len() < 0x10000,
    ensures
        ({
            let v = spec_avcc(sps, pps);
            let sl = v[6] * 256 + v[7];
            let pl = v[9 + sl] * 256 + v[10 + sl];
            &&& v[0] == 1
            &&& v[1] == sps[1] && v[2] == sps[2] && v[3] == sps[3]
            &&& v[4] % 4 == 3
            &&& v[5] % 32 == 1
            &&& sl == sps.len()
            &&& v.subrange(8, 8 + sl) == sps
            &&& v[8 + sl] == 1
            &&& pl == pps.len()
            &&& v.subrange(11 + sl, 11 + sl + pl) == pps
            &&& v.len() == 11 + sl + pl
        }),
{
    let v = spec_avcc(sps, pps);
    let n = sps.len() as int;
    let m = pps.len() as int;
    assert((n / 256) % 256 == n / 256 && (n / 256) * 256 + n % 256 == n);
    assert((m / 256) % 256 == m / 256 && (m / 256) * 256 + m % 256 == m);
    assert(v[6] == (n / 256) as u8 && v[7] == (n % 256) as u8);
    assert(v.subrange(8, 8 + n) =~= sps);
    assert(v[8 + n] == 1);
    assert(v[9 + n] == (m / 256) as u8 && v[10 + n] == (m % 256) as u8);
    assert(v.subrange(11 + n, 11 + n + m) =~= pps);
}

} // verus!
