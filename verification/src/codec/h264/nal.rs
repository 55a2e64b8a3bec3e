//! H.264 / AVC NAL units and Annex-B byte-stream packaging
//! (ISO/IEC 14496-10 §7.3.1, Annex B).
//!
//! A NAL unit is a one-byte header plus an EBSP payload; an Annex-B stream
//! prefixes each NAL with a `00 00 00 01` start code.

use crate::bitstream::{emulation_prevention, epb_from, escaped};
use vstd::prelude::*;

verus! {

/// NAL unit type (`nal_unit_type`, Table 7-1): the values this encoder emits.
#[derive(Clone, Copy, Debug, PartialEq, Eq, Structural)]
pub enum NalUnitType {
    /// Coded slice of an IDR picture.
    Idr,
    /// Sequence parameter set.
    Sps,
    /// Picture parameter set.
    Pps,
}

/// The numeric `nal_unit_type`.
pub open spec fn spec_code(t: NalUnitType) -> u8 {
    match t {
        NalUnitType::Idr => 5,
        NalUnitType::Sps => 7,
        NalUnitType::Pps => 8,
    }
}

impl NalUnitType {
    /// The numeric `nal_unit_type`.
    pub fn code(self) -> (c: u8)
        ensures
            c == spec_code(self),
    {
        match self {
            NalUnitType::Idr => 5,
            NalUnitType::Sps => 7,
            NalUnitType::Pps => 8,
        }
    }
}

/// Annex-B start code prefix.
pub const START_CODE: [u8; 4] = [0x00, 0x00, 0x00, 0x01];

/// The four start-code bytes.
pub open spec fn start_code() -> Seq<u8> {
    seq![0u8, 0u8, 0u8, 1u8]
}

/// The NAL header byte: `forbidden_zero_bit`, `nal_ref_idc`, `nal_unit_type`.
pub open spec fn nal_header(t: NalUnitType, nal_ref_idc: u8) -> u8 {
    ((nal_ref_idc % 4) * 32 + spec_code(t)) as u8
}

/// A whole NAL unit: header byte, then the escaped RBSP.
pub open spec fn spec_nal_unit(t: NalUnitType, nal_ref_idc: u8, rbsp: Seq<u8>) -> Seq<u8> {
    seq![nal_header(t, nal_ref_idc)] + escaped(rbsp)
}

/// Append every byte of `src` to `out`.
pub fn append_bytes(out: &mut Vec<u8>, src: &[u8])
    ensures
        final(out)@ == old(out)@ + src@,
{
    let mut i: usize = 0;
    while i < src.len()
        invariant
            i <= src@.len(),
            out@ == old(out)@ + src@.subrange(0, i as int),
        decreases src.len() - i,
    {
        out.push(src[i]);
        i = i + 1;
        proof {
            assert(src@.subrange(0, i as int) =~= src@.subrange(0, i - 1).push(src@[i - 1]));
        }
    }
    proof {
        assert(src@.subrange(0, src@.len() as int) =~= src@);
    }
}

/// Build a NAL unit: one header byte plus the emulation-prevented RBSP.
///
/// `nal_ref_idc` is typically `3` for parameter sets and IDR slices; only its
/// low two bits are used.
pub fn nal_unit(nal_type: NalUnitType, nal_ref_idc: u8, rbsp: &[u8]) -> (out: Vec<u8>)
    ensures
        out@ == spec_nal_unit(nal_type, nal_ref_idc, rbsp@),
{
    let t = nal_type.code() & 0x1F;
    let ref_idc = nal_ref_idc & 0x03;
    let header = (ref_idc << 5) | t;
    proof {
        let c = spec_code(nal_type);
        assert(c <= 8);
        assert((c & 0x1f) == c) by (bit_vector)
            requires
                c <= 8,
        ;
        assert(((nal_ref_idc & 3) << 5) | (c & 0x1f) == ((nal_ref_idc % 4) * 32 + c) as u8) by (bit_vector)
            requires
                c <= 8,
        ;
    }
    let ebsp = emulation_prevention(rbsp);
    let mut out: Vec<u8> = Vec::new();
    out.push(header);
    append_bytes(&mut out, &ebsp);
    proof {
        assert(out@ =~= spec_nal_unit(nal_type, nal_ref_idc, rbsp@));
    }
    out
}

/// Build a NAL with `nal_ref_idc = 3` (highest priority).
pub fn nal_unit_base(nal_type: NalUnitType, rbsp: &[u8]) -> (out: Vec<u8>)
    ensures
        out@ == spec_nal_unit(nal_type, 3, rbsp@),
{
    nal_unit(nal_type, 3, rbsp)
}

/// Append `nal` to an Annex-B byte stream.
pub fn push_annexb(out: &mut Vec<u8>, nal: &[u8])
    ensures
        final(out)@ == old(out)@ + start_code() + nal@,
{
    let sc = START_CODE;
    append_bytes(out, &sc);
    append_bytes(out, nal);
    proof {
        assert(sc@ =~= start_code());
    }
}

/// Length of the start code beginning at `i` (3 or 4), or 0 if none does.
/// A three-byte code is recognised first.
pub open spec fn start_at(s: Seq<u8>, i: int) -> int {
    if i + 3 <= s.len() && s[i] == 0 && s[i + 1] == 0 && s[i + 2] == 1 {
        3
    } else if i + 4 <= s.len() && s[i] == 0 && s[i + 1] == 0 && s[i + 2] == 0 && s[i + 3] == 1 {
        4
    } else {
        0
    }
}

/// The start codes found scanning forward from `i`: offset and length of each.
pub open spec fn scan(s: Seq<u8>, i: int) -> Seq<(int, int)>
    decreases s.len() - i,
{
    if i < 0 || i + 3 > s.len() {
        Seq::empty()
    } else if start_at(s, i) > 0 {
        seq![(i, start_at(s, i))] + scan(s, i + start_at(s, i))
    } else {
        scan(s, i + 1)
    }
}

/// The NAL units of an Annex-B stream: what lies between each start code and
/// the next (or the end).
pub open spec fn spec_split(s: Seq<u8>) -> Seq<Seq<u8>> {
    let st = scan(s, 0);
    Seq::new(
        st.len(),
        |n: int|
            s.subrange(
                st[n].0 + st[n].1,
                if n + 1 < st.len() {
                    st[n + 1].0
                } else {
                    s.len() as int
                },
            ),
    )
}

/// Start codes found scanning from `i` all begin at or after `i`, lie inside
/// the stream, and do not overlap.
pub proof fn lemma_scan_shape(s: Seq<u8>, i: int)
    requires
        0 <= i,
    ensures
        forall|n: int|
            0 <= n < scan(s, i).len() ==> i <= (#[trigger] scan(s, i)[n]).0 && scan(s, i)[n].0
                + scan(s, i)[n].1 <= s.len() && (scan(s, i)[n].1 == 3 || scan(s, i)[n].1 == 4),
        forall|n: int|
            0 <= n < scan(s, i).len() - 1 ==> (#[trigger] scan(s, i)[n]).0 + scan(s, i)[n].1 <= scan(
                s,
                i,
            )[n + 1].0,
    decreases s.len() - i,
{
    if i + 3 > s.len() {
    } else if start_at(s, i) > 0 {
        let k = start_at(s, i);
        lemma_scan_shape(s, i + k);
        let rest = scan(s, i + k);
        let all = scan(s, i);
        assert(all == seq![(i, k)] + rest);
        assert forall|n: int| 0 <= n < all.len() implies i <= (#[trigger] all[n]).0 && all[n].0
            + all[n].1 <= s.len() && (all[n].1 == 3 || all[n].1 == 4) by {
            if n > 0 {
                assert(all[n] == rest[n - 1]);
            }
        }
        assert forall|n: int| 0 <= n < all.len() - 1 implies (#[trigger] all[n]).0 + all[n].1
            <= all[n + 1].0 by {
            if n > 0 {
                assert(all[n] == rest[n - 1]);
                assert(all[n + 1] == rest[n]);
            } else {
                assert(all[1] == rest[0]);
            }
        }
    } else {
        lemma_scan_shape(s, i + 1);
        assert(scan(s, i) == scan(s, i + 1));
    }
}

/// The start codes of `stream`, in order.
fn find_starts(stream: &[u8]) -> (starts: Vec<(usize, usize)>)
    ensures
        starts@.len() == scan(stream@, 0).len(),
        forall|j: int|
            0 <= j < starts@.len() ==> (#[trigger] starts@[j]).0 as int == scan(stream@, 0)[j].0
                && starts@[j].1 as int == scan(stream@, 0)[j].1,
{
    let ghost s = stream@;
    let mut starts: Vec<(usize, usize)> = Vec::new();
    let ghost mut found: Seq<(int, int)> = Seq::empty();
    let mut i: usize = 0;
    while i < stream.len() && stream.len() - i >= 3
        invariant
            s == stream@,
            i <= stream@.len(),
            found + scan(s, i as int) == scan(s, 0),
            starts@.len() == found.len(),
            forall|j: int|
                0 <= j < found.len() ==> (#[trigger] starts@[j]).0 as int == found[j].0
                    && starts@[j].1 as int == found[j].1,
        decreases stream.len() - i,
    {
        if stream[i] == 0 && stream[i + 1] == 0 && stream[i + 2] == 1 {
            proof {
                assert(start_at(s, i as int) == 3);
                assert(scan(s, i as int) == seq![(i as int, 3int)] + scan(s, i + 3));
                found = found.push((i as int, 3int));
                assert(found + scan(s, i + 3) =~= scan(s, 0));
            }
            starts.push((i, 3));
            i = i + 3;
        } else if stream.len() - i >= 4 && stream[i] == 0 && stream[i + 1] == 0 && stream[i + 2]
            == 0 && stream[i + 3] == 1 {
            proof {
                assert(start_at(s, i as int) == 4);
                assert(scan(s, i as int) == seq![(i as int, 4int)] + scan(s, i + 4));
                found = found.push((i as int, 4int));
                assert(found + scan(s, i + 4) =~= scan(s, 0));
            }
            starts.push((i, 4));
            i = i + 4;
        } else {
            proof {
                assert(start_at(s, i as int) == 0);
                assert(scan(s, i as int) == scan(s, i + 1));
            }
            i = i + 1;
        }
    }
    proof {
        assert(scan(s, i as int) =~= Seq::<(int, int)>::empty());
        assert(found =~= scan(s, 0));
    }
    starts
}

/// Copy `stream[from..to]`.
fn copy_range(stream: &[u8], from: usize, to: usize) -> (out: Vec<u8>)
    requires
        from <= to <= stream@.len(),
    ensures
        out@ == stream@.subrange(from as int, to as int),
{
    let mut out: Vec<u8> = Vec::new();
    let mut k: usize = from;
    while k < to
        invariant
            from <= k <= to <= stream@.len(),
            out@ == stream@.subrange(from as int, k as int),
        decreases to - k,
    {
        out.push(stream[k]);
        k = k + 1;
        proof {
            assert(stream@.subrange(from as int, k as int) =~= stream@.subrange(from as int, k - 1).push(
                stream@[k - 1],
            ));
        }
    }
    out
}

/// Split an Annex-B stream into its NAL units (headers included).
pub fn split_annexb(stream: &[u8]) -> (nals: Vec<Vec<u8>>)
    ensures
        nals@.len() == spec_split(stream@).len(),
        forall|n: int| 0 <= n < nals@.len() ==> (#[trigger] nals@[n])@ == spec_split(stream@)[n],
{
    let ghost s = stream@;
    let starts = find_starts(stream);
    let ghost st = scan(s, 0);
    proof {
        lemma_scan_shape(s, 0);
    }
    let mut nals: Vec<Vec<u8>> = Vec::new();
    let mut n: usize = 0;
    while n < starts.len()
        invariant
            s == stream@,
            st == scan(s, 0),
            starts@.len() == st.len(),
            forall|j: int|
                0 <= j < st.len() ==> (#[trigger] starts@[j]).0 as int == st[j].0 && starts@[j].1 as int
                    == st[j].1,
            forall|j: int|
                0 <= j < st.len() ==> 0 <= (#[trigger] st[j]).0 && st[j].0 + st[j].1 <= s.len() && (
                st[j].1 == 3 || st[j].1 == 4),
            forall|j: int| 0 <= j < st.len() - 1 ==> (#[trigger] st[j]).0 + st[j].1 <= st[j + 1].0,
            n <= starts@.len(),
            nals@.len() == n,
            forall|j: int| 0 <= j < n ==> (#[trigger] nals@[j])@ == spec_split(s)[j],
        decreases starts.len() - n,
    {
        let (off, len) = starts[n];
        let end = if n + 1 < starts.len() {
            starts[n + 1].0
        } else {
            stream.len()
        };
        proof {
            assert(st[n as int].0 + st[n as int].1 <= end);
        }
        let nal = copy_range(stream, off + len, end);
        nals.push(nal);
        n = n + 1;
    }
    nals
}

/// `s[p..p + 3]` is the three-byte start code `00 00 01`.
pub open spec fn code_at(s: Seq<u8>, p: int) -> bool {
    s[p] == 0 && s[p + 1] == 0 && s[p + 2] == 1
}

/// No start code occurs inside `nal`: what emulation prevention guarantees
/// of an escaped payload.
pub open spec fn free_of_start_codes(nal: Seq<u8>) -> bool {
    forall|p: int| 0 <= p && p + 2 < nal.len() ==> !#[trigger] code_at(nal, p)
}

/// The Annex-B stream of `nals`: each behind a four-byte start code.
pub open spec fn annexb(nals: Seq<Seq<u8>>) -> Seq<u8>
    decreases nals.len(),
{
    if nals.len() == 0 {
        Seq::empty()
    } else {
        start_code() + nals[0] + annexb(nals.drop_first())
    }
}

/// Appending one more NAL unit appends its start code and bytes.
pub proof fn lemma_annexb_push(nals: Seq<Seq<u8>>, nal: Seq<u8>)
    ensures
        annexb(nals.push(nal)) == annexb(nals) + start_code() + nal,
    decreases nals.len(),
{
    if nals.len() == 0 {
        assert(nals.push(nal).drop_first() =~= Seq::<Seq<u8>>::empty());
        assert(nals.push(nal)[0] == nal);
        assert(annexb(Seq::<Seq<u8>>::empty()) == Seq::<u8>::empty());
        assert(annexb(nals.push(nal)) =~= start_code() + nal);
        assert(annexb(nals) =~= Seq::<u8>::empty());
    } else {
        assert(nals.push(nal).drop_first() =~= nals.drop_first().push(nal));
        lemma_annexb_push(nals.drop_first(), nal);
        assert(annexb(nals.push(nal)) =~= annexb(nals) + start_code() + nal);
    }
}

/// Scanning through a NAL unit's bytes finds nothing until the start code
/// that ends it, or the end of the stream.
proof fn lemma_scan_skips_payload(s: Seq<u8>, a: int, b: int, i: int)
    requires
        0 <= a <= i <= b <= s.len(),
        forall|p: int| a <= p && p + 2 < b ==> !#[trigger] code_at(s, p),
        b == s.len() || (b + 4 <= s.len() && s.subrange(b, b + 4) == start_code()),
    ensures
        scan(s, i) == scan(s, b),
    decreases b - i,
{
    if i < b {
        if b < s.len() {
            assert(s[b] == s.subrange(b, b + 4)[0]);
            assert(s[b + 1] == s.subrange(b, b + 4)[1]);
            assert(s[b + 2] == s.subrange(b, b + 4)[2]);
        }
        if i + 3 <= s.len() {
            assert(start_at(s, i) == 0) by {
                if i + 2 < b {
                    assert(!code_at(s, i));
                }
                if i + 3 < b {
                    assert(!code_at(s, i + 1));
                }
            }
        }
        lemma_scan_skips_payload(s, a, b, i + 1);
    }
}

/// The start codes the scanner finds in a stream of NAL units from `i`:
/// one four-byte code before each unit.
pub open spec fn annexb_starts(nals: Seq<Seq<u8>>, i: int) -> Seq<(int, int)>
    decreases nals.len(),
{
    if nals.len() == 0 {
        Seq::empty()
    } else {
        seq![(i, 4int)] + annexb_starts(nals.drop_first(), i + 4 + nals[0].len())
    }
}

/// Scanning the tail of `s` that is the Annex-B stream of start-code-free
/// units finds exactly their start codes.
proof fn lemma_scan_annexb(s: Seq<u8>, i: int, nals: Seq<Seq<u8>>)
    requires
        0 <= i <= s.len(),
        s.subrange(i, s.len() as int) == annexb(nals),
        forall|k: int| 0 <= k < nals.len() ==> free_of_start_codes(#[trigger] nals[k]),
    ensures
        scan(s, i) == annexb_starts(nals, i),
    decreases nals.len(),
{
    if nals.len() == 0 {
        assert(s.subrange(i, s.len() as int).len() == 0);
    } else {
        let nal = nals[0];
        let rest = nals.drop_first();
        let b = i + 4 + nal.len();
        let t = s.subrange(i, s.len() as int);
        assert(t == start_code() + nal + annexb(rest));
        assert(s[i] == t[0] && s[i + 1] == t[1] && s[i + 2] == t[2] && s[i + 3] == t[3]);
        assert(start_at(s, i) == 4);
        assert(scan(s, i) == seq![(i, 4int)] + scan(s, i + 4));
        assert(s.subrange(b, s.len() as int) =~= annexb(rest)) by {
            assert forall|q: int| 0 <= q < s.len() - b implies s.subrange(b, s.len() as int)[q] == annexb(rest)[q] by {
                assert(s[b + q] == t[b - i + q]);
            }
        }
        assert forall|p: int| i + 4 <= p && p + 2 < b implies !#[trigger] code_at(s, p) by {
            assert(s[p] == nal[p - i - 4] && s[p + 1] == nal[p + 1 - i - 4] && s[p + 2] == nal[p + 2 - i - 4]) by {
                assert(s[p] == t[p - i]);
                assert(s[p + 1] == t[p + 1 - i]);
                assert(s[p + 2] == t[p + 2 - i]);
            }
            assert(!code_at(nal, p - i - 4));
        }
        if rest.len() > 0 {
            assert(annexb(rest) == start_code() + rest[0] + annexb(rest.drop_first()));
            assert(s.subrange(b, b + 4) =~= start_code()) by {
                assert forall|q: int| 0 <= q < 4 implies s.subrange(b, b + 4)[q] == start_code()[q] by {
                    assert(s[b + q] == s.subrange(b, s.len() as int)[q]);
                }
            }
        } else {
            assert(b == s.len());
        }
        lemma_scan_skips_payload(s, i + 4, b, i + 4);
        assert forall|k: int| 0 <= k < rest.len() implies free_of_start_codes(#[trigger] rest[k]) by {
            assert(rest[k] == nals[k + 1]);
        }
        lemma_scan_annexb(s, b, rest);
    }
}

/// The units of a stream and where they start: unit `k` sits right after
/// start `k`, and start `k + 1` follows it.
proof fn lemma_annexb_starts_layout(s: Seq<u8>, i: int, nals: Seq<Seq<u8>>)
    requires
        0 <= i <= s.len(),
        s.subrange(i, s.len() as int) == annexb(nals),
    ensures
        annexb_starts(nals, i).len() == nals.len(),
        forall|k: int|
            #![trigger annexb_starts(nals, i)[k]]
            0 <= k < nals.len() ==> {
                let st = annexb_starts(nals, i);
                let end = if k + 1 < nals.len() {
                    st[k + 1].0
                } else {
                    s.len() as int
                };
                &&& st[k].1 == 4
                &&& st[k].0 + 4 + nals[k].len() == end
                &&& s.subrange(st[k].0 + 4, end) == nals[k]
            },
    decreases nals.len(),
{
    if nals.len() > 0 {
        let nal = nals[0];
        let rest = nals.drop_first();
        let b = i + 4 + nal.len();
        let t = s.subrange(i, s.len() as int);
        assert(t == start_code() + nal + annexb(rest));
        assert(s.subrange(b, s.len() as int) =~= annexb(rest)) by {
            assert forall|q: int| 0 <= q < s.len() - b implies s.subrange(b, s.len() as int)[q] == annexb(rest)[q] by {
                assert(s[b + q] == t[b - i + q]);
            }
        }
        lemma_annexb_starts_layout(s, b, rest);
        let st = annexb_starts(nals, i);
        let st2 = annexb_starts(rest, b);
        assert(st == seq![(i, 4int)] + st2);
        assert forall|k: int| 0 <= k < nals.len() implies {
            let end = if k + 1 < nals.len() {
                st[k + 1].0
            } else {
                s.len() as int
            };
            &&& #[trigger] st[k].1 == 4
            &&& st[k].0 + 4 + nals[k].len() == end
            &&& s.subrange(st[k].0 + 4, end) == nals[k]
        } by {
            if k == 0 {
                if rest.len() > 0 {
                    assert(st[1] == st2[0]);
                    assert(annexb_starts(rest, b)[0].0 == b);
                } else {
                    assert(annexb(rest).len() == 0);
                }
                assert(s.subrange(i + 4, b) =~= nal) by {
                    assert forall|q: int| 0 <= q < nal.len() implies s.subrange(i + 4, b)[q] == nal[q] by {
                        assert(s[i + 4 + q] == t[4 + q]);
                    }
                }
            } else {
                assert(st[k] == st2[k - 1]);
                assert(nals[k] == rest[k - 1]);
                if k + 1 < nals.len() {
                    assert(st[k + 1] == st2[k]);
                }
            }
        }
    }
}

/// A stream built by pushing NAL units one after another splits back into
/// exactly those units, as long as none of them holds a start code, which
/// emulation prevention guarantees of every escaped payload.
pub proof fn lemma_split_undoes_push(nals: Seq<Seq<u8>>)
    requires
        forall|k: int| 0 <= k < nals.len() ==> free_of_start_codes(#[trigger] nals[k]),
    ensures
        spec_split(annexb(nals)) == nals,
{
    let s = annexb(nals);
    assert(s.subrange(0, s.len() as int) =~= s);
    lemma_scan_annexb(s, 0, nals);
    lemma_annexb_starts_layout(s, 0, nals);
    let st = scan(s, 0);
    assert(spec_split(s) =~= nals) by {
        assert forall|k: int| 0 <= k < nals.len() implies spec_split(s)[k] == nals[k] by {
            assert(st[k] == annexb_starts(nals, 0)[k]);
        }
    }
}

/// `z` zero bytes.
pub open spec fn zero_run(z: nat) -> Seq<u8> {
    Seq::new(z, |i: int| 0u8)
}

/// Escaping never leaves a start code behind, counting the `zeros` zero
/// bytes already emitted before it.
proof fn lemma_escaping_leaves_no_start_code(s: Seq<u8>, zeros: nat)
    requires
        zeros <= 2,
    ensures
        free_of_start_codes(zero_run(zeros) + epb_from(s, zeros)),
    decreases s.len(),
{
    let t = zero_run(zeros) + epb_from(s, zeros);
    if s.len() == 0 {
        assert(t =~= zero_run(zeros));
    } else {
        let b = s[0];
        let escape = zeros >= 2 && b <= 3;
        let head = if escape {
            seq![3u8, b]
        } else {
            seq![b]
        };
        let z2: nat = if b == 0 {
            (if escape {
                1nat
            } else {
                zeros + 1
            })
        } else {
            0nat
        };
        let rest = epb_from(s.drop_first(), z2);
        lemma_escaping_leaves_no_start_code(s.drop_first(), z2);
        let a = zero_run(zeros) + head;
        let u = zero_run(z2) + rest;
        assert(t =~= a + rest);
        let la = a.len() as int;
        assert forall|p: int| 0 <= p && p + 2 < t.len() implies !#[trigger] code_at(t, p) by {
            if p + 2 < la {
                assert(t[p] == a[p] && t[p + 1] == a[p + 1] && t[p + 2] == a[p + 2]);
            } else if p >= la {
                let q = p - la + z2;
                assert(t[p] == u[q] && t[p + 1] == u[q + 1] && t[p + 2] == u[q + 2]);
                assert(!code_at(u, q));
            } else if p == la - 1 {
                if t[p] == 0 {
                    assert(z2 >= 1);
                    let q = z2 - 1;
                    assert(u[q] == 0);
                    assert(t[p + 1] == u[q + 1] && t[p + 2] == u[q + 2]);
                    assert(!code_at(u, q));
                }
            } else {
                if t[p] == 0 && t[p + 1] == 0 {
                    assert(t[p] == a[la - 2] && t[p + 1] == a[la - 1]);
                    assert(z2 == 2);
                    assert(u[0] == 0 && u[1] == 0);
                    assert(t[p + 2] == u[2]);
                    assert(!code_at(u, 0));
                }
            }
        }
    }
}

/// Every NAL unit holds no start code: its header byte is non-zero and its
/// payload is escaped.
pub proof fn lemma_nal_unit_has_no_start_code(t: NalUnitType, nal_ref_idc: u8, rbsp: Seq<u8>)
    ensures
        free_of_start_codes(spec_nal_unit(t, nal_ref_idc, rbsp)),
{
    lemma_escaping_leaves_no_start_code(rbsp, 0);
    let e = escaped(rbsp);
    assert(zero_run(0) + e =~= e);
    let n = spec_nal_unit(t, nal_ref_idc, rbsp);
    assert(n[0] != 0);
    assert forall|p: int| 0 <= p && p + 2 < n.len() implies !#[trigger] code_at(n, p) by {
        if p > 0 {
            assert(n[p] == e[p - 1] && n[p + 1] == e[p] && n[p + 2] == e[p + 1]);
            assert(!code_at(e, p - 1));
        }
    }
}

/// The NAL header byte holds, from the top, a zero `forbidden_zero_bit`,
/// the two bits of `nal_ref_idc` and the five of `nal_unit_type`
/// (§7.3.1).
pub proof fn lemma_nal_header_fields(t: NalUnitType, nal_ref_idc: u8)
    ensures
        nal_header(t, nal_ref_idc) < 128,
        nal_header(t, nal_ref_idc) / 32 == nal_ref_idc % 4,
        nal_header(t, nal_ref_idc) % 32 == spec_code(t),
{
}

/// A decoder reads a NAL unit back: the header byte first, and the RBSP
/// from the rest once the emulation-prevention bytes are stripped.
pub proof fn lemma_nal_unit_reads_back(t: NalUnitType, nal_ref_idc: u8, rbsp: Seq<u8>)
    ensures
        spec_nal_unit(t, nal_ref_idc, rbsp)[0] == nal_header(t, nal_ref_idc),
        crate::bitstream::unescape_from(spec_nal_unit(t, nal_ref_idc, rbsp).drop_first(), 0) == rbsp,
{
    crate::bitstream::lemma_unescape_undoes_escaping(rbsp, 0);
    assert(spec_nal_unit(t, nal_ref_idc, rbsp).drop_first() =~= escaped(rbsp));
}

} // verus!
