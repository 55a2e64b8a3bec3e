//! Bit-level writer, Exp-Golomb codes and RBSP framing shared by the H.264 and
//! HEVC syntax writers (ISO/IEC 14496-10 §7.2, §9.1).
//!
//! The writer is modelled as the sequence of bits written so far, most
//! significant bit of each value first; [`BitWriter::finish`] packs that
//! sequence into bytes.

use vstd::arithmetic::div_mod::lemma_div_denominator;
use vstd::arithmetic::power2::{lemma_pow2_pos, lemma_pow2_unfold, pow2};
use vstd::bits::lemma_u64_shr_is_div;
use vstd::prelude::*;

verus! {

/// The `n` low bits of `v`, most significant first.
pub open spec fn bits_of(v: nat, n: nat) -> Seq<bool>
    decreases n,
{
    if n == 0 {
        Seq::empty()
    } else {
        bits_of(v / 2, (n - 1) as nat).push(v % 2 == 1)
    }
}

/// The unsigned value of a bit sequence read most significant bit first.
pub open spec fn bits_value(s: Seq<bool>) -> nat
    decreases s.len(),
{
    if s.len() == 0 {
        0
    } else {
        2 * bits_value(s.drop_last()) + (if s.last() {
            1nat
        } else {
            0nat
        })
    }
}

/// Number of binary digits of `x` (0 for 0).
pub open spec fn bit_len(x: nat) -> nat
    decreases x,
{
    if x == 0 {
        0
    } else {
        1 + bit_len(x / 2)
    }
}

/// `n` zero bits.
pub open spec fn zeros(n: nat) -> Seq<bool> {
    Seq::new(n, |i: int| false)
}

/// The `ue(v)` Exp-Golomb code of `v` (§9.1): as many zeros as `v + 1` has
/// digits after its leading one, then `v + 1` in binary.
pub open spec fn ue_bits(v: nat) -> Seq<bool> {
    let x = v + 1;
    zeros((bit_len(x) - 1) as nat) + bits_of(x, bit_len(x))
}

/// The code number `se(v)` maps a signed value to (Table 9-3):
/// positive values to odd numbers, the rest to even ones.
pub open spec fn se_code(v: int) -> nat {
    if v > 0 {
        (2 * v - 1) as nat
    } else {
        (-2 * v) as nat
    }
}

/// The `se(v)` code of `v`.
pub open spec fn se_bits(v: int) -> Seq<bool> {
    ue_bits(se_code(v))
}

/// Zero bits that bring a sequence of `len` bits up to a byte boundary.
pub open spec fn pad_len(len: nat) -> nat {
    if len % 8 == 0 {
        0
    } else {
        (8 - len % 8) as nat
    }
}

/// `s` followed by zero bits up to the next byte boundary.
pub open spec fn align(s: Seq<bool>) -> Seq<bool> {
    s + zeros(pad_len(s.len()))
}

/// `rbsp_trailing_bits()` appended to `s`: a one bit, then zeros to the byte
/// boundary (§7.3.2.11).
pub open spec fn with_trailing_bits(s: Seq<bool>) -> Seq<bool> {
    align(s.push(true))
}

/// Byte `i` of a byte-aligned bit sequence.
pub open spec fn byte_at(s: Seq<bool>, i: int) -> u8 {
    bits_value(s.subrange(8 * i, 8 * i + 8)) as u8
}

/// A byte-aligned bit sequence packed into bytes, most significant bit first.
pub open spec fn pack(s: Seq<bool>) -> Seq<u8> {
    Seq::new(s.len() / 8, |i: int| byte_at(s, i))
}

/// The bytes [`BitWriter::finish`] returns for the bits `s`.
pub open spec fn packed(s: Seq<bool>) -> Seq<u8> {
    pack(align(s))
}

/// Emulation prevention (§7.4.1): after two zero bytes, a byte `<= 3` is
/// preceded by an inserted `0x03`. `zeros` counts the zero bytes just emitted.
pub open spec fn epb_from(s: Seq<u8>, zeros: nat) -> Seq<u8>
    decreases s.len(),
{
    if s.len() == 0 {
        Seq::empty()
    } else {
        let b = s[0];
        let escape = zeros >= 2 && b <= 3;
        let head = if escape {
            seq![3u8, b]
        } else {
            seq![b]
        };
        let z = if b == 0 {
            (if escape {
                1nat
            } else {
                zeros + 1
            })
        } else {
            0nat
        };
        head + epb_from(s.drop_first(), z)
    }
}

/// The escaped payload (EBSP) of an RBSP.
pub open spec fn escaped(s: Seq<u8>) -> Seq<u8> {
    epb_from(s, 0)
}

/// What a decoder makes of an escaped payload (§7.4.1): after two zero
/// bytes, a `0x03` is an `emulation_prevention_three_byte` and is dropped;
/// every other byte is payload. `zeros` counts the zero bytes just read.
pub open spec fn unescape_from(s: Seq<u8>, zeros: nat) -> Seq<u8>
    decreases s.len(),
{
    if s.len() == 0 {
        Seq::empty()
    } else if zeros >= 2 && s[0] == 3 {
        unescape_from(s.drop_first(), 0)
    } else {
        seq![s[0]] + unescape_from(s.drop_first(), if s[0] == 0 {
            zeros + 1
        } else {
            0
        })
    }
}

/// A decoder strips exactly the bytes emulation prevention inserted: the
/// payload comes back unchanged.
pub proof fn lemma_unescape_undoes_escaping(s: Seq<u8>, zeros: nat)
    requires
        zeros <= 2,
    ensures
        unescape_from(epb_from(s, zeros), zeros) == s,
    decreases s.len(),
{
    if s.len() > 0 {
        let b = s[0];
        let escape = zeros >= 2 && b <= 3;
        let z: nat = if b == 0 {
            (if escape {
                1nat
            } else {
                zeros + 1
            })
        } else {
            0nat
        };
        let rest = epb_from(s.drop_first(), z);
        lemma_unescape_undoes_escaping(s.drop_first(), z);
        if escape {
            let e = seq![3u8, b] + rest;
            assert(epb_from(s, zeros) == e);
            assert(e.drop_first() =~= seq![b] + rest);
            assert((seq![b] + rest).drop_first() =~= rest);
            assert(unescape_from(e, zeros) == unescape_from(seq![b] + rest, 0));
            assert(unescape_from(seq![b] + rest, 0) == seq![b] + unescape_from(rest, z));
            assert(seq![b] + s.drop_first() =~= s);
        } else {
            let e = seq![b] + rest;
            assert(epb_from(s, zeros) == e);
            assert(e.drop_first() =~= rest);
            assert(seq![b] + s.drop_first() =~= s);
        }
    }
}

/// The value of a bit sequence is the number it was written from.
pub proof fn lemma_bits_value_of(v: nat, n: nat)
    ensures
        bits_of(v, n).len() == n,
        bits_value(bits_of(v, n)) == v % pow2(n),
    decreases n,
{
    if n == 0 {
        vstd::arithmetic::power2::lemma2_to64();
    } else {
        lemma_bits_value_of(v / 2, (n - 1) as nat);
        let s = bits_of(v, n);
        assert(s.drop_last() == bits_of(v / 2, (n - 1) as nat));
        lemma_pow2_unfold(n);
        lemma_pow2_pos((n - 1) as nat);
        let p = pow2((n - 1) as nat);
        // v % (2p) == 2 * ((v / 2) % p) + v % 2
        vstd::arithmetic::div_mod::lemma_mod_breakdown(v as int, 2, p as int);
        assert(v % (2 * p) == 2 * ((v / 2) % p) + v % 2) by (nonlinear_arith)
            requires
                p > 0,
                (v as int) % (2 * p as int) == 2 * ((v as int / 2) % (p as int)) + (v as int) % 2,
        ;
    }
}

/// A number below `2^k` has at most `k` digits.
pub proof fn lemma_bit_len_bound(x: nat, k: nat)
    requires
        x < pow2(k),
    ensures
        bit_len(x) <= k,
    decreases k,
{
    if x > 0 {
        if k == 0 {
            vstd::arithmetic::power2::lemma2_to64();
        } else {
            lemma_pow2_unfold(k);
            lemma_bit_len_bound(x / 2, (k - 1) as nat);
        }
    }
}

/// A number with `bit_len(x) > 0` digits has its top digit set.
pub proof fn lemma_bit_len_top(x: nat)
    requires
        x > 0,
    ensures
        pow2((bit_len(x) - 1) as nat) <= x < pow2(bit_len(x)),
    decreases x,
{
    vstd::arithmetic::power2::lemma2_to64();
    if x == 1 {
        assert(bit_len(0) == 0);
        assert(bit_len(1) == 1);
    } else {
        let h = x / 2;
        lemma_bit_len_top(h);
        assert(bit_len(x) == 1 + bit_len(h));
        lemma_pow2_unfold(bit_len(x));
        lemma_pow2_unfold(bit_len(h));
        assert(pow2(bit_len(x)) == 2 * pow2(bit_len(h)));
    }
}

// ---------------------------------------------------------------- reading

/// How many zero bits run from position `pos` of `s`.
pub open spec fn zero_run_at(s: Seq<bool>, pos: int) -> nat
    decreases s.len() - pos,
{
    if 0 <= pos < s.len() && !s[pos] {
        1 + zero_run_at(s, pos + 1)
    } else {
        0
    }
}

/// An Exp-Golomb `ue(v)` read from position `pos` as a decoder reads it
/// (§9.1): count the `z` leading zeros, read the `z + 1` bits from the one
/// that ends them, and take their value less one. Returns the value and the
/// position after the code.
pub open spec fn read_ue(s: Seq<bool>, pos: int) -> (nat, int) {
    let z = zero_run_at(s, pos);
    ((bits_value(s.subrange(pos + z, pos + 2 * z + 1)) - 1) as nat, pos + 2 * z + 1)
}

/// The first bit of `bits_of(x, n)` is bit `n − 1` of `x`.
proof fn lemma_bits_of_first(x: nat, n: nat)
    requires
        n >= 1,
    ensures
        bits_of(x, n)[0] == ((x / pow2((n - 1) as nat)) % 2 == 1),
    decreases n,
{
    lemma_bits_value_of(x, n);
    if n == 1 {
        vstd::arithmetic::power2::lemma2_to64();
    } else {
        lemma_bits_of_first(x / 2, (n - 1) as nat);
        lemma_bits_value_of(x / 2, (n - 1) as nat);
        assert(bits_of(x, n)[0] == bits_of(x / 2, (n - 1) as nat)[0]);
        lemma_pow2_unfold((n - 1) as nat);
        lemma_pow2_pos((n - 2) as nat);
        lemma_div_denominator(x as int, 2, pow2((n - 2) as nat) as int);
    }
}

/// A run of `k` zeros ended by a one is counted as `k`.
pub proof fn lemma_zero_run_at(s: Seq<bool>, pos: int, k: nat)
    requires
        0 <= pos,
        pos + k < s.len(),
        forall|i: int| pos <= i < pos + k ==> !s[i],
        s[pos + k],
    ensures
        zero_run_at(s, pos) == k,
    decreases k,
{
    if k > 0 {
        lemma_zero_run_at(s, pos + 1, (k - 1) as nat);
    }
}

/// A decoder reads back every `ue(v)` code, wherever it stands, and ends
/// right after it.
pub proof fn lemma_read_ue_of(pre: Seq<bool>, v: nat, rest: Seq<bool>)
    ensures
        read_ue(pre + ue_bits(v) + rest, pre.len() as int) == (v, pre.len() + ue_bits(v).len() as int),
{
    let x = v + 1;
    let l = bit_len(x);
    lemma_bit_len_top(x);
    lemma_bits_value_of(x, l);
    lemma_pow2_pos((l - 1) as nat);
    lemma_pow2_unfold(l);
    let b = bits_of(x, l);
    let u = ue_bits(v);
    let s = pre + u + rest;
    let p = pre.len() as int;
    let z = (l - 1) as nat;
    assert(u == zeros(z) + b);
    assert(u.len() == z + l);
    lemma_bits_of_first(x, l);
    let t = pow2(z);
    assert(x / t == 1) by (nonlinear_arith)
        requires
            t <= x < 2 * t,
            t > 0,
    ;
    assert(s[p + z] == b[0]);
    assert forall|i: int| p <= i < p + z implies !s[i] by {
        assert(s[i] == u[i - p]);
        assert(u[i - p] == zeros(z)[i - p]);
    }
    lemma_zero_run_at(s, p, z);
    assert(s.subrange(p + z, p + 2 * z + 1) =~= b);
    assert(x % pow2(l) == x) by {
        vstd::arithmetic::div_mod::lemma_small_mod(x, pow2(l));
    }
}

/// A signed Exp-Golomb `se(v)` read from position `pos` (§9.1.1): the
/// `ue` code number `k` maps to `(k + 1) / 2` when odd and `−k / 2` when
/// even.
pub open spec fn read_se(s: Seq<bool>, pos: int) -> (int, int) {
    let (k, next) = read_ue(s, pos);
    (if k % 2 == 1 {
        ((k + 1) / 2) as int
    } else {
        -(k / 2)
    }, next)
}

/// A decoder reads back every `se(v)` code, wherever it stands, and ends
/// right after it.
pub proof fn lemma_read_se_of(pre: Seq<bool>, v: int, rest: Seq<bool>)
    ensures
        read_se(pre + se_bits(v) + rest, pre.len() as int) == (v, pre.len() + se_bits(v).len() as int),
{
    lemma_read_ue_of(pre, se_code(v), rest);
}

/// A growing sequence of bits, most significant first.
pub struct BitWriter {
    bits: Vec<bool>,
}

impl View for BitWriter {
    type V = Seq<bool>;

    closed spec fn view(&self) -> Seq<bool> {
        self.bits@
    }
}

impl BitWriter {
    /// An empty writer.
    pub fn new() -> (w: BitWriter)
        ensures
            w@ == Seq::<bool>::empty(),
    {
        BitWriter { bits: Vec::new() }
    }

    /// Number of bits written so far.
    pub fn bit_len(&self) -> (n: usize)
        ensures
            n == self@.len(),
    {
        self.bits.len()
    }

    /// Whether the bits written so far fill whole bytes.
    pub fn is_byte_aligned(&self) -> (b: bool)
        ensures
            b == (self@.len() % 8 == 0),
    {
        self.bits.len() % 8 == 0
    }

    /// Append one bit: the low bit of `b`.
    pub fn write_bit(&mut self, b: u32)
        ensures
            final(self)@ == old(self)@.push(b % 2 == 1),
    {
        self.bits.push(b % 2 == 1);
    }

    /// Append a one-bit flag.
    pub fn flag(&mut self, f: bool)
        ensures
            final(self)@ == old(self)@.push(f),
    {
        self.bits.push(f);
    }

    /// Append the `n` low bits of `value`, most significant first (bits above
    /// the 64th are zero).
    pub fn write_bits(&mut self, value: u64, n: u32)
        ensures
            final(self)@ == old(self)@ + bits_of(value as nat, n as nat),
    {
        let ghost start = self.bits@;
        let mut i: u32 = n;
        proof {
            lemma_pow2_pos(n as nat);
            assert(bits_of(value as nat / pow2(n as nat), 0) =~= Seq::<bool>::empty());
        }
        while i > 0
            invariant
                i <= n,
                self.bits@ == start + bits_of(value as nat / pow2(i as nat), (n - i) as nat),
            decreases i,
        {
            let k: u32 = i - 1;
            let shifted: u64 = if k < 64 {
                value >> (k as u64)
            } else {
                0
            };
            proof {
                lemma_pow2_pos(k as nat);
                lemma_pow2_unfold(i as nat);
                let p = pow2(k as nat);
                if k < 64 {
                    lemma_u64_shr_is_div(value, k as u64);
                } else {
                    vstd::arithmetic::power2::lemma2_to64_rest();
                    if k > 64 {
                        vstd::arithmetic::power2::lemma_pow2_strictly_increases(64, k as nat);
                    }
                    vstd::arithmetic::div_mod::lemma_basic_div(value as int, p as int);
                }
                assert(shifted == value as nat / p);
                lemma_div_denominator(value as int, p as int, 2);
                assert(shifted / 2 == value as nat / pow2(i as nat));
            }
            self.bits.push(shifted % 2 == 1);
            i = i - 1;
            proof {
                let v = value as nat / pow2(i as nat);
                assert(v == shifted);
                assert(bits_of(v, (n - i) as nat) == bits_of(v / 2, (n - i - 1) as nat).push(v % 2 == 1));
            }
        }
        proof {
            vstd::arithmetic::power2::lemma2_to64();
            assert(value as nat / pow2(0) == value as nat);
        }
    }

    /// Append one byte.
    pub fn write_byte(&mut self, b: u8)
        ensures
            final(self)@ == old(self)@ + bits_of(b as nat, 8),
    {
        self.write_bits(b as u64, 8);
    }

    /// Append the Exp-Golomb code of a code number below `2^40`.
    fn write_code(&mut self, code: u64)
        requires
            code < 0x100_0000_0000,
        ensures
            final(self)@ == old(self)@ + ue_bits(code as nat),
    {
        let x: u64 = code + 1;
        let mut t: u64 = x;
        let mut len: u32 = 0;
        proof {
            vstd::arithmetic::power2::lemma2_to64();
            vstd::arithmetic::power2::lemma2_to64_rest();
            lemma_bit_len_bound(x as nat, 41);
        }
        while t > 0
            invariant
                bit_len(x as nat) == len + bit_len(t as nat),
                bit_len(x as nat) <= 41,
                t <= x,
            decreases t,
        {
            t = t / 2;
            len = len + 1;
        }
        let ghost start = self.bits@;
        let mut z: u32 = 0;
        while z + 1 < len
            invariant
                len == bit_len(x as nat),
                len >= 1,
                z <= len - 1,
                self.bits@ == start + zeros(z as nat),
            decreases len - z,
        {
            self.bits.push(false);
            z = z + 1;
            proof {
                assert(zeros(z as nat) =~= zeros((z - 1) as nat).push(false));
            }
        }
        self.write_bits(x, len);
        proof {
            assert(ue_bits(code as nat) == zeros((len - 1) as nat) + bits_of(x as nat, len as nat));
            assert(self.bits@ =~= start + ue_bits(code as nat));
        }
    }

    /// Append `ue(v)`.
    pub fn write_ue(&mut self, v: u32)
        ensures
            final(self)@ == old(self)@ + ue_bits(v as nat),
    {
        self.write_code(v as u64);
    }

    /// Append `se(v)`.
    pub fn write_se(&mut self, v: i32)
        ensures
            final(self)@ == old(self)@ + se_bits(v as int),
    {
        let vv: i64 = v as i64;
        let code: u64 = if vv > 0 {
            (2 * vv - 1) as u64
        } else {
            (0 - 2 * vv) as u64
        };
        assert(code as nat == se_code(v as int));
        self.write_code(code);
    }

    /// Append zero bits up to the next byte boundary.
    pub fn align_zero(&mut self)
        ensures
            final(self)@ == align(old(self)@),
    {
        let ghost start = self.bits@;
        while self.bits.len() % 8 != 0
            invariant
                start.len() <= self.bits@.len() <= start.len() + pad_len(start.len()),
                self.bits@ == start + zeros((self.bits@.len() - start.len()) as nat),
                self.bits@.len() % 8 != 0 ==> self.bits@.len() < start.len() + pad_len(
                    start.len(),
                ),
            decreases start.len() + pad_len(start.len()) - self.bits@.len(),
        {
            let ghost before = self.bits@;
            self.bits.push(false);
            proof {
                assert(zeros((self.bits@.len() - start.len()) as nat) =~= zeros(
                    (before.len() - start.len()) as nat,
                ).push(false));
            }
        }
        proof {
            assert(self.bits@.len() == start.len() + pad_len(start.len()));
        }
    }

    /// Pad with zero bits to a byte boundary and return the bytes.
    pub fn finish(self) -> (out: Vec<u8>)
        ensures
            out@ == packed(self@),
    {
        let mut w = self;
        w.align_zero();
        let bits = w.bits;
        let total = bits.len();
        let nbytes = total / 8;
        let mut out: Vec<u8> = Vec::new();
        let mut i: usize = 0;
        while i < nbytes
            invariant
                total == bits@.len(),
                nbytes == bits@.len() / 8,
                bits@.len() % 8 == 0,
                i <= nbytes,
                out@.len() == i,
                forall|j: int| 0 <= j < i ==> out@[j] == byte_at(bits@, j),
            decreases nbytes - i,
        {
            let mut byte: u32 = 0;
            let mut k: usize = 0;
            proof {
                vstd::arithmetic::power2::lemma2_to64();
                assert(bits@.subrange(8 * i as int, 8 * i as int) =~= Seq::<bool>::empty());
            }
            while k < 8
                invariant
                    i < nbytes,
                    total == bits@.len(),
                    nbytes == bits@.len() / 8,
                    k <= 8,
                    byte == bits_value(bits@.subrange(8 * i as int, 8 * i + k as int)),
                    byte < pow2(k as nat),
                decreases 8 - k,
            {
                let ghost sub = bits@.subrange(8 * i as int, 8 * i + k + 1 as int);
                proof {
                    assert(sub.drop_last() =~= bits@.subrange(8 * i as int, 8 * i + k as int));
                    lemma_pow2_unfold((k + 1) as nat);
                    vstd::arithmetic::power2::lemma_pow2_strictly_increases(k as nat, 8);
                    vstd::arithmetic::power2::lemma2_to64();
                    assert(8 * i + k < bits@.len());
                }
                let bit: u32 = if bits[8 * i + k] {
                    1
                } else {
                    0
                };
                byte = byte * 2 + bit;
                k = k + 1;
            }
            proof {
                vstd::arithmetic::power2::lemma2_to64();
            }
            out.push(byte as u8);
            i = i + 1;
        }
        proof {
            assert(out@ =~= pack(bits@));
        }
        out
    }
}

/// Append `rbsp_trailing_bits()`: a one bit, then zeros to the byte boundary.
pub fn rbsp_trailing_bits(w: &mut BitWriter)
    ensures
        final(w)@ == with_trailing_bits(old(w)@),
{
    w.write_bit(1);
    w.align_zero();
}

/// Insert emulation-prevention bytes into an RBSP (§7.4.1), giving the EBSP
/// that follows a NAL header.
pub fn emulation_prevention(rbsp: &[u8]) -> (out: Vec<u8>)
    ensures
        out@ == escaped(rbsp@),
{
    let mut out: Vec<u8> = Vec::new();
    let mut zeros: usize = 0;
    let mut i: usize = 0;
    proof {
        assert(rbsp@.subrange(0, rbsp@.len() as int) =~= rbsp@);
        assert(out@ + escaped(rbsp@) =~= escaped(rbsp@));
    }
    while i < rbsp.len()
        invariant
            i <= rbsp@.len(),
            zeros <= i,
            escaped(rbsp@) == out@ + epb_from(rbsp@.subrange(i as int, rbsp@.len() as int), zeros as nat),
        decreases rbsp.len() - i,
    {
        let b = rbsp[i];
        let ghost z0 = zeros as nat;
        let ghost rest = rbsp@.subrange(i as int, rbsp@.len() as int);
        proof {
            assert(rest.drop_first() =~= rbsp@.subrange(i + 1, rbsp@.len() as int));
        }
        let escape = zeros >= 2 && b <= 3;
        if escape {
            out.push(3);
        }
        out.push(b);
        if b == 0 {
            zeros = if escape {
                1
            } else {
                zeros + 1
            };
        } else {
            zeros = 0;
        }
        i = i + 1;
        proof {
            let head = if escape {
                seq![3u8, b]
            } else {
                seq![b]
            };
            assert(epb_from(rest, z0) == head + epb_from(rest.drop_first(), zeros as nat));
        }
    }
    proof {
        assert(rbsp@.subrange(rbsp@.len() as int, rbsp@.len() as int) =~= Seq::<u8>::empty());
        assert(out@ =~= out@ + Seq::<u8>::empty());
    }
    out
}

} // verus!
