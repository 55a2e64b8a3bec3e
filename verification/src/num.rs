//! Exact integer helpers shared by the transforms and filters: powers of two,
//! floor shifts of signed values, and clamping.

use vstd::arithmetic::power2::{lemma2_to64, pow2};
use vstd::prelude::*;

verus! {

/// Whether `v` is representable as an `i32`.
pub open spec fn fits_i32(v: int) -> bool {
    i32::MIN <= v <= i32::MAX
}

/// `v` limited to `[lo, hi]`.
pub open spec fn clamp(v: int, lo: int, hi: int) -> int {
    if v < lo {
        lo
    } else if v > hi {
        hi
    } else {
        v
    }
}

/// Absolute value.
pub open spec fn abs(v: int) -> int {
    if v < 0 {
        -v
    } else {
        v
    }
}

/// Sign: -1, 0 or 1.
pub open spec fn signum(v: int) -> int {
    if v < 0 {
        -1
    } else if v > 0 {
        1
    } else {
        0
    }
}

/// `2^s` as an `i32`.
pub fn pow2_i32(s: u32) -> (r: i32)
    requires
        s <= 30,
    ensures
        r as int == pow2(s as nat),
        r > 0,
{
    proof {
        lemma2_to64();
    }
    let mut r: i32 = 1;
    let mut k: u32 = 0;
    while k < s
        invariant
            k <= s <= 30,
            r as int == pow2(k as nat),
        decreases s - k,
    {
        proof {
            lemma2_to64();
            vstd::arithmetic::power2::lemma_pow2_unfold((k + 1) as nat);
            vstd::arithmetic::power2::lemma_pow2_strictly_increases((k + 1) as nat, 31);
        }
        r = r * 2;
        k = k + 1;
    }
    r
}

/// Arithmetic right shift of an `i32`: `floor(x / 2^s)`.
pub fn shr_floor(x: i32, s: u32) -> (r: i32)
    requires
        s <= 8,
    ensures
        r as int == x as int / (pow2(s as nat) as int),
{
    proof {
        lemma2_to64();
    }
    let r = x >> s;
    proof {
        if s == 0 {
            assert((x >> 0u32) as int == x as int / 1) by (bit_vector);
        } else if s == 1 {
            assert((x >> 1u32) as int == x as int / 2) by (bit_vector);
        } else if s == 2 {
            assert((x >> 2u32) as int == x as int / 4) by (bit_vector);
        } else if s == 3 {
            assert((x >> 3u32) as int == x as int / 8) by (bit_vector);
        } else if s == 4 {
            assert((x >> 4u32) as int == x as int / 16) by (bit_vector);
        } else if s == 5 {
            assert((x >> 5u32) as int == x as int / 32) by (bit_vector);
        } else if s == 6 {
            assert((x >> 6u32) as int == x as int / 64) by (bit_vector);
        } else if s == 7 {
            assert((x >> 7u32) as int == x as int / 128) by (bit_vector);
        } else {
            assert((x >> 8u32) as int == x as int / 256) by (bit_vector);
        }
    }
    r
}

/// `x >> 1` on an `i32` is `floor(x / 2)`.
pub proof fn lemma_half(x: i32)
    ensures
        (x >> 1u32) as int == x as int / 2,
{
    assert((x >> 1u32) as int == x as int / 2) by (bit_vector);
}

/// Clamp an `i32` into `[0, 255]`.
pub fn clip_u8(v: i32) -> (r: u8)
    ensures
        r as int == clamp(v as int, 0, 255),
{
    if v < 0 {
        0
    } else if v > 255 {
        255
    } else {
        v as u8
    }
}

/// Clamp an `i32` into `[lo, hi]`.
pub fn clamp_i32(v: i32, lo: i32, hi: i32) -> (r: i32)
    ensures
        r as int == clamp(v as int, lo as int, hi as int),
{
    if v < lo {
        lo
    } else if v > hi {
        hi
    } else {
        v
    }
}

} // verus!
