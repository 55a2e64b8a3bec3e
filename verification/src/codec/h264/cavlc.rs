//! CAVLC residual coding (ISO/IEC 14496-10 §9.2).
//!
//! Baseline profile's entropy coder. CAVLC switches between fixed VLC tables
//! using context both sides can derive — chiefly `nC`, the neighbouring blocks'
//! coefficient counts. Coding a block is five stages: `coeff_token`, the
//! trailing ±1 signs, the remaining levels, `total_zeros`, and the runs between
//! coefficients.
//!
//! Coefficients are handled in **reverse** scan order throughout: the highest
//! frequency first, because that is where the runs of zeros are.
//!
//! The contract of [`encode_block`] states the exact bits written for every
//! block, in terms of the positions of its non-zero coefficients.

use crate::bitstream::{
    bit_len, bits_of, bits_value, lemma_bit_len_bound, lemma_bit_len_top, lemma_bits_value_of, lemma_zero_run_at, zero_run_at,
    zeros, BitWriter,
};
use vstd::arithmetic::power2::{lemma_pow2_pos, lemma_pow2_strictly_increases, lemma_pow2_unfold, pow2};
use vstd::prelude::*;

verus! {

/// One variable-length code: `len` bits, value right-aligned in `code`.
#[derive(Clone, Copy, Debug, PartialEq, Eq, Structural)]
pub struct Vlc {
    pub len: u8,
    pub code: u32,
}

/// The bits of a code, most significant first.
pub open spec fn vlc_bits(v: Vlc) -> Seq<bool> {
    bits_of(v.code as nat, v.len as nat)
}

/// Zig-zag scan for a 4×4 block (Table 8-13): scan position → raster index.
pub const ZIGZAG4: [usize; 16] = [0, 1, 4, 8, 5, 2, 3, 6, 9, 12, 13, 10, 7, 11, 14, 15];

/// `coeff_token` code lengths for `0 <= nC < 2`, indexed
/// `[trailing_ones][total_coeff]` (Table 9-5); 0 marks an unused cell
/// (`trailing_ones > total_coeff`).
pub const CT0_LEN: [[u8; 17]; 4] = [
    [
        1, 6, 8, 9, 10, 11, 13, 13, 13, 14, 14, 15, 15, 16, 16, 16, 16,
    ],
    [
        0, 2, 6, 8, 9, 10, 11, 13, 13, 14, 14, 15, 15, 15, 16, 16, 16,
    ],
    [
        0, 0, 3, 7, 8, 9, 10, 11, 13, 13, 14, 14, 15, 15, 16, 16, 16,
    ],
    [
        0, 0, 0, 5, 6, 7, 8, 9, 10, 11, 13, 14, 14, 15, 15, 16, 16,
    ],
];

/// The code values that go with [`CT0_LEN`].
pub const CT0_CODE: [[u32; 17]; 4] = [
    [
        0b1, 0b000101, 0b00000111, 0b000000111, 0b0000000111, 0b00000000111, 0b0000000001111,
        0b0000000001011, 0b0000000001000, 0b00000000001111, 0b00000000001011, 0b000000000001111,
        0b000000000001011, 0b0000000000001111, 0b0000000000001011, 0b0000000000000111,
        0b0000000000000100,
    ],
    [
        0, 0b01, 0b000100, 0b00000110, 0b000000110, 0b0000000110, 0b00000000110,
        0b0000000001110, 0b0000000001010, 0b00000000001110, 0b00000000001010, 0b000000000001110,
        0b000000000001010, 0b000000000000001, 0b0000000000001110, 0b0000000000001010,
        0b0000000000000110,
    ],
    [
        0, 0, 0b001, 0b0000101, 0b00000101, 0b000000101, 0b0000000101, 0b00000000101,
        0b0000000001101, 0b0000000001001, 0b00000000001101, 0b00000000001001, 0b000000000001101,
        0b000000000001001, 0b0000000000001101, 0b0000000000001001, 0b0000000000000101,
    ],
    [
        0, 0, 0, 0b00011, 0b000011, 0b0000100, 0b00000100, 0b000000100, 0b0000000100,
        0b00000000100, 0b0000000001100, 0b00000000001100, 0b00000000001000, 0b000000000001100,
        0b000000000001000, 0b0000000000001100, 0b0000000000001000,
    ],
];

/// `coeff_token` code lengths for `2 <= nC < 4`, laid out as [`CT0_LEN`].
pub const CT1_LEN: [[u8; 17]; 4] = [
    [
        2, 6, 6, 7, 8, 8, 9, 11, 11, 12, 12, 12, 13, 13, 13, 14, 14,
    ],
    [
        0, 2, 5, 6, 6, 7, 8, 9, 11, 11, 12, 12, 13, 13, 14, 14, 14,
    ],
    [
        0, 0, 3, 6, 6, 7, 8, 9, 11, 11, 12, 12, 13, 13, 13, 14, 14,
    ],
    [
        0, 0, 0, 4, 4, 5, 6, 6, 7, 9, 11, 11, 12, 13, 13, 13, 14,
    ],
];

/// The code values that go with [`CT1_LEN`].
pub const CT1_CODE: [[u32; 17]; 4] = [
    [
        0b11, 0b001011, 0b000111, 0b0000111, 0b00000111, 0b00000100, 0b000000111, 0b00000001111,
        0b00000001011, 0b000000001111, 0b000000001011, 0b000000001000, 0b0000000001111,
        0b0000000001011, 0b0000000000111, 0b00000000001001, 0b00000000000111,
    ],
    [
        0, 0b10, 0b00111, 0b001010, 0b000110, 0b0000110, 0b00000110, 0b000000110, 0b00000001110,
        0b00000001010, 0b000000001110, 0b000000001010, 0b0000000001110, 0b0000000001010,
        0b00000000001011, 0b00000000001000, 0b00000000000110,
    ],
    [
        0, 0, 0b011, 0b001001, 0b000101, 0b0000101, 0b00000101, 0b000000101, 0b00000001101,
        0b00000001001, 0b000000001101, 0b000000001001, 0b0000000001101, 0b0000000001001,
        0b0000000000110, 0b00000000001010, 0b00000000000101,
    ],
    [
        0, 0, 0, 0b0101, 0b0100, 0b00110, 0b001000, 0b000100, 0b0000100, 0b000000100,
        0b00000001100, 0b00000001000, 0b000000001100, 0b0000000001100, 0b0000000001000,
        0b0000000000001, 0b00000000000100,
    ],
];

/// `coeff_token` code lengths for `4 <= nC < 8`, laid out as [`CT0_LEN`].
pub const CT2_LEN: [[u8; 17]; 4] = [
    [
        4, 6, 6, 6, 7, 7, 7, 7, 8, 8, 9, 9, 9, 10, 10, 10, 10,
    ],
    [
        0, 4, 5, 5, 5, 5, 6, 6, 7, 8, 8, 9, 9, 9, 10, 10, 10,
    ],
    [
        0, 0, 4, 5, 5, 5, 6, 6, 7, 7, 8, 8, 9, 9, 10, 10, 10,
    ],
    [
        0, 0, 0, 4, 4, 4, 4, 4, 5, 6, 7, 8, 8, 9, 10, 10, 10,
    ],
];

/// The code values that go with [`CT2_LEN`].
pub const CT2_CODE: [[u32; 17]; 4] = [
    [
        0b1111, 0b001111, 0b001011, 0b001000, 0b0001111, 0b0001011, 0b0001001, 0b0001000,
        0b00001111, 0b00001011, 0b000001111, 0b000001011, 0b000001000, 0b0000001101,
        0b0000001001, 0b0000000101, 0b0000000001,
    ],
    [
        0, 0b1110, 0b01111, 0b01100, 0b01010, 0b01000, 0b001110, 0b001010, 0b0001110,
        0b00001110, 0b00001010, 0b000001110, 0b000001010, 0b000000111, 0b0000001100,
        0b0000001000, 0b0000000100,
    ],
    [
        0, 0, 0b1101, 0b01110, 0b01011, 0b01001, 0b001101, 0b001001, 0b0001101, 0b0001010,
        0b00001101, 0b00001001, 0b000001101, 0b000001001, 0b0000001011, 0b0000000111,
        0b0000000011,
    ],
    [
        0, 0, 0, 0b1100, 0b1011, 0b1010, 0b1001, 0b1000, 0b01101, 0b001100, 0b0001100,
        0b00001100, 0b00001000, 0b000001100, 0b0000001010, 0b0000000110, 0b0000000010,
    ],
];

/// `coeff_token` code lengths for `nC == -1`, the 2×2 chroma DC block, which
/// has at most four coefficients.
pub const CT_CHROMA_DC_LEN: [[u8; 5]; 4] = [
    [
        2, 6, 6, 6, 6,
    ],
    [
        0, 1, 6, 7, 8,
    ],
    [
        0, 0, 3, 7, 8,
    ],
    [
        0, 0, 0, 6, 7,
    ],
];

/// The code values that go with [`CT_CHROMA_DC_LEN`].
pub const CT_CHROMA_DC_CODE: [[u32; 5]; 4] = [
    [
        0b01, 0b000111, 0b000100, 0b000011, 0b000010,
    ],
    [
        0, 0b1, 0b000110, 0b0000011, 0b00000011,
    ],
    [
        0, 0, 0b001, 0b0000010, 0b00000010,
    ],
    [
        0, 0, 0, 0b000101, 0b0000000,
    ],
];

/// `total_zeros` code lengths for 4×4 blocks, indexed
/// `[tz_vlc_index - 1][total_zeros]` (Tables 9-7 and 9-8); 0 marks the cells
/// past the end of a row.
pub const TOTAL_ZEROS_4X4_LEN: [[u8; 16]; 15] = [
    [
        1, 3, 3, 4, 4, 5, 5, 6, 6, 7, 7, 8, 8, 9, 9, 9,
    ],
    [
        3, 3, 3, 3, 3, 4, 4, 4, 4, 5, 5, 6, 6, 6, 6, 0,
    ],
    [
        4, 3, 3, 3, 4, 4, 3, 3, 4, 5, 5, 6, 5, 6, 0, 0,
    ],
    [
        5, 3, 4, 4, 3, 3, 3, 4, 3, 4, 5, 5, 5, 0, 0, 0,
    ],
    [
        4, 4, 4, 3, 3, 3, 3, 3, 4, 5, 4, 5, 0, 0, 0, 0,
    ],
    [
        6, 5, 3, 3, 3, 3, 3, 3, 4, 3, 6, 0, 0, 0, 0, 0,
    ],
    [
        6, 5, 3, 3, 3, 2, 3, 4, 3, 6, 0, 0, 0, 0, 0, 0,
    ],
    [
        6, 4, 5, 3, 2, 2, 3, 3, 6, 0, 0, 0, 0, 0, 0, 0,
    ],
    [
        6, 6, 4, 2, 2, 3, 2, 5, 0, 0, 0, 0, 0, 0, 0, 0,
    ],
    [
        5, 5, 3, 2, 2, 2, 4, 0, 0, 0, 0, 0, 0, 0, 0, 0,
    ],
    [
        4, 4, 3, 3, 1, 3, 0, 0, 0, 0, 0, 0, 0, 0, 0, 0,
    ],
    [
        4, 4, 2, 1, 3, 0, 0, 0, 0, 0, 0, 0, 0, 0, 0, 0,
    ],
    [
        3, 3, 1, 2, 0, 0, 0, 0, 0, 0, 0, 0, 0, 0, 0, 0,
    ],
    [
        2, 2, 1, 0, 0, 0, 0, 0, 0, 0, 0, 0, 0, 0, 0, 0,
    ],
    [
        1, 1, 0, 0, 0, 0, 0, 0, 0, 0, 0, 0, 0, 0, 0, 0,
    ],
];

/// The code values that go with [`TOTAL_ZEROS_4X4_LEN`].
pub const TOTAL_ZEROS_4X4_CODE: [[u32; 16]; 15] = [
    [
        0b1, 0b011, 0b010, 0b0011, 0b0010, 0b00011, 0b00010, 0b000011, 0b000010, 0b0000011,
        0b0000010, 0b00000011, 0b00000010, 0b000000011, 0b000000010, 0b000000001,
    ],
    [
        0b111, 0b110, 0b101, 0b100, 0b011, 0b0101, 0b0100, 0b0011, 0b0010, 0b00011, 0b00010,
        0b000011, 0b000010, 0b000001, 0b000000, 0,
    ],
    [
        0b0101, 0b111, 0b110, 0b101, 0b0100, 0b0011, 0b100, 0b011, 0b0010, 0b00011, 0b00010,
        0b000001, 0b00001, 0b000000, 0, 0,
    ],
    [
        0b00011, 0b111, 0b0101, 0b0100, 0b110, 0b101, 0b100, 0b0011, 0b011, 0b0010, 0b00010,
        0b00001, 0b00000, 0, 0, 0,
    ],
    [
        0b0101, 0b0100, 0b0011, 0b111, 0b110, 0b101, 0b100, 0b011, 0b0010, 0b00001, 0b0001,
        0b00000, 0, 0, 0, 0,
    ],
    [
        0b000001, 0b00001, 0b111, 0b110, 0b101, 0b100, 0b011, 0b010, 0b0001, 0b001, 0b000000, 0,
        0, 0, 0, 0,
    ],
    [
        0b000001, 0b00001, 0b101, 0b100, 0b011, 0b11, 0b010, 0b0001, 0b001, 0b000000, 0, 0, 0,
        0, 0, 0,
    ],
    [
        0b000001, 0b0001, 0b00001, 0b011, 0b11, 0b10, 0b010, 0b001, 0b000000, 0, 0, 0, 0, 0, 0,
        0,
    ],
    [
        0b000001, 0b000000, 0b0001, 0b11, 0b10, 0b001, 0b01, 0b00001, 0, 0, 0, 0, 0, 0, 0, 0,
    ],
    [
        0b00001, 0b00000, 0b001, 0b11, 0b10, 0b01, 0b0001, 0, 0, 0, 0, 0, 0, 0, 0, 0,
    ],
    [
        0b0000, 0b0001, 0b001, 0b010, 0b1, 0b011, 0, 0, 0, 0, 0, 0, 0, 0, 0, 0,
    ],
    [
        0b0000, 0b0001, 0b01, 0b1, 0b001, 0, 0, 0, 0, 0, 0, 0, 0, 0, 0, 0,
    ],
    [
        0b000, 0b001, 0b1, 0b01, 0, 0, 0, 0, 0, 0, 0, 0, 0, 0, 0, 0,
    ],
    [
        0b00, 0b01, 0b1, 0, 0, 0, 0, 0, 0, 0, 0, 0, 0, 0, 0, 0,
    ],
    [
        0b0, 0b1, 0, 0, 0, 0, 0, 0, 0, 0, 0, 0, 0, 0, 0, 0,
    ],
];

/// `total_zeros` code lengths for the 2×2 chroma DC block (Table 9-9a).
pub const TOTAL_ZEROS_CHROMA_DC_LEN: [[u8; 4]; 3] = [
    [
        1, 2, 3, 3,
    ],
    [
        1, 2, 2, 0,
    ],
    [
        1, 1, 0, 0,
    ],
];

/// The code values that go with [`TOTAL_ZEROS_CHROMA_DC_LEN`].
pub const TOTAL_ZEROS_CHROMA_DC_CODE: [[u32; 4]; 3] = [
    [
        0b1, 0b01, 0b001, 0b000,
    ],
    [
        0b1, 0b01, 0b00, 0,
    ],
    [
        0b1, 0b0, 0, 0,
    ],
];

/// `run_before` code lengths, indexed `[min(zeros_left, 7) - 1][run_before]`
/// (Table 9-10). The last row covers every `zeros_left > 6`.
pub const RUN_BEFORE_LEN: [[u8; 15]; 7] = [
    [
        1, 1, 0, 0, 0, 0, 0, 0, 0, 0, 0, 0, 0, 0, 0,
    ],
    [
        1, 2, 2, 0, 0, 0, 0, 0, 0, 0, 0, 0, 0, 0, 0,
    ],
    [
        2, 2, 2, 2, 0, 0, 0, 0, 0, 0, 0, 0, 0, 0, 0,
    ],
    [
        2, 2, 2, 3, 3, 0, 0, 0, 0, 0, 0, 0, 0, 0, 0,
    ],
    [
        2, 2, 3, 3, 3, 3, 0, 0, 0, 0, 0, 0, 0, 0, 0,
    ],
    [
        2, 3, 3, 3, 3, 3, 3, 0, 0, 0, 0, 0, 0, 0, 0,
    ],
    [
        3, 3, 3, 3, 3, 3, 3, 4, 5, 6, 7, 8, 9, 10, 11,
    ],
];

/// The code values that go with [`RUN_BEFORE_LEN`].
pub const RUN_BEFORE_CODE: [[u32; 15]; 7] = [
    [
        0b1, 0b0, 0, 0, 0, 0, 0, 0, 0, 0, 0, 0, 0, 0, 0,
    ],
    [
        0b1, 0b01, 0b00, 0, 0, 0, 0, 0, 0, 0, 0, 0, 0, 0, 0,
    ],
    [
        0b11, 0b10, 0b01, 0b00, 0, 0, 0, 0, 0, 0, 0, 0, 0, 0, 0,
    ],
    [
        0b11, 0b10, 0b01, 0b001, 0b000, 0, 0, 0, 0, 0, 0, 0, 0, 0, 0,
    ],
    [
        0b11, 0b10, 0b011, 0b010, 0b001, 0b000, 0, 0, 0, 0, 0, 0, 0, 0, 0,
    ],
    [
        0b11, 0b000, 0b001, 0b011, 0b010, 0b101, 0b100, 0, 0, 0, 0, 0, 0, 0, 0,
    ],
    [
        0b111, 0b110, 0b101, 0b100, 0b011, 0b010, 0b001, 0b0001, 0b00001, 0b000001, 0b0000001,
        0b00000001, 0b000000001, 0b0000000001, 0b00000000001,
    ],
];

/// Which block flavour is being coded — it selects the coefficient count and,
/// for chroma DC, an entirely different set of tables.
#[derive(Clone, Copy, Debug, PartialEq, Eq, Structural)]
pub enum BlockKind {
    /// A full 4×4 residual block (`LumaLevel4x4`).
    Luma4x4,
    /// The 2×2 chroma DC block (`ChromaDCLevel`), `nC` fixed at −1.
    ChromaDc,
    /// The 15 AC coefficients of a chroma 4×4 block (`ChromaACLevel`).
    ChromaAc,
    /// The sixteen Hadamard-transformed DCs of an `I_16x16` macroblock
    /// (`Intra16x16DCLevel`). Same tables as a luma 4×4 block.
    Luma16x16Dc,
    /// The 15 AC coefficients of one 4×4 block of an `I_16x16` macroblock
    /// (`Intra16x16ACLevel`).
    Luma16x16Ac,
}

/// Number of coefficients in a block of this kind.
pub open spec fn spec_max_coeff(kind: BlockKind) -> nat {
    match kind {
        BlockKind::Luma4x4 => 16,
        BlockKind::ChromaDc => 4,
        BlockKind::ChromaAc => 15,
        BlockKind::Luma16x16Dc => 16,
        BlockKind::Luma16x16Ac => 15,
    }
}

impl BlockKind {
    fn max_coeff(self) -> (n: usize)
        ensures
            n == spec_max_coeff(self),
    {
        match self {
            BlockKind::Luma4x4 => 16,
            BlockKind::ChromaDc => 4,
            BlockKind::ChromaAc => 15,
            BlockKind::Luma16x16Dc => 16,
            BlockKind::Luma16x16Ac => 15,
        }
    }
}

/// The `coeff_token` code for `(trailing_ones, total_coeff)` at context `nc`
/// (Table 9-5). `nC >= 8` is a 6-bit fixed-length code.
pub open spec fn spec_coeff_token(kind: BlockKind, nc: int, t1: int, total: int) -> Vlc {
    if kind == BlockKind::ChromaDc {
        Vlc { len: CT_CHROMA_DC_LEN[t1][total], code: CT_CHROMA_DC_CODE[t1][total] }
    } else if nc < 2 {
        Vlc { len: CT0_LEN[t1][total], code: CT0_CODE[t1][total] }
    } else if nc < 4 {
        Vlc { len: CT1_LEN[t1][total], code: CT1_CODE[t1][total] }
    } else if nc < 8 {
        Vlc { len: CT2_LEN[t1][total], code: CT2_CODE[t1][total] }
    } else if total == 0 {
        Vlc { len: 6, code: 3 }
    } else {
        Vlc { len: 6, code: ((total - 1) * 4 + t1) as u32 }
    }
}

fn coeff_token(kind: BlockKind, nc: i32, t1: usize, total: usize) -> (v: Vlc)
    requires
        t1 <= 3,
        total <= spec_max_coeff(kind),
    ensures
        v == spec_coeff_token(kind, nc as int, t1 as int, total as int),
{
    if kind == BlockKind::ChromaDc {
        return Vlc { len: CT_CHROMA_DC_LEN[t1][total], code: CT_CHROMA_DC_CODE[t1][total] };
    }
    if nc < 2 {
        Vlc { len: CT0_LEN[t1][total], code: CT0_CODE[t1][total] }
    } else if nc < 4 {
        Vlc { len: CT1_LEN[t1][total], code: CT1_CODE[t1][total] }
    } else if nc < 8 {
        Vlc { len: CT2_LEN[t1][total], code: CT2_CODE[t1][total] }
    } else {
        if total == 0 {
            Vlc { len: 6, code: 0b000011 }
        } else {
            let t: usize = total - 1;
            assert(((t << 2usize) | t1) == t * 4 + t1) by (bit_vector)
                requires
                    t < 16,
                    t1 <= 3,
            ;
            Vlc { len: 6, code: ((t << 2) | t1) as u32 }
        }
    }
}

/// `n` zero bits closed by a one: the unary code of `n`.
pub open spec fn unary(n: nat) -> Seq<bool> {
    zeros(n).push(true)
}

/// First level code that needs an escape at suffix length `s` (§9.2.2.1).
pub open spec fn escape_base(s: nat) -> nat {
    15 * pow2(s) + if s == 0 {
        15nat
    } else {
        0nat
    }
}

/// A level code shifted so that the escape with `level_prefix == p` covers
/// exactly `[2^(p-3), 2^(p-2))`.
pub open spec fn escape_offset(code: nat, s: nat) -> nat {
    (code + 4096 - escape_base(s)) as nat
}

/// The `level_prefix` of an escaped level code: the one whose range holds it.
pub open spec fn escape_prefix(code: nat, s: nat) -> nat {
    bit_len(escape_offset(code, s)) + 2
}

/// First level code of the escape with `level_prefix == p >= 15`.
pub open spec fn escape_lo(s: nat, p: nat) -> int {
    escape_base(s) + pow2((p - 3) as nat) - 4096
}

/// The bits of `level_code` at suffix length `s` (§9.2.2.1): a unary
/// `level_prefix`, then `level_suffix`.
pub open spec fn level_bits(code: nat, s: nat) -> Seq<bool> {
    if s == 0 && code < 14 {
        unary(code)
    } else if s == 0 && code < 30 {
        unary(14) + bits_of((code - 14) as nat, 4)
    } else if s > 0 && code / pow2(s) < 15 {
        unary(code / pow2(s)) + bits_of(code % pow2(s), s)
    } else {
        let p = escape_prefix(code, s);
        unary(p) + bits_of((code - escape_lo(s, p)) as nat, (p - 3) as nat)
    }
}

/// Whether a level code can be written at suffix length `s`: the widening
/// escape stops at `level_prefix == 27`.
pub open spec fn level_fits(code: nat, s: nat) -> bool {
    code < escape_base(s) || escape_offset(code, s) < pow2(25)
}

/// A number with exactly `k` binary digits.
proof fn lemma_bit_len_exact(x: nat, k: nat)
    requires
        k >= 1,
        pow2((k - 1) as nat) <= x < pow2(k),
    ensures
        bit_len(x) == k,
{
    lemma_pow2_pos((k - 1) as nat);
    lemma_bit_len_bound(x, k);
    lemma_bit_len_top(x);
    if bit_len(x) < k {
        if bit_len(x) < k - 1 {
            lemma_pow2_strictly_increases(bit_len(x), (k - 1) as nat);
        }
    }
}

/// The escaped prefix is the one whose range holds the code, and the suffix
/// fits in `level_prefix - 3` bits.
pub proof fn lemma_escape_range(code: nat, s: nat)
    requires
        code >= escape_base(s),
    ensures
        escape_prefix(code, s) >= 15,
        escape_lo(s, escape_prefix(code, s)) <= code,
        code - escape_lo(s, escape_prefix(code, s)) < pow2((escape_prefix(code, s) - 3) as nat),
{
    let d = escape_offset(code, s);
    let k = bit_len(d);
    vstd::arithmetic::power2::lemma2_to64();
    assert(d >= 4096);
    lemma_bit_len_top(d);
    if k < 13 {
        lemma_pow2_strictly_increases(k, 12);
    }
    lemma_pow2_unfold(k);
}

/// One level code read at suffix length `sfx` as a decoder reads it
/// (§9.2.2.1): `level_prefix` leading zeros and a one, then a
/// `level_suffix` of `levelSuffixSize` bits; `levelCode` is
/// `(Min(15, level_prefix) << sfx) + level_suffix`, plus 15 when
/// `level_prefix >= 15` and `sfx == 0`, plus `(1 << (level_prefix − 3)) − 4096`
/// when `level_prefix >= 16`. Returns the code and the position after it.
pub open spec fn read_level(s: Seq<bool>, pos: int, sfx: nat) -> (nat, int) {
    let prefix = zero_run_at(s, pos);
    let after = pos + prefix + 1;
    let size: nat = if prefix == 14 && sfx == 0 {
        4
    } else if prefix >= 15 {
        (prefix - 3) as nat
    } else {
        sfx
    };
    let suffix = bits_value(s.subrange(after, after + size));
    let base = (if prefix < 15 {
        prefix
    } else {
        15
    }) * pow2(sfx);
    let code = base + suffix + (if prefix >= 15 && sfx == 0 {
        15int
    } else {
        0int
    }) + (if prefix >= 16 {
        pow2((prefix - 3) as nat) - 4096
    } else {
        0int
    });
    (code as nat, after + size)
}

/// Reading `p` zeros and a one, then the bits `b`.
proof fn lemma_read_unary_field(pre: Seq<bool>, p: nat, b: Seq<bool>, rest: Seq<bool>)
    ensures
        zero_run_at(pre + (unary(p) + b) + rest, pre.len() as int) == p,
        (pre + (unary(p) + b) + rest).subrange(pre.len() + p + 1int, pre.len() + p + 1int + b.len()) == b,
{
    let s = pre + (unary(p) + b) + rest;
    let q = pre.len() as int;
    assert forall|i: int| q <= i < q + p implies !s[i] by {
        assert(s[i] == unary(p)[i - q]);
    }
    assert(s[q + p] == unary(p)[p as int]);
    lemma_zero_run_at(s, q, p);
    assert(s.subrange(q + p + 1, q + p + 1 + b.len()) =~= b);
}

/// The read of one level code, given how its bits split into prefix and
/// suffix: the fields the decoder sees.
proof fn lemma_level_read(pre: Seq<bool>, code: nat, sfx: nat, rest: Seq<bool>, p: nat, b: Seq<bool>)
    requires
        level_bits(code, sfx) == unary(p) + b,
    ensures
        zero_run_at(pre + level_bits(code, sfx) + rest, pre.len() as int) == p,
        (pre + level_bits(code, sfx) + rest).subrange(pre.len() + p + 1int, pre.len() + p + 1int + b.len()) == b,
        level_bits(code, sfx).len() == p + 1 + b.len(),
{
    lemma_read_unary_field(pre, p, b, rest);
}

/// A decoder reads back every level code [`write_level`] writes, wherever
/// it stands, and ends right after it.
#[verifier::spinoff_prover]
#[verifier::rlimit(40)]
pub proof fn lemma_read_level_of(pre: Seq<bool>, code: nat, sfx: nat, rest: Seq<bool>)
    requires
        sfx <= 6,
    ensures
        read_level(pre + level_bits(code, sfx) + rest, pre.len() as int, sfx) == (
            code,
            pre.len() + level_bits(code, sfx).len() as int,
        ),
{
    vstd::arithmetic::power2::lemma2_to64();
    lemma_pow2_pos(sfx);
    let q = pre.len() as int;
    if sfx == 0 && code < 14 {
        lemma_read_unary_field(pre, code, Seq::empty(), rest);
        assert(unary(code) + Seq::<bool>::empty() =~= level_bits(code, sfx));
        lemma_level_read(pre, code, sfx, rest, code, Seq::empty());
        assert(Seq::<bool>::empty().subrange(0, 0) =~= Seq::<bool>::empty());
        assert(bits_value(Seq::<bool>::empty()) == 0);
    } else if sfx == 0 && code < 30 {
        let v = (code - 14) as nat;
        lemma_bits_value_of(v, 4);
        lemma_read_unary_field(pre, 14, bits_of(v, 4), rest);
        assert(v % pow2(4) == v);
        lemma_level_read(pre, code, sfx, rest, 14, bits_of(v, 4));
    } else if sfx > 0 && code / pow2(sfx) < 15 {
        let p = code / pow2(sfx);
        let v = code % pow2(sfx);
        lemma_bits_value_of(v, sfx);
        lemma_read_unary_field(pre, p, bits_of(v, sfx), rest);
        assert(v % pow2(sfx) == v) by {
            vstd::arithmetic::div_mod::lemma_mod_twice(code as int, pow2(sfx) as int);
        }
        assert(p * pow2(sfx) + v == code) by {
            vstd::arithmetic::div_mod::lemma_fundamental_div_mod(code as int, pow2(sfx) as int);
        }
        lemma_level_read(pre, code, sfx, rest, p, bits_of(v, sfx));
    } else {
        assert(code >= escape_base(sfx)) by {
            if sfx > 0 {
                vstd::arithmetic::div_mod::lemma_fundamental_div_mod(code as int, pow2(sfx) as int);
                assert(code >= 15 * pow2(sfx)) by (nonlinear_arith)
                    requires
                        code == pow2(sfx) * (code / pow2(sfx)) + code % pow2(sfx),
                        code / pow2(sfx) >= 15,
                        code % pow2(sfx) >= 0,
                        pow2(sfx) > 0,
                ;
            }
        }
        lemma_escape_range(code, sfx);
        let p = escape_prefix(code, sfx);
        let n = (p - 3) as nat;
        let v = (code - escape_lo(sfx, p)) as nat;
        lemma_bits_value_of(v, n);
        lemma_read_unary_field(pre, p, bits_of(v, n), rest);
        lemma_pow2_pos(n);
        assert(v % pow2(n) == v) by {
            vstd::arithmetic::div_mod::lemma_small_mod(v, pow2(n));
        }
        if p == 15 {
            assert(pow2(12) == 4096);
        }
        lemma_level_read(pre, code, sfx, rest, p, bits_of(v, n));
    }
}

fn write_unary(w: &mut BitWriter, n: u32)
    ensures
        final(w)@ == old(w)@ + unary(n as nat),
{
    let ghost start = w@;
    let mut i: u32 = 0;
    while i < n
        invariant
            i <= n,
            w@ == start + zeros(i as nat),
        decreases n - i,
    {
        w.write_bit(0);
        i = i + 1;
        proof {
            assert(zeros(i as nat) =~= zeros((i - 1) as nat).push(false));
        }
    }
    w.write_bit(1);
    proof {
        assert(w@ =~= start + unary(n as nat));
    }
}

/// Write `level_code` with the prefix/suffix scheme of §9.2.2.1. Past the
/// regular prefixes, `level_prefix >= 15` carries a 12-bit suffix and each
/// prefix beyond that widens the suffix by one bit; the ranges tile without
/// gaps, so the first that contains `level_code` is its shortest encoding.
pub fn write_level(w: &mut BitWriter, level_code: u32, suffix_length: u32)
    requires
        suffix_length <= 6,
        level_fits(level_code as nat, suffix_length as nat),
    ensures
        final(w)@ == old(w)@ + level_bits(level_code as nat, suffix_length as nat),
{
    let ghost code = level_code as nat;
    let ghost s = suffix_length as nat;
    proof {
        vstd::arithmetic::power2::lemma2_to64();
        lemma_pow2_pos(s);
        vstd::arithmetic::power2::lemma_pow2_adds(s, 4);
    }
    if suffix_length == 0 {
        if level_code < 14 {
            write_unary(w, level_code);
            return;
        }
        if level_code < 30 {
            write_unary(w, 14);
            w.write_bits((level_code - 14) as u64, 4);
            return;
        }
    } else {
        let prefix = level_code >> suffix_length;
        proof {
            vstd::bits::lemma_u32_shr_is_div(level_code, suffix_length);
        }
        if prefix < 15 {
            let one: u32 = 1;
            proof {
                vstd::bits::lemma_u32_shl_is_mul(one, suffix_length);
                vstd::bits::lemma_u32_low_bits_mask_is_mod(level_code, s);
                vstd::bits::lemma_low_bits_mask_values();
                assert(vstd::bits::low_bits_mask(s) == pow2(s) - 1);
            }
            let mask: u32 = (one << suffix_length) - 1;
            write_unary(w, prefix);
            w.write_bits((level_code & mask) as u64, suffix_length);
            return;
        }
        proof {
            let q = pow2(s);
            assert(code >= 15 * q) by (nonlinear_arith)
                requires
                    q > 0,
                    code / q >= 15,
            ;
        }
    }
    proof {
        if s < 6 {
            lemma_pow2_strictly_increases(s, 6);
        }
        vstd::bits::lemma_u32_shl_is_mul(15u32, suffix_length);
    }
    let base: u32 = (15u32 << suffix_length) + if suffix_length == 0 {
        15
    } else {
        0
    };
    proof {
        assert(base == escape_base(s));
        lemma_escape_range(code, s);
    }
    let ghost p = escape_prefix(code, s);
    let ghost d = escape_offset(code, s);
    let mut prefix: u32 = 15;
    loop
        invariant
            base == escape_base(s),
            code == level_code,
            p == escape_prefix(code, s),
            d == escape_offset(code, s),
            code >= base,
            s == 0 ==> code >= 30,
            s > 0 ==> code / pow2(s) >= 15,
            d < pow2(25),
            15 <= prefix <= p,
            pow2((prefix - 3) as nat) <= d,
            w@ == old(w)@,
            s == suffix_length,
            s <= 6,
        decreases p - prefix,
    {
        let size: u32 = prefix - 3;
        proof {
            vstd::arithmetic::power2::lemma2_to64();
            vstd::arithmetic::power2::lemma2_to64_rest();
            lemma_bit_len_bound(d, 25);
            assert(p <= 27);
            vstd::bits::lemma_u32_shl_is_mul(1u32, size);
            lemma_pow2_strictly_increases(size as nat, 25);
            lemma_pow2_unfold((size + 1) as nat);
        }
        let extra: u32 = if prefix >= 16 {
            (1u32 << size) - 4096
        } else {
            0
        };
        let lo: u32 = base + extra;
        let hi: u32 = lo + (1u32 << size) - 1;
        assert(lo == escape_lo(s, prefix as nat));
        if level_code >= lo && level_code <= hi {
            proof {
                lemma_bit_len_exact(d, (prefix - 2) as nat);
            }
            write_unary(w, prefix);
            w.write_bits((level_code - lo) as u64, size);
            return;
        }
        proof {
            lemma_bit_len_top(d);
            if bit_len(d) < prefix - 1 {
                lemma_pow2_strictly_increases(bit_len(d), (prefix - 2) as nat);
            }
        }
        prefix = prefix + 1;
    }
}

/// Scan positions `>= j` that hold a non-zero coefficient, highest first.
pub open spec fn nonzero_from(c: Seq<i32>, j: int) -> Seq<int>
    decreases c.len() - j,
{
    if j < 0 || j >= c.len() {
        Seq::empty()
    } else if c[j] != 0 {
        nonzero_from(c, j + 1).push(j)
    } else {
        nonzero_from(c, j + 1)
    }
}

/// Scan positions of the non-zero coefficients, highest frequency first:
/// the order in which CAVLC codes them.
pub open spec fn nonzero_positions(c: Seq<i32>) -> Seq<int> {
    nonzero_from(c, 0)
}

/// The non-zero coefficients in coding order.
pub open spec fn coded_levels(c: Seq<i32>) -> Seq<i32> {
    let p = nonzero_positions(c);
    Seq::new(p.len(), |k: int| c[p[k]])
}

/// Whether a level is ±1.
pub open spec fn is_unit(l: i32) -> bool {
    l == 1 || l == -1
}

/// Trailing ones: how many of the first (up to three) levels in coding order
/// are ±1.
pub open spec fn trailing_ones(lv: Seq<i32>) -> nat {
    if lv.len() >= 1 && is_unit(lv[0]) {
        if lv.len() >= 2 && is_unit(lv[1]) {
            if lv.len() >= 3 && is_unit(lv[2]) {
                3
            } else {
                2
            }
        } else {
            1
        }
    } else {
        0
    }
}

/// Magnitude of a level.
pub open spec fn magnitude(l: i32) -> int {
    if l < 0 {
        -l
    } else {
        l as int
    }
}

/// `level_code` of a level (§9.2.2.1): magnitude and sign interleaved. The
/// first level after fewer than three trailing ones cannot be ±1, so its
/// alphabet starts two later.
pub open spec fn level_code(l: i32, shifted: bool) -> int {
    2 * (magnitude(l) - 1) + (if l < 0 {
        1int
    } else {
        0int
    }) - (if shifted {
        2int
    } else {
        0int
    })
}

/// `suffixLength` after coding level `l` at suffix length `s`.
pub open spec fn next_suffix(s: nat, l: i32) -> nat {
    let s1: nat = if s == 0 {
        1
    } else {
        s
    };
    if magnitude(l) > 3 * pow2((s1 - 1) as nat) && s1 < 6 {
        s1 + 1
    } else {
        s1
    }
}

/// Bits of levels `i..` in coding order, starting at suffix length `s`.
pub open spec fn levels_bits(lv: Seq<i32>, t1: nat, i: int, s: nat) -> Seq<bool>
    decreases lv.len() - i,
{
    if i < 0 || i >= lv.len() {
        Seq::empty()
    } else {
        level_bits(level_code(lv[i], i == t1 && t1 < 3) as nat, s) + levels_bits(
            lv,
            t1,
            i + 1,
            next_suffix(s, lv[i]),
        )
    }
}

/// Whether every level from `i` on has a code the escape can hold.
pub open spec fn levels_fit(lv: Seq<i32>, t1: nat, i: int, s: nat) -> bool
    decreases lv.len() - i,
{
    if i < 0 || i >= lv.len() {
        true
    } else {
        level_fits(level_code(lv[i], i == t1 && t1 < 3) as nat, s) && levels_fit(
            lv,
            t1,
            i + 1,
            next_suffix(s, lv[i]),
        )
    }
}

/// The suffix length the first non-trailing-one level starts at.
pub open spec fn initial_suffix(total: nat, t1: nat) -> nat {
    if total > 10 && t1 < 3 {
        1
    } else {
        0
    }
}

/// `total_zeros`: zero coefficients below the highest-frequency non-zero one.
pub open spec fn spec_total_zeros(p: Seq<int>) -> int {
    if p.len() == 0 {
        0
    } else {
        p[0] + 1 - p.len()
    }
}

/// The `total_zeros` code for `total` coefficients (Tables 9-7 to 9-9a).
pub open spec fn spec_total_zeros_vlc(kind: BlockKind, total: int, tz: int) -> Vlc {
    if kind == BlockKind::ChromaDc {
        Vlc {
            len: TOTAL_ZEROS_CHROMA_DC_LEN[total - 1][tz],
            code: TOTAL_ZEROS_CHROMA_DC_CODE[total - 1][tz],
        }
    } else {
        Vlc { len: TOTAL_ZEROS_4X4_LEN[total - 1][tz], code: TOTAL_ZEROS_4X4_CODE[total - 1][tz] }
    }
}

/// Zeros between the `k`-th and `(k+1)`-th coded coefficients.
pub open spec fn run_at(p: Seq<int>, k: int) -> int {
    p[k] - p[k + 1] - 1
}

/// `zerosLeft` when the `k`-th coded coefficient's run is coded: zeros below it.
pub open spec fn zeros_left_at(p: Seq<int>, k: int) -> int {
    p[k] - (p.len() - 1 - k)
}

/// The `run_before` code for `zeros_left` and a run (Table 9-10).
pub open spec fn spec_run_before_vlc(zl: int, run: int) -> Vlc {
    let row = if zl < 7 {
        zl - 1
    } else {
        6
    };
    Vlc { len: RUN_BEFORE_LEN[row][run], code: RUN_BEFORE_CODE[row][run] }
}

/// The `run_before` codes from the `k`-th coded coefficient on; they stop
/// once no zeros are left, and the lowest coefficient's run is implied.
pub open spec fn runs_bits(p: Seq<int>, k: int) -> Seq<bool>
    decreases p.len() - k,
{
    if k < 0 || k + 1 >= p.len() || zeros_left_at(p, k) <= 0 {
        Seq::empty()
    } else {
        vlc_bits(spec_run_before_vlc(zeros_left_at(p, k), run_at(p, k))) + runs_bits(p, k + 1)
    }
}

/// Everything after `coeff_token` in a non-empty block: the trailing-one
/// signs, the remaining levels, `total_zeros` (unless the block is full) and
/// the runs.
pub open spec fn block_body_bits(c: Seq<i32>, kind: BlockKind) -> Seq<bool> {
    let p = nonzero_positions(c);
    let lv = coded_levels(c);
    let total = lv.len();
    let t1 = trailing_ones(lv);
    let signs = Seq::new(t1, |k: int| lv[k] < 0);
    let tz = if total < spec_max_coeff(kind) {
        vlc_bits(spec_total_zeros_vlc(kind, total as int, spec_total_zeros(p)))
    } else {
        Seq::empty()
    };
    signs + levels_bits(lv, t1, t1 as int, initial_suffix(total, t1)) + tz + runs_bits(p, 0)
}

/// The complete CAVLC coding of a block (§7.3.5.3.2): `coeff_token`, then,
/// unless the block is empty, its body.
pub open spec fn block_bits(c: Seq<i32>, kind: BlockKind, nc: int) -> Seq<bool> {
    let lv = coded_levels(c);
    let t1 = trailing_ones(lv);
    vlc_bits(spec_coeff_token(kind, nc, t1 as int, lv.len() as int)) + if lv.len() == 0 {
        Seq::empty()
    } else {
        block_body_bits(c, kind)
    }
}

/// Whether every level of the block has a code the escape can hold.
pub open spec fn block_fits(c: Seq<i32>) -> bool {
    let lv = coded_levels(c);
    let t1 = trailing_ones(lv);
    levels_fit(lv, t1, t1 as int, initial_suffix(lv.len(), t1))
}

/// Shape of the non-zero positions: inside `[j, len)`, strictly decreasing,
/// leaving room below each for the ones after it, and exactly the non-zero
/// coefficients.
pub proof fn lemma_nonzero_from(c: Seq<i32>, j: int)
    requires
        0 <= j <= c.len(),
    ensures
        nonzero_from(c, j).len() <= c.len() - j,
        forall|k: int|
            0 <= k < nonzero_from(c, j).len() ==> j + (nonzero_from(c, j).len() - 1 - k)
                <= #[trigger] nonzero_from(c, j)[k] < c.len(),
        forall|a: int, b: int|
            0 <= a < b < nonzero_from(c, j).len() ==> nonzero_from(c, j)[a] > nonzero_from(
                c,
                j,
            )[b],
        forall|k: int| 0 <= k < nonzero_from(c, j).len() ==> c[#[trigger] nonzero_from(c, j)[k]] != 0,
    decreases c.len() - j,
{
    if j < c.len() {
        lemma_nonzero_from(c, j + 1);
    }
}

/// Split a block, walked from the highest frequency down, into its levels,
/// the runs of zeros between them, and the run below the lowest one.
fn scan_block(coeff: &[i32]) -> (res: (Vec<i32>, Vec<usize>, usize))
    ensures
        res.0@ == coded_levels(coeff@),
        res.1@.len() == (if nonzero_positions(coeff@).len() > 0 {
            nonzero_positions(coeff@).len() - 1
        } else {
            0
        }),
        forall|k: int| 0 <= k < res.1@.len() ==> res.1@[k] == run_at(nonzero_positions(coeff@), k),
        res.2 == (if nonzero_positions(coeff@).len() > 0 {
            nonzero_positions(coeff@).last()
        } else {
            0
        }),
{
    let ghost c = coeff@;
    let n = coeff.len();
    let mut levels: Vec<i32> = Vec::new();
    let mut runs: Vec<usize> = Vec::new();
    let mut run: usize = 0;
    let mut started = false;
    let mut j: usize = n;
    while j > 0
        invariant
            j <= n == c.len(),
            c == coeff@,
            levels@ =~= Seq::new(nonzero_from(c, j as int).len(), |k: int| c[nonzero_from(c, j as int)[k]]),
            runs@.len() == (if nonzero_from(c, j as int).len() > 0 {
                nonzero_from(c, j as int).len() - 1
            } else {
                0
            }),
            forall|k: int| 0 <= k < runs@.len() ==> runs@[k] == run_at(nonzero_from(c, j as int), k),
            started == (nonzero_from(c, j as int).len() > 0),
            started ==> run == nonzero_from(c, j as int).last() - j,
            !started ==> run == 0,
        decreases j,
    {
        let ghost before = nonzero_from(c, j as int);
        proof {
            lemma_nonzero_from(c, j as int);
        }
        j = j - 1;
        let x = coeff[j];
        if x == 0 {
            if started {
                run = run + 1;
            }
        } else {
            if started {
                runs.push(run);
            }
            levels.push(x);
            started = true;
            run = 0;
        }
        proof {
            let now = nonzero_from(c, j as int);
            if x != 0 {
                assert(now == before.push(j as int));
                assert forall|k: int| 0 <= k < runs@.len() implies runs@[k] == run_at(now, k) by {
                    if k + 1 < before.len() {
                        assert(run_at(now, k) == run_at(before, k));
                    }
                }
            } else {
                assert(now == before);
            }
        }
    }
    proof {
        assert(nonzero_positions(c) == nonzero_from(c, 0));
    }
    (levels, runs, run)
}

/// Write levels `t1..` in coding order, adapting the suffix length as §9.2.2
/// prescribes.
fn write_levels(w: &mut BitWriter, levels: &Vec<i32>, t1: usize, s0: u32)
    requires
        t1 <= levels@.len(),
        s0 <= 1,
        levels_fit(levels@, t1 as nat, t1 as int, s0 as nat),
        t1 < 3 && t1 < levels@.len() ==> !is_unit(levels@[t1 as int]),
        forall|k: int| 0 <= k < levels@.len() ==> levels@[k] != 0,
    ensures
        final(w)@ == old(w)@ + levels_bits(levels@, t1 as nat, t1 as int, s0 as nat),
{
    let ghost lv = levels@;
    let ghost start = w@;
    let mut suffix_length: u32 = s0;
    let mut i: usize = t1;
    while i < levels.len()
        invariant
            lv == levels@,
            t1 <= i <= lv.len(),
            suffix_length <= 6,
            i > t1 ==> suffix_length >= 1,
            t1 < 3 && t1 < lv.len() ==> !is_unit(lv[t1 as int]),
            forall|k: int| 0 <= k < lv.len() ==> lv[k] != 0,
            levels_fit(lv, t1 as nat, i as int, suffix_length as nat),
            w@ + levels_bits(lv, t1 as nat, i as int, suffix_length as nat) == start + levels_bits(
                lv,
                t1 as nat,
                t1 as int,
                s0 as nat,
            ),
        decreases lv.len() - i,
    {
        let l = levels[i];
        let mag: u32 = if l < 0 {
            (0i64 - l as i64) as u32
        } else {
            l as u32
        };
        assert(mag == magnitude(l));
        let sign: u32 = if l < 0 {
            1
        } else {
            0
        };
        let mut code: u32 = 2 * (mag - 1) + sign;
        if i == t1 && t1 < 3 {
            code = code - 2;
        }
        assert(code == level_code(l, i == t1 && t1 < 3));
        let ghost before = w@;
        write_level(w, code, suffix_length);
        let ghost s_old = suffix_length as nat;
        if suffix_length == 0 {
            suffix_length = 1;
        }
        proof {
            vstd::arithmetic::power2::lemma2_to64();
            if suffix_length < 6 {
                lemma_pow2_strictly_increases((suffix_length - 1) as nat, 5);
            }
            vstd::bits::lemma_u32_shl_is_mul(3u32, (suffix_length - 1) as u32);
        }
        if mag > (3 << (suffix_length - 1)) && suffix_length < 6 {
            suffix_length = suffix_length + 1;
        }
        i = i + 1;
        proof {
            assert(suffix_length == next_suffix(s_old, l));
            let lb = level_bits(level_code(l, (i - 1) as int == t1 && t1 < 3) as nat, s_old);
            assert(levels_bits(lv, t1 as nat, (i - 1) as int, s_old) == lb + levels_bits(
                lv,
                t1 as nat,
                i as int,
                suffix_length as nat,
            ));
            assert(w@ == before + lb);
            assert(w@ + levels_bits(lv, t1 as nat, i as int, suffix_length as nat) =~= before
                + levels_bits(lv, t1 as nat, (i - 1) as int, s_old));
        }
    }
    proof {
        assert(levels_bits(lv, t1 as nat, i as int, suffix_length as nat) =~= Seq::<bool>::empty());
        assert(w@ =~= w@ + Seq::<bool>::empty());
    }
}

/// Write `run_before` for each coded coefficient but the lowest, while zeros
/// are left.
fn write_runs(w: &mut BitWriter, runs: &Vec<usize>, total_zeros: usize, Ghost(p): Ghost<Seq<int>>)
    requires
        p.len() >= 1,
        p.len() <= 16,
        runs@.len() == p.len() - 1,
        forall|k: int| 0 <= k < runs@.len() ==> #[trigger] runs@[k] == run_at(p, k),
        total_zeros == zeros_left_at(p, 0),
        forall|k: int| 0 <= k < p.len() ==> p.len() - 1 - k <= #[trigger] p[k] < 16,
        forall|a: int, b: int| 0 <= a < b < p.len() ==> p[a] > p[b],
    ensures
        final(w)@ == old(w)@ + runs_bits(p, 0),
{
    let ghost start = w@;
    let mut zeros_left: usize = total_zeros;
    let mut k: usize = 0;
    while k < runs.len() && zeros_left > 0
        invariant
            runs@.len() == p.len() - 1,
            p.len() <= 16,
            forall|m: int| 0 <= m < runs@.len() ==> #[trigger] runs@[m] == run_at(p, m),
            forall|m: int| 0 <= m < p.len() ==> p.len() - 1 - m <= #[trigger] p[m] < 16,
            forall|a: int, b: int| 0 <= a < b < p.len() ==> p[a] > p[b],
            k <= runs@.len(),
            zeros_left == zeros_left_at(p, k as int),
            w@ + runs_bits(p, k as int) == start + runs_bits(p, 0),
        decreases runs@.len() - k,
    {
        let row: usize = if zeros_left < 7 {
            zeros_left - 1
        } else {
            6
        };
        let r = runs[k];
        proof {
            assert(p[k as int] > p[k + 1]);
            assert(p[k + 1] >= p.len() - 2 - k);
        }
        let ghost before = w@;
        w.write_bits(RUN_BEFORE_CODE[row][r] as u64, RUN_BEFORE_LEN[row][r] as u32);
        zeros_left = zeros_left - r;
        k = k + 1;
        proof {
            let v = spec_run_before_vlc(zeros_left_at(p, (k - 1) as int), run_at(p, (k - 1) as int));
            assert(runs_bits(p, (k - 1) as int) == vlc_bits(v) + runs_bits(p, k as int));
            assert(w@ + runs_bits(p, k as int) =~= before + runs_bits(p, (k - 1) as int));
        }
    }
    proof {
        assert(runs_bits(p, k as int) =~= Seq::<bool>::empty());
        assert(w@ =~= w@ + Seq::<bool>::empty());
    }
}

/// Sum of the runs between coded coefficients.
fn sum_runs(runs: &Vec<usize>, Ghost(p): Ghost<Seq<int>>) -> (sum: usize)
    requires
        p.len() >= 1,
        runs@.len() == p.len() - 1,
        forall|i: int| 0 <= i < runs@.len() ==> #[trigger] runs@[i] == run_at(p, i),
        forall|i: int| 0 <= i < p.len() ==> p.len() - 1 - i <= #[trigger] p[i] < 16,
        forall|a: int, b: int| 0 <= a < b < p.len() ==> p[a] > p[b],
    ensures
        sum == p[0] - p.last() - (p.len() - 1),
{
    let mut sum: usize = 0;
    let mut m: usize = 0;
    while m < runs.len()
        invariant
            runs@.len() == p.len() - 1,
            forall|i: int| 0 <= i < runs@.len() ==> #[trigger] runs@[i] == run_at(p, i),
            forall|i: int| 0 <= i < p.len() ==> p.len() - 1 - i <= #[trigger] p[i] < 16,
            forall|a: int, b: int| 0 <= a < b < p.len() ==> p[a] > p[b],
            m <= runs@.len(),
            sum == p[0] - p[m as int] - m,
        decreases runs@.len() - m,
    {
        let r = runs[m];
        assert(r == p[m as int] - p[m + 1] - 1);
        sum = sum + r;
        m = m + 1;
    }
    sum
}

/// Write the body of a non-empty block whose levels, runs and trailing ones
/// have been worked out.
fn write_body(
    w: &mut BitWriter,
    levels: &Vec<i32>,
    runs: &Vec<usize>,
    trailing_run: usize,
    t1: usize,
    kind: BlockKind,
    Ghost(c): Ghost<Seq<i32>>,
)
    requires
        c.len() == spec_max_coeff(kind),
        levels@ == coded_levels(c),
        levels@.len() > 0,
        t1 == trailing_ones(levels@),
        block_fits(c),
        runs@.len() == nonzero_positions(c).len() - 1,
        forall|k: int|
            0 <= k < runs@.len() ==> #[trigger] runs@[k] == run_at(nonzero_positions(c), k),
        trailing_run == nonzero_positions(c).last(),
    ensures
        final(w)@ == old(w)@ + block_body_bits(c, kind),
{
    let ghost p = nonzero_positions(c);
    let ghost lv = levels@;
    let ghost start = w@;
    let total = levels.len();
    proof {
        lemma_nonzero_from(c, 0);
        assert forall|k: int| 0 <= k < lv.len() implies lv[k] != 0 by {
            assert(lv[k] == c[p[k]]);
        }
    }

    // Signs of the trailing ones, same order.
    let mut k: usize = 0;
    while k < t1
        invariant
            levels@ == lv,
            t1 <= 3,
            t1 <= lv.len(),
            k <= t1,
            w@ == start + Seq::new(k as nat, |m: int| lv[m] < 0),
        decreases t1 - k,
    {
        let bit: u32 = if levels[k] < 0 {
            1
        } else {
            0
        };
        w.write_bit(bit);
        k = k + 1;
        proof {
            assert(Seq::new(k as nat, |m: int| lv[m] < 0) =~= Seq::new(
                (k - 1) as nat,
                |m: int| lv[m] < 0,
            ).push(lv[k - 1] < 0));
        }
    }
    let ghost after_signs = w@;

    // Remaining levels.
    let s0: u32 = if total > 10 && t1 < 3 {
        1
    } else {
        0
    };
    write_levels(w, levels, t1, s0);
    let ghost after_levels = w@;

    // total_zeros, then the run before each coefficient.
    let sum = sum_runs(runs, Ghost(p));
    let total_zeros: usize = sum + trailing_run;
    assert(total_zeros == spec_total_zeros(p));
    if total < kind.max_coeff() {
        let tz = if kind == BlockKind::ChromaDc {
            Vlc {
                len: TOTAL_ZEROS_CHROMA_DC_LEN[total - 1][total_zeros],
                code: TOTAL_ZEROS_CHROMA_DC_CODE[total - 1][total_zeros],
            }
        } else {
            Vlc {
                len: TOTAL_ZEROS_4X4_LEN[total - 1][total_zeros],
                code: TOTAL_ZEROS_4X4_CODE[total - 1][total_zeros],
            }
        };
        w.write_bits(tz.code as u64, tz.len as u32);
    }
    let ghost after_tz = w@;
    write_runs(w, runs, total_zeros, Ghost(p));
    proof {
        assert(w@ =~= start + block_body_bits(c, kind));
    }
}

/// Code one residual block (§9.2). `coeff` is in **scan order** with the
/// block's coefficient count; `nc` is the neighbour-derived context (ignored
/// for chroma DC). Returns the number of non-zero coefficients, which is what
/// neighbouring blocks need for their own `nC`.
pub fn encode_block(w: &mut BitWriter, coeff: &[i32], kind: BlockKind, nc: i32) -> (n: usize)
    requires
        coeff@.len() == spec_max_coeff(kind),
        block_fits(coeff@),
    ensures
        n == nonzero_positions(coeff@).len(),
        final(w)@ == old(w)@ + block_bits(coeff@, kind, nc as int),
{
    let ghost c = coeff@;
    let ghost lv = coded_levels(c);
    let ghost start = w@;
    let (levels, runs, trailing_run) = scan_block(coeff);
    let total = levels.len();

    // Trailing ones: up to three ±1s at the high-frequency end.
    let lim: usize = if total < 3 {
        total
    } else {
        3
    };
    let mut t1: usize = 0;
    while t1 < lim && (levels[t1] == 1 || levels[t1] == -1)
        invariant
            levels@ == lv,
            lim <= 3,
            lim <= lv.len(),
            lim == lv.len() || lim == 3,
            t1 <= lim,
            forall|k: int| 0 <= k < t1 ==> is_unit(lv[k]),
        decreases lim - t1,
    {
        t1 = t1 + 1;
    }
    assert(t1 == trailing_ones(lv));
    proof {
        lemma_nonzero_from(c, 0);
    }
    let tok = coeff_token(kind, nc, t1, total);
    w.write_bits(tok.code as u64, tok.len as u32);
    if total == 0 {
        proof {
            assert(w@ =~= start + block_bits(c, kind, nc as int));
        }
        return 0;
    }
    let ghost after_token = w@;
    write_body(w, &levels, &runs, trailing_run, t1, kind, Ghost(c));
    proof {
        assert(w@ =~= start + block_bits(c, kind, nc as int));
    }
    total
}

/// `nC` for a luma or chroma AC block from its neighbours' coefficient counts
/// (§9.2.1). `None` means that neighbour is outside the picture or slice.
pub fn derive_nc(left: Option<usize>, above: Option<usize>) -> (nc: i32)
    requires
        (match (left, above) {
            (Some(a), Some(b)) => a + b + 1 <= usize::MAX,
            _ => true,
        }),
    ensures
        nc == (match (left, above) {
            (Some(a), Some(b)) => ((a + b + 1) / 2) as i32,
            (Some(a), None) => a as i32,
            (None, Some(b)) => b as i32,
            (None, None) => 0i32,
        }),
{
    match (left, above) {
        (Some(a), Some(b)) => ((a + b + 1) / 2) as i32,
        (Some(a), None) => a as i32,
        (None, Some(b)) => b as i32,
        (None, None) => 0,
    }
}

/// No scan position of an all-zero run of coefficients holds a level.
proof fn lemma_nonzero_from_zeros(c: Seq<i32>, j: int)
    requires
        forall|k: int| 0 <= k < c.len() ==> c[k] == 0,
    ensures
        nonzero_from(c, j).len() == 0,
    decreases c.len() - j,
{
    if 0 <= j < c.len() {
        lemma_nonzero_from_zeros(c, j + 1);
    }
}

/// An all-zero block has no levels to code: `encode_block` counts none, and
/// what it writes is the `coeff_token` for no coefficients alone; for a
/// luma block with `nC < 2` that is the single bit `1`.
pub proof fn lemma_zero_block_is_one_token(c: Seq<i32>, kind: BlockKind, nc: int)
    requires
        forall|k: int| 0 <= k < c.len() ==> c[k] == 0,
    ensures
        nonzero_positions(c).len() == 0,
        block_bits(c, kind, nc) == vlc_bits(spec_coeff_token(kind, nc, 0, 0)),
        (kind == BlockKind::Luma4x4 || kind == BlockKind::Luma16x16Dc || kind == BlockKind::Luma16x16Ac) && nc < 2
            ==> block_bits(c, kind, nc) == seq![true],
{
    lemma_nonzero_from_zeros(c, 0);
    assert(coded_levels(c) =~= Seq::<i32>::empty());
    assert(trailing_ones(coded_levels(c)) == 0);
    assert(bits_of(0, 0) =~= Seq::<bool>::empty());
    assert(bits_of(1, 1) =~= seq![true]);
    assert(block_bits(c, kind, nc) =~= vlc_bits(spec_coeff_token(kind, nc, 0, 0)));
}

/// The `coeff_token` code comes from the Table 9-5 column `nC` selects:
/// `nC < 2`, `2 <= nC < 4`, `4 <= nC < 8`, or the 6-bit fixed-length code
/// for `8 <= nC`; each boundary 2, 4, 8 belongs to the higher column. At
/// `nC = 4` one trailing one alone is `1110`; at `nC = 3` it is `10`.
pub proof fn lemma_coeff_token_column(kind: BlockKind, nc: int, t1: int, total: int)
    requires
        kind != BlockKind::ChromaDc,
        0 <= t1 < 4,
        0 <= total <= 16,
    ensures
        nc < 2 ==> spec_coeff_token(kind, nc, t1, total).len == CT0_LEN[t1][total]
            && spec_coeff_token(kind, nc, t1, total).code == CT0_CODE[t1][total],
        2 <= nc < 4 ==> spec_coeff_token(kind, nc, t1, total).len == CT1_LEN[t1][total]
            && spec_coeff_token(kind, nc, t1, total).code == CT1_CODE[t1][total],
        4 <= nc < 8 ==> spec_coeff_token(kind, nc, t1, total).len == CT2_LEN[t1][total]
            && spec_coeff_token(kind, nc, t1, total).code == CT2_CODE[t1][total],
        8 <= nc ==> spec_coeff_token(kind, nc, t1, total).len == 6,
        8 <= nc && total == 0 ==> spec_coeff_token(kind, nc, t1, total).code == 3,
        8 <= nc && total > 0 ==> spec_coeff_token(kind, nc, t1, total).code == (total - 1) * 4 + t1,
        spec_coeff_token(kind, 4, 1, 1).len == 4 && spec_coeff_token(kind, 4, 1, 1).code == 0b1110,
        spec_coeff_token(kind, 3, 1, 1).len == 2 && spec_coeff_token(kind, 3, 1, 1).code == 0b10,
{
}

/// A decoder gets every level back from its `level_code` (§9.2.2.1): with
/// `levelCode` the code, moved back by two for the first level after fewer
/// than three trailing ones, an even code is the positive level
/// `(levelCode + 2) / 2` and an odd one the negative level
/// `−(levelCode + 1) / 2`.
pub proof fn lemma_level_code_decodes(l: i32, shifted: bool)
    requires
        l != 0,
        shifted ==> magnitude(l) >= 2,
    ensures
        ({
            let k = level_code(l, shifted) + if shifted {
                2int
            } else {
                0int
            };
            &&& level_code(l, shifted) >= 0
            &&& l == if k % 2 == 0 {
                (k + 2) / 2
            } else {
                -((k + 1) / 2)
            }
        }),
{
}

/// `suffixLength` after a level (§9.2.2.1): a zero length becomes one, and
/// the length then grows by one, up to six, when the level's magnitude
/// passes 3, 6, 12, 24 or 48 at lengths 1 to 5.
pub proof fn lemma_next_suffix_thresholds(s: nat, l: i32)
    requires
        s <= 6,
    ensures
        ({
            let s1: nat = if s == 0 {
                1
            } else {
                s
            };
            let limit = if s1 == 1 {
                3int
            } else if s1 == 2 {
                6
            } else if s1 == 3 {
                12
            } else if s1 == 4 {
                24
            } else {
                48
            };
            next_suffix(s, l) == if s1 < 6 && magnitude(l) > limit {
                s1 + 1
            } else {
                s1
            }
        }),
{
    vstd::arithmetic::power2::lemma2_to64();
}

} // verus!
