//! Deblocking thresholds (ISO/IEC 14496-10 Tables 8-16 and 8-17), indexed by
//! `indexA` / `indexB`, `0..=51`. Every entry below index 16 is zero: the
//! filter is off at low QP.

use vstd::prelude::*;

verus! {

/// `alpha'`: the largest step across an edge that is still treated as an
/// artefact (Table 8-16).
pub const ALPHA: [i32; 52] = [
    0, 0, 0, 0, 0, 0, 0, 0, 0, 0, 0, 0, 0, 0, 0, 0, 4, 4, 5, 6, 7, 8, 9, 10, 12, 13, 15, 17, 20,
    22, 25, 28, 32, 36, 40, 45, 50, 56, 63, 71, 80, 90, 101, 113, 127, 144, 162, 182, 203, 226,
    255, 255,
];

/// `beta'`: the largest step between neighbours on one side of an edge for
/// that side to count as flat (Table 8-16).
pub const BETA: [i32; 52] = [
    0, 0, 0, 0, 0, 0, 0, 0, 0, 0, 0, 0, 0, 0, 0, 0, 2, 2, 2, 3, 3, 3, 3, 4, 4, 4, 6, 6, 7, 7, 8, 8,
    9, 9, 10, 10, 11, 11, 12, 12, 13, 13, 14, 14, 15, 15, 16, 16, 17, 17, 18, 18,
];

/// `tC0`, indexed `[indexA][bS]` for `bS` 1 to 3 (Table 8-17); column 0 is
/// unused.
pub const TC0: [[i32; 4]; 52] = [
    [0, 0, 0, 0],
    [0, 0, 0, 0],
    [0, 0, 0, 0],
    [0, 0, 0, 0],
    [0, 0, 0, 0],
    [0, 0, 0, 0],
    [0, 0, 0, 0],
    [0, 0, 0, 0],
    [0, 0, 0, 0],
    [0, 0, 0, 0],
    [0, 0, 0, 0],
    [0, 0, 0, 0],
    [0, 0, 0, 0],
    [0, 0, 0, 0],
    [0, 0, 0, 0],
    [0, 0, 0, 0],
    [0, 0, 0, 0],
    [0, 0, 0, 1],
    [0, 0, 0, 1],
    [0, 0, 0, 1],
    [0, 0, 0, 1],
    [0, 0, 1, 1],
    [0, 0, 1, 1],
    [0, 1, 1, 1],
    [0, 1, 1, 1],
    [0, 1, 1, 1],
    [0, 1, 1, 1],
    [0, 1, 1, 2],
    [0, 1, 1, 2],
    [0, 1, 1, 2],
    [0, 1, 1, 2],
    [0, 1, 2, 3],
    [0, 1, 2, 3],
    [0, 2, 2, 3],
    [0, 2, 2, 4],
    [0, 2, 3, 4],
    [0, 2, 3, 4],
    [0, 3, 3, 5],
    [0, 3, 4, 6],
    [0, 3, 4, 6],
    [0, 4, 5, 7],
    [0, 4, 5, 8],
    [0, 4, 6, 9],
    [0, 5, 7, 10],
    [0, 6, 8, 11],
    [0, 6, 8, 13],
    [0, 7, 10, 14],
    [0, 8, 11, 16],
    [0, 9, 12, 18],
    [0, 10, 13, 20],
    [0, 11, 15, 23],
    [0, 13, 17, 25],
];

} // verus!
