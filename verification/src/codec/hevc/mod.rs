//! HEVC / H.265: core transforms, the CABAC engine's tables and the in-loop
//! deblocking filter.

pub mod compress;
pub mod deblock;
pub mod deblock_tables;
pub mod tables;
pub mod transform;
