//! H.264 / AVC: transforms, intra prediction, CAVLC, parameter sets, NAL
//! packaging and the in-loop deblocking filter.

pub mod cabac;
pub mod cavlc;
pub mod chroma;
pub mod compress;
pub mod deblock;
pub mod deblock_tables;
pub mod encoder;
pub mod transform;
pub mod intra;
pub mod luma16;
pub mod macroblock;
pub mod nal;
pub mod params;
pub mod pps;
pub mod residual;
pub mod avcc;
pub mod candidates;
pub mod slice;
