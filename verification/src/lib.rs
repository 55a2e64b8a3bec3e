//! Video coding building blocks: Exp-Golomb bit writing, H.264 and HEVC
//! syntax, transforms, intra prediction, entropy coding and deblocking, plus
//! the integer parts of the caption toolkit.

pub mod bitstream;
pub mod cameras;
pub mod captions;
pub mod codec;
pub mod num;
