//! Video coding: the H.264 and HEVC syntax writers, transforms and filters.

pub mod animation;
pub mod h264;
pub mod hevc;
pub mod planes;
