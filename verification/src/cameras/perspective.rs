//! How a perspective camera fits its field of view and projects the scene.

use vstd::prelude::*;

verus! {

/// How FOV maps to the film back (Blender sensor fit).
#[derive(Debug, Clone, Copy, PartialEq, Eq, Structural, Default)]
pub enum SensorFit {
    #[default]
    Auto,
    Horizontal,
    Vertical,
}

/// Projection model for the camera.
#[derive(Debug, Clone, Copy, PartialEq, Eq, Structural, Default)]
pub enum ProjectionKind {
    #[default]
    Perspective,
    /// 360° × 180° equirectangular (latitude-longitude).
    Equirectangular,
    /// Fisheye with field covering up to ~180°+ (uses `fov` as max angle).
    FisheyeEquidistant,
    /// Reflective mirror-ball / angular map.
    MirrorBall,
}

} // verus!
