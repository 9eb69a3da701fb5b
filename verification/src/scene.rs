//! Host-owned scene records, as the extractor reads them once per frame.
//!
//! These are plain-value mirrors of the mutable scene graph: a camera's
//! ray-tracing configuration, its transform and projection, the analytic
//! spheres, and source material descriptions. External code may mutate them
//! between frames; extraction copies them into immutable snapshots.

use vstd::prelude::*;
use crate::math::{Vec3I, SCALE};

verus! {

/// Per-camera render level: how strongly the ray-traced result overrides the
/// rasterized one. `Skip` is the default for unconfigured cameras.
#[derive(Clone, Copy, PartialEq, Eq, Structural, Debug)]
pub enum Raytracing {
    Skip,
    FallbackRaster,
    FallbackRaytraced,
    Pure,
}

impl Raytracing {
    /// The numeric code stored in the level uniform block.
    pub open spec fn spec_code(self) -> u32 {
        match self {
            Raytracing::Skip => 0,
            Raytracing::FallbackRaster => 1,
            Raytracing::FallbackRaytraced => 2,
            Raytracing::Pure => 3,
        }
    }

    /// The numeric code stored in the level uniform block.
    pub fn code(self) -> (r: u32)
        ensures
            r == self.spec_code(),
    {
        match self {
            Raytracing::Skip => 0,
            Raytracing::FallbackRaster => 1,
            Raytracing::FallbackRaytraced => 2,
            Raytracing::Pure => 3,
        }
    }
}

/// Ray-tracing configuration attached to a camera; external code may change
/// it at any time, taking effect at the next extraction.
#[derive(Clone, Copy, PartialEq, Eq, Structural, Debug)]
pub struct RaytracedCamera {
    pub level: Raytracing,
    pub sample_count: u32,
    pub bounces: u32,
}

/// A ray-traceable analytic sphere; its center comes from its transform.
#[derive(Clone, Copy, PartialEq, Eq, Structural, Debug)]
pub struct RaytracedSphere {
    pub radius: i64,
}

/// World-transform readout: translation and the camera basis directions,
/// `SCALE`-scaled.
#[derive(Clone, Copy, PartialEq, Eq, Structural, Debug)]
pub struct GlobalTransform {
    pub translation: Vec3I,
    pub forward: Vec3I,
    pub up: Vec3I,
}

/// A camera projection. Only perspective cameras are ray traced; an
/// orthographic camera is excluded from extraction for the frame.
#[derive(Clone, Copy, PartialEq, Eq, Structural, Debug)]
pub enum Projection {
    Perspective { fov: i64, aspect_ratio: i64, near: i64, far: i64 },
    Orthographic { near: i64, far: i64 },
}

/// Source material description. The base color is linear, fixed point, with
/// each channel in `[0, SCALE]`; the scalar parameters use the same scale.
#[derive(Clone, Copy, PartialEq, Eq, Structural, Debug)]
pub struct StandardMaterial {
    pub base_color: Vec3I,
    pub metallic: i64,
    pub perceptual_roughness: i64,
    pub reflectance: i64,
    pub ior: i64,
    pub specular_transmission: i64,
}

/// A color channel triple in `[0, SCALE]`.
pub open spec fn color_wf(c: Vec3I) -> bool {
    &&& 0 <= c.x <= SCALE
    &&& 0 <= c.y <= SCALE
    &&& 0 <= c.z <= SCALE
}

/// A source material within the fixed-point ranges.
pub open spec fn material_wf(m: StandardMaterial) -> bool {
    color_wf(m.base_color)
}

} // verus!
