//! Core of a hybrid real-time renderer: per-frame extraction of scene state
//! into immutable snapshots, a bounding volume hierarchy rebuilt from scratch
//! every frame over the extracted primitives, full repopulation of the GPU
//! buffer families, and a per-view compositing pass that blends a ray-traced
//! result over the rasterized picture according to a per-camera render level.
//!
//! Geometry is carried in fixed-point integers (a world unit is `SCALE`
//! fixed-point steps), so that every geometric statement in the contracts is
//! exact integer arithmetic. The surrounding application converts to and from
//! whatever floating-point representation its scene authoring uses.

use vstd::prelude::*;

pub mod math;
pub mod scene;
pub mod extract;
pub mod bvh;
pub mod buffers;
pub mod trace;
pub mod pipeline;

verus! {

} // verus!
