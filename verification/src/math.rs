//! Fixed-point vectors and axis-aligned bounding boxes.
//!
//! All world-space quantities are integers counting fixed-point steps of
//! `1 / SCALE` world units. Coordinates and radii are bounded by `COORD_MAX`
//! and `RADIUS_MAX`, so every product formed by the intersection routines
//! fits in an `i128` without overflow.

use vstd::prelude::*;

verus! {

/// Fixed-point steps per world unit.
pub const SCALE: i64 = 1024;

/// Largest magnitude of a primitive center or camera position component.
pub const COORD_MAX: i64 = 0x100_0000;

/// Largest sphere radius.
pub const RADIUS_MAX: i64 = 0x100_0000;

/// Largest magnitude of a bounding-box corner component (a center plus a radius).
pub const BOUND_MAX: i64 = 0x200_0000;

/// Largest magnitude of a camera basis vector component (`SCALE`-scaled unit
/// vectors, with slack for non-normalized input).
pub const AXIS_MAX: i64 = 0x800;

/// Largest render-target dimension in pixels.
pub const DIM_MAX: u32 = 2048;

/// Largest magnitude of a ray direction component.
pub const DIR_MAX: i64 = 0x10_0000_0000;

/// A three-component fixed-point vector.
#[derive(Clone, Copy, PartialEq, Eq, Structural, Debug)]
pub struct Vec3I {
    pub x: i64,
    pub y: i64,
    pub z: i64,
}

/// Every component of `v` lies in `[-m, m]`.
pub open spec fn bounded(v: Vec3I, m: i64) -> bool {
    &&& -m <= v.x <= m
    &&& -m <= v.y <= m
    &&& -m <= v.z <= m
}

pub open spec fn spec_min64(a: i64, b: i64) -> i64 {
    if a <= b {
        a
    } else {
        b
    }
}

pub open spec fn spec_max64(a: i64, b: i64) -> i64 {
    if a >= b {
        a
    } else {
        b
    }
}

pub fn min64(a: i64, b: i64) -> (r: i64)
    ensures
        r == spec_min64(a, b),
{
    if a <= b {
        a
    } else {
        b
    }
}

pub fn max64(a: i64, b: i64) -> (r: i64)
    ensures
        r == spec_max64(a, b),
{
    if a >= b {
        a
    } else {
        b
    }
}

/// An axis-aligned bounding box given by its two extreme corners.
#[derive(Clone, Copy, PartialEq, Eq, Structural, Debug)]
pub struct Aabb {
    pub min: Vec3I,
    pub max: Vec3I,
}

/// A well-formed box: ordered corners within the world bounds.
pub open spec fn aabb_wf(a: Aabb) -> bool {
    &&& a.min.x <= a.max.x
    &&& a.min.y <= a.max.y
    &&& a.min.z <= a.max.z
    &&& bounded(a.min, BOUND_MAX)
    &&& bounded(a.max, BOUND_MAX)
}

/// The smallest box enclosing both `a` and `b`.
pub open spec fn aabb_union(a: Aabb, b: Aabb) -> Aabb {
    Aabb {
        min: Vec3I {
            x: spec_min64(a.min.x, b.min.x),
            y: spec_min64(a.min.y, b.min.y),
            z: spec_min64(a.min.z, b.min.z),
        },
        max: Vec3I {
            x: spec_max64(a.max.x, b.max.x),
            y: spec_max64(a.max.y, b.max.y),
            z: spec_max64(a.max.z, b.max.z),
        },
    }
}

/// `outer` contains every point of `inner`.
pub open spec fn box_contains_box(outer: Aabb, inner: Aabb) -> bool {
    &&& outer.min.x <= inner.min.x && inner.max.x <= outer.max.x
    &&& outer.min.y <= inner.min.y && inner.max.y <= outer.max.y
    &&& outer.min.z <= inner.min.z && inner.max.z <= outer.max.z
}

impl Aabb {
    /// The smallest box enclosing both `self` and `o`.
    pub fn union(&self, o: &Aabb) -> (r: Aabb)
        ensures
            r == aabb_union(*self, *o),
    {
        Aabb {
            min: Vec3I {
                x: min64(self.min.x, o.min.x),
                y: min64(self.min.y, o.min.y),
                z: min64(self.min.z, o.min.z),
            },
            max: Vec3I {
                x: max64(self.max.x, o.max.x),
                y: max64(self.max.y, o.max.y),
                z: max64(self.max.z, o.max.z),
            },
        }
    }
}

/// A union contains both of its arguments.
pub proof fn lemma_union_contains(a: Aabb, b: Aabb)
    ensures
        box_contains_box(aabb_union(a, b), a),
        box_contains_box(aabb_union(a, b), b),
{
}

/// Taking the union with one more box keeps everything already contained.
pub proof fn lemma_union_monotone(a: Aabb, b: Aabb, c: Aabb)
    requires
        box_contains_box(a, c),
    ensures
        box_contains_box(aabb_union(a, b), c),
{
}

} // verus!
