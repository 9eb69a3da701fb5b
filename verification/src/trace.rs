//! Ray intersection against the spatial index: the host-side model of the
//! shading pass's traversal.
//!
//! A ray is a fixed-point origin and direction (not normalized). A sphere is
//! hit when some point of the ray at a non-negative parameter lies on or
//! inside it; the standard quadratic formulation makes that an exact integer
//! predicate. Hits along one ray are ordered by an integer depth key
//! proportional to the entry parameter scaled by the direction's squared
//! length, with the integer square root rounding the key down by less than
//! one step; ties fall to the lower slot.

use vstd::prelude::*;
use crate::buffers::{BVHBuffer, ModelBuffer};
use crate::bvh::{
    boxes_of, models_wf, node_box, node_box_ok, node_ok, tree_wf, BVHNode, Model, MAX_MODELS,
};
use crate::math::{bounded, box_contains_box, Aabb, Vec3I, COORD_MAX, DIR_MAX, RADIUS_MAX};

verus! {

/// A world-space ray: origin and (unnormalized) direction.
#[derive(Clone, Copy, PartialEq, Eq, Structural, Debug)]
pub struct Ray {
    pub origin: Vec3I,
    pub dir: Vec3I,
}

/// A ray the tracer accepts: bounded origin and direction.
pub open spec fn ray_wf(r: Ray) -> bool {
    &&& bounded(r.origin, COORD_MAX)
    &&& bounded(r.dir, DIR_MAX)
}

/// Dot product of the origin-to-center vector with the ray direction.
pub open spec fn smd(ray: Ray, c: Vec3I) -> int {
    (c.x - ray.origin.x) * ray.dir.x + (c.y - ray.origin.y) * ray.dir.y + (c.z - ray.origin.z)
        * ray.dir.z
}

/// Squared length of the ray direction.
pub open spec fn sdd(ray: Ray) -> int {
    ray.dir.x * ray.dir.x + ray.dir.y * ray.dir.y + ray.dir.z * ray.dir.z
}

/// Squared distance from the ray origin to the sphere center.
pub open spec fn smm(ray: Ray, c: Vec3I) -> int {
    (c.x - ray.origin.x) * (c.x - ray.origin.x) + (c.y - ray.origin.y) * (c.y - ray.origin.y) + (
    c.z - ray.origin.z) * (c.z - ray.origin.z)
}

/// The quadratic's constant term: non-positive exactly when the origin lies
/// on or inside the sphere.
pub open spec fn scc(ray: Ray, c: Vec3I, radius: i64) -> int {
    smm(ray, c) - radius * radius
}

/// The quadratic's discriminant (scaled by the direction's squared length):
/// non-negative exactly when the ray's line meets the sphere.
pub open spec fn sdisc(ray: Ray, c: Vec3I, radius: i64) -> int {
    smd(ray, c) * smd(ray, c) - sdd(ray) * scc(ray, c, radius)
}

/// The ray meets the sphere at some non-negative parameter: either its
/// origin starts inside, or the sphere lies ahead and the line reaches it.
pub open spec fn sphere_hit(ray: Ray, c: Vec3I, radius: i64) -> bool {
    ||| scc(ray, c, radius) <= 0
    ||| (smd(ray, c) > 0 && sdisc(ray, c, radius) >= 0)
}

/// `r` is the integer square root of `x`.
pub open spec fn is_isqrt(x: int, r: int) -> bool {
    &&& 0 <= r
    &&& r * r <= x
    &&& x < (r + 1) * (r + 1)
}

/// The integer square root.
pub open spec fn spec_isqrt(x: int) -> int {
    choose|r: int| is_isqrt(x, r)
}

/// The depth key of a hit along a ray: the entry parameter scaled by the
/// direction's squared length and rounded down; zero when the origin starts
/// inside the sphere.
pub open spec fn hit_key(ray: Ray, c: Vec3I, radius: i64) -> int {
    if scc(ray, c, radius) <= 0 {
        0
    } else {
        smd(ray, c) - spec_isqrt(sdisc(ray, c, radius))
    }
}

pub(crate) proof fn lemma_mul_le(a: int, b: int, aa: int, bb: int) by (nonlinear_arith)
    requires
        -aa <= a <= aa,
        -bb <= b <= bb,
        0 <= aa,
        0 <= bb,
    ensures
        -(aa * bb) <= a * b <= aa * bb,
{
}

proof fn lemma_isqrt_unique(x: int, r1: int, r2: int) by (nonlinear_arith)
    requires
        0 <= r1,
        r1 * r1 <= x,
        x < (r1 + 1) * (r1 + 1),
        0 <= r2,
        r2 * r2 <= x,
        x < (r2 + 1) * (r2 + 1),
    ensures
        r1 == r2,
{
}

/// Binary search for the integer square root.
fn isqrt128(x: i128) -> (r: i128)
    requires
        0 <= x < 0x4000_0000_0000_0000_0000_0000_0000_0000,
    ensures
        is_isqrt(x as int, r as int),
        r == spec_isqrt(x as int),
{
    let mut lo: i128 = 0;
    let mut hi: i128 = 0x8000_0000_0000_0000;
    proof {
        assert((0x8000_0000_0000_0000 as int) * (0x8000_0000_0000_0000 as int)
            == 0x4000_0000_0000_0000_0000_0000_0000_0000) by (nonlinear_arith);
    }
    while lo + 1 < hi
        invariant
            0 <= lo < hi <= 0x8000_0000_0000_0000,
            lo * lo <= x,
            x < hi * hi,
        decreases hi - lo,
    {
        let mid = lo + (hi - lo) / 2;
        proof {
            assert(lo < mid < hi);
            lemma_mul_le(mid as int, mid as int, 0x8000_0000_0000_0000, 0x8000_0000_0000_0000);
        }
        if mid * mid <= x {
            lo = mid;
        } else {
            hi = mid;
        }
    }
    proof {
        assert(hi == lo + 1);
        assert(is_isqrt(x as int, lo as int));
        let s = spec_isqrt(x as int);
        assert(is_isqrt(x as int, s));
        lemma_isqrt_unique(x as int, lo as int, s);
    }
    lo
}

/// Intersect a ray with one sphere: `None` on a miss, the depth key on a
/// hit. The key is `0` when the ray starts inside the sphere.
pub fn intersect_sphere(ray: &Ray, center: Vec3I, radius: i64) -> (res: Option<i128>)
    requires
        ray_wf(*ray),
        bounded(center, COORD_MAX),
        0 < radius <= RADIUS_MAX,
    ensures
        res is Some <==> sphere_hit(*ray, center, radius),
        match res {
            Some(k) => k == hit_key(*ray, center, radius) && 0 <= k,
            None => true,
        },
{
    let mx = center.x as i128 - ray.origin.x as i128;
    let my = center.y as i128 - ray.origin.y as i128;
    let mz = center.z as i128 - ray.origin.z as i128;
    let dx = ray.dir.x as i128;
    let dy = ray.dir.y as i128;
    let dz = ray.dir.z as i128;
    proof {
        lemma_mul_le(mx as int, dx as int, 0x2_00_0000, 0x10_0000_0000);
        lemma_mul_le(my as int, dy as int, 0x2_00_0000, 0x10_0000_0000);
        lemma_mul_le(mz as int, dz as int, 0x2_00_0000, 0x10_0000_0000);
        lemma_mul_le(dx as int, dx as int, 0x10_0000_0000, 0x10_0000_0000);
        lemma_mul_le(dy as int, dy as int, 0x10_0000_0000, 0x10_0000_0000);
        lemma_mul_le(dz as int, dz as int, 0x10_0000_0000, 0x10_0000_0000);
        lemma_mul_le(mx as int, mx as int, 0x2_00_0000, 0x2_00_0000);
        lemma_mul_le(my as int, my as int, 0x2_00_0000, 0x2_00_0000);
        lemma_mul_le(mz as int, mz as int, 0x2_00_0000, 0x2_00_0000);
    }
    let md = mx * dx + my * dy + mz * dz;
    let dd = dx * dx + dy * dy + dz * dz;
    let mm = mx * mx + my * my + mz * mz;
    proof {
        lemma_mul_le(radius as int, radius as int, 0x100_0000, 0x100_0000);
    }
    let rr = (radius as i128) * (radius as i128);
    let cc = mm - rr;
    if cc <= 0 {
        return Some(0);
    }
    proof {
        lemma_mul_le(md as int, md as int, 0x6000_0000_0000_0000, 0x6000_0000_0000_0000);
        lemma_mul_le(dd as int, cc as int, 0x300_0000_0000_0000_0000, 0x10_0000_0000_0000);
    }
    let disc = md * md - dd * cc;
    if md > 0 && disc >= 0 {
        proof {
            assert(dd as int >= 0) by (nonlinear_arith)
                requires
                    dd as int == (dx as int) * (dx as int) + (dy as int) * (dy as int) + (
                    dz as int) * (dz as int),
            ;
            assert((dd as int) * (cc as int) >= 0) by (nonlinear_arith)
                requires
                    dd as int >= 0,
                    cc as int > 0,
            ;
            assert(disc as int <= (md as int) * (md as int));
        }
        let root = isqrt128(disc);
        proof {
            assert(0 <= root as int && (root as int) * (root as int) <= disc as int);
            assert(root as int <= md as int) by (nonlinear_arith)
                requires
                    0 <= root as int,
                    (root as int) * (root as int) <= disc as int,
                    disc as int <= (md as int) * (md as int),
                    md as int > 0,
            ;
        }
        Some(md - root)
    } else {
        None
    }
}

/// The ray cannot reach the box: along some axis the box lies entirely on
/// the side the ray points away from.
pub open spec fn ray_misses_box(ray: Ray, b: Aabb) -> bool {
    ||| (ray.dir.x >= 0 && ray.origin.x > b.max.x) || (ray.dir.x <= 0 && ray.origin.x < b.min.x)
    ||| (ray.dir.y >= 0 && ray.origin.y > b.max.y) || (ray.dir.y <= 0 && ray.origin.y < b.min.y)
    ||| (ray.dir.z >= 0 && ray.origin.z > b.max.z) || (ray.dir.z <= 0 && ray.origin.z < b.min.z)
}

/// The traversal's conservative box test.
fn hits_box(ray: &Ray, nd_min: Vec3I, nd_max: Vec3I) -> (r: bool)
    ensures
        r == !ray_misses_box(*ray, Aabb { min: nd_min, max: nd_max }),
{
    let miss_x = (ray.dir.x >= 0 && ray.origin.x > nd_max.x) || (ray.dir.x <= 0 && ray.origin.x
        < nd_min.x);
    let miss_y = (ray.dir.y >= 0 && ray.origin.y > nd_max.y) || (ray.dir.y <= 0 && ray.origin.y
        < nd_min.y);
    let miss_z = (ray.dir.z >= 0 && ray.origin.z > nd_max.z) || (ray.dir.z <= 0 && ray.origin.z
        < nd_min.z);
    !(miss_x || miss_y || miss_z)
}

proof fn lemma_axis_reach(md: int, dd: int, ma: int, da: int, radius: int) by (nonlinear_arith)
    requires
        dd >= 1,
        md > 0,
        radius > 0,
        -(radius * dd) <= md * da - ma * dd <= radius * dd,
    ensures
        da >= 0 ==> ma >= -radius,
        da <= 0 ==> ma <= radius,
{
}

proof fn lemma_sq_le(a: int, s: int, bound: int) by (nonlinear_arith)
    requires
        a * a <= s,
        s <= bound * bound,
        0 <= bound,
    ensures
        -bound <= a <= bound,
{
}

/// Expansion of one rejection component's square.
proof fn lemma_expand(u: int, v: int, a: int, b: int)
    ensures
        (u * a - b * v) * (u * a - b * v) == u * u * (a * a) - 2 * ((u * v) * (a * b)) + v * v * (
        b * b),
{
    let big_a = u * a;
    let big_b = b * v;
    assert((big_a - big_b) * (big_a - big_b) == big_a * big_a - 2 * (big_a * big_b) + big_b
        * big_b) by (nonlinear_arith);
    assert(big_a * big_a == u * u * (a * a)) by (nonlinear_arith)
        requires
            big_a == u * a,
    ;
    assert(big_a * big_b == (u * v) * (a * b)) by (nonlinear_arith)
        requires
            big_a == u * a,
            big_b == b * v,
    ;
    assert(big_b * big_b == v * v * (b * b)) by (nonlinear_arith)
        requires
            big_b == b * v,
    ;
}

/// A sphere's squared-term identity: the per-axis rejection components sum
/// to the discriminant complement.
proof fn lemma_w_identity(mx: int, my: int, mz: int, dx: int, dy: int, dz: int)
    ensures
        ({
            let md = mx * dx + my * dy + mz * dz;
            let dd = dx * dx + dy * dy + dz * dz;
            let mm = mx * mx + my * my + mz * mz;
            (md * dx - mx * dd) * (md * dx - mx * dd) + (md * dy - my * dd) * (md * dy - my * dd)
                + (md * dz - mz * dd) * (md * dz - mz * dd) == dd * (dd * mm - md * md)
        }),
{
    let md = mx * dx + my * dy + mz * dz;
    let dd = dx * dx + dy * dy + dz * dz;
    let mm = mx * mx + my * my + mz * mz;
    lemma_expand(md, dd, dx, mx);
    lemma_expand(md, dd, dy, my);
    lemma_expand(md, dd, dz, mz);
    assert(md * md * (dx * dx) + md * md * (dy * dy) + md * md * (dz * dz) == md * md * dd)
        by (nonlinear_arith)
        requires
            dd == dx * dx + dy * dy + dz * dz,
    ;
    assert((md * dd) * (dx * mx) + (md * dd) * (dy * my) + (md * dd) * (dz * mz) == (md * dd)
        * md) by (nonlinear_arith)
        requires
            md == mx * dx + my * dy + mz * dz,
    ;
    assert(dd * dd * (mx * mx) + dd * dd * (my * my) + dd * dd * (mz * mz) == dd * dd * mm)
        by (nonlinear_arith)
        requires
            mm == mx * mx + my * my + mz * mz,
    ;
    assert(md * md * dd - 2 * ((md * dd) * md) + dd * dd * mm == dd * (dd * mm - md * md))
        by (nonlinear_arith);
}

/// A hit sphere inside a box keeps the ray from missing the box: the box
/// test never prunes away a subtree that holds a hit.
proof fn lemma_hit_not_missed(ray: Ray, m: Model, b: Aabb)
    requires
        ray_wf(ray),
        m.wf(),
        sphere_hit(ray, m.position, m.radius),
        box_contains_box(b, m.spec_aabb()),
    ensures
        !ray_misses_box(ray, b),
{
    let c = m.position;
    let radius = m.radius as int;
    let mx = c.x - ray.origin.x;
    let my = c.y - ray.origin.y;
    let mz = c.z - ray.origin.z;
    let dx = ray.dir.x as int;
    let dy = ray.dir.y as int;
    let dz = ray.dir.z as int;
    let md = smd(ray, c);
    let dd = sdd(ray);
    let mm = smm(ray, c);
    if scc(ray, c, m.radius) <= 0 {
        // The origin lies inside the sphere, hence inside the box.
        assert(0 <= mx * mx && 0 <= my * my && 0 <= mz * mz) by (nonlinear_arith);
        assert(mx * mx <= radius * radius && my * my <= radius * radius && mz * mz <= radius
            * radius) by (nonlinear_arith)
            requires
                mx * mx + my * my + mz * mz <= radius * radius,
                0 <= mx * mx,
                0 <= my * my,
                0 <= mz * mz,
        ;
        lemma_sq_le(mx, radius * radius, radius);
        lemma_sq_le(my, radius * radius, radius);
        lemma_sq_le(mz, radius * radius, radius);
    } else {
        // The sphere lies ahead; the closest-approach point is inside the
        // sphere, so along every axis the box straddles the ray's reach.
        assert(md > 0 && sdisc(ray, c, m.radius) >= 0);
        assert(dd >= 1) by (nonlinear_arith)
            requires
                md == mx * dx + my * dy + mz * dz,
                dd == dx * dx + dy * dy + dz * dz,
                md > 0,
        ;
        lemma_w_identity(mx, my, mz, dx, dy, dz);
        assert(dd * (dd * mm - md * md) <= (radius * dd) * (radius * dd)) by (nonlinear_arith)
            requires
                md * md - dd * (mm - radius * radius) >= 0,
                dd >= 1,
        ;
        let wx = md * dx - mx * dd;
        let wy = md * dy - my * dd;
        let wz = md * dz - mz * dd;
        assert(0 <= wx * wx && 0 <= wy * wy && 0 <= wz * wz) by (nonlinear_arith);
        assert(radius * dd >= 0) by (nonlinear_arith)
            requires
                radius > 0,
                dd >= 1,
        ;
        lemma_sq_le(wx, (radius * dd) * (radius * dd), radius * dd);
        lemma_sq_le(wy, (radius * dd) * (radius * dd), radius * dd);
        lemma_sq_le(wz, (radius * dd) * (radius * dd), radius * dd);
        lemma_axis_reach(md, dd, mx, dx, radius);
        lemma_axis_reach(md, dd, my, dy, radius);
        lemma_axis_reach(md, dd, mz, dz, radius);
    }
}

/// Traverse the subtree rooted at node `j`, returning the nearest hit among
/// the slots the subtree covers: the hit with the least depth key, ties
/// resolved to the lowest slot.
fn trace_node(
    nodes: &Vec<BVHNode>,
    models: &Vec<Model>,
    ray: &Ray,
    j: usize,
    Ghost(ranges): Ghost<Seq<(int, int)>>,
) -> (res: Option<(usize, i128)>)
    requires
        models_wf(models@),
        ray_wf(*ray),
        0 < models@.len() <= MAX_MODELS,
        ranges.len() == nodes@.len(),
        j < nodes@.len(),
        forall|jj: int|
            0 <= jj < nodes@.len() ==> #[trigger] node_ok(
                nodes@,
                ranges,
                models@.len() as int,
                jj,
            ),
        forall|jj: int|
            0 <= jj < nodes@.len() ==> #[trigger] node_box_ok(
                nodes@,
                ranges,
                boxes_of(models@),
                jj,
            ),
    ensures
        match res {
            Some(hit) => {
                &&& ranges[j as int].0 <= hit.0 < ranges[j as int].1
                &&& sphere_hit(*ray, models@[hit.0 as int].position, models@[hit.0 as int].radius)
                &&& hit.1 == hit_key(
                    *ray,
                    models@[hit.0 as int].position,
                    models@[hit.0 as int].radius,
                )
                &&& forall|p: int|
                    ranges[j as int].0 <= p < ranges[j as int].1 && sphere_hit(
                        *ray,
                        (#[trigger] models@[p]).position,
                        models@[p].radius,
                    ) ==> hit.1 <= hit_key(*ray, models@[p].position, models@[p].radius)
                &&& forall|p: int|
                    ranges[j as int].0 <= p < hit.0 && sphere_hit(
                        *ray,
                        (#[trigger] models@[p]).position,
                        models@[p].radius,
                    ) ==> hit.1 < hit_key(*ray, models@[p].position, models@[p].radius)
            },
            None => forall|p: int|
                ranges[j as int].0 <= p < ranges[j as int].1 ==> !sphere_hit(
                    *ray,
                    (#[trigger] models@[p]).position,
                    models@[p].radius,
                ),
        },
    decreases nodes@.len() - j,
{
    let nd = nodes[j];
    proof {
        assert(node_ok(nodes@, ranges, models@.len() as int, j as int));
    }
    if nd.model_count > 0 {
        let lo = nd.index as usize;
        let hi = lo + nd.model_count as usize;
        proof {
            assert(lo as int == ranges[j as int].0);
            assert(hi as int == ranges[j as int].1);
        }
        let mut best: Option<(usize, i128)> = None;
        let mut p: usize = lo;
        while p < hi
            invariant
                models_wf(models@),
                ray_wf(*ray),
                lo <= p <= hi <= models@.len(),
                match best {
                    Some(hit) => {
                        &&& lo <= hit.0 < p
                        &&& sphere_hit(
                            *ray,
                            models@[hit.0 as int].position,
                            models@[hit.0 as int].radius,
                        )
                        &&& hit.1 == hit_key(
                            *ray,
                            models@[hit.0 as int].position,
                            models@[hit.0 as int].radius,
                        )
                        &&& forall|q: int|
                            lo <= q < p && sphere_hit(
                                *ray,
                                (#[trigger] models@[q]).position,
                                models@[q].radius,
                            ) ==> hit.1 <= hit_key(*ray, models@[q].position, models@[q].radius)
                        &&& forall|q: int|
                            lo <= q < hit.0 && sphere_hit(
                                *ray,
                                (#[trigger] models@[q]).position,
                                models@[q].radius,
                            ) ==> hit.1 < hit_key(*ray, models@[q].position, models@[q].radius)
                    },
                    None => forall|q: int|
                        lo <= q < p ==> !sphere_hit(
                            *ray,
                            (#[trigger] models@[q]).position,
                            models@[q].radius,
                        ),
                },
            decreases hi - p,
        {
            proof {
                assert(models@[p as int].wf());
            }
            let m = &models[p];
            match intersect_sphere(ray, m.position, m.radius) {
                Some(k) => {
                    match best {
                        Some(hit) => {
                            if k < hit.1 {
                                best = Some((p, k));
                            }
                        },
                        None => {
                            best = Some((p, k));
                        },
                    }
                },
                None => {},
            }
            p = p + 1;
        }
        best
    } else {
        if !hits_box(ray, nd.bounds_min, nd.bounds_max) {
            proof {
                assert forall|p: int|
                    ranges[j as int].0 <= p < ranges[j as int].1 implies !sphere_hit(
                    *ray,
                    (#[trigger] models@[p]).position,
                    models@[p].radius,
                ) by {
                    if sphere_hit(*ray, models@[p].position, models@[p].radius) {
                        assert(node_box_ok(nodes@, ranges, boxes_of(models@), j as int));
                        assert(box_contains_box(node_box(nodes@[j as int]), boxes_of(models@)[p]));
                        assert(models@[p].wf());
                        lemma_hit_not_missed(*ray, models@[p], node_box(nodes@[j as int]));
                    }
                }
            }
            return None;
        }
        let c = nd.index as usize;
        let nn = nodes.len();
        proof {
            assert(c + 1 < nn);
        }
        let left = trace_node(nodes, models, ray, c, Ghost(ranges));
        let right = trace_node(nodes, models, ray, c + 1, Ghost(ranges));
        match (left, right) {
            (None, None) => None,
            (Some(hit), None) => Some(hit),
            (None, Some(hit)) => Some(hit),
            (Some(lh), Some(rh)) => if rh.1 < lh.1 {
                Some(rh)
            } else {
                Some(lh)
            },
        }
    }
}

/// The nearest hit of a ray against the frame's populated geometry: the hit
/// with the least depth key over all models, ties resolved to the lowest
/// slot of the reordered model buffer.
pub fn trace_nearest(model_buffer: &ModelBuffer, bvh_buffer: &BVHBuffer, ray: &Ray) -> (res: Option<
    (usize, i128),
>)
    requires
        ray_wf(*ray),
        models_wf(model_buffer.data@),
        model_buffer.data@.len() <= MAX_MODELS,
        tree_wf(bvh_buffer.data@, bvh_buffer.ranges@, model_buffer.data@),
    ensures
        match res {
            Some(hit) => {
                &&& hit.0 < model_buffer.data@.len()
                &&& sphere_hit(
                    *ray,
                    model_buffer.data@[hit.0 as int].position,
                    model_buffer.data@[hit.0 as int].radius,
                )
                &&& hit.1 == hit_key(
                    *ray,
                    model_buffer.data@[hit.0 as int].position,
                    model_buffer.data@[hit.0 as int].radius,
                )
                &&& forall|p: int|
                    0 <= p < model_buffer.data@.len() && sphere_hit(
                        *ray,
                        (#[trigger] model_buffer.data@[p]).position,
                        model_buffer.data@[p].radius,
                    ) ==> hit.1 <= hit_key(
                        *ray,
                        model_buffer.data@[p].position,
                        model_buffer.data@[p].radius,
                    )
                &&& forall|p: int|
                    0 <= p < hit.0 && sphere_hit(
                        *ray,
                        (#[trigger] model_buffer.data@[p]).position,
                        model_buffer.data@[p].radius,
                    ) ==> hit.1 < hit_key(
                        *ray,
                        model_buffer.data@[p].position,
                        model_buffer.data@[p].radius,
                    )
            },
            None => forall|p: int|
                0 <= p < model_buffer.data@.len() ==> !sphere_hit(
                    *ray,
                    (#[trigger] model_buffer.data@[p]).position,
                    model_buffer.data@[p].radius,
                ),
        },
{
    if model_buffer.data.len() == 0 {
        return None;
    }
    let res = trace_node(
        &bvh_buffer.data,
        &model_buffer.data,
        ray,
        0,
        Ghost(bvh_buffer.ranges@),
    );
    proof {
        assert(bvh_buffer.ranges@[0] == (0int, model_buffer.data@.len() as int));
    }
    res
}

} // verus!
