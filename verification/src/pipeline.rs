//! The per-view compositing pass: once per frame per eligible camera it
//! binds the rasterized color source, the depth pre-pass, the uniform slots
//! of this view and the frame's buffer families, traces a ray per pixel and
//! blends or replaces the rasterized pixel according to the render level,
//! writing into the alternate (ping-pong) color target.
//!
//! The model fixes a simple shading convention: a hit shades to its
//! material's base color, a miss to the background color, and the ray grid
//! spans a fixed field of view. Rays and colors are fixed point, so every
//! pixel of the output is pinned exactly by the contracts.

use vstd::prelude::*;
use crate::buffers::{frame_buffers_wf, BVHBuffer, MaterialBuffer, ModelBuffer};
use crate::bvh::{models_wf, tree_wf, Model, MAX_MODELS};
use crate::extract::{CameraExtract, RaytraceLevelExtract, RaytraceMaterial, WindowExtract};
use crate::scene::color_wf;
use crate::math::{bounded, Vec3I, AXIS_MAX, COORD_MAX, DIM_MAX, DIR_MAX, SCALE};
use crate::trace::{
    hit_key, lemma_mul_le, ray_wf, sphere_hit, trace_nearest, Ray,
};

verus! {

/// The color every missed ray shades to: a light sky tone.
pub open spec fn background_color() -> Vec3I {
    Vec3I { x: 512, y: 717, z: 1024 }
}

/// What a hit model shades to: its material's base color.
pub open spec fn spec_shade_hit(mat: RaytraceMaterial) -> Vec3I {
    mat.base_color
}

/// A camera snapshot the pass accepts: bounded position and basis vectors,
/// as extraction produces them.
pub open spec fn camera_extract_wf(c: CameraExtract) -> bool {
    &&& bounded(c.position, COORD_MAX)
    &&& bounded(c.direction, AXIS_MAX)
    &&& bounded(c.up, AXIS_MAX)
}

/// The two color targets of one view, with ping-pong roles: the pass reads
/// the current main target and writes the other, then the roles swap.
pub struct ViewTarget {
    pub target_a: Vec<Vec3I>,
    pub target_b: Vec<Vec3I>,
    pub main_is_a: bool,
    pub width: u32,
    pub height: u32,
}

impl ViewTarget {
    /// Consistent targets: equal sizes matching the pixel grid, every pixel
    /// within the color ranges.
    pub open spec fn wf(self) -> bool {
        &&& self.target_a@.len() == self.target_b@.len()
        &&& self.target_a@.len() == self.width * self.height
        &&& self.width <= DIM_MAX
        &&& self.height <= DIM_MAX
        &&& forall|p: int| 0 <= p < self.target_a@.len() ==> color_wf(#[trigger] self.target_a@[p])
        &&& forall|p: int| 0 <= p < self.target_b@.len() ==> color_wf(#[trigger] self.target_b@[p])
    }

    /// The pixels the pass reads this frame.
    pub open spec fn source(self) -> Seq<Vec3I> {
        if self.main_is_a {
            self.target_a@
        } else {
            self.target_b@
        }
    }

    /// The pixels the pass writes this frame.
    pub open spec fn destination(self) -> Seq<Vec3I> {
        if self.main_is_a {
            self.target_b@
        } else {
            self.target_a@
        }
    }
}

/// The cache of compiled render pipelines: the identifiers ready for use.
pub struct PipelineCache {
    pub ready: Vec<u32>,
}

impl PipelineCache {
    /// Whether a queued pipeline has finished compiling.
    pub fn get_render_pipeline(&self, id: u32) -> (r: bool)
        ensures
            r == self.ready@.contains(id),
    {
        let mut i: usize = 0;
        while i < self.ready.len()
            invariant
                i <= self.ready@.len(),
                forall|k: int| 0 <= k < i ==> self.ready@[k] != id,
            decreases self.ready@.len() - i,
        {
            if self.ready[i] == id {
                return true;
            }
            i = i + 1;
        }
        false
    }
}

/// The global data of the compositing pipeline, created once on startup: the
/// identifier under which the render pipeline was queued for compilation.
pub struct RaytracingPipeline {
    pub pipeline_id: u32,
}

impl RaytracingPipeline {
    /// Record the queued pipeline's identifier.
    pub fn from_world(pipeline_id: u32) -> (r: RaytracingPipeline)
        ensures
            r.pipeline_id == pipeline_id,
    {
        RaytracingPipeline { pipeline_id }
    }
}

/// Give every camera a depth pre-pass: cameras are created without one, and
/// the compositing pass requires it.
pub fn auto_add_camera_components(depth_prepass: &mut Vec<bool>)
    ensures
        final(depth_prepass)@.len() == old(depth_prepass)@.len(),
        forall|i: int| 0 <= i < final(depth_prepass)@.len() ==> final(depth_prepass)@[i],
{
    let mut i: usize = 0;
    while i < depth_prepass.len()
        invariant
            i <= depth_prepass@.len(),
            depth_prepass@.len() == old(depth_prepass)@.len(),
            forall|k: int| 0 <= k < i ==> depth_prepass@[k],
        decreases depth_prepass@.len() - i,
    {
        depth_prepass.set(i, true);
        i = i + 1;
    }
}

/// The ray the camera shoots through pixel `p` of a `w` by `h` grid: the
/// forward axis scaled to the grid height, offset along the camera's right
/// and up axes by the pixel's signed offsets from the grid center.
pub open spec fn spec_ray_for_pixel(cam: CameraExtract, w: int, h: int, p: int) -> Ray {
    let px = p % w;
    let py = p / w;
    let sx = 2 * px + 1 - w;
    let sy = h - 1 - 2 * py;
    let rx = cam.direction.y * cam.up.z - cam.direction.z * cam.up.y;
    let ry = cam.direction.z * cam.up.x - cam.direction.x * cam.up.z;
    let rz = cam.direction.x * cam.up.y - cam.direction.y * cam.up.x;
    Ray {
        origin: cam.position,
        dir: Vec3I {
            x: (cam.direction.x * (h * 512) + rx * sx + cam.up.x * (sy * 512)) as i64,
            y: (cam.direction.y * (h * 512) + ry * sx + cam.up.y * (sy * 512)) as i64,
            z: (cam.direction.z * (h * 512) + rz * sx + cam.up.z * (sy * 512)) as i64,
        },
    }
}

/// Build the pixel's ray.
pub fn ray_for_pixel(cam: &CameraExtract, w: u32, h: u32, p: usize) -> (r: Ray)
    requires
        camera_extract_wf(*cam),
        0 < w <= DIM_MAX,
        0 < h <= DIM_MAX,
        p < w * h,
    ensures
        r == spec_ray_for_pixel(*cam, w as int, h as int, p as int),
        ray_wf(r),
{
    let px = (p % (w as usize)) as i64;
    let py = (p / (w as usize)) as i64;
    proof {
        assert(0 <= p % (w as usize) < w);
        assert(0 <= p / (w as usize) < h) by (nonlinear_arith)
            requires
                p < w * h,
                0 < w,
                p / (w as usize) == (p as int) / (w as int),
        ;
    }
    let sx = 2 * px + 1 - w as i64;
    let sy = h as i64 - 1 - 2 * py;
    let fx = cam.direction.x;
    let fy = cam.direction.y;
    let fz = cam.direction.z;
    let ux = cam.up.x;
    let uy = cam.up.y;
    let uz = cam.up.z;
    proof {
        lemma_mul_le(fy as int, uz as int, 0x800, 0x800);
        lemma_mul_le(fz as int, uy as int, 0x800, 0x800);
        lemma_mul_le(fz as int, ux as int, 0x800, 0x800);
        lemma_mul_le(fx as int, uz as int, 0x800, 0x800);
        lemma_mul_le(fx as int, uy as int, 0x800, 0x800);
        lemma_mul_le(fy as int, ux as int, 0x800, 0x800);
    }
    let rx = fy * uz - fz * uy;
    let ry = fz * ux - fx * uz;
    let rz = fx * uy - fy * ux;
    let f_scale = (h as i64) * 512;
    let u_scale = sy * 512;
    proof {
        lemma_mul_le(fx as int, f_scale as int, 0x800, 0x100000);
        lemma_mul_le(fy as int, f_scale as int, 0x800, 0x100000);
        lemma_mul_le(fz as int, f_scale as int, 0x800, 0x100000);
        lemma_mul_le(rx as int, sx as int, 0x80_0000, 0x1000);
        lemma_mul_le(ry as int, sx as int, 0x80_0000, 0x1000);
        lemma_mul_le(rz as int, sx as int, 0x80_0000, 0x1000);
        lemma_mul_le(ux as int, u_scale as int, 0x800, 0x20_0000);
        lemma_mul_le(uy as int, u_scale as int, 0x800, 0x20_0000);
        lemma_mul_le(uz as int, u_scale as int, 0x800, 0x20_0000);
    }
    let dir = Vec3I {
        x: fx * f_scale + rx * sx + ux * u_scale,
        y: fy * f_scale + ry * sx + uy * u_scale,
        z: fz * f_scale + rz * sx + uz * u_scale,
    };
    Ray { origin: cam.position, dir }
}

/// A blend in which the rasterized pixel dominates three to one.
pub open spec fn spec_blend_quarter(raster: Vec3I, traced: Vec3I) -> Vec3I {
    Vec3I {
        x: ((3 * raster.x + traced.x) / 4) as i64,
        y: ((3 * raster.y + traced.y) / 4) as i64,
        z: ((3 * raster.z + traced.z) / 4) as i64,
    }
}

/// How one pixel leaves the pass, given the render level, the rasterized
/// pixel, its pre-pass depth key, and the traced outcome (depth key and
/// shaded color). `Skip` passes the rasterized pixel through unchanged;
/// `FallbackRaster` lets it dominate a blend; `FallbackRaytraced` keeps it
/// only where the pre-pass shows nearer geometry; `Pure` ignores it.
pub open spec fn spec_composite(
    level: u32,
    raster: Vec3I,
    depth: u64,
    traced: Option<(int, Vec3I)>,
) -> Vec3I {
    if level == 0 {
        raster
    } else if level == 1 {
        match traced {
            Some(t) => spec_blend_quarter(raster, t.1),
            None => raster,
        }
    } else if level == 2 {
        match traced {
            Some(t) => if (depth as int) < t.0 {
                raster
            } else {
                t.1
            },
            None => raster,
        }
    } else {
        match traced {
            Some(t) => t.1,
            None => background_color(),
        }
    }
}

/// `p` is the slot of the nearest hit: a hit of least depth key, the lowest
/// such slot.
pub open spec fn is_nearest(ray: Ray, models: Seq<Model>, p: int) -> bool {
    &&& 0 <= p < models.len()
    &&& sphere_hit(ray, models[p].position, models[p].radius)
    &&& forall|q: int|
        0 <= q < models.len() && sphere_hit(ray, (#[trigger] models[q]).position, models[q].radius)
            ==> hit_key(ray, models[p].position, models[p].radius) <= hit_key(
            ray,
            models[q].position,
            models[q].radius,
        )
    &&& forall|q: int|
        0 <= q < p && sphere_hit(ray, (#[trigger] models[q]).position, models[q].radius)
            ==> hit_key(ray, models[p].position, models[p].radius) < hit_key(
            ray,
            models[q].position,
            models[q].radius,
        )
}

/// The slot of the nearest hit along a ray, if any.
pub open spec fn spec_nearest_hit(ray: Ray, models: Seq<Model>) -> Option<int> {
    if exists|p: int| is_nearest(ray, models, p) {
        Some(choose|p: int| is_nearest(ray, models, p))
    } else {
        None
    }
}

/// At most one slot is the nearest hit.
pub proof fn lemma_nearest_unique(ray: Ray, models: Seq<Model>, p1: int, p2: int)
    requires
        is_nearest(ray, models, p1),
        is_nearest(ray, models, p2),
    ensures
        p1 == p2,
{
    if p1 < p2 {
        assert(hit_key(ray, models[p2].position, models[p2].radius) < hit_key(
            ray,
            models[p1].position,
            models[p1].radius,
        ));
    }
    if p2 < p1 {
        assert(hit_key(ray, models[p1].position, models[p1].radius) < hit_key(
            ray,
            models[p2].position,
            models[p2].radius,
        ));
    }
}

/// What the pass leaves in one destination pixel.
pub open spec fn spec_render_pixel(
    level: u32,
    source: Seq<Vec3I>,
    depth: Seq<u64>,
    cam: CameraExtract,
    w: int,
    h: int,
    models: Seq<Model>,
    materials: Seq<RaytraceMaterial>,
    p: int,
) -> Vec3I {
    let ray = spec_ray_for_pixel(cam, w, h, p);
    let traced = match spec_nearest_hit(ray, models) {
        Some(s) => Some(
            (
                hit_key(ray, models[s].position, models[s].radius),
                spec_shade_hit(materials[models[s].material_id as int]),
            ),
        ),
        None => None,
    };
    spec_composite(level, source[p], depth[p], traced)
}

/// The whole destination target the pass writes for one view.
pub open spec fn spec_render_view(
    level: u32,
    source: Seq<Vec3I>,
    depth: Seq<u64>,
    cam: CameraExtract,
    w: int,
    h: int,
    models: Seq<Model>,
    materials: Seq<RaytraceMaterial>,
) -> Seq<Vec3I> {
    Seq::new(
        source.len(),
        |p: int| spec_render_pixel(level, source, depth, cam, w, h, models, materials, p),
    )
}

/// The traced outcome as the composite specification sees it.
pub open spec fn traced_view(t: Option<(i128, Vec3I)>) -> Option<(int, Vec3I)> {
    match t {
        Some(kc) => Some((kc.0 as int, kc.1)),
        None => None,
    }
}

/// Composite one pixel.
fn composite(level: u32, raster: Vec3I, depth: u64, traced: &Option<(i128, Vec3I)>) -> (r: Vec3I)
    requires
        color_wf(raster),
        traced matches Some(kc) ==> color_wf(kc.1),
    ensures
        r == spec_composite(level, raster, depth, traced_view(*traced)),
        color_wf(r),
{
    if level == 0 {
        raster
    } else if level == 1 {
        match traced {
            Some(kc) => {
                let c = kc.1;
                Vec3I {
                    x: (3 * raster.x + c.x) / 4,
                    y: (3 * raster.y + c.y) / 4,
                    z: (3 * raster.z + c.z) / 4,
                }
            },
            None => raster,
        }
    } else if level == 2 {
        match traced {
            Some(kc) => {
                if (depth as i128) < kc.0 {
                    raster
                } else {
                    kc.1
                }
            },
            None => raster,
        }
    } else {
        match traced {
            Some(kc) => kc.1,
            None => Vec3I { x: 512, y: 717, z: 1024 },
        }
    }
}

/// The render levels a view can leave the pass with.
#[derive(Clone, Copy, PartialEq, Eq, Structural, Debug)]
pub enum RunOutcome {
    MissingPipeline,
    MissingBinding,
    MissingDepth,
    MissingBuffer,
    Drawn,
}

/// The ping-pong swap happened but nothing was written: the destination of
/// the frame keeps whatever it held before.
pub open spec fn flipped_unwritten(pre: ViewTarget, post: ViewTarget) -> bool {
    &&& post.main_is_a == !pre.main_is_a
    &&& post.target_a@ == pre.target_a@
    &&& post.target_b@ == pre.target_b@
    &&& post.width == pre.width
    &&& post.height == pre.height
}

/// The node that executes the compositing pass for one view of the frame.
pub struct RayTracingNode;

impl RayTracingNode {
    /// Run the pass for one view: skip while the pipeline is still
    /// compiling, a uniform binding is missing, the view has no usable depth
    /// pre-pass, or the buffers were never populated; otherwise trace a ray
    /// per pixel and write the composited result into the alternate target.
    /// A skip after the ping-pong swap leaves stale-but-valid pixels there,
    /// the documented degraded-frame picture.
    pub fn run(
        &self,
        view_target: &mut ViewTarget,
        prepass_depth: &Option<Vec<u64>>,
        settings_uniforms: &Vec<RaytraceLevelExtract>,
        settings_index: usize,
        camera_uniforms: &Vec<CameraExtract>,
        camera_index: usize,
        window_uniform: &Option<WindowExtract>,
        raytrace_pipeline: &RaytracingPipeline,
        pipeline_cache: &PipelineCache,
        model_buffer: &ModelBuffer,
        material_buffer: &MaterialBuffer,
        bvh_buffer: &BVHBuffer,
    ) -> (outcome: RunOutcome)
        requires
            old(view_target).wf(),
            camera_index < camera_uniforms@.len() ==> camera_extract_wf(
                camera_uniforms@[camera_index as int],
            ),
            frame_buffers_wf(*model_buffer, *material_buffer, *bvh_buffer),
        ensures
            match outcome {
                RunOutcome::MissingPipeline => {
                    &&& *final(view_target) == *old(view_target)
                    &&& !pipeline_cache.ready@.contains(raytrace_pipeline.pipeline_id)
                },
                RunOutcome::MissingBinding => {
                    &&& *final(view_target) == *old(view_target)
                    &&& pipeline_cache.ready@.contains(raytrace_pipeline.pipeline_id)
                    &&& (settings_index >= settings_uniforms@.len() || camera_index
                        >= camera_uniforms@.len() || *window_uniform is None)
                },
                RunOutcome::MissingDepth => {
                    &&& flipped_unwritten(*old(view_target), *final(view_target))
                    &&& pipeline_cache.ready@.contains(raytrace_pipeline.pipeline_id)
                    &&& settings_index < settings_uniforms@.len()
                    &&& camera_index < camera_uniforms@.len()
                    &&& *window_uniform is Some
                    &&& (*prepass_depth is None || (*prepass_depth matches Some(d) && d@.len()
                        != old(view_target).source().len()))
                },
                RunOutcome::MissingBuffer => {
                    &&& flipped_unwritten(*old(view_target), *final(view_target))
                    &&& pipeline_cache.ready@.contains(raytrace_pipeline.pipeline_id)
                    &&& settings_index < settings_uniforms@.len()
                    &&& camera_index < camera_uniforms@.len()
                    &&& *window_uniform is Some
                    &&& !model_buffer.populated
                },
                RunOutcome::Drawn => {
                    &&& pipeline_cache.ready@.contains(raytrace_pipeline.pipeline_id)
                    &&& settings_index < settings_uniforms@.len()
                    &&& camera_index < camera_uniforms@.len()
                    &&& *window_uniform is Some
                    &&& model_buffer.populated
                    &&& final(view_target).wf()
                    &&& final(view_target).main_is_a == !old(view_target).main_is_a
                    &&& final(view_target).width == old(view_target).width
                    &&& final(view_target).height == old(view_target).height
                    &&& final(view_target).destination() == old(view_target).source()
                    &&& (*prepass_depth matches Some(d) && final(view_target).source()
                        == spec_render_view(
                        settings_uniforms@[settings_index as int].level,
                        old(view_target).source(),
                        d@,
                        camera_uniforms@[camera_index as int],
                        old(view_target).width as int,
                        old(view_target).height as int,
                        model_buffer.data@,
                        material_buffer.data@,
                    ))
                },
            },
    {
        if !pipeline_cache.get_render_pipeline(raytrace_pipeline.pipeline_id) {
            return RunOutcome::MissingPipeline;
        }
        if settings_index >= settings_uniforms.len() || camera_index >= camera_uniforms.len() {
            return RunOutcome::MissingBinding;
        }
        if window_uniform.is_none() {
            return RunOutcome::MissingBinding;
        }
        // The ping-pong swap: the current main target becomes the source and
        // the other target becomes this frame's destination.
        let src_is_a = view_target.main_is_a;
        view_target.main_is_a = !src_is_a;
        let n_px = view_target.target_a.len();
        let depth = match prepass_depth {
            Some(d) => d,
            None => {
                return RunOutcome::MissingDepth;
            },
        };
        if depth.len() != n_px {
            return RunOutcome::MissingDepth;
        }
        if !(model_buffer.populated && material_buffer.populated && bvh_buffer.populated) {
            return RunOutcome::MissingBuffer;
        }
        let settings = &settings_uniforms[settings_index];
        let camera = &camera_uniforms[camera_index];
        let w = view_target.width;
        let h = view_target.height;
        let mut rendered: Vec<Vec3I> = Vec::new();
        let mut p: usize = 0;
        while p < n_px
            invariant
                view_target.main_is_a == !src_is_a,
                view_target.target_a@ == old(view_target).target_a@,
                view_target.target_b@ == old(view_target).target_b@,
                view_target.width == old(view_target).width == w,
                view_target.height == old(view_target).height == h,
                old(view_target).main_is_a == src_is_a,
                old(view_target).wf(),
                n_px == old(view_target).target_a@.len(),
                n_px == w * h,
                settings_index < settings_uniforms@.len(),
                camera_index < camera_uniforms@.len(),
                settings == settings_uniforms@[settings_index as int],
                camera == camera_uniforms@[camera_index as int],
                camera_extract_wf(*camera),
                frame_buffers_wf(*model_buffer, *material_buffer, *bvh_buffer),
                model_buffer.populated,
                depth@.len() == n_px,
                p <= n_px,
                rendered@.len() == p,
                forall|q: int|
                    0 <= q < p ==> #[trigger] rendered@[q] == spec_render_pixel(
                        settings_uniforms@[settings_index as int].level,
                        old(view_target).source(),
                        depth@,
                        camera_uniforms@[camera_index as int],
                        w as int,
                        h as int,
                        model_buffer.data@,
                        material_buffer.data@,
                        q,
                    ),
                forall|q: int| 0 <= q < p ==> color_wf(#[trigger] rendered@[q]),
            decreases n_px - p,
        {
            proof {
                assert(0 < w && 0 < h) by (nonlinear_arith)
                    requires
                        p < n_px,
                        n_px == w * h,
                ;
            }
            let ray = ray_for_pixel(camera, w, h, p);
            let traced_slot = trace_nearest(model_buffer, bvh_buffer, &ray);
            let traced: Option<(i128, Vec3I)> = match traced_slot {
                Some(hit) => {
                    let mid = model_buffer.data[hit.0].material_id as usize;
                    Some((hit.1, material_buffer.data[mid].base_color))
                },
                None => None,
            };
            proof {
                let models = model_buffer.data@;
                match traced_slot {
                    Some(hit) => {
                        assert(is_nearest(ray, models, hit.0 as int));
                        let ch = choose|pp: int| is_nearest(ray, models, pp);
                        assert(is_nearest(ray, models, ch));
                        lemma_nearest_unique(ray, models, ch, hit.0 as int);
                        assert(spec_nearest_hit(ray, models) == Some(hit.0 as int));
                    },
                    None => {
                        if exists|pp: int| is_nearest(ray, models, pp) {
                            let pp = choose|pp: int| is_nearest(ray, models, pp);
                            assert(sphere_hit(ray, models[pp].position, models[pp].radius));
                            assert(false);
                        }
                        assert(spec_nearest_hit(ray, models) is None);
                    },
                }
            }
            let raster = if src_is_a {
                view_target.target_a[p]
            } else {
                view_target.target_b[p]
            };
            proof {
                assert(raster == old(view_target).source()[p as int]);
                assert(color_wf(raster));
            }
            let out_px = composite(settings.level, raster, depth[p], &traced);
            rendered.push(out_px);
            p = p + 1;
        }
        proof {
            assert(rendered@ =~= spec_render_view(
                settings_uniforms@[settings_index as int].level,
                old(view_target).source(),
                depth@,
                camera_uniforms@[camera_index as int],
                w as int,
                h as int,
                model_buffer.data@,
                material_buffer.data@,
            ));
        }
        if src_is_a {
            view_target.target_b = rendered;
        } else {
            view_target.target_a = rendered;
        }
        RunOutcome::Drawn
    }
}

/// With the level at `Skip` the pass writes the rasterized source back
/// pixel-identically: no ray-traced contribution at all.
pub proof fn lemma_skip_renders_source(
    source: Seq<Vec3I>,
    depth: Seq<u64>,
    cam: CameraExtract,
    w: int,
    h: int,
    models: Seq<Model>,
    materials: Seq<RaytraceMaterial>,
)
    ensures
        spec_render_view(0, source, depth, cam, w, h, models, materials) == source,
{
    assert(spec_render_view(0, source, depth, cam, w, h, models, materials) =~= source);
}

/// With no primitives and the level at `Pure`, every pixel of the pass's
/// output is the miss-shading result: the background color everywhere.
pub proof fn lemma_empty_scene_pure_background(
    source: Seq<Vec3I>,
    depth: Seq<u64>,
    cam: CameraExtract,
    w: int,
    h: int,
    materials: Seq<RaytraceMaterial>,
)
    ensures
        spec_render_view(3, source, depth, cam, w, h, Seq::<Model>::empty(), materials)
            == Seq::new(source.len(), |p: int| background_color()),
{
    let out = spec_render_view(3, source, depth, cam, w, h, Seq::<Model>::empty(), materials);
    assert forall|p: int| 0 <= p < source.len() implies out[p] == background_color() by {
        let ray = spec_ray_for_pixel(cam, w, h, p);
        assert(spec_nearest_hit(ray, Seq::<Model>::empty()) is None);
    }
    assert(out =~= Seq::new(source.len(), |p: int| background_color()));
}

} // verus!
