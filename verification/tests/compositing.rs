use raytracing::buffers::{prepare_buffers, BVHBuffer, BufferLocks, MaterialBuffer, ModelBuffer};
use raytracing::extract::{
    CameraExtract, MaterialAssets, RaytraceLevelExtract, RaytracedSphereExtract, WindowExtract,
};
use raytracing::math::Vec3I;
use raytracing::pipeline::{
    auto_add_camera_components, PipelineCache, RayTracingNode, RaytracingPipeline, RunOutcome,
    ViewTarget,
};
use raytracing::scene::StandardMaterial;
use raytracing::trace::{intersect_sphere, trace_nearest, Ray};

fn v(x: i64, y: i64, z: i64) -> Vec3I {
    Vec3I { x, y, z }
}

fn colored_material(r: i64, g: i64, b: i64) -> StandardMaterial {
    StandardMaterial {
        base_color: v(r, g, b),
        metallic: 0,
        perceptual_roughness: 512,
        reflectance: 128,
        ior: 1536,
        specular_transmission: 0,
    }
}

fn camera_at_origin_looking_z() -> CameraExtract {
    CameraExtract {
        sample_count: 1,
        bounce_count: 1,
        projection: 0,
        near: 102,
        far: 1024000,
        fov: 1024,
        aspect: 1024,
        position: v(0, 0, 0),
        direction: v(0, 0, 1024),
        up: v(0, 1024, 0),
    }
}

/// Populate the three buffers with the given spheres, resolving a material
/// per sphere, and return them together with the level uniform.
fn populated_buffers(
    spheres: &[(Vec3I, i64, StandardMaterial)],
) -> (ModelBuffer, MaterialBuffer, BVHBuffer) {
    let mut assets = MaterialAssets::new();
    let mut data: Vec<(RaytracedSphereExtract, u64)> = Vec::new();
    for (i, (center, radius, material)) in spheres.iter().enumerate() {
        let id = i as u64 + 1;
        assets.prepare(id, material);
        data.push((RaytracedSphereExtract { position: *center, radius: *radius }, id));
    }
    let mut mb = ModelBuffer::default();
    let mut matb = MaterialBuffer::default();
    let mut bb = BVHBuffer::default();
    let locks = BufferLocks { model: true, material: true, bvh: true };
    let ok = prepare_buffers(&mut mb, &mut matb, &mut bb, locks, &data, &assets);
    assert!(ok);
    (mb, matb, bb)
}

fn view_1x1(pixel: Vec3I) -> ViewTarget {
    ViewTarget {
        target_a: vec![pixel],
        target_b: vec![v(0, 0, 0)],
        main_is_a: true,
        width: 1,
        height: 1,
    }
}

fn run_view(
    vt: &mut ViewTarget,
    depth: Option<Vec<u64>>,
    level: u32,
    mb: &ModelBuffer,
    matb: &MaterialBuffer,
    bb: &BVHBuffer,
) -> RunOutcome {
    let node = RayTracingNode;
    let settings = vec![RaytraceLevelExtract { level }];
    let cameras = vec![camera_at_origin_looking_z()];
    let window = Some(WindowExtract::extract_component(vt.height));
    let pipeline = RaytracingPipeline::from_world(11);
    let cache = PipelineCache { ready: vec![11] };
    node.run(vt, &depth, &settings, 0, &cameras, 0, &window, &pipeline, &cache, mb, matb, bb)
}

#[test]
fn sphere_ahead_is_hit_with_exact_key() {
    let ray = Ray { origin: v(0, 0, 0), dir: v(0, 0, 1024) };
    let key = intersect_sphere(&ray, v(0, 0, 10240), 1024);
    assert_eq!(key, Some(9437184));
}

#[test]
fn sphere_behind_is_missed() {
    let ray = Ray { origin: v(0, 0, 0), dir: v(0, 0, 1024) };
    assert!(intersect_sphere(&ray, v(0, 0, -10240), 1024).is_none());
}

#[test]
fn ray_starting_inside_hits_at_zero() {
    let ray = Ray { origin: v(0, 0, 0), dir: v(0, 0, 1024) };
    assert_eq!(intersect_sphere(&ray, v(100, 0, 0), 1024), Some(0));
}

#[test]
fn central_ray_reports_only_the_facing_sphere() {
    let red = colored_material(1000, 0, 0);
    let green = colored_material(0, 1000, 0);
    let spheres = [(v(0, 0, 8192), 1024, red), (v(8192, 0, 0), 1024, green)];
    let (mb, _matb, bb) = populated_buffers(&spheres);
    let central = Ray { origin: v(0, 0, 0), dir: v(0, 0, 1024) };
    let hit = trace_nearest(&mb, &bb, &central).expect("the facing sphere must be hit");
    assert_eq!(mb.data[hit.0].position, v(0, 0, 8192));
    // No intersection for the sphere off to the side along the central ray.
    assert!(intersect_sphere(&central, v(8192, 0, 0), 1024).is_none());
}

#[test]
fn empty_scene_traces_nothing() {
    let (mb, _matb, bb) = populated_buffers(&[]);
    let ray = Ray { origin: v(0, 0, 0), dir: v(0, 0, 1024) };
    assert!(trace_nearest(&mb, &bb, &ray).is_none());
}

#[test]
fn skipped_population_keeps_previous_contents() {
    let red = colored_material(1000, 0, 0);
    let (mut mb, mut matb, mut bb) = populated_buffers(&[(v(0, 0, 8192), 1024, red)]);
    let n_models = mb.data.len();
    let first_center = mb.data[0].position;

    // A second frame's update with an unavailable lock is skipped entirely.
    let mut assets = MaterialAssets::new();
    let blue = colored_material(0, 0, 1000);
    assets.prepare(9, &blue);
    let data = vec![(RaytracedSphereExtract { position: v(0, 0, 512), radius: 256 }, 9u64)];
    let locks = BufferLocks { model: false, material: true, bvh: true };
    let ok = prepare_buffers(&mut mb, &mut matb, &mut bb, locks, &data, &assets);
    assert!(!ok);
    assert_eq!(mb.data.len(), n_models);
    assert_eq!(mb.data[0].position, first_center);
    assert!(mb.populated);

    // The compositing pass still draws, using the stale contents.
    let mut vt = view_1x1(v(10, 20, 30));
    let outcome = run_view(&mut vt, Some(vec![u64::MAX]), 3, &mb, &matb, &bb);
    assert_eq!(outcome, RunOutcome::Drawn);
    assert_eq!(vt.target_b[0], v(1000, 0, 0));
}

#[test]
fn empty_scene_pure_draws_background_everywhere() {
    let (mb, matb, bb) = populated_buffers(&[]);
    let mut vt = ViewTarget {
        target_a: vec![v(1, 2, 3), v(4, 5, 6), v(7, 8, 9), v(10, 11, 12)],
        target_b: vec![v(0, 0, 0); 4],
        main_is_a: true,
        width: 2,
        height: 2,
    };
    let outcome = run_view(&mut vt, Some(vec![u64::MAX; 4]), 3, &mb, &matb, &bb);
    assert_eq!(outcome, RunOutcome::Drawn);
    assert!(!vt.main_is_a);
    for px in &vt.target_b {
        assert_eq!(*px, v(512, 717, 1024));
    }
    // The old source stays available as the next frame's destination.
    assert_eq!(vt.target_a[0], v(1, 2, 3));
}

#[test]
fn skip_level_output_is_pixel_identical_to_the_source() {
    let red = colored_material(1000, 0, 0);
    let (mb, matb, bb) = populated_buffers(&[(v(0, 0, 8192), 1024, red)]);
    let source_pixel = v(10, 20, 30);
    let mut vt = view_1x1(source_pixel);
    let outcome = run_view(&mut vt, Some(vec![0]), 0, &mb, &matb, &bb);
    assert_eq!(outcome, RunOutcome::Drawn);
    assert!(!vt.main_is_a);
    assert_eq!(vt.target_b[0], source_pixel);
}

#[test]
fn pure_level_draws_the_hit_material() {
    let red = colored_material(1000, 0, 0);
    let green = colored_material(0, 1000, 0);
    let spheres = [(v(0, 0, 8192), 1024, red), (v(8192, 0, 0), 1024, green)];
    let (mb, matb, bb) = populated_buffers(&spheres);
    let mut vt = view_1x1(v(10, 20, 30));
    let outcome = run_view(&mut vt, Some(vec![u64::MAX]), 3, &mb, &matb, &bb);
    assert_eq!(outcome, RunOutcome::Drawn);
    assert_eq!(vt.target_b[0], v(1000, 0, 0));
}

#[test]
fn fallback_raster_blends_three_to_one() {
    let red = colored_material(1000, 0, 0);
    let (mb, matb, bb) = populated_buffers(&[(v(0, 0, 8192), 1024, red)]);
    let mut vt = view_1x1(v(1024, 1024, 1024));
    let outcome = run_view(&mut vt, Some(vec![0]), 1, &mb, &matb, &bb);
    assert_eq!(outcome, RunOutcome::Drawn);
    assert_eq!(vt.target_b[0], v(1018, 768, 768));
}

#[test]
fn fallback_raytraced_respects_the_depth_prepass() {
    let red = colored_material(1000, 0, 0);
    let spheres = [(v(0, 0, 8192), 1024, red)];
    // The depth key of the hit along the central 1x1 ray is 524288 * 7168.
    let hit_key: u64 = 3758096384;

    // Rasterized geometry nearer than the hit: the raster pixel stays.
    let (mb, matb, bb) = populated_buffers(&spheres);
    let mut near = view_1x1(v(10, 20, 30));
    assert_eq!(run_view(&mut near, Some(vec![0]), 2, &mb, &matb, &bb), RunOutcome::Drawn);
    assert_eq!(near.target_b[0], v(10, 20, 30));

    // Rasterized geometry farther than the hit: the traced color wins.
    let mut far = view_1x1(v(10, 20, 30));
    assert_eq!(
        run_view(&mut far, Some(vec![hit_key + 1]), 2, &mb, &matb, &bb),
        RunOutcome::Drawn
    );
    assert_eq!(far.target_b[0], v(1000, 0, 0));
}

#[test]
fn missing_pipeline_skips_the_view_unchanged() {
    let (mb, matb, bb) = populated_buffers(&[]);
    let node = RayTracingNode;
    let mut vt = view_1x1(v(10, 20, 30));
    let settings = vec![RaytraceLevelExtract { level: 3 }];
    let cameras = vec![camera_at_origin_looking_z()];
    let window = Some(WindowExtract::extract_component(1));
    let pipeline = RaytracingPipeline::from_world(11);
    let empty_cache = PipelineCache { ready: Vec::new() };
    let outcome = node.run(
        &mut vt,
        &Some(vec![0]),
        &settings,
        0,
        &cameras,
        0,
        &window,
        &pipeline,
        &empty_cache,
        &mb,
        &matb,
        &bb,
    );
    assert_eq!(outcome, RunOutcome::MissingPipeline);
    assert!(vt.main_is_a);
    assert_eq!(vt.target_a[0], v(10, 20, 30));
}

#[test]
fn missing_depth_skips_after_the_swap() {
    let (mb, matb, bb) = populated_buffers(&[]);
    let mut vt = view_1x1(v(10, 20, 30));
    let outcome = run_view(&mut vt, None, 3, &mb, &matb, &bb);
    assert_eq!(outcome, RunOutcome::MissingDepth);
    assert!(!vt.main_is_a);
    assert_eq!(vt.target_a[0], v(10, 20, 30));
    assert_eq!(vt.target_b[0], v(0, 0, 0));
}

#[test]
fn never_populated_buffers_skip_the_draw() {
    let mb = ModelBuffer::default();
    let matb = MaterialBuffer::default();
    let bb = BVHBuffer::default();
    let mut vt = view_1x1(v(10, 20, 30));
    let outcome = run_view(&mut vt, Some(vec![0]), 3, &mb, &matb, &bb);
    assert_eq!(outcome, RunOutcome::MissingBuffer);
    assert_eq!(vt.target_a[0], v(10, 20, 30));
    assert_eq!(vt.target_b[0], v(0, 0, 0));
}

#[test]
fn every_camera_gets_a_depth_prepass() {
    let mut flags = vec![false, true, false];
    auto_add_camera_components(&mut flags);
    assert_eq!(flags, vec![true, true, true]);
}
