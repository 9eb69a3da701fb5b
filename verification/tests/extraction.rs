use raytracing::extract::{
    CameraExtract, MaterialAssets, RaytraceMaterial, RaytracedSphereExtract, WindowExtract,
    extract_cameras,
};
use raytracing::math::Vec3I;
use raytracing::scene::{
    GlobalTransform, Projection, Raytracing, RaytracedCamera, RaytracedSphere, StandardMaterial,
};

fn v(x: i64, y: i64, z: i64) -> Vec3I {
    Vec3I { x, y, z }
}

fn camera_transform() -> GlobalTransform {
    GlobalTransform { translation: v(0, 0, 5120), forward: v(0, 0, -1024), up: v(0, 1024, 0) }
}

fn source_material(r: i64) -> StandardMaterial {
    StandardMaterial {
        base_color: v(r, 512, 256),
        metallic: 0,
        perceptual_roughness: 512,
        reflectance: 128,
        ior: 1536,
        specular_transmission: 0,
    }
}

#[test]
fn perspective_camera_is_extracted() {
    let camera = RaytracedCamera { level: Raytracing::FallbackRaytraced, sample_count: 4, bounces: 4 };
    let transform = camera_transform();
    let projection = Projection::Perspective { fov: 1024, aspect_ratio: 1820, near: 102, far: 1024000 };
    let out = CameraExtract::extract_component(&camera, &transform, &projection);
    let (level, extract) = out.expect("perspective camera must be extracted");
    assert_eq!(level.level, 2);
    assert_eq!(extract.sample_count, 4);
    assert_eq!(extract.bounce_count, 4);
    assert_eq!(extract.projection, 0);
    assert_eq!(extract.near, 102);
    assert_eq!(extract.far, 1024000);
    assert_eq!(extract.fov, 1024);
    assert_eq!(extract.aspect, 1820);
    assert_eq!(extract.position, v(0, 0, 5120));
    assert_eq!(extract.direction, v(0, 0, -1024));
    assert_eq!(extract.up, v(0, 1024, 0));
}

#[test]
fn orthographic_camera_is_excluded() {
    let camera = RaytracedCamera { level: Raytracing::Pure, sample_count: 1, bounces: 1 };
    let transform = camera_transform();
    let projection = Projection::Orthographic { near: 0, far: 1024000 };
    let out = CameraExtract::extract_component(&camera, &transform, &projection);
    assert!(out.is_none());
}

#[test]
fn excluded_camera_does_not_affect_the_others() {
    let persp = Projection::Perspective { fov: 1024, aspect_ratio: 1024, near: 102, far: 1024000 };
    let ortho = Projection::Orthographic { near: 0, far: 1024000 };
    let cam = |level: Raytracing| RaytracedCamera { level, sample_count: 2, bounces: 3 };
    let with_ortho = vec![
        (cam(Raytracing::Skip), camera_transform(), persp),
        (cam(Raytracing::Pure), camera_transform(), ortho),
        (cam(Raytracing::FallbackRaster), camera_transform(), persp),
    ];
    let without_ortho = vec![
        (cam(Raytracing::Skip), camera_transform(), persp),
        (cam(Raytracing::FallbackRaster), camera_transform(), persp),
    ];
    let a = extract_cameras(&with_ortho);
    let b = extract_cameras(&without_ortho);
    assert_eq!(a.len(), 2);
    assert_eq!(a, b);
    assert_eq!(a[0].0.level, 0);
    assert_eq!(a[1].0.level, 1);
}

#[test]
fn level_codes() {
    assert_eq!(Raytracing::Skip.code(), 0);
    assert_eq!(Raytracing::FallbackRaster.code(), 1);
    assert_eq!(Raytracing::FallbackRaytraced.code(), 2);
    assert_eq!(Raytracing::Pure.code(), 3);
}

#[test]
fn window_extract_keeps_height() {
    let a = WindowExtract::extract_component(768);
    assert_eq!(a.height, 768);
    let b = WindowExtract::extract_component(0);
    assert_eq!(b.height, 0);
}

#[test]
fn sphere_extract_takes_center_and_radius() {
    let sphere = RaytracedSphere { radius: 204 };
    let transform = GlobalTransform {
        translation: v(1000, -2000, 3000),
        forward: v(0, 0, -1024),
        up: v(0, 1024, 0),
    };
    let e = RaytracedSphereExtract::extract_component(&sphere, &transform);
    assert_eq!(e.position, v(1000, -2000, 3000));
    assert_eq!(e.radius, 204);
}

#[test]
fn material_record_field_mapping() {
    let source = source_material(900);
    let record = RaytraceMaterial::prepare_asset(&source);
    assert_eq!(record.base_color, v(900, 512, 256));
    assert_eq!(record.metallic, 0);
    assert_eq!(record.roughness, 512);
    assert_eq!(record.reflectance, 128);
    assert_eq!(record.ior, 1536);
    assert_eq!(record.specular_transmission, 0);
}

#[test]
fn resolving_twice_yields_the_same_record() {
    let mut assets = MaterialAssets::new();
    let source = source_material(800);
    let first = assets.prepare(7, &source);
    let len_after_first = assets.records.len();
    let second = assets.prepare(7, &source);
    assert_eq!(first, second);
    assert_eq!(assets.records.len(), len_after_first);
    assert_eq!(assets.records.len(), 1);
}

#[test]
fn resolution_is_cached_by_identity_not_by_value() {
    let mut assets = MaterialAssets::new();
    let original = source_material(800);
    let changed = source_material(100);
    let first = assets.prepare(7, &original);
    // The same identity resolves to the cached record even if the source
    // description has changed since.
    let second = assets.prepare(7, &changed);
    assert_eq!(first, second);
    assert_eq!(assets.records.len(), 1);
    assert_eq!(assets.records[first].base_color, v(800, 512, 256));
    assert_eq!(assets.get(7).base_color, v(800, 512, 256));
}

#[test]
fn distinct_identities_get_distinct_records() {
    let mut assets = MaterialAssets::new();
    let a = assets.prepare(1, &source_material(100));
    let b = assets.prepare(2, &source_material(200));
    assert_ne!(a, b);
    assert_eq!(assets.records.len(), 2);
    assert_eq!(assets.records[a].base_color.x, 100);
    assert_eq!(assets.records[b].base_color.x, 200);
}
