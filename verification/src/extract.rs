//! Per-frame snapshot extraction and material resolution.
//!
//! Once per frame the extractor reads the host-owned scene records and
//! produces immutable, render-ready snapshots: one `CameraSnapshot`-style
//! record per ray-traceable perspective camera, one sphere record per
//! primitive, and the output-surface record with a freshly drawn random
//! seed. A camera with an unsupported projection is silently excluded for
//! the frame and never affects the extraction of the others.

use vstd::prelude::*;
use vstd::pervasive::unreached;
use crate::math::Vec3I;
use crate::scene::{
    GlobalTransform, Projection, Raytracing, RaytracedCamera, RaytracedSphere, StandardMaterial,
    material_wf, color_wf,
};

verus! {

/// Output-surface snapshot: render-target height and the per-frame seed that
/// decorrelates stochastic sampling across frames.
#[derive(Clone, Copy, PartialEq, Eq, Structural, Debug)]
pub struct WindowExtract {
    pub random_seed: u32,
    pub height: u32,
}

/// Per-camera snapshot handed to the shader. `projection` is the numeric
/// projection kind; only `0` (perspective) is ever produced.
#[derive(Clone, Copy, PartialEq, Eq, Structural, Debug)]
pub struct CameraExtract {
    pub sample_count: u32,
    pub bounce_count: u32,
    pub projection: u32,
    pub near: i64,
    pub far: i64,
    pub fov: i64,
    pub aspect: i64,
    pub position: Vec3I,
    pub direction: Vec3I,
    pub up: Vec3I,
}

/// The render-level uniform block for one camera.
#[derive(Clone, Copy, PartialEq, Eq, Structural, Debug)]
pub struct RaytraceLevelExtract {
    pub level: u32,
}

/// Per-primitive snapshot: a world-space sphere.
#[derive(Clone, Copy, PartialEq, Eq, Structural, Debug)]
pub struct RaytracedSphereExtract {
    pub position: Vec3I,
    pub radius: i64,
}

/// GPU-layout material record, produced once per distinct source material.
#[derive(Clone, Copy, PartialEq, Eq, Structural, Debug)]
pub struct RaytraceMaterial {
    pub base_color: Vec3I,
    pub metallic: i64,
    pub roughness: i64,
    pub reflectance: i64,
    pub ior: i64,
    pub specular_transmission: i64,
}

/// Relies on rand::random: one fresh draw from the thread-local generator
/// per frame; nothing is promised of the value.
#[verifier::external_body]
fn draw_frame_seed() -> u32 {
    rand::random::<u32>()
}

impl WindowExtract {
    /// Extract the output surface: its pixel height and a per-frame seed.
    /// The seed is drawn anew on every call; only the height is pinned.
    pub fn extract_component(physical_height: u32) -> (r: WindowExtract)
        ensures
            r.height == physical_height,
    {
        let random_seed: u32 = draw_frame_seed();
        WindowExtract { random_seed, height: physical_height }
    }
}

/// What camera extraction yields for one camera, if anything.
pub open spec fn spec_extract_camera(
    camera: RaytracedCamera,
    transform: GlobalTransform,
    projection: Projection,
) -> Option<(RaytraceLevelExtract, CameraExtract)> {
    match projection {
        Projection::Perspective { fov, aspect_ratio, near, far } => Some(
            (
                RaytraceLevelExtract { level: camera.level.spec_code() },
                CameraExtract {
                    sample_count: camera.sample_count,
                    bounce_count: camera.bounces,
                    projection: 0,
                    near,
                    far,
                    fov,
                    aspect: aspect_ratio,
                    position: transform.translation,
                    direction: transform.forward,
                    up: transform.up,
                },
            ),
        ),
        Projection::Orthographic { .. } => None,
    }
}

impl CameraExtract {
    /// Extract one camera. A perspective camera yields its level uniform and
    /// its snapshot; any other projection yields nothing for this frame.
    pub fn extract_component(
        camera: &RaytracedCamera,
        transform: &GlobalTransform,
        projection: &Projection,
    ) -> (r: Option<(RaytraceLevelExtract, CameraExtract)>)
        ensures
            r == spec_extract_camera(*camera, *transform, *projection),
            r is Some <==> projection is Perspective,
    {
        match *projection {
            Projection::Perspective { fov, aspect_ratio, near, far } => {
                let camera_extract = CameraExtract {
                    sample_count: camera.sample_count,
                    bounce_count: camera.bounces,
                    projection: 0,
                    near,
                    far,
                    aspect: aspect_ratio,
                    fov,
                    position: transform.translation,
                    direction: transform.forward,
                    up: transform.up,
                };
                let level = RaytraceLevelExtract { level: camera.level.code() };
                Some((level, camera_extract))
            },
            Projection::Orthographic { .. } => None,
        }
    }
}

/// Camera extraction mapped over a whole frame's camera list, keeping order
/// and dropping the unsupported cameras.
pub open spec fn spec_extract_cameras(
    cams: Seq<(RaytracedCamera, GlobalTransform, Projection)>,
) -> Seq<(RaytraceLevelExtract, CameraExtract)>
    decreases cams.len(),
{
    if cams.len() == 0 {
        Seq::empty()
    } else {
        let head = spec_extract_camera(cams[0].0, cams[0].1, cams[0].2);
        let rest = spec_extract_cameras(cams.drop_first());
        match head {
            Some(x) => seq![x] + rest,
            None => rest,
        }
    }
}

proof fn lemma_extract_cameras_empty()
    ensures
        spec_extract_cameras(Seq::empty()) == Seq::<(RaytraceLevelExtract, CameraExtract)>::empty(),
{
}

proof fn lemma_extract_cameras_singleton(c: (RaytracedCamera, GlobalTransform, Projection))
    ensures
        spec_extract_cameras(seq![c]) == match spec_extract_camera(c.0, c.1, c.2) {
            Some(x) => seq![x],
            None => Seq::<(RaytraceLevelExtract, CameraExtract)>::empty(),
        },
{
    let s = seq![c];
    assert(s.drop_first() =~= Seq::empty());
    assert(s[0] == c);
    lemma_extract_cameras_empty();
    match spec_extract_camera(c.0, c.1, c.2) {
        Some(x) => {
            assert(seq![x] + Seq::<(RaytraceLevelExtract, CameraExtract)>::empty() =~= seq![x]);
        },
        None => {},
    }
}

/// Camera extraction distributes over concatenation.
pub proof fn lemma_extract_cameras_concat(
    a: Seq<(RaytracedCamera, GlobalTransform, Projection)>,
    b: Seq<(RaytracedCamera, GlobalTransform, Projection)>,
)
    ensures
        spec_extract_cameras(a + b) == spec_extract_cameras(a) + spec_extract_cameras(b),
    decreases a.len(),
{
    if a.len() == 0 {
        assert(a + b =~= b);
        assert(spec_extract_cameras(a) + spec_extract_cameras(b) =~= spec_extract_cameras(b));
    } else {
        assert((a + b).drop_first() =~= a.drop_first() + b);
        lemma_extract_cameras_concat(a.drop_first(), b);
        match spec_extract_camera(a[0].0, a[0].1, a[0].2) {
            Some(x) => {
                assert(seq![x] + (spec_extract_cameras(a.drop_first()) + spec_extract_cameras(b))
                    =~= (seq![x] + spec_extract_cameras(a.drop_first())) + spec_extract_cameras(
                    b,
                ));
            },
            None => {},
        }
    }
}

/// Extract every eligible camera of the frame, in order.
pub fn extract_cameras(cams: &Vec<(RaytracedCamera, GlobalTransform, Projection)>) -> (r: Vec<
    (RaytraceLevelExtract, CameraExtract),
>)
    ensures
        r@ == spec_extract_cameras(cams@),
{
    let mut out: Vec<(RaytraceLevelExtract, CameraExtract)> = Vec::new();
    let mut i: usize = 0;
    while i < cams.len()
        invariant
            i <= cams.len(),
            out@ == spec_extract_cameras(cams@.subrange(0, i as int)),
        decreases cams.len() - i,
    {
        let (camera, transform, projection) = &cams[i];
        proof {
            assert(cams@.subrange(0, i + 1 as int) =~= cams@.subrange(0, i as int) + seq![
                cams@[i as int],
            ]);
            lemma_extract_cameras_concat(cams@.subrange(0, i as int), seq![cams@[i as int]]);
            lemma_extract_cameras_singleton(cams@[i as int]);
        }
        match CameraExtract::extract_component(camera, transform, projection) {
            Some(x) => {
                out.push(x);
                proof {
                    assert(out@ =~= spec_extract_cameras(cams@.subrange(0, i as int)) + seq![x]);
                }
            },
            None => {
                proof {
                    assert(spec_extract_cameras(cams@.subrange(0, i as int)) + Seq::<
                        (RaytraceLevelExtract, CameraExtract),
                    >::empty() =~= spec_extract_cameras(cams@.subrange(0, i as int)));
                }
            },
        }
        i = i + 1;
    }
    proof {
        assert(cams@.subrange(0, cams@.len() as int) =~= cams@);
    }
    out
}

/// A camera whose projection is unsupported contributes nothing to the
/// frame's extraction: removing it leaves the extracted sequence unchanged,
/// so the other cameras are unaffected.
pub proof fn lemma_camera_exclusion(
    cams: Seq<(RaytracedCamera, GlobalTransform, Projection)>,
    j: int,
)
    requires
        0 <= j < cams.len(),
        !(cams[j].2 is Perspective),
    ensures
        spec_extract_cameras(cams) == spec_extract_cameras(cams.remove(j)),
{
    let front = cams.subrange(0, j);
    let back = cams.subrange(j + 1, cams.len() as int);
    assert(cams =~= front + seq![cams[j]] + back);
    assert(cams.remove(j) =~= front + back);
    lemma_extract_cameras_concat(front + seq![cams[j]], back);
    lemma_extract_cameras_concat(front, seq![cams[j]]);
    lemma_extract_cameras_concat(front, back);
    lemma_extract_cameras_singleton(cams[j]);
    assert(spec_extract_cameras(front) + Seq::<(RaytraceLevelExtract, CameraExtract)>::empty()
        =~= spec_extract_cameras(front));
}

impl RaytracedSphereExtract {
    /// Extract one sphere: its world-space center and its radius.
    pub fn extract_component(sphere: &RaytracedSphere, transform: &GlobalTransform) -> (r:
        RaytracedSphereExtract)
        ensures
            r.position == transform.translation,
            r.radius == sphere.radius,
    {
        RaytracedSphereExtract { position: transform.translation, radius: sphere.radius }
    }
}

/// The GPU-layout record a source material maps to.
pub open spec fn spec_prepare_asset(source: StandardMaterial) -> RaytraceMaterial {
    RaytraceMaterial {
        base_color: source.base_color,
        metallic: source.metallic,
        roughness: source.perceptual_roughness,
        reflectance: source.reflectance,
        ior: source.ior,
        specular_transmission: source.specular_transmission,
    }
}

impl RaytraceMaterial {
    /// Turn a source material into its GPU-layout record.
    pub fn prepare_asset(source: &StandardMaterial) -> (r: RaytraceMaterial)
        ensures
            r == spec_prepare_asset(*source),
    {
        RaytraceMaterial {
            base_color: source.base_color,
            metallic: source.metallic,
            roughness: source.perceptual_roughness,
            reflectance: source.reflectance,
            ior: source.ior,
            specular_transmission: source.specular_transmission,
        }
    }

    /// The material's color channels are within range.
    pub open spec fn wf(self) -> bool {
        color_wf(self.base_color)
    }
}

/// The process-wide material cache: one GPU record per distinct source
/// material identity, created on first reference, immutable thereafter, and
/// never evicted for the renderer's lifetime.
pub struct MaterialAssets {
    pub ids: Vec<u64>,
    pub records: Vec<RaytraceMaterial>,
}

/// Everything one resolution step promises: the cache keeps its invariant,
/// the returned index holds the identity's record, a known identity leaves
/// the cache untouched, and an unknown one appends exactly one record.
pub open spec fn prepare_post(
    pre: MaterialAssets,
    post: MaterialAssets,
    id: u64,
    source: StandardMaterial,
    idx: usize,
) -> bool {
    &&& post.wf()
    &&& idx < post.records@.len()
    &&& post.ids@[idx as int] == id
    &&& pre.spec_contains(id) ==> post.ids@ == pre.ids@ && post.records@ == pre.records@
    &&& !pre.spec_contains(id) ==> post.ids@ == pre.ids@.push(id) && post.records@
        == pre.records@.push(spec_prepare_asset(source)) && idx == pre.ids@.len()
}

impl MaterialAssets {
    /// Identities are unique, each has exactly one record, and every cached
    /// record is within the color ranges.
    pub open spec fn wf(self) -> bool {
        &&& self.ids@.len() == self.records@.len()
        &&& forall|i: int, j: int|
            0 <= i < j < self.ids@.len() ==> self.ids@[i] != self.ids@[j]
        &&& forall|i: int| 0 <= i < self.records@.len() ==> (#[trigger] self.records@[i]).wf()
    }

    /// The identity already has a cached record.
    pub open spec fn spec_contains(self, id: u64) -> bool {
        self.ids@.contains(id)
    }

    /// An empty cache, as the renderer starts with.
    pub fn new() -> (r: MaterialAssets)
        ensures
            r.wf(),
            r.ids@ == Seq::<u64>::empty(),
            r.records@ == Seq::<RaytraceMaterial>::empty(),
    {
        MaterialAssets { ids: Vec::new(), records: Vec::new() }
    }

    /// Look an identity up in the cache.
    pub fn find(&self, id: u64) -> (r: Option<usize>)
        ensures
            match r {
                Some(i) => i < self.ids@.len() && self.ids@[i as int] == id,
                None => !self.spec_contains(id),
            },
    {
        let mut i: usize = 0;
        while i < self.ids.len()
            invariant
                i <= self.ids@.len(),
                forall|k: int| 0 <= k < i ==> self.ids@[k] != id,
            decreases self.ids@.len() - i,
        {
            if self.ids[i] == id {
                return Some(i);
            }
            i = i + 1;
        }
        None
    }

    /// The index at which an identity's record is cached.
    pub open spec fn spec_index_of(self, id: u64) -> int {
        choose|i: int| 0 <= i < self.ids@.len() && self.ids@[i] == id
    }

    /// The record cached for an identity.
    pub open spec fn spec_record(self, id: u64) -> RaytraceMaterial {
        self.records@[self.spec_index_of(id)]
    }

    /// Hand out the record cached for an identity.
    pub fn get(&self, id: u64) -> (r: RaytraceMaterial)
        requires
            self.wf(),
            self.spec_contains(id),
        ensures
            r == self.spec_record(id),
    {
        match self.find(id) {
            Some(i) => {
                proof {
                    let j = self.spec_index_of(id);
                    assert(0 <= j < self.ids@.len() && self.ids@[j] == id);
                    if i as int != j {
                        if (i as int) < j {
                            assert(self.ids@[i as int] != self.ids@[j]);
                        } else {
                            assert(self.ids@[j] != self.ids@[i as int]);
                        }
                        assert(false);
                    }
                }
                self.records[i]
            },
            None => unreached(),
        }
    }

    /// Resolve a source material by identity: hand back the index of the
    /// record cached for it, or synthesize, cache and index a fresh one.
    pub fn prepare(&mut self, id: u64, source: &StandardMaterial) -> (idx: usize)
        requires
            old(self).wf(),
            material_wf(*source),
        ensures
            prepare_post(*old(self), *final(self), id, *source, idx),
    {
        match self.find(id) {
            Some(i) => i,
            None => {
                let idx = self.ids.len();
                self.ids.push(id);
                self.records.push(RaytraceMaterial::prepare_asset(source));
                idx
            },
        }
    }
}

/// Resolving the same source material twice within one session yields the
/// same cached record and never a duplicate: the second resolution leaves
/// the cache unchanged and returns the same index as the first.
pub proof fn lemma_prepare_idempotent(
    pre: MaterialAssets,
    mid: MaterialAssets,
    fin: MaterialAssets,
    id: u64,
    s1: StandardMaterial,
    s2: StandardMaterial,
    i1: usize,
    i2: usize,
)
    requires
        pre.wf(),
        prepare_post(pre, mid, id, s1, i1),
        prepare_post(mid, fin, id, s2, i2),
    ensures
        fin.ids@ == mid.ids@,
        fin.records@ == mid.records@,
        i2 == i1,
        fin.records@[i2 as int] == mid.records@[i1 as int],
{
    assert(mid.ids@[i1 as int] == id);
    assert(mid.spec_contains(id));
}

} // verus!
