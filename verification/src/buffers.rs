//! The GPU resource buffers: three write targets fully replaced once per
//! frame from the spatial index builder's output, and read once per view by
//! the compositing pass.
//!
//! The mutual exclusion between the producer (frame preparation) and the
//! consumer (draw submission) lives with the caller, which owns the locks;
//! `prepare_buffers` receives the try-lock outcomes as plain values. When a
//! lock cannot be taken the frame's update is skipped and the buffers keep
//! their last successfully populated contents — the degraded-frame policy.

use vstd::prelude::*;
use crate::bvh::{
    apply_permutation, apply_permutation_spec, build_bvh2, ident_seq, lemma_perm_bounds,
    lemma_wf_after_reorder, models_wf, tree_wf, BVHNode, Model, MAX_MODELS,
};
use crate::extract::{MaterialAssets, RaytraceMaterial, RaytracedSphereExtract};
use crate::math::{bounded, COORD_MAX, RADIUS_MAX};

verus! {

/// The geometry buffer: the frame's models, physically reordered by the
/// spatial index's permutation.
pub struct ModelBuffer {
    pub data: Vec<Model>,
    pub populated: bool,
}

/// The material buffer, in original enumeration order: a model's
/// `material_id` indexes it directly.
pub struct MaterialBuffer {
    pub data: Vec<RaytraceMaterial>,
    pub populated: bool,
}

/// The spatial-index buffer: the flat node array over the reordered models.
pub struct BVHBuffer {
    pub data: Vec<BVHNode>,
    pub ranges: Ghost<Seq<(int, int)>>,
    pub populated: bool,
}

impl Default for ModelBuffer {
    /// An empty, never-populated buffer.
    fn default() -> (r: ModelBuffer)
        ensures
            r.data@ == Seq::<Model>::empty(),
            !r.populated,
    {
        ModelBuffer { data: Vec::new(), populated: false }
    }
}

impl Default for MaterialBuffer {
    /// An empty, never-populated buffer.
    fn default() -> (r: MaterialBuffer)
        ensures
            r.data@ == Seq::<RaytraceMaterial>::empty(),
            !r.populated,
    {
        MaterialBuffer { data: Vec::new(), populated: false }
    }
}

impl Default for BVHBuffer {
    /// An empty, never-populated buffer.
    fn default() -> (r: BVHBuffer)
        ensures
            r.data@ == Seq::<BVHNode>::empty(),
            !r.populated,
    {
        BVHBuffer { data: Vec::new(), ranges: Ghost(Seq::empty()), populated: false }
    }
}

/// The outcome of trying to take each buffer family's lock for this frame.
#[derive(Clone, Copy, PartialEq, Eq, Structural, Debug)]
pub struct BufferLocks {
    pub model: bool,
    pub material: bool,
    pub bvh: bool,
}

/// Coherence of the three buffer families as the draw stage relies on it:
/// either none has ever been populated, or the spatial index is sound
/// against the reordered geometry and every material reference is in range.
pub open spec fn frame_buffers_wf(mb: ModelBuffer, matb: MaterialBuffer, bb: BVHBuffer) -> bool {
    &&& mb.populated == matb.populated
    &&& mb.populated == bb.populated
    &&& mb.populated ==> {
        &&& models_wf(mb.data@)
        &&& mb.data@.len() <= MAX_MODELS
        &&& tree_wf(bb.data@, bb.ranges@, mb.data@)
        &&& forall|p: int|
            0 <= p < mb.data@.len() ==> (#[trigger] mb.data@[p]).material_id < matb.data@.len()
        &&& forall|i: int| 0 <= i < matb.data@.len() ==> (#[trigger] matb.data@[i]).wf()
    }
}

/// A sphere snapshot the buffer producer accepts.
pub open spec fn sphere_extract_wf(e: RaytracedSphereExtract) -> bool {
    &&& 0 < e.radius <= RADIUS_MAX
    &&& bounded(e.position, COORD_MAX)
}

/// The frame's models in enumeration order: sphere `i` tagged with material
/// reference `i`.
pub open spec fn spec_models(data: Seq<(RaytracedSphereExtract, u64)>) -> Seq<Model> {
    Seq::new(
        data.len(),
        |i: int|
            Model { position: data[i].0.position, radius: data[i].0.radius, material_id: i as u32 },
    )
}

/// The frame's material records in enumeration order.
pub open spec fn spec_materials(
    data: Seq<(RaytracedSphereExtract, u64)>,
    materials: MaterialAssets,
) -> Seq<RaytraceMaterial> {
    Seq::new(data.len(), |i: int| materials.spec_record(data[i].1))
}

/// Applying a permutation leaves the multiset of models unchanged.
proof fn lemma_apply_perm_multiset(models: Seq<Model>, perm: Seq<u32>, target: Seq<u32>)
    requires
        perm.to_multiset() == target.to_multiset(),
        forall|p: int| 0 <= p < perm.len() ==> (#[trigger] perm[p]) < models.len(),
        forall|p: int| 0 <= p < target.len() ==> (#[trigger] target[p]) < models.len(),
    ensures
        apply_permutation_spec(models, perm).to_multiset() == apply_permutation_spec(
            models,
            target,
        ).to_multiset(),
    decreases perm.len(),
{
    perm.to_multiset_ensures();
    target.to_multiset_ensures();
    if perm.len() == 0 {
        assert(target.len() == 0);
        assert(apply_permutation_spec(models, perm) =~= apply_permutation_spec(models, target));
    } else {
        let x = perm[0];
        assert(perm.contains(x));
        assert(target.to_multiset().count(x) > 0);
        assert(target.contains(x));
        let i = choose|i: int| 0 <= i < target.len() && target[i] == x;
        vstd::seq_lib::to_multiset_remove(perm, 0);
        vstd::seq_lib::to_multiset_remove(target, i);
        assert(perm.remove(0) =~= perm.drop_first());
        assert(perm.drop_first().to_multiset() =~= target.remove(i).to_multiset());
        assert forall|p: int|
            0 <= p < target.remove(i).len() implies (#[trigger] target.remove(i)[p])
            < models.len() by {
            if p < i {
                assert(target.remove(i)[p] == target[p]);
            } else {
                assert(target.remove(i)[p] == target[p + 1]);
            }
        }
        assert forall|p: int|
            0 <= p < perm.drop_first().len() implies (#[trigger] perm.drop_first()[p])
            < models.len() by {
            assert(perm.drop_first()[p] == perm[p + 1]);
        }
        lemma_apply_perm_multiset(models, perm.drop_first(), target.remove(i));
        let ap = apply_permutation_spec(models, perm);
        let at = apply_permutation_spec(models, target);
        assert(ap.remove(0) =~= apply_permutation_spec(models, perm.drop_first()));
        assert(at.remove(i) =~= apply_permutation_spec(models, target.remove(i)));
        vstd::seq_lib::to_multiset_remove(ap, 0);
        vstd::seq_lib::to_multiset_remove(at, i);
        assert(ap[0] == models[x as int]);
        assert(at[i] == models[x as int]);
        ap.to_multiset_ensures();
        at.to_multiset_ensures();
        assert(ap.contains(ap[0]));
        assert(at.contains(at[i]));
        assert(ap.to_multiset().count(models[x as int]) > 0);
        assert(at.to_multiset().count(models[x as int]) > 0);
        assert forall|v: Model| ap.to_multiset().count(v) == at.to_multiset().count(v) by {
            assert(ap.to_multiset().remove(models[x as int]).count(v) == at.to_multiset().remove(
                models[x as int],
            ).count(v));
        }
        assert(ap.to_multiset() =~= at.to_multiset());
    }
}

/// Populate the three buffer families for the frame: resolve each sphere's
/// material, rebuild the spatial index from scratch, reorder the geometry by
/// the index's permutation, and replace all three contents. If any lock was
/// not obtained, nothing is written and the last populated contents stand.
pub fn prepare_buffers(
    model_buffer: &mut ModelBuffer,
    material_buffer: &mut MaterialBuffer,
    bvh_buffer: &mut BVHBuffer,
    locks: BufferLocks,
    data: &Vec<(RaytracedSphereExtract, u64)>,
    materials: &MaterialAssets,
) -> (ok: bool)
    requires
        materials.wf(),
        data@.len() <= MAX_MODELS,
        forall|i: int| 0 <= i < data@.len() ==> sphere_extract_wf((#[trigger] data@[i]).0),
        forall|i: int| 0 <= i < data@.len() ==> materials.spec_contains((#[trigger] data@[i]).1),
    ensures
        ok == (locks.model && locks.material && locks.bvh),
        !ok ==> *final(model_buffer) == *old(model_buffer) && *final(material_buffer) == *old(
            material_buffer,
        ) && *final(bvh_buffer) == *old(bvh_buffer),
        ok ==> {
            &&& final(material_buffer).data@ == spec_materials(data@, *materials)
            &&& final(model_buffer).data@.len() == data@.len()
            &&& final(model_buffer).data@.to_multiset() == spec_models(data@).to_multiset()
            &&& forall|p: int|
                0 <= p < data@.len() ==> {
                    let m = (#[trigger] final(model_buffer).data@[p]);
                    &&& m.material_id < data@.len()
                    &&& m == spec_models(data@)[m.material_id as int]
                }
            &&& final(model_buffer).populated
            &&& final(material_buffer).populated
            &&& final(bvh_buffer).populated
            &&& frame_buffers_wf(*final(model_buffer), *final(material_buffer), *final(bvh_buffer))
        },
{
    if !(locks.model && locks.material && locks.bvh) {
        return false;
    }
    let mut all_spheres: Vec<Model> = Vec::new();
    let mut all_materials: Vec<RaytraceMaterial> = Vec::new();
    let mut index: usize = 0;
    while index < data.len()
        invariant
            index <= data@.len() <= MAX_MODELS,
            materials.wf(),
            forall|i: int| 0 <= i < data@.len() ==> sphere_extract_wf((#[trigger] data@[i]).0),
            forall|i: int|
                0 <= i < data@.len() ==> materials.spec_contains((#[trigger] data@[i]).1),
            all_spheres@.len() == index,
            all_materials@.len() == index,
            forall|i: int| 0 <= i < index ==> #[trigger] all_spheres@[i] == spec_models(data@)[i],
            forall|i: int|
                0 <= i < index ==> #[trigger] all_materials@[i] == spec_materials(
                    data@,
                    *materials,
                )[i],
        decreases data@.len() - index,
    {
        let (sphere, material_handle) = &data[index];
        let material = materials.get(*material_handle);
        all_materials.push(material);
        all_spheres.push(
            Model { position: sphere.position, radius: sphere.radius, material_id: index as u32 },
        );
        index = index + 1;
    }
    proof {
        assert(all_spheres@ =~= spec_models(data@));
        assert(all_materials@ =~= spec_materials(data@, *materials));
        assert forall|i: int| 0 <= i < all_spheres@.len() implies (
        #[trigger] all_spheres@[i]).wf() by {
            assert(sphere_extract_wf(data@[i].0));
        }
    }
    let bvh = build_bvh2(&all_spheres);
    proof {
        lemma_perm_bounds(bvh.primitive_indices@, all_spheres@.len() as nat);
    }
    let reordered = apply_permutation(&all_spheres, &bvh.primitive_indices);
    proof {
        lemma_wf_after_reorder(bvh, all_spheres@);
        lemma_apply_perm_multiset(
            all_spheres@,
            bvh.primitive_indices@,
            ident_seq(all_spheres@.len() as nat),
        );
        assert(apply_permutation_spec(all_spheres@, ident_seq(all_spheres@.len() as nat))
            =~= all_spheres@);
        assert forall|p: int|
            0 <= p < data@.len() implies {
            let m = (#[trigger] reordered@[p]);
            &&& m.material_id < data@.len()
            &&& m == spec_models(data@)[m.material_id as int]
        } by {
            let k = bvh.primitive_indices@[p];
            assert(reordered@[p] == all_spheres@[k as int]);
            assert(all_spheres@[k as int].material_id == k);
        }
    }
    proof {
        assert forall|i: int|
            0 <= i < spec_materials(data@, *materials).len() implies (#[trigger] spec_materials(
            data@,
            *materials,
        )[i]).wf() by {
            assert(materials.spec_contains(data@[i].1));
            let j = materials.spec_index_of(data@[i].1);
            assert(0 <= j < materials.ids@.len() && materials.ids@[j] == data@[i].1);
            assert(materials.records@[j].wf());
        }
    }
    model_buffer.data = reordered;
    model_buffer.populated = true;
    material_buffer.data = all_materials;
    material_buffer.populated = true;
    let ghost r = bvh.ranges@;
    bvh_buffer.data = bvh.nodes;
    bvh_buffer.ranges = Ghost(r);
    bvh_buffer.populated = true;
    true
}

} // verus!
