use raytracing::bvh::{apply_permutation, build_bvh2, Model, BVHNode};
use raytracing::math::Vec3I;

fn v(x: i64, y: i64, z: i64) -> Vec3I {
    Vec3I { x, y, z }
}

fn model(x: i64, y: i64, z: i64, radius: i64, material_id: u32) -> Model {
    Model { position: v(x, y, z), radius, material_id }
}

/// The permutation is a bijection on the slots: every original index appears
/// exactly once.
fn assert_bijection(perm: &[u32], n: usize) {
    assert_eq!(perm.len(), n);
    let mut seen = vec![false; n];
    for &ix in perm {
        let ix = ix as usize;
        assert!(ix < n);
        assert!(!seen[ix], "index {} appears twice in the permutation", ix);
        seen[ix] = true;
    }
    assert!(seen.iter().all(|&s| s));
}

/// Every slot lies in exactly one leaf's range: a disjoint, gap-free cover.
fn assert_leaf_cover(nodes: &[BVHNode], n: usize) {
    let mut covered = vec![0usize; n];
    for nd in nodes {
        if nd.model_count > 0 {
            for p in nd.index..nd.index + nd.model_count {
                covered[p as usize] += 1;
            }
        }
    }
    for (p, c) in covered.iter().enumerate() {
        assert_eq!(*c, 1, "slot {} covered {} times", p, c);
    }
}

#[test]
fn build_empty_scene_degenerate_root() {
    let models: Vec<Model> = Vec::new();
    let bvh = build_bvh2(&models);
    assert_eq!(bvh.nodes.len(), 1);
    assert_eq!(bvh.nodes[0].model_count, 0);
    assert_eq!(bvh.nodes[0].index, 0);
    assert!(bvh.primitive_indices.is_empty());
}

#[test]
fn build_single_sphere() {
    let models = vec![model(100, -200, 300, 50, 0)];
    let bvh = build_bvh2(&models);
    assert_bijection(&bvh.primitive_indices, 1);
    assert_leaf_cover(&bvh.nodes, 1);
    let root = &bvh.nodes[0];
    assert_eq!(root.bounds_min, v(50, -250, 250));
    assert_eq!(root.bounds_max, v(150, -150, 350));
}

#[test]
fn build_two_spheres_root_contains_both() {
    let models = vec![model(-1000, 0, 0, 100, 0), model(1000, 0, 0, 100, 1)];
    let bvh = build_bvh2(&models);
    assert_bijection(&bvh.primitive_indices, 2);
    assert_leaf_cover(&bvh.nodes, 2);
    let root = &bvh.nodes[0];
    assert!(root.bounds_min.x <= -1100 && root.bounds_max.x >= 1100);
    assert!(root.bounds_min.y <= -100 && root.bounds_max.y >= 100);
    assert!(root.bounds_min.z <= -100 && root.bounds_max.z >= 100);
}

#[test]
fn build_grid_covers_and_permutes() {
    let mut models = Vec::new();
    for i in 0..5i64 {
        for j in 0..4i64 {
            let id = (i * 4 + j) as u32;
            models.push(model(i * 5000 - 10000, j * 3000 - 6000, (i + j) * 700, 200, id));
        }
    }
    let n = models.len();
    let bvh = build_bvh2(&models);
    assert_bijection(&bvh.primitive_indices, n);
    assert_leaf_cover(&bvh.nodes, n);
    // Every node's box contains the boxes of the models in its range.
    let reordered = apply_permutation(&models, &bvh.primitive_indices);
    for nd in &bvh.nodes {
        if nd.model_count > 0 {
            for p in nd.index..nd.index + nd.model_count {
                let m = &reordered[p as usize];
                assert!(nd.bounds_min.x <= m.position.x - m.radius);
                assert!(nd.bounds_min.y <= m.position.y - m.radius);
                assert!(nd.bounds_min.z <= m.position.z - m.radius);
                assert!(nd.bounds_max.x >= m.position.x + m.radius);
                assert!(nd.bounds_max.y >= m.position.y + m.radius);
                assert!(nd.bounds_max.z >= m.position.z + m.radius);
            }
        } else if bvh.nodes.len() > 1 {
            // Internal node: adjacent children after the parent.
            assert!((nd.index as usize) < bvh.nodes.len() - 1);
        }
    }
}

#[test]
fn build_twice_identical() {
    let models = vec![
        model(0, 0, 0, 100, 0),
        model(4000, 100, -2000, 250, 1),
        model(-3000, 2000, 1000, 50, 2),
        model(800, -900, 650, 75, 3),
        model(12000, 5000, -7000, 300, 4),
    ];
    let b1 = build_bvh2(&models);
    let b2 = build_bvh2(&models);
    assert_eq!(b1.primitive_indices, b2.primitive_indices);
    assert_eq!(b1.nodes.len(), b2.nodes.len());
    for (n1, n2) in b1.nodes.iter().zip(b2.nodes.iter()) {
        assert_eq!(n1, n2);
    }
}

#[test]
fn reordering_keeps_material_references() {
    let models = vec![
        model(-8000, 0, 0, 100, 0),
        model(8000, 0, 0, 100, 1),
        model(0, 8000, 0, 100, 2),
        model(0, -8000, 0, 100, 3),
    ];
    let bvh = build_bvh2(&models);
    let reordered = apply_permutation(&models, &bvh.primitive_indices);
    assert_eq!(reordered.len(), models.len());
    for (slot, m) in reordered.iter().enumerate() {
        // The material reference still names the original model, so it keeps
        // pointing at the correct original material after the reordering.
        let original = &models[m.material_id as usize];
        assert_eq!(m.position, original.position);
        assert_eq!(m.radius, original.radius);
        assert_eq!(m.material_id, original.material_id);
        assert_eq!(bvh.primitive_indices[slot], m.material_id);
    }
}
