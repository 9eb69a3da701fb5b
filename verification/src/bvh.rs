//! The spatial index: a bounding volume hierarchy rebuilt from scratch every
//! frame over the frame's primitive snapshot.
//!
//! `build_bvh2` consumes the frame's models and produces a permutation of
//! their slots together with a flat node array. A node is a leaf when its
//! `model_count` is positive; it then covers the contiguous slot range
//! starting at `index` in the permuted model array. Otherwise `index` points
//! at its first child and the second child sits directly after it. The
//! builder favors construction speed over query quality: it splits each
//! range at the midpoint of the centroid bounds along the widest axis,
//! falling back to an even split when every centroid lands on one side.

use vstd::prelude::*;
use vstd::seq_lib::lemma_multiset_commutative;
use vstd::multiset::Multiset;
use crate::math::{
    Aabb, Vec3I, aabb_union, aabb_wf, bounded, box_contains_box, max64, min64, spec_max64,
    spec_min64, COORD_MAX, RADIUS_MAX,
};

verus! {

/// Largest number of models one build accepts; keeps every node index within
/// `u32` and every slot within `usize`.
pub const MAX_MODELS: usize = 0x4000_0000;

/// Largest number of models a leaf node covers.
pub const LEAF_MAX: usize = 2;

/// One model as stored in the geometry buffer: an analytic sphere plus the
/// index of its material record, assigned in original enumeration order.
#[derive(Clone, Copy, PartialEq, Eq, Structural, Debug)]
pub struct Model {
    pub position: Vec3I,
    pub radius: i64,
    pub material_id: u32,
}

impl Model {
    /// A model within the world bounds.
    pub open spec fn wf(self) -> bool {
        &&& 0 < self.radius <= RADIUS_MAX
        &&& bounded(self.position, COORD_MAX)
    }

    /// The model's bounding box: its center pushed out by its radius along
    /// every axis.
    pub open spec fn spec_aabb(self) -> Aabb {
        Aabb {
            min: Vec3I {
                x: (self.position.x - self.radius) as i64,
                y: (self.position.y - self.radius) as i64,
                z: (self.position.z - self.radius) as i64,
            },
            max: Vec3I {
                x: (self.position.x + self.radius) as i64,
                y: (self.position.y + self.radius) as i64,
                z: (self.position.z + self.radius) as i64,
            },
        }
    }

    /// The model's bounding box.
    pub fn aabb(&self) -> (r: Aabb)
        requires
            self.wf(),
        ensures
            r == self.spec_aabb(),
            aabb_wf(r),
    {
        Aabb {
            min: Vec3I {
                x: self.position.x - self.radius,
                y: self.position.y - self.radius,
                z: self.position.z - self.radius,
            },
            max: Vec3I {
                x: self.position.x + self.radius,
                y: self.position.y + self.radius,
                z: self.position.z + self.radius,
            },
        }
    }
}

/// Every model of the sequence is well formed.
pub open spec fn models_wf(models: Seq<Model>) -> bool {
    forall|i: int| 0 <= i < models.len() ==> #[trigger] models[i].wf()
}

/// One spatial-index node. A positive `model_count` marks a leaf covering
/// `model_count` slots starting at `index`; a zero count marks an internal
/// node whose children are `index` and `index + 1`.
#[derive(Clone, Copy, PartialEq, Eq, Structural, Debug)]
pub struct BVHNode {
    pub bounds_min: Vec3I,
    pub bounds_max: Vec3I,
    pub index: u32,
    pub model_count: u32,
}

/// The node's bounding box.
pub open spec fn node_box(nd: BVHNode) -> Aabb {
    Aabb { min: nd.bounds_min, max: nd.bounds_max }
}

/// The node an empty build produces: a degenerate root covering nothing.
pub open spec fn spec_empty_node() -> BVHNode {
    BVHNode {
        bounds_min: Vec3I { x: 0, y: 0, z: 0 },
        bounds_max: Vec3I { x: 0, y: 0, z: 0 },
        index: 0,
        model_count: 0,
    }
}

/// The identity permutation of `n` slots.
pub open spec fn ident_seq(n: nat) -> Seq<u32> {
    Seq::new(n, |i: int| i as u32)
}

/// `perm` is a permutation of the slots `0 .. n`.
pub open spec fn perm_of(perm: Seq<u32>, n: nat) -> bool {
    &&& perm.len() == n
    &&& perm.to_multiset() == ident_seq(n).to_multiset()
}

/// The bounding boxes of the models as seen through the permutation:
/// entry `p` is the box of the model that ends up in slot `p`.
pub open spec fn permuted_boxes(models: Seq<Model>, perm: Seq<u32>) -> Seq<Aabb> {
    Seq::new(perm.len(), |p: int| models[perm[p] as int].spec_aabb())
}

/// Structural soundness of node `j` against the slot ranges: a leaf's stored
/// span is its range, an internal node's adjacent children split its range
/// into two non-empty halves, and children come after their parent.
pub open spec fn node_ok(nodes: Seq<BVHNode>, ranges: Seq<(int, int)>, n: int, j: int) -> bool {
    let nd = nodes[j];
    let lo = ranges[j].0;
    let hi = ranges[j].1;
    &&& 0 <= lo < hi <= n
    &&& aabb_wf(node_box(nd))
    &&& if nd.model_count > 0 {
        &&& nd.index as int == lo
        &&& nd.index as int + nd.model_count as int == hi
    } else {
        let c = nd.index as int;
        &&& j < c
        &&& c + 1 < ranges.len()
        &&& ranges[c].0 == lo
        &&& ranges[c].1 == ranges[c + 1].0
        &&& ranges[c + 1].1 == hi
        &&& ranges[c].0 < ranges[c].1
        &&& ranges[c + 1].0 < ranges[c + 1].1
    }
}

/// Node `j`'s box contains the box of every model in its slot range.
pub open spec fn node_box_ok(
    nodes: Seq<BVHNode>,
    ranges: Seq<(int, int)>,
    boxes: Seq<Aabb>,
    j: int,
) -> bool {
    forall|p: int|
        ranges[j].0 <= p < ranges[j].1 ==> box_contains_box(node_box(nodes[j]), #[trigger] boxes[p])
}

/// How many of the leaf nodes' ranges contain the slot `k`.
pub open spec fn leaf_cnt(nodes: Seq<BVHNode>, ranges: Seq<(int, int)>, k: int) -> nat
    decreases nodes.len(),
{
    if nodes.len() == 0 {
        0
    } else {
        (if nodes[0].model_count > 0 && ranges[0].0 <= k < ranges[0].1 {
            1nat
        } else {
            0nat
        }) + leaf_cnt(nodes.drop_first(), ranges.drop_first(), k)
    }
}

/// How many of the ranges contain the slot `k`.
pub open spec fn range_cnt(ranges: Seq<(int, int)>, k: int) -> nat
    decreases ranges.len(),
{
    if ranges.len() == 0 {
        0
    } else {
        (if ranges[0].0 <= k < ranges[0].1 {
            1nat
        } else {
            0nat
        }) + range_cnt(ranges.drop_first(), k)
    }
}

/// The slot ranges of a work queue, as mathematical integers.
pub open spec fn rngs(q: Seq<(usize, usize)>) -> Seq<(int, int)> {
    q.map_values(|pr: (usize, usize)| (pr.0 as int, pr.1 as int))
}

/// The spatial index: the flat node array, the slot permutation, and (ghost)
/// the slot range each node covers.
pub struct Bvh {
    pub nodes: Vec<BVHNode>,
    pub primitive_indices: Vec<u32>,
    pub ranges: Ghost<Seq<(int, int)>>,
}

impl Bvh {
    /// Full well-formedness against the frame's models: the permutation is a
    /// bijection on the slots, every node is structurally sound, every
    /// node's box contains its models' boxes, and the leaf ranges cover
    /// every slot exactly once.
    pub open spec fn wf(self, models: Seq<Model>) -> bool {
        let n = models.len() as int;
        let nodes = self.nodes@;
        let ranges = self.ranges@;
        let perm = self.primitive_indices@;
        &&& perm_of(perm, models.len())
        &&& ranges.len() == nodes.len()
        &&& 1 <= nodes.len()
        &&& if n == 0 {
            nodes == seq![spec_empty_node()] && ranges == seq![(0int, 0int)]
        } else {
            &&& ranges[0] == (0int, n)
            &&& forall|j: int| 0 <= j < nodes.len() ==> #[trigger] node_ok(nodes, ranges, n, j)
            &&& forall|j: int|
                0 <= j < nodes.len() ==> #[trigger] node_box_ok(
                    nodes,
                    ranges,
                    permuted_boxes(models, perm),
                    j,
                )
            &&& forall|k: int| 0 <= k < n ==> #[trigger] leaf_cnt(nodes, ranges, k) == 1
        }
    }
}

proof fn lemma_range_cnt_concat(a: Seq<(int, int)>, b: Seq<(int, int)>, k: int)
    ensures
        range_cnt(a + b, k) == range_cnt(a, k) + range_cnt(b, k),
    decreases a.len(),
{
    if a.len() == 0 {
        assert(a + b =~= b);
    } else {
        assert((a + b).drop_first() =~= a.drop_first() + b);
        lemma_range_cnt_concat(a.drop_first(), b, k);
    }
}

proof fn lemma_leaf_cnt_push(
    nodes: Seq<BVHNode>,
    ranges: Seq<(int, int)>,
    nd: BVHNode,
    r: (int, int),
    k: int,
)
    requires
        nodes.len() == ranges.len(),
    ensures
        leaf_cnt(nodes.push(nd), ranges.push(r), k) == leaf_cnt(nodes, ranges, k) + (
        if nd.model_count > 0 && r.0 <= k < r.1 {
            1nat
        } else {
            0nat
        }),
    decreases nodes.len(),
{
    if nodes.len() == 0 {
        assert(nodes.push(nd)[0] == nd);
        assert(ranges.push(r)[0] == r);
        assert(nodes.push(nd).drop_first() =~= Seq::<BVHNode>::empty());
        assert(ranges.push(r).drop_first() =~= Seq::<(int, int)>::empty());
        assert(leaf_cnt(Seq::<BVHNode>::empty(), Seq::<(int, int)>::empty(), k) == 0);
    } else {
        assert(nodes.push(nd).drop_first() =~= nodes.drop_first().push(nd));
        assert(ranges.push(r).drop_first() =~= ranges.drop_first().push(r));
        lemma_leaf_cnt_push(nodes.drop_first(), ranges.drop_first(), nd, r, k);
    }
}

/// A slot contained in the range at `q` is counted at least once.
proof fn lemma_range_cnt_at(rs: Seq<(int, int)>, q: int, k: int)
    requires
        0 <= q < rs.len(),
        rs[q].0 <= k < rs[q].1,
    ensures
        range_cnt(rs, k) >= 1,
    decreases rs.len(),
{
    if q > 0 {
        lemma_range_cnt_at(rs.drop_first(), q - 1, k);
    }
}

/// A slot contained in two distinct ranges is counted at least twice.
proof fn lemma_range_cnt_two(rs: Seq<(int, int)>, q1: int, q2: int, k: int)
    requires
        0 <= q1 < q2 < rs.len(),
        rs[q1].0 <= k < rs[q1].1,
        rs[q2].0 <= k < rs[q2].1,
    ensures
        range_cnt(rs, k) >= 2,
    decreases rs.len(),
{
    if q1 == 0 {
        lemma_range_cnt_at(rs.drop_first(), q2 - 1, k);
    } else {
        lemma_range_cnt_two(rs.drop_first(), q1 - 1, q2 - 1, k);
    }
}

/// The termination and size measure of a work list: each range of length
/// `L` still accounts for the `2 L - 1` nodes its subtree will emit.
spec fn wsum(rs: Seq<(int, int)>) -> int
    decreases rs.len(),
{
    if rs.len() == 0 {
        0
    } else {
        2 * (rs[0].1 - rs[0].0) - 1 + wsum(rs.drop_first())
    }
}

proof fn lemma_wsum_concat(a: Seq<(int, int)>, b: Seq<(int, int)>)
    ensures
        wsum(a + b) == wsum(a) + wsum(b),
    decreases a.len(),
{
    if a.len() == 0 {
        assert(a + b =~= b);
    } else {
        assert((a + b).drop_first() =~= a.drop_first() + b);
        lemma_wsum_concat(a.drop_first(), b);
    }
}

proof fn lemma_range_cnt_pair(a: (int, int), b: (int, int), k: int)
    ensures
        range_cnt(seq![a, b], k) == (if a.0 <= k < a.1 {
            1nat
        } else {
            0nat
        }) + (if b.0 <= k < b.1 {
            1nat
        } else {
            0nat
        }),
{
    assert(seq![a, b].drop_first() =~= seq![b]);
    assert(seq![b].drop_first() =~= Seq::<(int, int)>::empty());
    assert(range_cnt(Seq::<(int, int)>::empty(), k) == 0);
    assert(range_cnt(seq![b], k) == (if b.0 <= k < b.1 {
        1nat
    } else {
        0nat
    }));
}

proof fn lemma_wsum_pair(a: (int, int), b: (int, int))
    ensures
        wsum(seq![a, b]) == 2 * (a.1 - a.0) - 1 + 2 * (b.1 - b.0) - 1,
{
    assert(seq![a, b].drop_first() =~= seq![b]);
    assert(seq![b].drop_first() =~= Seq::<(int, int)>::empty());
    assert(wsum(Seq::<(int, int)>::empty()) == 0);
    assert(wsum(seq![b]) == 2 * (b.1 - b.0) - 1);
}

proof fn lemma_wsum_ge_len(rs: Seq<(int, int)>)
    requires
        forall|q: int| 0 <= q < rs.len() ==> rs[q].0 < rs[q].1,
    ensures
        wsum(rs) >= rs.len(),
    decreases rs.len(),
{
    if rs.len() > 0 {
        assert(forall|q: int|
            0 <= q < rs.drop_first().len() ==> #[trigger] rs.drop_first()[q].0
                < rs.drop_first()[q].1);
        lemma_wsum_ge_len(rs.drop_first());
    }
}

/// Two sequences with equal multisets: every element of the one appears
/// somewhere in the other.
proof fn lemma_multiset_pointwise(a: Seq<u32>, b: Seq<u32>)
    requires
        a.to_multiset() == b.to_multiset(),
    ensures
        forall|p: int| 0 <= p < b.len() ==> a.contains(#[trigger] b[p]),
{
    assert forall|p: int| 0 <= p < b.len() implies a.contains(#[trigger] b[p]) by {
        a.to_multiset_ensures();
        b.to_multiset_ensures();
        let x = b[p];
        assert(b.contains(x));
        assert(b.to_multiset().count(x) > 0);
        assert(a.to_multiset().count(x) > 0);
    }
}

proof fn lemma_to_multiset_empty_u32()
    ensures
        Seq::<u32>::empty().to_multiset() == Multiset::<u32>::empty(),
{
    Seq::<u32>::empty().to_multiset_ensures();
    assert forall|x: u32|
        Seq::<u32>::empty().to_multiset().count(x) == Multiset::<u32>::empty().count(x) by {
        assert(!Seq::<u32>::empty().contains(x));
    }
    assert(Seq::<u32>::empty().to_multiset() =~= Multiset::<u32>::empty());
}

/// Replacing a stretch of a sequence by one with the same multiset keeps the
/// whole sequence's multiset.
proof fn lemma_multiset_splice(a: Seq<u32>, b: Seq<u32>, lo: int, hi: int)
    requires
        0 <= lo <= hi <= a.len(),
        b.len() == a.len(),
        forall|p: int| 0 <= p < lo ==> a[p] == b[p],
        forall|p: int| hi <= p < a.len() ==> a[p] == b[p],
        a.subrange(lo, hi).to_multiset() == b.subrange(lo, hi).to_multiset(),
    ensures
        a.to_multiset() == b.to_multiset(),
{
    assert(a =~= a.subrange(0, lo) + a.subrange(lo, hi) + a.subrange(hi, a.len() as int));
    assert(b =~= b.subrange(0, lo) + b.subrange(lo, hi) + b.subrange(hi, b.len() as int));
    assert(a.subrange(0, lo) =~= b.subrange(0, lo));
    assert(a.subrange(hi, a.len() as int) =~= b.subrange(hi, b.len() as int));
    lemma_multiset_commutative(a.subrange(0, lo) + a.subrange(lo, hi), a.subrange(hi, a.len() as int));
    lemma_multiset_commutative(a.subrange(0, lo), a.subrange(lo, hi));
    lemma_multiset_commutative(b.subrange(0, lo) + b.subrange(lo, hi), b.subrange(hi, b.len() as int));
    lemma_multiset_commutative(b.subrange(0, lo), b.subrange(lo, hi));
}

/// A pending range is nested inside or disjoint from an emitted node's range.
pub open spec fn range_split(pending: (int, int), emitted: (int, int)) -> bool {
    ||| (emitted.0 <= pending.0 && pending.1 <= emitted.1)
    ||| pending.1 <= emitted.0
    ||| emitted.1 <= pending.0
}

/// Everything the builder's work loop maintains: the permutation stays a
/// bijection, emitted nodes are structurally sound with correct boxes,
/// pending ranges nest into emitted ones, and the emitted leaves plus the
/// pending ranges cover every slot exactly once.
spec fn build_inv(
    models: Seq<Model>,
    idxs: Seq<u32>,
    queue: Seq<(usize, usize)>,
    out: Seq<BVHNode>,
    i: int,
) -> bool {
    let n = models.len() as int;
    let q = rngs(queue);
    &&& 1 <= n <= MAX_MODELS as int
    &&& models_wf(models)
    &&& idxs.len() == n
    &&& (forall|p: int| 0 <= p < n ==> #[trigger] idxs[p] < n)
    &&& idxs.to_multiset() == ident_seq(n as nat).to_multiset()
    &&& out.len() == i
    &&& 0 <= i <= q.len()
    &&& 1 <= q.len()
    &&& q[0] == (0int, n)
    &&& (forall|s: int| 0 <= s < q.len() ==> 0 <= (#[trigger] q[s]).0 < q[s].1 <= n)
    &&& (forall|j: int| 0 <= j < i ==> #[trigger] node_ok(out, q, n, j))
    &&& (forall|j: int| 0 <= j < i ==> #[trigger] node_box_ok(out, q, permuted_boxes(models, idxs), j))
    &&& (forall|s: int, j: int|
        i <= s < q.len() && 0 <= j < i ==> #[trigger] range_split(q[s], q[j]))
    &&& (forall|k: int|
        0 <= k < n ==> leaf_cnt(out, q.subrange(0, i), k) + #[trigger] range_cnt(
            q.subrange(i, q.len() as int),
            k,
        ) == 1)
    &&& i + wsum(q.subrange(i, q.len() as int)) <= 2 * n - 1
}

/// A node stays sound when the node array and the range list only grow.
proof fn lemma_node_ok_extend(
    nodes0: Seq<BVHNode>,
    nodes1: Seq<BVHNode>,
    r0: Seq<(int, int)>,
    r1: Seq<(int, int)>,
    n: int,
    j: int,
)
    requires
        node_ok(nodes0, r0, n, j),
        0 <= j < nodes0.len() <= nodes1.len(),
        nodes1[j] == nodes0[j],
        r0.len() <= r1.len(),
        0 <= j < r0.len(),
        forall|s: int| 0 <= s < r0.len() ==> r1[s] == r0[s],
    ensures
        node_ok(nodes1, r1, n, j),
{
}

/// A node's box keeps containing its models when the slots of one range are
/// permuted, provided that range nests into or avoids the node's range.
proof fn lemma_box_ok_after_permute(
    models: Seq<Model>,
    idxs0: Seq<u32>,
    idxs1: Seq<u32>,
    lo: int,
    hi: int,
    nd_box: Aabb,
    rlo: int,
    rhi: int,
)
    requires
        idxs0.len() == idxs1.len(),
        0 <= lo <= hi <= idxs0.len(),
        forall|p: int| 0 <= p < idxs0.len() && !(lo <= p < hi) ==> idxs1[p] == idxs0[p],
        idxs1.subrange(lo, hi).to_multiset() == idxs0.subrange(lo, hi).to_multiset(),
        0 <= rlo && rhi <= idxs0.len(),
        (rlo <= lo && hi <= rhi) || rhi <= lo || hi <= rlo,
        forall|p: int|
            rlo <= p < rhi ==> box_contains_box(nd_box, #[trigger] permuted_boxes(models, idxs0)[p]),
    ensures
        forall|p: int|
            rlo <= p < rhi ==> box_contains_box(nd_box, #[trigger] permuted_boxes(models, idxs1)[p]),
{
    lemma_multiset_pointwise(idxs0.subrange(lo, hi), idxs1.subrange(lo, hi));
    assert forall|p: int|
        rlo <= p < rhi implies box_contains_box(
        nd_box,
        #[trigger] permuted_boxes(models, idxs1)[p],
    ) by {
        if lo <= p < hi {
            let x = idxs1.subrange(lo, hi)[p - lo];
            assert(idxs0.subrange(lo, hi).contains(x));
            let q = choose|q: int|
                0 <= q < idxs0.subrange(lo, hi).len() && idxs0.subrange(lo, hi)[q] == x;
            assert(idxs0[lo + q] == x);
            assert(idxs1[p] == x);
            assert(rlo <= lo + q < rhi);
            assert(permuted_boxes(models, idxs1)[p] == permuted_boxes(models, idxs0)[lo + q]);
        } else {
            assert(permuted_boxes(models, idxs1)[p] == permuted_boxes(models, idxs0)[p]);
        }
    }
}

/// The box the builder computes for a slot range: the fold of the models'
/// boxes from the low slot upward.
pub open spec fn spec_box_of(models: Seq<Model>, idxs: Seq<u32>, lo: int, hi: int) -> Aabb
    decreases hi - lo,
{
    if hi <= lo + 1 {
        models[idxs[lo] as int].spec_aabb()
    } else {
        aabb_union(spec_box_of(models, idxs, lo, hi - 1), models[idxs[hi - 1] as int].spec_aabb())
    }
}

/// The centroid bounds of a slot range: the componentwise minimum and
/// maximum of the spheres' centers, folded from the low slot upward.
pub open spec fn spec_cbounds(models: Seq<Model>, idxs: Seq<u32>, lo: int, hi: int) -> (
    Vec3I,
    Vec3I,
)
    decreases hi - lo,
{
    if hi <= lo + 1 {
        (models[idxs[lo] as int].position, models[idxs[lo] as int].position)
    } else {
        let prev = spec_cbounds(models, idxs, lo, hi - 1);
        let c = models[idxs[hi - 1] as int].position;
        (
            Vec3I {
                x: spec_min64(prev.0.x, c.x),
                y: spec_min64(prev.0.y, c.y),
                z: spec_min64(prev.0.z, c.z),
            },
            Vec3I {
                x: spec_max64(prev.1.x, c.x),
                y: spec_max64(prev.1.y, c.y),
                z: spec_max64(prev.1.z, c.z),
            },
        )
    }
}

/// The widest centroid axis; ties fall to the earlier axis.
pub open spec fn spec_split_axis(cmin: Vec3I, cmax: Vec3I) -> u32 {
    let ex = if cmax.x >= cmin.x {
        cmax.x - cmin.x
    } else {
        0
    };
    let ey = if cmax.y >= cmin.y {
        cmax.y - cmin.y
    } else {
        0
    };
    let ez = if cmax.z >= cmin.z {
        cmax.z - cmin.z
    } else {
        0
    };
    if ex >= ey && ex >= ez {
        0
    } else if ey >= ez {
        1
    } else {
        2
    }
}

/// The low centroid bound along the chosen axis.
pub open spec fn spec_axis_min(cb: (Vec3I, Vec3I), axis: u32) -> i64 {
    if axis == 0 {
        cb.0.x
    } else if axis == 1 {
        cb.0.y
    } else {
        cb.0.z
    }
}

/// The high centroid bound along the chosen axis.
pub open spec fn spec_axis_max(cb: (Vec3I, Vec3I), axis: u32) -> i64 {
    if axis == 0 {
        cb.1.x
    } else if axis == 1 {
        cb.1.y
    } else {
        cb.1.z
    }
}

/// A model goes to the left side when twice its centroid lies below the sum
/// of the bounds, that is, below the midpoint of the centroid bounds.
pub open spec fn spec_goes_left(m: Model, axis: u32, smin: i64, smax: i64) -> bool {
    let cc = if axis == 0 {
        m.position.x
    } else if axis == 1 {
        m.position.y
    } else {
        m.position.z
    };
    2 * cc < smin + smax
}

/// The slots of `sub` whose models fall on the chosen side, keeping order.
pub open spec fn spec_sel(
    models: Seq<Model>,
    sub: Seq<u32>,
    axis: u32,
    smin: i64,
    smax: i64,
    keep_left: bool,
) -> Seq<u32>
    decreases sub.len(),
{
    if sub.len() == 0 {
        Seq::empty()
    } else {
        let rest = spec_sel(models, sub.drop_last(), axis, smin, smax, keep_left);
        if spec_goes_left(models[sub.last() as int], axis, smin, smax) == keep_left {
            rest.push(sub.last())
        } else {
            rest
        }
    }
}

/// The left side of the partition of the slot range `lo .. hi`.
pub open spec fn spec_partition_left(models: Seq<Model>, idxs: Seq<u32>, lo: int, hi: int) -> Seq<
    u32,
> {
    let cb = spec_cbounds(models, idxs, lo, hi);
    let axis = spec_split_axis(cb.0, cb.1);
    spec_sel(models, idxs.subrange(lo, hi), axis, spec_axis_min(cb, axis), spec_axis_max(cb, axis), true)
}

/// The right side of the partition of the slot range `lo .. hi`.
pub open spec fn spec_partition_right(models: Seq<Model>, idxs: Seq<u32>, lo: int, hi: int) -> Seq<
    u32,
> {
    let cb = spec_cbounds(models, idxs, lo, hi);
    let axis = spec_split_axis(cb.0, cb.1);
    spec_sel(models, idxs.subrange(lo, hi), axis, spec_axis_min(cb, axis), spec_axis_max(cb, axis), false)
}

/// What partitioning a slot range does: the stably partitioned slots and
/// the split point, or an even split keeping order when every centroid
/// lands on one side.
pub open spec fn spec_partition(models: Seq<Model>, idxs: Seq<u32>, lo: int, hi: int) -> (
    Seq<u32>,
    int,
) {
    let left = spec_partition_left(models, idxs, lo, hi);
    let right = spec_partition_right(models, idxs, lo, hi);
    if left.len() == 0 || right.len() == 0 {
        (idxs, lo + (hi - lo) / 2)
    } else {
        (
            idxs.subrange(0, lo) + left + right + idxs.subrange(hi, idxs.len() as int),
            lo + left.len(),
        )
    }
}

/// Compute the bounding box of the models in the slot range `lo .. hi`.
fn box_of_range(models: &Vec<Model>, idxs: &Vec<u32>, lo: usize, hi: usize) -> (b: Aabb)
    requires
        models_wf(models@),
        lo < hi <= idxs@.len(),
        forall|p: int| 0 <= p < idxs@.len() ==> #[trigger] idxs@[p] < models@.len(),
    ensures
        aabb_wf(b),
        forall|p: int|
            lo <= p < hi ==> box_contains_box(b, #[trigger] permuted_boxes(models@, idxs@)[p]),
        b == spec_box_of(models@, idxs@, lo as int, hi as int),
{
    let first = &models[idxs[lo] as usize];
    assert(models@[idxs@[lo as int] as int].wf());
    let mut b = first.aabb();
    let mut p: usize = lo + 1;
    while p < hi
        invariant
            models_wf(models@),
            lo < p <= hi <= idxs@.len(),
            forall|q: int| 0 <= q < idxs@.len() ==> #[trigger] idxs@[q] < models@.len(),
            aabb_wf(b),
            b == spec_box_of(models@, idxs@, lo as int, p as int),
            forall|q: int|
                lo <= q < p ==> box_contains_box(b, #[trigger] permuted_boxes(models@, idxs@)[q]),
        decreases hi - p,
    {
        assert(models@[idxs@[p as int] as int].wf());
        let next = models[idxs[p] as usize].aabb();
        let b2 = b.union(&next);
        proof {
            assert forall|q: int|
                lo <= q < p + 1 implies box_contains_box(
                b2,
                #[trigger] permuted_boxes(models@, idxs@)[q],
            ) by {
                if q < p {
                    crate::math::lemma_union_monotone(b, next, permuted_boxes(models@, idxs@)[q]);
                } else {
                    crate::math::lemma_union_contains(b, next);
                }
            }
        }
        b = b2;
        p = p + 1;
    }
    b
}

/// Stable partition of the slot range `lo .. hi` around the centroid-bounds
/// midpoint along the widest axis; an even split when every centroid lands
/// on one side. Returns the split slot, strictly inside the range.
fn partition_range(models: &Vec<Model>, idxs: &mut Vec<u32>, lo: usize, hi: usize) -> (mid: usize)
    requires
        models_wf(models@),
        lo + 2 <= hi <= old(idxs)@.len(),
        forall|p: int| 0 <= p < old(idxs)@.len() ==> #[trigger] old(idxs)@[p] < models@.len(),
    ensures
        lo < mid < hi,
        final(idxs)@.len() == old(idxs)@.len(),
        forall|p: int|
            0 <= p < old(idxs)@.len() && !(lo <= p < hi) ==> final(idxs)@[p] == old(idxs)@[p],
        final(idxs)@.subrange(lo as int, hi as int).to_multiset() == old(idxs)@.subrange(
            lo as int,
            hi as int,
        ).to_multiset(),
        forall|p: int| 0 <= p < final(idxs)@.len() ==> #[trigger] final(idxs)@[p] < models@.len(),
        final(idxs)@.to_multiset() == old(idxs)@.to_multiset(),
        (final(idxs)@, mid as int) == spec_partition(models@, old(idxs)@, lo as int, hi as int),
{
    // Centroid bounds of the range: sphere centroids are their centers.
    assert(models@[idxs@[lo as int] as int].wf());
    let c0 = models[idxs[lo] as usize].position;
    let mut cmin = c0;
    let mut cmax = c0;
    let mut p: usize = lo + 1;
    while p < hi
        invariant
            models_wf(models@),
            lo < p <= hi <= idxs@.len(),
            forall|q: int| 0 <= q < idxs@.len() ==> #[trigger] idxs@[q] < models@.len(),
            bounded(cmin, COORD_MAX),
            bounded(cmax, COORD_MAX),
            (cmin, cmax) == spec_cbounds(models@, idxs@, lo as int, p as int),
        decreases hi - p,
    {
        assert(models@[idxs@[p as int] as int].wf());
        let c = models[idxs[p] as usize].position;
        cmin = Vec3I { x: min64(cmin.x, c.x), y: min64(cmin.y, c.y), z: min64(cmin.z, c.z) };
        cmax = Vec3I { x: max64(cmax.x, c.x), y: max64(cmax.y, c.y), z: max64(cmax.z, c.z) };
        p = p + 1;
    }
    let ghost cb = spec_cbounds(models@, idxs@, lo as int, hi as int);
    proof {
        assert((cmin, cmax) == cb);
    }
    let ex = if cmax.x >= cmin.x {
        cmax.x - cmin.x
    } else {
        0
    };
    let ey = if cmax.y >= cmin.y {
        cmax.y - cmin.y
    } else {
        0
    };
    let ez = if cmax.z >= cmin.z {
        cmax.z - cmin.z
    } else {
        0
    };
    // The widest centroid axis; ties fall to the earlier axis.
    let axis: u32 = if ex >= ey && ex >= ez {
        0
    } else if ey >= ez {
        1
    } else {
        2
    };
    let (smin, smax) = if axis == 0 {
        (cmin.x, cmax.x)
    } else if axis == 1 {
        (cmin.y, cmax.y)
    } else {
        (cmin.z, cmax.z)
    };
    proof {
        assert(axis == spec_split_axis(cb.0, cb.1));
        assert(smin == spec_axis_min(cb, axis));
        assert(smax == spec_axis_max(cb, axis));
    }
    // A model goes left when twice its centroid is below the bounds' sum,
    // that is, when its centroid is below the midpoint.
    let mut left: Vec<u32> = Vec::new();
    let mut right: Vec<u32> = Vec::new();
    let ghost sub0 = idxs@.subrange(lo as int, hi as int);
    proof {
        lemma_to_multiset_empty_u32();
        assert(idxs@.subrange(lo as int, lo as int) =~= Seq::<u32>::empty());
        assert(Multiset::<u32>::empty().add(Multiset::<u32>::empty())
            =~= Multiset::<u32>::empty());
        assert(spec_sel(models@, Seq::<u32>::empty(), axis, smin, smax, true)
            == Seq::<u32>::empty());
        assert(spec_sel(models@, Seq::<u32>::empty(), axis, smin, smax, false)
            == Seq::<u32>::empty());
    }
    let mut p: usize = lo;
    while p < hi
        invariant
            models_wf(models@),
            lo <= p <= hi <= idxs@.len(),
            forall|q: int| 0 <= q < idxs@.len() ==> #[trigger] idxs@[q] < models@.len(),
            -COORD_MAX <= smin <= COORD_MAX,
            -COORD_MAX <= smax <= COORD_MAX,
            sub0 == idxs@.subrange(lo as int, hi as int),
            left@.len() + right@.len() == p - lo,
            left@.to_multiset().add(right@.to_multiset()) == idxs@.subrange(
                lo as int,
                p as int,
            ).to_multiset(),
            forall|q: int| 0 <= q < left@.len() ==> #[trigger] left@[q] < models@.len(),
            forall|q: int| 0 <= q < right@.len() ==> #[trigger] right@[q] < models@.len(),
            cb == spec_cbounds(models@, idxs@, lo as int, hi as int),
            axis == spec_split_axis(cb.0, cb.1),
            smin == spec_axis_min(cb, axis),
            smax == spec_axis_max(cb, axis),
            left@ == spec_sel(models@, idxs@.subrange(lo as int, p as int), axis, smin, smax, true),
            right@ == spec_sel(
                models@,
                idxs@.subrange(lo as int, p as int),
                axis,
                smin,
                smax,
                false,
            ),
        decreases hi - p,
    {
        broadcast use vstd::seq_lib::group_to_multiset_ensures;

        assert(models@[idxs@[p as int] as int].wf());
        let v = idxs[p];
        let c = models[v as usize].position;
        let cc = if axis == 0 {
            c.x
        } else if axis == 1 {
            c.y
        } else {
            c.z
        };
        proof {
            assert(idxs@.subrange(lo as int, p + 1 as int) =~= idxs@.subrange(
                lo as int,
                p as int,
            ).push(idxs@[p as int]));
            assert(idxs@.subrange(lo as int, p + 1 as int).drop_last() =~= idxs@.subrange(
                lo as int,
                p as int,
            ));
            assert(idxs@.subrange(lo as int, p + 1 as int).last() == idxs@[p as int]);
            assert((2 * cc < smin + smax) == spec_goes_left(
                models@[v as int],
                axis,
                smin,
                smax,
            ));
        }
        if 2 * cc < smin + smax {
            left.push(v);
            proof {
                assert(left@.to_multiset().add(right@.to_multiset()) =~= idxs@.subrange(
                    lo as int,
                    p + 1 as int,
                ).to_multiset());
            }
        } else {
            right.push(v);
            proof {
                assert(left@.to_multiset().add(right@.to_multiset()) =~= idxs@.subrange(
                    lo as int,
                    p + 1 as int,
                ).to_multiset());
            }
        }
        p = p + 1;
    }
    proof {
        assert(idxs@ == old(idxs)@);
        assert(left@ == spec_partition_left(models@, old(idxs)@, lo as int, hi as int));
        assert(right@ == spec_partition_right(models@, old(idxs)@, lo as int, hi as int));
    }
    if left.len() == 0 || right.len() == 0 {
        // Degenerate centroid spread: split the range evenly, keeping order.
        return lo + (hi - lo) / 2;
    }
    // Write the partition back: the left part, then the right part.
    let ghost pre = idxs@;
    let mid = lo + left.len();
    let mut k: usize = 0;
    while k < left.len()
        invariant
            lo + left@.len() + right@.len() == hi <= idxs@.len(),
            k <= left@.len(),
            idxs@.len() == pre.len(),
            pre == old(idxs)@,
            left@ == spec_partition_left(models@, pre, lo as int, hi as int),
            right@ == spec_partition_right(models@, pre, lo as int, hi as int),
            left@.len() >= 1,
            right@.len() >= 1,
            forall|p: int| 0 <= p < pre.len() && !(lo <= p < lo + k) ==> idxs@[p] == pre[p],
            forall|q: int| 0 <= q < k ==> idxs@[lo + q] == left@[q],
        decreases left@.len() - k,
    {
        idxs.set(lo + k, left[k]);
        k = k + 1;
    }
    let ghost mid_state = idxs@;
    let mut m: usize = 0;
    while m < right.len()
        invariant
            lo + left@.len() + right@.len() == hi <= idxs@.len(),
            m <= right@.len(),
            idxs@.len() == mid_state.len() == pre.len(),
            pre == old(idxs)@,
            left@ == spec_partition_left(models@, pre, lo as int, hi as int),
            right@ == spec_partition_right(models@, pre, lo as int, hi as int),
            left@.len() >= 1,
            right@.len() >= 1,
            forall|p: int|
                0 <= p < pre.len() && !(lo <= p < lo + left@.len()) ==> mid_state[p] == pre[p],
            forall|q: int| 0 <= q < left@.len() ==> mid_state[lo + q] == left@[q],
            forall|p: int|
                0 <= p < pre.len() && !(lo + left@.len() <= p < lo + left@.len() + m)
                    ==> idxs@[p] == mid_state[p],
            forall|q: int| 0 <= q < m ==> idxs@[lo + left@.len() + q] == right@[q],
        decreases right@.len() - m,
    {
        idxs.set(lo + left.len() + m, right[m]);
        m = m + 1;
    }
    proof {
        assert(idxs@.subrange(lo as int, hi as int) =~= left@ + right@);
        lemma_multiset_commutative(left@, right@);
        assert((left@ + right@).to_multiset() =~= sub0.to_multiset());
        assert forall|p: int|
            0 <= p < idxs@.len() implies #[trigger] idxs@[p] < models@.len() by {
            if lo <= p < lo + left@.len() {
                assert(idxs@[p] == left@[p - lo]);
            } else if lo + left@.len() <= p < hi {
                assert(idxs@[p] == right@[p - lo - left@.len()]);
            } else {
                assert(idxs@[p] == pre[p]);
            }
        }
        lemma_multiset_splice(pre, idxs@, lo as int, hi as int);
        assert(idxs@ =~= pre.subrange(0, lo as int) + left@ + right@ + pre.subrange(
            hi as int,
            pre.len() as int,
        ));
        assert((idxs@, mid as int) == spec_partition(models@, pre, lo as int, hi as int));
    }
    mid
}

/// One step of the builder's work loop: pop the range at `i`, emit a leaf
/// for a small range, otherwise partition it and enqueue the two halves.
pub open spec fn spec_build_step(
    models: Seq<Model>,
    idxs: Seq<u32>,
    queue: Seq<(int, int)>,
    out: Seq<BVHNode>,
    i: int,
) -> (Seq<u32>, Seq<(int, int)>, Seq<BVHNode>) {
    let lo = queue[i].0;
    let hi = queue[i].1;
    let b = spec_box_of(models, idxs, lo, hi);
    if hi - lo <= LEAF_MAX as int {
        (
            idxs,
            queue,
            out.push(
                BVHNode {
                    bounds_min: b.min,
                    bounds_max: b.max,
                    index: lo as u32,
                    model_count: (hi - lo) as u32,
                },
            ),
        )
    } else {
        let pr = spec_partition(models, idxs, lo, hi);
        (
            pr.0,
            queue + seq![(lo, pr.1), (pr.1, hi)],
            out.push(
                BVHNode {
                    bounds_min: b.min,
                    bounds_max: b.max,
                    index: queue.len() as u32,
                    model_count: 0,
                },
            ),
        )
    }
}

/// The builder's work loop run to completion (with fuel for termination):
/// the node array and the permutation it ends with.
pub open spec fn spec_build_run(
    models: Seq<Model>,
    idxs: Seq<u32>,
    queue: Seq<(int, int)>,
    out: Seq<BVHNode>,
    i: int,
    fuel: nat,
) -> (Seq<BVHNode>, Seq<u32>)
    decreases fuel,
{
    if i >= queue.len() || fuel == 0 {
        (out, idxs)
    } else {
        let st = spec_build_step(models, idxs, queue, out, i);
        spec_build_run(models, st.0, st.1, st.2, i + 1, (fuel - 1) as nat)
    }
}

/// What the builder produces, as a function of the models alone.
pub open spec fn spec_build_bvh2(models: Seq<Model>) -> (Seq<BVHNode>, Seq<u32>) {
    let n = models.len() as int;
    if n == 0 {
        (seq![spec_empty_node()], Seq::<u32>::empty())
    } else {
        spec_build_run(
            models,
            ident_seq(models.len()),
            seq![(0int, n)],
            Seq::<BVHNode>::empty(),
            0,
            (2 * n - 1) as nat,
        )
    }
}

/// Build the spatial index over the frame's models from scratch: a
/// permutation of the model slots and a flat node array whose leaves cover
/// the permuted slots exactly once, every node's box containing the boxes of
/// the models it spans. An empty frame yields a single degenerate root.
pub fn build_bvh2(models: &Vec<Model>) -> (bvh: Bvh)
    requires
        models_wf(models@),
        models@.len() <= MAX_MODELS,
    ensures
        bvh.wf(models@),
        bvh.nodes@ == spec_build_bvh2(models@).0,
        bvh.primitive_indices@ == spec_build_bvh2(models@).1,
{
    let n = models.len();
    if n == 0 {
        let mut nodes: Vec<BVHNode> = Vec::new();
        nodes.push(
            BVHNode {
                bounds_min: Vec3I { x: 0, y: 0, z: 0 },
                bounds_max: Vec3I { x: 0, y: 0, z: 0 },
                index: 0,
                model_count: 0,
            },
        );
        let ghost r: Seq<(int, int)> = seq![(0int, 0int)];
        let bvh = Bvh { nodes, primitive_indices: Vec::new(), ranges: Ghost(r) };
        proof {
            assert(bvh.nodes@ =~= seq![spec_empty_node()]);
            assert(ident_seq(0) =~= Seq::<u32>::empty());
            assert(bvh.primitive_indices@ =~= Seq::<u32>::empty());
            assert(spec_build_bvh2(models@) == (bvh.nodes@, bvh.primitive_indices@));
        }
        return bvh;
    }
    let mut idxs: Vec<u32> = Vec::new();
    let mut p: usize = 0;
    while p < n
        invariant
            p <= n == models@.len() <= MAX_MODELS,
            idxs@.len() == p,
            forall|q: int| 0 <= q < p ==> #[trigger] idxs@[q] == q as u32,
        decreases n - p,
    {
        idxs.push(p as u32);
        p = p + 1;
    }
    let mut queue: Vec<(usize, usize)> = Vec::new();
    queue.push((0, n));
    let mut out: Vec<BVHNode> = Vec::new();
    let mut i: usize = 0;
    proof {
        assert(idxs@ =~= ident_seq(n as nat));
        let q = rngs(queue@);
        assert(q =~= seq![(0int, n as int)]);
        assert(q.subrange(0, 0) =~= Seq::<(int, int)>::empty());
        assert(q.subrange(0, 1) =~= q);
        assert(q.drop_first() =~= Seq::<(int, int)>::empty());
        assert forall|k: int|
            0 <= k < n implies leaf_cnt(out@, q.subrange(0, 0), k) + #[trigger] range_cnt(
            q.subrange(0, 1),
            k,
        ) == 1 by {
            assert(range_cnt(Seq::<(int, int)>::empty(), k) == 0);
            assert(leaf_cnt(Seq::<BVHNode>::empty(), Seq::<(int, int)>::empty(), k) == 0);
            assert(range_cnt(q, k) == 1 + range_cnt(q.drop_first(), k));
        }
        assert(wsum(Seq::<(int, int)>::empty()) == 0);
        assert(wsum(q) == 2 * n - 1);
        assert(out@ =~= Seq::<BVHNode>::empty());
        assert(build_inv(models@, idxs@, queue@, out@, 0));
    }
    while i < queue.len()
        invariant
            i <= queue@.len(),
            models@.len() == n,
            build_inv(models@, idxs@, queue@, out@, i as int),
            spec_build_run(
                models@,
                ident_seq(n as nat),
                seq![(0int, n as int)],
                Seq::<BVHNode>::empty(),
                0,
                (2 * (n as int) - 1) as nat,
            ) == spec_build_run(
                models@,
                idxs@,
                rngs(queue@),
                out@,
                i as int,
                (2 * (n as int) - 1 - (i as int)) as nat,
            ),
        decreases wsum(rngs(queue@).subrange(i as int, rngs(queue@).len() as int)),
    {
        let (lo, hi) = queue[i];
        let ghost q0 = rngs(queue@);
        let ghost idxs0 = idxs@;
        let ghost out0 = out@;
        let ghost pend0 = q0.subrange(i as int, q0.len() as int);
        proof {
            assert(q0[i as int] == (lo as int, hi as int));
            assert(pend0[0] == q0[i as int]);
            assert(pend0.drop_first() =~= q0.subrange(i + 1, q0.len() as int));
            assert forall|s: int| 0 <= s < pend0.len() implies (#[trigger] pend0[s]).0
                < pend0[s].1 by {
                assert(pend0[s] == q0[s + i]);
            }
            lemma_wsum_ge_len(pend0);
        }
        let bbox = box_of_range(models, &idxs, lo, hi);
        if hi - lo <= LEAF_MAX {
            let nd = BVHNode {
                bounds_min: bbox.min,
                bounds_max: bbox.max,
                index: lo as u32,
                model_count: (hi - lo) as u32,
            };
            out.push(nd);
            i = i + 1;
            proof {
                let ii = i as int;
                let nint = n as int;
                // Structure and boxes of the nodes emitted earlier carry over.
                assert forall|j: int| 0 <= j < ii implies #[trigger] node_ok(out@, q0, nint, j) by {
                    if j < ii - 1 {
                        assert(node_ok(out0, q0, nint, j));
                        assert(out@[j] == out0[j]);
                        lemma_node_ok_extend(out0, out@, q0, q0, nint, j);
                    } else {
                        assert(out@[j] == nd);
                    }
                }
                assert forall|j: int| 0 <= j < ii implies #[trigger] node_box_ok(
                    out@,
                    q0,
                    permuted_boxes(models@, idxs@),
                    j,
                ) by {
                    if j < ii - 1 {
                        assert(node_box_ok(out0, q0, permuted_boxes(models@, idxs@), j));
                        assert(out@[j] == out0[j]);
                    } else {
                        assert(out@[j] == nd);
                    }
                }
                // A still-pending range cannot overlap the new leaf: the two
                // were both pending, and the cover counts each slot once.
                assert forall|s: int, j: int|
                    ii <= s < q0.len() && 0 <= j < ii implies #[trigger] range_split(
                    q0[s],
                    q0[j],
                ) by {
                    if j < ii - 1 {
                        assert(range_split(q0[s], q0[j]));
                    } else {
                        if !(q0[s].1 <= lo as int || hi as int <= q0[s].0) {
                            let k = if q0[s].0 >= lo as int {
                                q0[s].0
                            } else {
                                lo as int
                            };
                            lemma_range_cnt_two(pend0, 0, s - (ii - 1), k);
                            assert(leaf_cnt(out0, q0.subrange(0, ii - 1), k) + range_cnt(
                                pend0,
                                k,
                            ) == 1);
                            assert(false);
                        }
                    }
                }
                // Cover: the popped range moves from pending to the leaves.
                assert forall|k: int|
                    0 <= k < nint implies leaf_cnt(out@, q0.subrange(0, ii), k)
                    + #[trigger] range_cnt(q0.subrange(ii, q0.len() as int), k) == 1 by {
                    assert(q0.subrange(0, ii) =~= q0.subrange(0, ii - 1).push(q0[ii - 1]));
                    lemma_leaf_cnt_push(out0, q0.subrange(0, ii - 1), nd, q0[ii - 1], k);
                    assert(range_cnt(pend0, k) == (if lo as int <= k < hi as int {
                        1nat
                    } else {
                        0nat
                    }) + range_cnt(q0.subrange(ii, q0.len() as int), k));
                }
                assert(wsum(pend0) == 2 * (hi - lo) - 1 + wsum(
                    q0.subrange(ii, q0.len() as int),
                ));
                assert forall|s: int|
                    0 <= s < q0.subrange(ii, q0.len() as int).len() implies (
                #[trigger] q0.subrange(ii, q0.len() as int)[s]).0 < q0.subrange(
                    ii,
                    q0.len() as int,
                )[s].1 by {
                    assert(q0.subrange(ii, q0.len() as int)[s] == q0[s + ii]);
                }
                lemma_wsum_ge_len(q0.subrange(ii, q0.len() as int));
                assert(build_inv(models@, idxs@, queue@, out@, ii));
                // The step matches the specification's step exactly.
                let st = spec_build_step(models@, idxs0, q0, out0, ii - 1);
                assert(st.0 == idxs@);
                assert(st.1 == rngs(queue@));
                assert(st.2 == out@);
                let fuel0 = (2 * nint - 1 - (ii - 1)) as nat;
                assert(wsum(pend0) >= pend0.len() >= 1);
                assert(fuel0 >= 1);
                assert(spec_build_run(models@, idxs0, q0, out0, ii - 1, fuel0)
                    == spec_build_run(
                    models@,
                    idxs@,
                    rngs(queue@),
                    out@,
                    ii,
                    (2 * nint - 1 - ii) as nat,
                ));
            }
        } else {
            let mid = partition_range(models, &mut idxs, lo, hi);
            proof {
                lemma_wsum_ge_len(pend0);
                assert(queue@.len() == i + pend0.len());
            }
            let c = queue.len();
            queue.push((lo, mid));
            queue.push((mid, hi));
            let nd = BVHNode {
                bounds_min: bbox.min,
                bounds_max: bbox.max,
                index: c as u32,
                model_count: 0,
            };
            out.push(nd);
            i = i + 1;
            proof {
                let ii = i as int;
                let nint = n as int;
                let q1 = rngs(queue@);
                let cint = c as int;
                assert(q1 =~= q0 + seq![(lo as int, mid as int), (mid as int, hi as int)]);
                assert(forall|s: int| 0 <= s < q0.len() ==> #[trigger] q1[s] == q0[s]);
                assert(q1[cint] == (lo as int, mid as int));
                assert(q1[cint + 1] == (mid as int, hi as int));
                // The permutation stays a bijection.
                assert(idxs@.to_multiset() == ident_seq(n as nat).to_multiset());
                // Structure of the emitted nodes.
                assert forall|j: int| 0 <= j < ii implies #[trigger] node_ok(out@, q1, nint, j) by {
                    if j < ii - 1 {
                        assert(node_ok(out0, q0, nint, j));
                        assert(out@[j] == out0[j]);
                        lemma_node_ok_extend(out0, out@, q0, q1, nint, j);
                    } else {
                        assert(out@[j] == nd);
                        assert(nd.index as int == cint);
                    }
                }
                // Boxes: the partition permuted slots only inside the popped
                // range, which nests into or avoids every emitted range.
                assert forall|j: int| 0 <= j < ii implies #[trigger] node_box_ok(
                    out@,
                    q1,
                    permuted_boxes(models@, idxs@),
                    j,
                ) by {
                    if j < ii - 1 {
                        assert(node_box_ok(out0, q0, permuted_boxes(models@, idxs0), j));
                        assert(range_split(q0[ii - 1], q0[j]));
                        lemma_box_ok_after_permute(
                            models@,
                            idxs0,
                            idxs@,
                            lo as int,
                            hi as int,
                            node_box(out0[j]),
                            q0[j].0,
                            q0[j].1,
                        );
                        assert(out@[j] == out0[j]);
                        assert(q1[j] == q0[j]);
                    } else {
                        assert(out@[j] == nd);
                        lemma_box_ok_after_permute(
                            models@,
                            idxs0,
                            idxs@,
                            lo as int,
                            hi as int,
                            node_box(nd),
                            lo as int,
                            hi as int,
                        );
                    }
                }
                // Pending ranges still nest into or avoid the emitted ones.
                assert forall|s: int, j: int|
                    ii <= s < q1.len() && 0 <= j < ii implies #[trigger] range_split(
                    q1[s],
                    q1[j],
                ) by {
                    if s < q0.len() {
                        if j < ii - 1 {
                            assert(range_split(q0[s], q0[j]));
                        } else {
                            if !(q0[s].1 <= lo as int || hi as int <= q0[s].0) {
                                let k = if q0[s].0 >= lo as int {
                                    q0[s].0
                                } else {
                                    lo as int
                                };
                                lemma_range_cnt_two(pend0, 0, s - (ii - 1), k);
                                assert(leaf_cnt(out0, q0.subrange(0, ii - 1), k) + range_cnt(
                                    pend0,
                                    k,
                                ) == 1);
                                assert(false);
                            }
                        }
                    } else {
                        // A fresh child range nests into the popped range.
                        if j < ii - 1 {
                            assert(range_split(q0[ii - 1], q0[j]));
                        }
                    }
                }
                // Cover: the popped range is replaced by its two halves.
                assert forall|k: int|
                    0 <= k < nint implies leaf_cnt(out@, q1.subrange(0, ii), k)
                    + #[trigger] range_cnt(q1.subrange(ii, q1.len() as int), k) == 1 by {
                    assert(q1.subrange(0, ii) =~= q0.subrange(0, ii - 1).push(q0[ii - 1]));
                    lemma_leaf_cnt_push(out0, q0.subrange(0, ii - 1), nd, q0[ii - 1], k);
                    let rest = q0.subrange(ii, q0.len() as int);
                    let kids = seq![(lo as int, mid as int), (mid as int, hi as int)];
                    assert(q1.subrange(ii, q1.len() as int) =~= rest + kids);
                    lemma_range_cnt_concat(rest, kids, k);
                    lemma_range_cnt_pair((lo as int, mid as int), (mid as int, hi as int), k);
                    assert(range_cnt(pend0, k) == (if lo as int <= k < hi as int {
                        1nat
                    } else {
                        0nat
                    }) + range_cnt(rest, k));
                }
                // Size: replacing a range by its halves keeps the measure.
                assert(wsum(pend0) == 2 * (hi - lo) - 1 + wsum(q0.subrange(ii, q0.len() as int)));
                let rest = q0.subrange(ii, q0.len() as int);
                let kids = seq![(lo as int, mid as int), (mid as int, hi as int)];
                assert(q1.subrange(ii, q1.len() as int) =~= rest + kids);
                lemma_wsum_concat(rest, kids);
                lemma_wsum_pair((lo as int, mid as int), (mid as int, hi as int));
                assert(wsum(kids) == 2 * (hi - lo) - 2);
                assert forall|s: int|
                    0 <= s < q1.subrange(ii, q1.len() as int).len() implies (
                #[trigger] q1.subrange(ii, q1.len() as int)[s]).0 < q1.subrange(
                    ii,
                    q1.len() as int,
                )[s].1 by {
                    assert(q1.subrange(ii, q1.len() as int)[s] == q1[s + ii]);
                }
                lemma_wsum_ge_len(q1.subrange(ii, q1.len() as int));
                assert(build_inv(models@, idxs@, queue@, out@, ii));
                // The step matches the specification's step exactly.
                let st = spec_build_step(models@, idxs0, q0, out0, ii - 1);
                assert(spec_partition(models@, idxs0, lo as int, hi as int) == (
                    idxs@,
                    mid as int,
                ));
                assert(cint == q0.len());
                assert(st.0 == idxs@);
                assert(st.1 == q1);
                assert(st.2 == out@);
                let fuel0 = (2 * nint - 1 - (ii - 1)) as nat;
                assert(wsum(pend0) >= pend0.len() >= 1);
                assert(fuel0 >= 1);
                assert(spec_build_run(models@, idxs0, q0, out0, ii - 1, fuel0)
                    == spec_build_run(
                    models@,
                    idxs@,
                    rngs(queue@),
                    out@,
                    ii,
                    (2 * nint - 1 - ii) as nat,
                ));
            }
        }
    }
    let ghost r: Seq<(int, int)> = rngs(queue@);
    let bvh = Bvh { nodes: out, primitive_indices: idxs, ranges: Ghost(r) };
    proof {
        let q = rngs(queue@);
        let nint = n as int;
        assert(q.subrange(0, i as int) =~= q);
        assert(q.subrange(i as int, q.len() as int) =~= Seq::<(int, int)>::empty());
        assert forall|k: int| 0 <= k < nint implies #[trigger] leaf_cnt(bvh.nodes@, q, k)
            == 1 by {
            assert(range_cnt(Seq::<(int, int)>::empty(), k) == 0);
            assert(leaf_cnt(bvh.nodes@, q.subrange(0, i as int), k) + range_cnt(
                q.subrange(i as int, q.len() as int),
                k,
            ) == 1);
        }
        assert(spec_build_run(
            models@,
            bvh.primitive_indices@,
            q,
            bvh.nodes@,
            i as int,
            (2 * nint - 1 - (i as int)) as nat,
        ) == (bvh.nodes@, bvh.primitive_indices@));
        assert(seq![(0int, n as int)] =~= seq![(0int, models@.len() as int)]);
        assert(ident_seq(n as nat) == ident_seq(models@.len()));
        assert(spec_build_bvh2(models@) == (bvh.nodes@, bvh.primitive_indices@));
    }
    bvh
}

/// The bounding boxes of already-permuted models, slot by slot.
pub open spec fn boxes_of(models: Seq<Model>) -> Seq<Aabb> {
    Seq::new(models.len(), |p: int| models[p].spec_aabb())
}

/// The model sequence reordered by the builder's permutation: slot `p` holds
/// the model whose original index is `perm[p]`.
pub open spec fn apply_permutation_spec(models: Seq<Model>, perm: Seq<u32>) -> Seq<Model> {
    Seq::new(perm.len(), |p: int| models[perm[p] as int])
}

/// Well-formedness of a node array against the models it indexes directly,
/// after the permutation has been applied: the form the draw stage consumes.
pub open spec fn tree_wf(nodes: Seq<BVHNode>, ranges: Seq<(int, int)>, models: Seq<Model>) -> bool {
    let n = models.len() as int;
    &&& ranges.len() == nodes.len()
    &&& 1 <= nodes.len()
    &&& if n == 0 {
        nodes == seq![spec_empty_node()] && ranges == seq![(0int, 0int)]
    } else {
        &&& ranges[0] == (0int, n)
        &&& forall|j: int| 0 <= j < nodes.len() ==> #[trigger] node_ok(nodes, ranges, n, j)
        &&& forall|j: int|
            0 <= j < nodes.len() ==> #[trigger] node_box_ok(nodes, ranges, boxes_of(models), j)
        &&& forall|k: int| 0 <= k < n ==> #[trigger] leaf_cnt(nodes, ranges, k) == 1
    }
}

/// Physically reorder the models by the builder's permutation, so that node
/// leaf ranges index directly into the resulting buffer layout.
pub fn apply_permutation(models: &Vec<Model>, perm: &Vec<u32>) -> (r: Vec<Model>)
    requires
        perm@.len() == models@.len(),
        forall|p: int| 0 <= p < perm@.len() ==> #[trigger] perm@[p] < models@.len(),
    ensures
        r@ == apply_permutation_spec(models@, perm@),
{
    let mut r: Vec<Model> = Vec::new();
    let mut p: usize = 0;
    while p < perm.len()
        invariant
            p <= perm@.len() == models@.len(),
            forall|q: int| 0 <= q < perm@.len() ==> #[trigger] perm@[q] < models@.len(),
            r@.len() == p,
            forall|q: int| 0 <= q < p ==> #[trigger] r@[q] == models@[perm@[q] as int],
        decreases perm@.len() - p,
    {
        r.push(models[perm[p] as usize]);
        p = p + 1;
    }
    proof {
        assert(r@ =~= apply_permutation_spec(models@, perm@));
    }
    r
}

/// Every entry of a slot permutation is a valid slot.
pub proof fn lemma_perm_bounds(perm: Seq<u32>, n: nat)
    requires
        perm_of(perm, n),
        n <= MAX_MODELS as nat,
    ensures
        forall|p: int| 0 <= p < perm.len() ==> (#[trigger] perm[p]) < n,
{
    lemma_multiset_pointwise(ident_seq(n), perm);
    assert forall|p: int| 0 <= p < perm.len() implies (#[trigger] perm[p]) < n by {
        assert(ident_seq(n).contains(perm[p]));
        let q = choose|q: int| 0 <= q < ident_seq(n).len() && ident_seq(n)[q] == perm[p];
        assert(ident_seq(n)[q] == q as u32);
    }
}

/// A well-formed index stays well formed once its permutation is applied:
/// the node array is sound against the physically reordered model sequence.
pub proof fn lemma_wf_after_reorder(bvh: Bvh, models: Seq<Model>)
    requires
        bvh.wf(models),
        models.len() <= MAX_MODELS as nat,
    ensures
        tree_wf(bvh.nodes@, bvh.ranges@, apply_permutation_spec(models, bvh.primitive_indices@)),
        apply_permutation_spec(models, bvh.primitive_indices@).len() == models.len(),
        models_wf(models) ==> models_wf(apply_permutation_spec(models, bvh.primitive_indices@)),
{
    let perm = bvh.primitive_indices@;
    let reordered = apply_permutation_spec(models, perm);
    assert(boxes_of(reordered) =~= permuted_boxes(models, perm));
    if models.len() > 0 {
        assert forall|j: int| 0 <= j < bvh.nodes@.len() implies #[trigger] node_box_ok(
            bvh.nodes@,
            bvh.ranges@,
            boxes_of(reordered),
            j,
        ) by {
            assert(node_box_ok(bvh.nodes@, bvh.ranges@, permuted_boxes(models, perm), j));
        }
    }
    if models_wf(models) {
        lemma_perm_bounds(perm, models.len());
        assert forall|p: int| 0 <= p < reordered.len() implies (#[trigger] reordered[p]).wf() by {
            assert(perm[p] < models.len());
            assert(models[perm[p] as int].wf());
        }
    }
}

/// Re-running the builder on the same input yields identical node structure
/// and permutation: the builder's contract pins its whole output to a
/// function of the models alone, so any two builds over the same models
/// agree.
pub proof fn lemma_build_deterministic(models: Seq<Model>, b1: Bvh, b2: Bvh)
    requires
        b1.nodes@ == spec_build_bvh2(models).0,
        b1.primitive_indices@ == spec_build_bvh2(models).1,
        b2.nodes@ == spec_build_bvh2(models).0,
        b2.primitive_indices@ == spec_build_bvh2(models).1,
    ensures
        b1.nodes@ == b2.nodes@,
        b1.primitive_indices@ == b2.primitive_indices@,
{
}

/// The root node's bounding box contains the bounding box of every model of
/// the frame: no primitive extends outside the root bounds.
pub proof fn lemma_root_contains_all(bvh: Bvh, models: Seq<Model>)
    requires
        bvh.wf(models),
        0 < models.len() <= MAX_MODELS as nat,
    ensures
        forall|k: int|
            0 <= k < models.len() ==> box_contains_box(
                node_box(bvh.nodes@[0]),
                (#[trigger] models[k]).spec_aabb(),
            ),
{
    assert forall|k: int|
        0 <= k < models.len() implies box_contains_box(
        node_box(bvh.nodes@[0]),
        (#[trigger] models[k]).spec_aabb(),
    ) by {
        let perm = bvh.primitive_indices@;
        lemma_multiset_pointwise(perm, ident_seq(models.len()));
        assert(ident_seq(models.len())[k] == k as u32);
        assert(perm.contains(k as u32));
        assert(k as u32 as int == k);
        let p = choose|p: int| 0 <= p < perm.len() && perm[p] == k as u32;
        assert(node_box_ok(bvh.nodes@, bvh.ranges@, permuted_boxes(models, perm), 0));
        assert(bvh.ranges@[0].0 <= p < bvh.ranges@[0].1);
        assert(permuted_boxes(models, perm)[p] == models[k].spec_aabb());
    }
}

} // verus!
