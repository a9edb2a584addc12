//! What holds of every finished hierarchy.
use vstd::prelude::*;
use crate::builder::{node_ok, BuildStrategy};
use crate::generator::{generated, BuildError};
use crate::geometry::Point3;
use crate::bvh::{lemma_permutation_complete, lemma_range_box_contains, node_box, MeshBBH, MAX_TRIS_PER_LEAF};
use crate::geometry::{contains_spec, tri_box, TriangleBounds};

verus! {

/// The index buffer of a finished hierarchy is a permutation of the triangle
/// numbers `0..n`: it has `n` entries, no number twice, and every number.
pub proof fn lemma_indices_are_permutation(bbh: MeshBBH, tb: Seq<TriangleBounds>)
    requires
        bbh.wf(tb),
    ensures
        bbh.indices.len() == tb.len(),
        forall|i: int| 0 <= i < bbh.indices.len() ==> (#[trigger] bbh.indices[i] as int) < tb.len(),
        forall|i: int, j: int|
            0 <= i < bbh.indices.len() && 0 <= j < bbh.indices.len() && i != j ==> bbh.indices[i] != bbh.indices[j],
        forall|v: u32| (v as int) < tb.len() ==> #[trigger] bbh.indices@.contains(v),
{
    lemma_permutation_complete(bbh.indices@, tb.len() as int);
}

/// The box of every node holds the box of every triangle in its range.
pub proof fn lemma_node_boxes_contain_triangles(bbh: MeshBBH, tb: Seq<TriangleBounds>)
    requires
        bbh.wf(tb),
    ensures
        forall|i: int, k: int|
            0 <= i < bbh.node_count && bbh.tree[i].l <= k < bbh.tree[i].r ==> contains_spec(
                node_box(#[trigger] bbh.tree[i]),
                tri_box(tb[#[trigger] bbh.indices[k] as int]),
            ),
{
    assert forall|i: int, k: int|
        0 <= i < bbh.node_count && bbh.tree[i].l <= k < bbh.tree[i].r implies contains_spec(
            node_box(#[trigger] bbh.tree[i]),
            tri_box(tb[#[trigger] bbh.indices[k] as int]),
        ) by {
        lemma_range_box_contains(tb, bbh.indices@, bbh.tree[i].l as int, bbh.tree[i].r as int, k);
    }
}

/// Every leaf holds at most `MAX_TRIS_PER_LEAF` triangles.
pub proof fn lemma_leaf_size(bbh: MeshBBH, tb: Seq<TriangleBounds>)
    requires
        bbh.wf(tb),
    ensures
        forall|i: int| 0 <= i < bbh.node_count && (#[trigger] bbh.tree[i]).left_child == 0 ==>
            bbh.tree[i].r - bbh.tree[i].l <= MAX_TRIS_PER_LEAF,
{
    assert forall|i: int| 0 <= i < bbh.node_count && (#[trigger] bbh.tree[i]).left_child == 0 implies
        bbh.tree[i].r - bbh.tree[i].l <= MAX_TRIS_PER_LEAF by {
        if tb.len() >= 1 {
            assert(node_ok(bbh.tree@, i, tb.len() as int));
        }
    }
}

/// A node with more than `MAX_TRIS_PER_LEAF` triangles is internal: its
/// children `left_child` and `left_child + 1` exist, and their ranges, both
/// nonempty, divide its range with no gap and no overlap.
pub proof fn lemma_tree_connectivity(bbh: MeshBBH, tb: Seq<TriangleBounds>)
    requires
        bbh.wf(tb),
    ensures
        forall|i: int| 0 <= i < bbh.node_count ==>
            ((#[trigger] bbh.tree[i]).r - bbh.tree[i].l > MAX_TRIS_PER_LEAF <==> bbh.tree[i].left_child != 0),
        forall|i: int| 0 <= i < bbh.node_count && (#[trigger] bbh.tree[i]).left_child != 0 ==> {
            let c = bbh.tree[i].left_child as int;
            &&& i < c
            &&& c + 1 < bbh.node_count
            &&& bbh.tree[c].l == bbh.tree[i].l
            &&& bbh.tree[c].l < bbh.tree[c].r
            &&& bbh.tree[c].r == bbh.tree[c + 1].l
            &&& bbh.tree[c + 1].l < bbh.tree[c + 1].r
            &&& bbh.tree[c + 1].r == bbh.tree[i].r
        },
{
    assert forall|i: int| 0 <= i < bbh.node_count implies
        ((#[trigger] bbh.tree[i]).r - bbh.tree[i].l > MAX_TRIS_PER_LEAF <==> bbh.tree[i].left_child != 0) by {
        if tb.len() >= 1 {
            assert(node_ok(bbh.tree@, i, tb.len() as int));
        }
    }
    assert forall|i: int| 0 <= i < bbh.node_count && (#[trigger] bbh.tree[i]).left_child != 0 implies {
        let c = bbh.tree[i].left_child as int;
        &&& i < c
        &&& c + 1 < bbh.node_count
        &&& bbh.tree[c].l == bbh.tree[i].l
        &&& bbh.tree[c].l < bbh.tree[c].r
        &&& bbh.tree[c].r == bbh.tree[c + 1].l
        &&& bbh.tree[c + 1].l < bbh.tree[c + 1].r
        &&& bbh.tree[c + 1].r == bbh.tree[i].r
    } by {
        let n = tb.len() as int;
        if n >= 1 {
            let c = bbh.tree[i].left_child as int;
            assert(node_ok(bbh.tree@, i, n));
            assert(node_ok(bbh.tree@, c, n));
            assert(node_ok(bbh.tree@, c + 1, n));
        }
    }
}

/// Building the same mesh twice with the same strategy gives the same result:
/// the same refusal, or the same nodes (so the same node count, leaves and
/// leaf sizes) and the same index buffer.
pub proof fn lemma_rebuild_is_identical(
    vertices: Seq<Point3>,
    indices: Seq<u32>,
    strategy: BuildStrategy,
    r1: Result<MeshBBH, BuildError>,
    r2: Result<MeshBBH, BuildError>,
)
    requires
        generated(vertices, indices, strategy, r1),
        generated(vertices, indices, strategy, r2),
    ensures
        match (r1, r2) {
            (Ok(a), Ok(b)) => a.tree@ == b.tree@ && a.indices@ == b.indices@ && a.node_count == b.node_count,
            (Err(e1), Err(e2)) => e1 == e2,
            _ => false,
        },
{
}

} // verus!
