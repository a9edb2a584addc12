//! The tree's node records, the boxes of primitive ranges, and the finished
//! hierarchy.
use vstd::prelude::*;
use vstd::set_lib::{lemma_int_range, lemma_len_subset, lemma_subset_equality, set_int_range};
use crate::geometry::{contains_spec, tri_box, union_spec, Aabb, Point3, TriangleBounds};

verus! {

/// A node holds at most this many triangles without being split.
pub const MAX_TRIS_PER_LEAF: u32 = 4;

/// The most triangles a mesh may have: every node index of its tree must fit
/// in a `u32`.
pub const MAX_TRIANGLES: u32 = 0x7fff_ffff;

/// One node of the tree. Its triangles are `indices[l..r]` of the tree's
/// index buffer. A node with children has `left_child > 0`; its right child is
/// `left_child + 1`. A leaf has `left_child == 0`.
#[derive(Clone, Copy, Debug, PartialEq, Eq, Structural)]
pub struct MeshBBHNode {
    pub min_corner: Point3,
    pub max_corner: Point3,
    pub l: u32,
    pub r: u32,
    pub left_child: u32,
}

pub open spec fn origin() -> Point3 {
    Point3 { x: 0, y: 0, z: 0 }
}

/// The box stored in a node.
pub open spec fn node_box(n: MeshBBHNode) -> Aabb {
    Aabb { min_corner: n.min_corner, max_corner: n.max_corner }
}

/// The number of triangles of a node.
pub open spec fn node_size(n: MeshBBHNode) -> int {
    n.r - n.l
}

/// A node with more triangles than a leaf may hold must be split.
pub open spec fn needs_split(n: MeshBBHNode) -> bool {
    node_size(n) > MAX_TRIS_PER_LEAF
}

/// The box of the triangles `idx[l..r]` (for an empty range, the box of the
/// first one).
pub open spec fn range_box(tb: Seq<TriangleBounds>, idx: Seq<u32>, l: int, r: int) -> Aabb
    decreases r - l,
{
    if r <= l + 1 {
        tri_box(tb[idx[l] as int])
    } else {
        union_spec(range_box(tb, idx, l, r - 1), tri_box(tb[idx[r - 1] as int]))
    }
}

/// `idx` is a permutation of `0..n`: `n` entries, each below `n`, no two equal.
pub open spec fn is_permutation(idx: Seq<u32>, n: int) -> bool {
    &&& idx.len() == n
    &&& forall|i: int| 0 <= i < idx.len() ==> (#[trigger] idx[i] as int) < n
    &&& forall|i: int, j: int| 0 <= i < idx.len() && 0 <= j < idx.len() && i != j ==> idx[i] != idx[j]
}

/// A sequence of `n` distinct numbers below `n` holds every number below `n`.
pub proof fn lemma_permutation_complete(s: Seq<u32>, n: int)
    requires
        is_permutation(s, n),
    ensures
        forall|v: u32| (v as int) < n ==> #[trigger] s.contains(v),
{
    let t = s.map_values(|x: u32| x as int);
    assert(t.no_duplicates()) by {
        assert forall|i: int, j: int| 0 <= i < t.len() && 0 <= j < t.len() && i != j implies t[i] != t[j] by {
            assert(s[i] != s[j]);
        }
    }
    t.unique_seq_to_set();
    lemma_int_range(0, n);
    assert(t.to_set().subset_of(set_int_range(0, n))) by {
        assert forall|v: int| t.to_set().contains(v) implies set_int_range(0, n).contains(v) by {
            let i = choose|i: int| 0 <= i < t.len() && t[i] == v;
            assert(s[i] as int == v);
        }
    }
    lemma_len_subset(t.to_set(), set_int_range(0, n));
    lemma_subset_equality(t.to_set(), set_int_range(0, n));
    assert forall|v: u32| (v as int) < n implies #[trigger] s.contains(v) by {
        assert(set_int_range(0, n).contains(v as int));
        assert(t.to_set().contains(v as int));
        let i = choose|i: int| 0 <= i < t.len() && t[i] == v as int;
        assert(s[i] == v);
    }
}

/// A sequence of distinct numbers below `n` that holds every number below
/// `n` has exactly `n` entries: it is a permutation of `0..n`.
pub proof fn lemma_distinct_complete_len(s: Seq<u32>, n: int)
    requires
        0 <= n <= 0x1_0000_0000,
        forall|i: int| 0 <= i < s.len() ==> (#[trigger] s[i] as int) < n,
        forall|i: int, j: int| 0 <= i < s.len() && 0 <= j < s.len() && i != j ==> s[i] != s[j],
        forall|v: u32| (v as int) < n ==> #[trigger] s.contains(v),
    ensures
        is_permutation(s, n),
{
    let t = s.map_values(|x: u32| x as int);
    assert(t.no_duplicates()) by {
        assert forall|i: int, j: int| 0 <= i < t.len() && 0 <= j < t.len() && i != j implies t[i] != t[j] by {
            assert(s[i] != s[j]);
        }
    }
    t.unique_seq_to_set();
    lemma_int_range(0, n);
    assert(t.to_set() =~= set_int_range(0, n)) by {
        assert forall|v: int| t.to_set().contains(v) <==> set_int_range(0, n).contains(v) by {
            if t.to_set().contains(v) {
                let i = choose|i: int| 0 <= i < t.len() && t[i] == v;
                assert(s[i] as int == v);
            }
            if 0 <= v < n {
                assert(s.contains(v as u32));
                let i = choose|i: int| 0 <= i < s.len() && s[i] == v as u32;
                assert(t[i] == v);
            }
        }
    }
}

/// Exchanging two entries keeps a permutation a permutation.
pub proof fn lemma_swap_keeps_permutation(s: Seq<u32>, i: int, j: int, n: int)
    requires
        0 <= i < s.len(),
        0 <= j < s.len(),
        is_permutation(s, n),
    ensures
        is_permutation(s.update(i, s[j]).update(j, s[i]), n),
{
    let t = s.update(i, s[j]).update(j, s[i]);
    assert forall|p: int, q: int| 0 <= p < t.len() && 0 <= q < t.len() && p != q implies t[p] != t[q] by {
        let sp = if p == j { i } else if p == i { j } else { p };
        let sq = if q == j { i } else if q == i { j } else { q };
        assert(t[p] == s[sp]);
        assert(t[q] == s[sq]);
    }
    assert forall|p: int| 0 <= p < t.len() implies (#[trigger] t[p] as int) < n by {
        let sp = if p == j { i } else if p == i { j } else { p };
        assert(t[p] == s[sp]);
    }
}

pub proof fn lemma_contains_trans(a: Aabb, b: Aabb, c: Aabb)
    requires
        contains_spec(a, b),
        contains_spec(b, c),
    ensures
        contains_spec(a, c),
{
}

pub proof fn lemma_union_contains(a: Aabb, b: Aabb)
    ensures
        contains_spec(union_spec(a, b), a),
        contains_spec(union_spec(a, b), b),
{
}

/// The box of a range holds the box of each triangle in it.
pub proof fn lemma_range_box_contains(tb: Seq<TriangleBounds>, idx: Seq<u32>, l: int, r: int, k: int)
    requires
        l <= k < r,
    ensures
        contains_spec(range_box(tb, idx, l, r), tri_box(tb[idx[k] as int])),
    decreases r - l,
{
    if r > l + 1 {
        let inner = range_box(tb, idx, l, r - 1);
        let last = tri_box(tb[idx[r - 1] as int]);
        lemma_union_contains(inner, last);
        if k < r - 1 {
            lemma_range_box_contains(tb, idx, l, r - 1, k);
            lemma_contains_trans(range_box(tb, idx, l, r), inner, tri_box(tb[idx[k] as int]));
        }
    }
}

/// The box of `idx[l..r]`.
pub fn compute_range_box(tris: &Vec<TriangleBounds>, indices: &Vec<u32>, l: u32, r: u32) -> (b: Aabb)
    requires
        l < r <= indices.len(),
        forall|i: int| l <= i < r ==> (#[trigger] indices[i] as int) < tris.len(),
    ensures
        b == range_box(tris@, indices@, l as int, r as int),
{
    let mut acc = tris[indices[l as usize] as usize].aabb();
    let mut k: u32 = l + 1;
    while k < r
        invariant
            l < k <= r,
            r <= indices.len(),
            forall|i: int| l <= i < r ==> (#[trigger] indices[i] as int) < tris.len(),
            acc == range_box(tris@, indices@, l as int, k as int),
        decreases r - k,
    {
        acc = acc.union(&tris[indices[k as usize] as usize].aabb());
        k += 1;
    }
    acc
}

/// A node with only its structure changed from `a` to `b`: same range, same child.
pub open spec fn same_structure(a: MeshBBHNode, b: MeshBBHNode) -> bool {
    a.l == b.l && a.r == b.r && a.left_child == b.left_child
}

/// The nodes after `build_bbs` on `start..end`.
pub open spec fn bbs_spec(ns: Seq<MeshBBHNode>, tb: Seq<TriangleBounds>, idx: Seq<u32>, start: int, end: int) -> Seq<MeshBBHNode> {
    Seq::new(
        ns.len(),
        |i: int|
            if start <= i < end && ns[i].l < ns[i].r {
                let b = range_box(tb, idx, ns[i].l as int, ns[i].r as int);
                MeshBBHNode { min_corner: b.min_corner, max_corner: b.max_corner, ..ns[i] }
            } else {
                ns[i]
            },
    )
}

/// Sets the box of every node in `nodes[start..end]` with a nonempty range to
/// the box of its triangles; every other field and node is left as it was.
pub fn build_bbs(nodes: &mut Vec<MeshBBHNode>, tris: &Vec<TriangleBounds>, indices: &Vec<u32>, start: u32, end: u32)
    requires
        start <= end <= old(nodes).len(),
        forall|i: int| 0 <= i < indices.len() ==> (#[trigger] indices[i] as int) < tris.len(),
        forall|i: int| start <= i < end ==> (#[trigger] old(nodes)[i]).l <= old(nodes)[i].r <= indices.len(),
    ensures
        final(nodes).len() == old(nodes).len(),
        forall|i: int| 0 <= i < final(nodes).len() ==> same_structure(#[trigger] final(nodes)[i], old(nodes)[i]),
        forall|i: int| 0 <= i < final(nodes).len() && !(start <= i < end) ==> #[trigger] final(nodes)[i] == old(nodes)[i],
        forall|i: int| start <= i < end && old(nodes)[i].l < old(nodes)[i].r ==>
            node_box(#[trigger] final(nodes)[i]) == range_box(tris@, indices@, old(nodes)[i].l as int, old(nodes)[i].r as int),
        forall|i: int| start <= i < end && old(nodes)[i].l == old(nodes)[i].r ==> #[trigger] final(nodes)[i] == old(nodes)[i],
        final(nodes)@ == bbs_spec(old(nodes)@, tris@, indices@, start as int, end as int),
{
    let ghost before = nodes@;
    let mut i: u32 = start;
    while i < end
        invariant
            start <= i <= end,
            end <= nodes.len(),
            nodes.len() == before.len(),
            forall|k: int| 0 <= k < indices.len() ==> (#[trigger] indices[k] as int) < tris.len(),
            forall|k: int| start <= k < end ==> (#[trigger] before[k]).l <= before[k].r <= indices.len(),
            forall|k: int| 0 <= k < nodes.len() ==> same_structure(#[trigger] nodes[k], before[k]),
            forall|k: int| 0 <= k < nodes.len() && !(start <= k < i) ==> #[trigger] nodes[k] == before[k],
            forall|k: int| start <= k < i && before[k].l < before[k].r ==>
                node_box(#[trigger] nodes[k]) == range_box(tris@, indices@, before[k].l as int, before[k].r as int),
            forall|k: int| start <= k < i && before[k].l == before[k].r ==> #[trigger] nodes[k] == before[k],
        decreases end - i,
    {
        let node = nodes[i as usize];
        if node.l < node.r {
            let b = compute_range_box(tris, indices, node.l, node.r);
            nodes.set(i as usize, MeshBBHNode { min_corner: b.min_corner, max_corner: b.max_corner, ..node });
        }
        i += 1;
    }
    assert(nodes@ =~= bbs_spec(before, tris@, indices@, start as int, end as int)) by {
        assert forall|k: int| 0 <= k < nodes.len() implies #[trigger] nodes@[k] == bbs_spec(before, tris@, indices@, start as int, end as int)[k] by {
            assert(same_structure(nodes@[k], before[k]));
        }
    }
}

/// A finished hierarchy: the node array, breadth first, and the index buffer
/// that the nodes' ranges refer to.
pub struct MeshBBH {
    pub tree: Vec<MeshBBHNode>,
    pub indices: Vec<u32>,
    pub node_count: u32,
}

impl MeshBBH {
    pub fn new(tree: Vec<MeshBBHNode>, indices: Vec<u32>, node_count: u32) -> (r: MeshBBH)
        ensures
            r.tree == tree,
            r.indices == indices,
            r.node_count == node_count,
    {
        MeshBBH { tree, indices, node_count }
    }

    /// The node array.
    pub fn get_tree(&self) -> (r: &Vec<MeshBBHNode>)
        ensures
            r == &self.tree,
    {
        &self.tree
    }

    /// The index buffer, permuted so that each node's triangles are contiguous.
    pub fn get_indices(&self) -> (r: &Vec<u32>)
        ensures
            r == &self.indices,
    {
        &self.indices
    }

    /// The number of nodes.
    pub fn get_node_count(&self) -> (r: u32)
        ensures
            r == self.node_count,
    {
        self.node_count
    }
}

} // verus!
