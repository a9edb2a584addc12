//! Level-by-level construction of the tree.
//!
//! The builder keeps a frontier: the nodes of the newest level, stored
//! breadth first at the end of the node array. Each round it computes the
//! frontier's boxes, counts the nodes that must split (a prefix sum of
//! their flags gives each one the place of its two children), decides where
//! each splits, reorders its triangles and appends the children. A round in
//! which nothing splits ends the build.
//!
//! Every split gives both children at least one triangle, so each round but
//! the last adds a node that holds triangles of its own. That bounds the
//! number of rounds by the triangle count and the nodes by `2n - 1`, for
//! every mesh, degenerate ones included: the build needs no cap on its rounds.
use vstd::prelude::*;
use crate::bvh::{
    bbs_spec, build_bbs, is_permutation, needs_split, node_box, node_size, range_box, same_structure,
    MeshBBHNode, MAX_TRIS_PER_LEAF,
};
use crate::geometry::{aabb_valid, tri_box, Aabb, Point3, TriangleBounds};
use crate::prefix_sum::{
    is_exclusive_prefix_sum, lemma_range_sum_split, prefix_sum, range_sum, total_sum,
};
use crate::split::{
    choose_split, goes_left, indices_in_range, lomuto, partition_range, split_evaluations, tris_valid, SplitChoice,
};

verus! {

/// Node `i` is settled: its range is nonempty and within `0..n`, it is a leaf
/// exactly when it is small enough, and a split node's two children sit side
/// by side after it and divide its range between them.
pub open spec fn node_ok(ns: Seq<MeshBBHNode>, i: int, n: int) -> bool {
    let nd = ns[i];
    &&& nd.l < nd.r <= n
    &&& (nd.left_child == 0) == !needs_split(nd)
    &&& nd.left_child != 0 ==> {
        let c = nd.left_child as int;
        &&& i < c
        &&& c + 1 < ns.len()
        &&& ns[c].l == nd.l
        &&& ns[c].r == ns[c + 1].l
        &&& ns[c + 1].r == nd.r
    }
}

/// Node `i` waits in the frontier: nonempty range within `0..n`, no children yet.
pub open spec fn frontier_ok(ns: Seq<MeshBBHNode>, i: int, n: int) -> bool {
    ns[i].l < ns[i].r <= n && ns[i].left_child == 0
}

/// One flag per node of `ns[start..end]`: 1 where the node must split.
pub open spec fn split_flags(ns: Seq<MeshBBHNode>, start: int, end: int) -> Seq<u32> {
    Seq::new((end - start) as nat, |k: int| if needs_split(ns[start + k]) { 1u32 } else { 0u32 })
}

/// The triangles of `ns[a..b]`, counted node by node.
pub open spec fn range_size(ns: Seq<MeshBBHNode>, a: int, b: int) -> int
    decreases b - a,
{
    if b <= a {
        0
    } else {
        range_size(ns, a, b - 1) + node_size(ns[b - 1])
    }
}

/// The number of nodes of `ns[a..b]` that stay leaves.
pub open spec fn leaf_count(ns: Seq<MeshBBHNode>, a: int, b: int) -> int
    decreases b - a,
{
    if b <= a {
        0
    } else {
        leaf_count(ns, a, b - 1) + if needs_split(ns[b - 1]) { 0int } else { 1int }
    }
}

/// The triangles of the nodes of `ns[a..b]` that stay leaves.
pub open spec fn leaf_size_sum(ns: Seq<MeshBBHNode>, a: int, b: int) -> int
    decreases b - a,
{
    if b <= a {
        0
    } else {
        leaf_size_sum(ns, a, b - 1) + if needs_split(ns[b - 1]) { 0int } else { node_size(ns[b - 1]) }
    }
}

pub proof fn lemma_range_size_frame(s: Seq<MeshBBHNode>, t: Seq<MeshBBHNode>, a: int, b: int)
    requires
        forall|i: int| a <= i < b ==> (#[trigger] s[i]).l == t[i].l && s[i].r == t[i].r,
    ensures
        range_size(s, a, b) == range_size(t, a, b),
    decreases b - a,
{
    if b > a {
        lemma_range_size_frame(s, t, a, b - 1);
    }
}

/// Nonempty nodes hold at least one triangle each.
pub proof fn lemma_range_size_bound(s: Seq<MeshBBHNode>, a: int, b: int)
    requires
        a <= b,
        forall|i: int| a <= i < b ==> (#[trigger] s[i]).l < s[i].r,
    ensures
        range_size(s, a, b) >= b - a,
    decreases b - a,
{
    if b > a {
        lemma_range_size_bound(s, a, b - 1);
    }
}

pub proof fn lemma_leaf_count_bound(s: Seq<MeshBBHNode>, a: int, b: int)
    requires
        a <= b,
        forall|i: int| a <= i < b ==> (#[trigger] s[i]).l < s[i].r,
    ensures
        0 <= leaf_count(s, a, b) <= leaf_size_sum(s, a, b),
    decreases b - a,
{
    if b > a {
        lemma_leaf_count_bound(s, a, b - 1);
    }
}

/// Every node either splits or stays a leaf.
pub proof fn lemma_flags_count(s: Seq<MeshBBHNode>, start: int, end: int, k: int)
    requires
        start <= end,
        0 <= k <= end - start,
    ensures
        leaf_count(s, start, start + k) + range_sum(split_flags(s, start, end), 0, k) == k,
    decreases k,
{
    if k > 0 {
        lemma_flags_count(s, start, end, k - 1);
        assert(split_flags(s, start, end)[k - 1] == if needs_split(s[start + k - 1]) { 1u32 } else { 0u32 });
    }
}

/// The root: all `triangle_count` triangles, no children, a box still to come.
pub fn init_tree_buffer(triangle_count: u32) -> (nodes: Vec<MeshBBHNode>)
    ensures
        nodes.len() == 1,
        nodes[0].l == 0,
        nodes[0].r == triangle_count,
        nodes[0].left_child == 0,
        nodes@ == seq![fresh_node(0, triangle_count as int)],
{
    let origin = Point3 { x: 0, y: 0, z: 0 };
    let mut nodes: Vec<MeshBBHNode> = Vec::new();
    nodes.push(MeshBBHNode { min_corner: origin, max_corner: origin, l: 0, r: triangle_count, left_child: 0 });
    assert(nodes@ =~= seq![fresh_node(0, triangle_count as int)]);
    nodes
}

/// The exclusive prefix sum of the split flags of `nodes[start..end]`, and
/// the number of nodes that split. Entry `k` is where the children of the
/// `k`-th node of the range go, counted in pairs past the end of the level.
pub fn find_node_offsets(nodes: &Vec<MeshBBHNode>, start: u32, end: u32) -> (res: (Vec<u32>, u32))
    requires
        start <= end <= nodes.len(),
        end < u32::MAX,
        forall|i: int| start <= i < end ==> (#[trigger] nodes[i]).l <= nodes[i].r,
    ensures
        is_exclusive_prefix_sum(split_flags(nodes@, start as int, end as int), res.0@),
        res.1 == total_sum(split_flags(nodes@, start as int, end as int)),
        res.1 <= end - start,
{
    let ghost flags_spec = split_flags(nodes@, start as int, end as int);
    let mut flags: Vec<u32> = Vec::with_capacity((end - start) as usize);
    let mut i: u32 = start;
    while i < end
        invariant
            start <= i <= end,
            end <= nodes.len(),
            forall|j: int| start <= j < end ==> (#[trigger] nodes[j]).l <= nodes[j].r,
            flags_spec == split_flags(nodes@, start as int, end as int),
            flags@ == flags_spec.take(i - start),
        decreases end - i,
    {
        let nd = &nodes[i as usize];
        let f: u32 = if nd.r - nd.l > MAX_TRIS_PER_LEAF { 1 } else { 0 };
        flags.push(f);
        proof {
            assert(flags_spec[i - start] == f);
            assert(flags@ =~= flags_spec.take(i + 1 - start));
        }
        i += 1;
    }
    assert(flags@ =~= flags_spec);
    proof {
        lemma_flags_count(nodes@, start as int, end as int, (end - start) as int);
        lemma_leaf_count_nonneg(nodes@, start as int, end as int);
    }
    prefix_sum(&flags)
}

pub proof fn lemma_leaf_count_nonneg(s: Seq<MeshBBHNode>, a: int, b: int)
    ensures
        leaf_count(s, a, b) >= 0,
    decreases b - a,
{
    if b > a {
        lemma_leaf_count_nonneg(s, a, b - 1);
    }
}

/// The index buffer after `split_node`, and where the right child begins.
pub open spec fn split_spec(idx: Seq<u32>, tb: Seq<TriangleBounds>, nd: MeshBBHNode, choice: SplitChoice) -> (Seq<u32>, int) {
    let mid = nd.l + (nd.r - nd.l) / 2;
    match choice {
        SplitChoice::Plane { axis, pos } => {
            let (t, m) = lomuto(idx, tb, nd.l as int, nd.r as int, axis, pos as int);
            (t, if m == nd.l || m == nd.r { mid } else { m })
        },
        _ => (idx, mid),
    }
}

/// Reorders the triangles of a node that must split as `choice` says and
/// returns where its right child's range begins. Both children get at least
/// one triangle: when the plane leaves a side empty the range is cut in the
/// middle instead.
pub fn split_node(indices: &mut Vec<u32>, tris: &Vec<TriangleBounds>, node: &MeshBBHNode, choice: SplitChoice) -> (m: u32)
    requires
        needs_split(*node),
        node.r <= old(indices).len(),
        indices_in_range(old(indices)@, tris.len() as int),
    ensures
        node.l < m < node.r,
        final(indices).len() == old(indices).len(),
        indices_in_range(final(indices)@, tris.len() as int),
        forall|i: int| 0 <= i < final(indices).len() && !(node.l <= i < node.r) ==> #[trigger] final(indices)[i] == old(indices)[i],
        forall|n: int| is_permutation(old(indices)@, n) ==> is_permutation(final(indices)@, n),
        match choice {
            SplitChoice::Plane { axis, pos } => m == node.l + (node.r - node.l) / 2 || (
                (forall|i: int| node.l <= i < m ==> goes_left(tris@, #[trigger] final(indices)[i], axis, pos as int))
                && (forall|i: int| m <= i < node.r ==> !goes_left(tris@, #[trigger] final(indices)[i], axis, pos as int))),
            _ => m == node.l + (node.r - node.l) / 2 && final(indices)@ == old(indices)@,
        },
        (final(indices)@, m as int) == split_spec(old(indices)@, tris@, *node, choice),
{
    let mid = node.l + (node.r - node.l) / 2;
    match choice {
        SplitChoice::Plane { axis, pos } => {
            let m = partition_range(indices, tris, node.l, node.r, axis, pos);
            if m == node.l || m == node.r {
                mid
            } else {
                m
            }
        },
        _ => mid,
    }
}

/// No decision in `evals` reorders triangles.
pub open spec fn no_planes(evals: Seq<SplitChoice>) -> bool {
    forall|k: int| 0 <= k < evals.len() ==> !(#[trigger] evals[k] is Plane)
}

/// Settledness of a node depends only on its own structure and on the ranges
/// of the nodes after it.
pub proof fn lemma_node_ok_frame(s: Seq<MeshBBHNode>, t: Seq<MeshBBHNode>, j: int, n: int)
    requires
        0 <= j < s.len() <= t.len(),
        node_ok(s, j, n),
        same_structure(t[j], s[j]),
        forall|k: int| 0 <= k < s.len() ==> (#[trigger] t[k]).l == s[k].l && t[k].r == s[k].r,
    ensures
        node_ok(t, j, n),
{
    let c = s[j].left_child as int;
    if c != 0 {
        assert(t[c].l == s[c].l && t[c].r == s[c].r);
        assert(t[c + 1].l == s[c + 1].l && t[c + 1].r == s[c + 1].r);
    }
}

/// A fresh node over `l..r`, no box yet, no children.
pub open spec fn fresh_node(l: int, r: int) -> MeshBBHNode {
    MeshBBHNode {
        min_corner: Point3 { x: 0, y: 0, z: 0 },
        max_corner: Point3 { x: 0, y: 0, z: 0 },
        l: l as u32,
        r: r as u32,
        left_child: 0,
    }
}

/// The nodes and index buffer after `build_next_level` has handled the
/// nodes `start..i`.
pub open spec fn next_level(
    ns: Seq<MeshBBHNode>,
    idx: Seq<u32>,
    tb: Seq<TriangleBounds>,
    evals: Seq<SplitChoice>,
    start: int,
    i: int,
) -> (Seq<MeshBBHNode>, Seq<u32>)
    decreases i - start,
{
    if i <= start {
        (ns, idx)
    } else {
        let (ns1, idx1) = next_level(ns, idx, tb, evals, start, i - 1);
        let nd = ns1[i - 1];
        if needs_split(nd) {
            let (idx2, m) = split_spec(idx1, tb, nd, evals[i - 1 - start]);
            let c = ns1.len();
            (
                ns1.update(i - 1, MeshBBHNode { left_child: c as u32, ..nd }).push(fresh_node(nd.l as int, m)).push(
                    fresh_node(m, nd.r as int),
                ),
                idx2,
            )
        } else {
            (ns1, idx1)
        }
    }
}

/// Gives every node of `nodes[start..end]` that must split its two children,
/// appended in order after `end`, and reorders the node's triangles to match
/// its decision in `evals`. `offsets` is the prefix sum of the split flags.
pub fn build_next_level(
    nodes: &mut Vec<MeshBBHNode>,
    indices: &mut Vec<u32>,
    tris: &Vec<TriangleBounds>,
    evals: &Vec<SplitChoice>,
    offsets: &Vec<u32>,
    start: u32,
    end: u32,
)
    requires
        start < end,
        old(nodes).len() == end,
        forall|i: int| start <= i < end ==> frontier_ok(old(nodes)@, i, tris.len() as int),
        evals.len() == end - start,
        forall|k: int| 0 <= k < evals.len() && needs_split(old(nodes)[start + k]) ==> #[trigger] evals[k] != SplitChoice::NoSplit,
        is_exclusive_prefix_sum(split_flags(old(nodes)@, start as int, end as int), offsets@),
        end + 2 * offsets[end - start] < u32::MAX,
        old(indices).len() == tris.len(),
        indices_in_range(old(indices)@, tris.len() as int),
    ensures
        final(nodes).len() == end + 2 * offsets[end - start],
        forall|i: int| 0 <= i < start ==> #[trigger] final(nodes)[i] == old(nodes)[i],
        forall|i: int| 0 <= i < end ==> (#[trigger] final(nodes)[i]).l == old(nodes)[i].l && final(nodes)[i].r == old(nodes)[i].r,
        forall|i: int| start <= i < end ==> node_ok(final(nodes)@, i, tris.len() as int),
        forall|i: int| end <= i < final(nodes).len() ==> frontier_ok(final(nodes)@, i, tris.len() as int),
        final(indices).len() == old(indices).len(),
        indices_in_range(final(indices)@, tris.len() as int),
        forall|n: int| is_permutation(old(indices)@, n) ==> is_permutation(final(indices)@, n),
        range_size(final(nodes)@, end as int, final(nodes).len() as int) + leaf_size_sum(old(nodes)@, start as int, end as int)
            == range_size(old(nodes)@, start as int, end as int),
        no_planes(evals@) ==> final(indices)@ == old(indices)@,
        (final(nodes)@, final(indices)@) == next_level(old(nodes)@, old(indices)@, tris@, evals@, start as int, end as int),
{
    let ghost before = nodes@;
    let ghost idx0 = indices@;
    let ghost n = tris.len() as int;
    let ghost flags = split_flags(before, start as int, end as int);
    let mut i: u32 = start;
    while i < end
        invariant
            start <= i <= end,
            n == tris.len(),
            before.len() == end,
            flags == split_flags(before, start as int, end as int),
            forall|j: int| start <= j < end ==> frontier_ok(before, j, n),
            evals.len() == end - start,
            forall|k: int| 0 <= k < evals.len() && needs_split(before[start + k]) ==> #[trigger] evals[k] != SplitChoice::NoSplit,
            is_exclusive_prefix_sum(flags, offsets@),
            end + 2 * offsets[end - start] < u32::MAX,
            nodes.len() == end + 2 * offsets[i - start],
            forall|j: int| 0 <= j < start ==> #[trigger] nodes[j] == before[j],
            forall|j: int| i <= j < end ==> #[trigger] nodes[j] == before[j],
            forall|j: int| 0 <= j < end ==> (#[trigger] nodes[j]).l == before[j].l && nodes[j].r == before[j].r,
            forall|j: int| start <= j < i ==> node_ok(nodes@, j, n),
            forall|j: int| end <= j < nodes.len() ==> frontier_ok(nodes@, j, n),
            indices.len() == n,
            indices_in_range(indices@, n),
            forall|m: int| is_permutation(idx0, m) ==> is_permutation(indices@, m),
            no_planes(evals@) ==> indices@ == idx0,
            (nodes@, indices@) == next_level(before, idx0, tris@, evals@, start as int, i as int),
            range_size(nodes@, end as int, nodes.len() as int) + leaf_size_sum(before, start as int, i as int)
                == range_size(before, start as int, i as int),
        decreases end - i,
    {
        let ghost k = i - start;
        let ghost prev = nodes@;
        proof {
            lemma_range_sum_split(flags, 0, k + 1, (end - start) as int);
            lemma_range_sum_split(flags, 0, k, k + 1);
            crate::prefix_sum::lemma_range_sum_nonneg(flags, k + 1, (end - start) as int);
            assert(flags[k] == if needs_split(before[start + k]) { 1u32 } else { 0u32 });
            assert(range_sum(flags, k, k + 1) == flags[k]) by {
                assert(range_sum(flags, k, k) == 0);
            }
        }
        let nd = nodes[i as usize];
        proof {
            assert(frontier_ok(before, i as int, n));
            assert(nd == before[i as int]);
        }
        if nd.r - nd.l > MAX_TRIS_PER_LEAF {
            let ghost idx_prev = indices@;
            let choice = evals[(i - start) as usize];
            let m = split_node(indices, tris, &nd, choice);
            proof {
                if no_planes(evals@) {
                    assert(!(evals@[k] is Plane));
                }
            }
            proof {
                assert forall|q: int| is_permutation(idx0, q) implies is_permutation(indices@, q) by {
                    assert(is_permutation(idx_prev, q));
                }
            }
            let c = nodes.len() as u32;
            let origin = Point3 { x: 0, y: 0, z: 0 };
            nodes.set(i as usize, MeshBBHNode { left_child: c, ..nd });
            nodes.push(MeshBBHNode { min_corner: origin, max_corner: origin, l: nd.l, r: m, left_child: 0 });
            nodes.push(MeshBBHNode { min_corner: origin, max_corner: origin, l: m, r: nd.r, left_child: 0 });
            proof {
                let cur = nodes@;
                assert forall|j: int| start <= j < i implies node_ok(cur, j, n) by {
                    lemma_node_ok_frame(prev, cur, j, n);
                }
                assert(node_ok(cur, i as int, n));
                assert forall|j: int| end <= j < cur.len() implies frontier_ok(cur, j, n) by {
                    if j < c {
                        assert(frontier_ok(prev, j, n));
                        assert(cur[j] == prev[j]);
                    }
                }
                let mid = prev.update(i as int, cur[i as int]);
                lemma_range_size_frame(prev, mid, end as int, prev.len() as int);
                lemma_range_size_frame(mid.push(cur[c as int]), cur, end as int, c + 1);
                lemma_range_size_frame(mid, mid.push(cur[c as int]), end as int, c as int);
                assert(range_size(cur, end as int, c + 2) == range_size(cur, end as int, c + 1) + node_size(cur[c + 1]));
                assert(range_size(cur, end as int, c + 1) == range_size(cur, end as int, c as int) + node_size(cur[c as int]));
                assert(range_size(cur, end as int, c as int) == range_size(mid.push(cur[c as int]), end as int, c as int));
            }
        } else {
            proof {
                assert(node_ok(nodes@, i as int, n));
            }
        }
        i += 1;
    }
}

/// How the tree is split.
#[derive(Clone, Copy, Debug, PartialEq, Eq, Structural)]
pub enum BuildStrategy {
    /// Split each node at the best of several planes by the surface-area
    /// heuristic; slower to build, faster to trace.
    FastTrace,
    /// Keep the order the index buffer comes in (sorted along a space-filling
    /// curve) and cut every range in the middle.
    FastBuild,
}

/// The decisions that the fast-build strategy makes for `nodes[start..end]`.
pub open spec fn midpoint_choice(nd: MeshBBHNode) -> SplitChoice {
    if needs_split(nd) {
        SplitChoice::Midpoint
    } else {
        SplitChoice::NoSplit
    }
}

/// A middle cut for every node of `nodes[start..end]` that must split.
pub fn midpoint_evaluations(nodes: &Vec<MeshBBHNode>, start: u32, end: u32) -> (res: Vec<SplitChoice>)
    requires
        start <= end <= nodes.len(),
        forall|i: int| start <= i < end ==> (#[trigger] nodes[i]).l <= nodes[i].r,
    ensures
        res.len() == end - start,
        forall|k: int| 0 <= k < res.len() ==> #[trigger] res[k] == midpoint_choice(nodes[start + k]),
{
    let mut res: Vec<SplitChoice> = Vec::with_capacity((end - start) as usize);
    let mut i: u32 = start;
    while i < end
        invariant
            start <= i <= end,
            end <= nodes.len(),
            forall|j: int| start <= j < end ==> (#[trigger] nodes[j]).l <= nodes[j].r,
            res.len() == i - start,
            forall|k: int| 0 <= k < res.len() ==> #[trigger] res[k] == midpoint_choice(nodes[start + k]),
        decreases end - i,
    {
        let nd = &nodes[i as usize];
        if nd.r - nd.l > MAX_TRIS_PER_LEAF {
            res.push(SplitChoice::Midpoint);
        } else {
            res.push(SplitChoice::NoSplit);
        }
        i += 1;
    }
    res
}

/// A finished tree over the triangles `tb` with index buffer `idx`: the index
/// buffer is a permutation, the root covers every triangle, every node is
/// settled and holds the box of its triangles, and there are at most
/// `2n - 1` nodes. Without triangles the tree is the root alone, empty.
pub open spec fn tree_wf(tree: Seq<MeshBBHNode>, idx: Seq<u32>, tb: Seq<TriangleBounds>) -> bool {
    let n = tb.len() as int;
    &&& is_permutation(idx, n)
    &&& tree.len() >= 1
    &&& tree[0].l == 0
    &&& tree[0].r == n
    &&& n == 0 ==> tree.len() == 1 && tree[0].left_child == 0
    &&& n >= 1 ==> tree.len() <= 2 * n - 1
    &&& n >= 1 ==> forall|i: int| 0 <= i < tree.len() ==> node_ok(tree, i, n)
    &&& n >= 1 ==> forall|i: int| 0 <= i < tree.len() ==>
        node_box(#[trigger] tree[i]) == range_box(tb, idx, tree[i].l as int, tree[i].r as int)
}

pub proof fn lemma_range_box_valid(tb: Seq<TriangleBounds>, idx: Seq<u32>, l: int, r: int)
    requires
        0 <= l < r <= idx.len(),
        tris_valid(tb),
        indices_in_range(idx, tb.len() as int),
    ensures
        aabb_valid(range_box(tb, idx, l, r)),
    decreases r - l,
{
    assert(aabb_valid(tri_box(tb[idx[r - 1] as int])));
    if r > l + 1 {
        lemma_range_box_valid(tb, idx, l, r - 1);
    }
}

/// A sum of flags that is zero has every flag zero.
pub proof fn lemma_zero_sum(v: Seq<u32>, a: int, b: int)
    requires
        range_sum(v, a, b) == 0,
    ensures
        forall|k: int| a <= k < b ==> v[k] == 0,
    decreases b - a,
{
    if b > a {
        crate::prefix_sum::lemma_range_sum_nonneg(v, a, b - 1);
        lemma_zero_sum(v, a, b - 1);
    }
}

/// Nodes that split hold at least two triangles each.
pub proof fn lemma_split_sizes(s: Seq<MeshBBHNode>, a: int, b: int)
    requires
        a <= b,
        forall|i: int| a <= i < b ==> (#[trigger] s[i]).l < s[i].r,
    ensures
        range_size(s, a, b) - leaf_size_sum(s, a, b) >= 2 * (b - a - leaf_count(s, a, b)),
    decreases b - a,
{
    if b > a {
        lemma_split_sizes(s, a, b - 1);
    }
}

/// The decisions for `ns[start..end]` under a strategy.
pub open spec fn evals_spec(
    strategy: BuildStrategy,
    ns: Seq<MeshBBHNode>,
    tb: Seq<TriangleBounds>,
    idx: Seq<u32>,
    start: int,
    end: int,
) -> Seq<SplitChoice> {
    Seq::new(
        (end - start) as nat,
        |k: int|
            match strategy {
                BuildStrategy::FastTrace => choose_split(tb, idx, ns[start + k]),
                BuildStrategy::FastBuild => midpoint_choice(ns[start + k]),
            },
    )
}

/// One round of the builder on the frontier `start..end`: the nodes, the
/// index buffer, the next frontier, and whether the build is over.
pub open spec fn round(
    ns: Seq<MeshBBHNode>,
    idx: Seq<u32>,
    tb: Seq<TriangleBounds>,
    strategy: BuildStrategy,
    start: int,
    end: int,
) -> (Seq<MeshBBHNode>, Seq<u32>, int, int, bool) {
    let nb = bbs_spec(ns, tb, idx, start, end);
    let total = total_sum(split_flags(nb, start, end));
    if total == 0 {
        (nb, idx, start, end, true)
    } else {
        let (n2, i2) = next_level(nb, idx, tb, evals_spec(strategy, nb, tb, idx, start, end), start, end);
        (n2, i2, end, end + 2 * total, false)
    }
}

/// Up to `fuel` rounds, stopping at the one that ends the build: the nodes,
/// the index buffer and the node count.
pub open spec fn run_rounds(
    ns: Seq<MeshBBHNode>,
    idx: Seq<u32>,
    tb: Seq<TriangleBounds>,
    strategy: BuildStrategy,
    start: int,
    end: int,
    fuel: nat,
) -> (Seq<MeshBBHNode>, Seq<u32>, int)
    decreases fuel,
{
    if fuel == 0 {
        (ns, idx, end)
    } else {
        let r = round(ns, idx, tb, strategy, start, end);
        if r.4 {
            (r.0, r.1, r.3)
        } else {
            run_rounds(r.0, r.1, tb, strategy, r.2, r.3, (fuel - 1) as nat)
        }
    }
}

/// The tree and index buffer that the builder makes from the triangles `tb`
/// and the starting index buffer `idx`: its result as a function of its
/// input. (`n` rounds are always enough: every round but the last adds at
/// least one node that holds triangles of its own.)
pub open spec fn build_spec(tb: Seq<TriangleBounds>, idx: Seq<u32>, strategy: BuildStrategy) -> (Seq<MeshBBHNode>, Seq<u32>) {
    let n = tb.len() as int;
    let r = run_rounds(seq![fresh_node(0, n)], idx, tb, strategy, 0, 1, n as nat);
    (bbs_spec(r.0, tb, r.1, 0, r.2), r.1)
}

/// Builds the tree over `tris` level by level, starting from the index
/// buffer `indices` (a permutation of the triangles).
pub fn build_levels(tris: &Vec<TriangleBounds>, indices: Vec<u32>, strategy: BuildStrategy) -> (res: (Vec<MeshBBHNode>, Vec<u32>))
    requires
        1 <= tris.len() <= crate::bvh::MAX_TRIANGLES,
        tris_valid(tris@),
        is_permutation(indices@, tris.len() as int),
    ensures
        tree_wf(res.0@, res.1@, tris@),
        strategy == BuildStrategy::FastBuild ==> res.1@ == indices@,
        (res.0@, res.1@) == build_spec(tris@, indices@, strategy),
{
    let n = tris.len() as u32;
    let ghost n_int = n as int;
    let ghost idx0 = indices@;
    let mut indices = indices;
    let mut nodes = init_tree_buffer(n);
    let mut start: u32 = 0;
    let mut end: u32 = 1;
    let ghost mut leaves: int = 0;
    let ghost mut leaf_tris: int = 0;
    let mut done = false;
    let ghost mut rounds: int = 0;
    let ghost target = run_rounds(nodes@, idx0, tris@, strategy, 0, 1, n as nat);
    proof {
        assert(range_size(nodes@, 0, 1) == n) by {
            assert(range_size(nodes@, 0, 0) == 0);
        }
    }
    while !done
        invariant
            n == tris.len(),
            n_int == n,
            1 <= n <= crate::bvh::MAX_TRIANGLES,
            tris_valid(tris@),
            is_permutation(indices@, n_int),
            strategy == BuildStrategy::FastBuild ==> indices@ == idx0,
            nodes.len() == end,
            start < end,
            nodes[0].l == 0,
            nodes[0].r == n,
            forall|i: int| 0 <= i < start ==> node_ok(nodes@, i, n_int),
            !done ==> forall|i: int| start <= i < end ==> frontier_ok(nodes@, i, n_int),
            done ==> forall|i: int| start <= i < end ==> node_ok(nodes@, i, n_int),
            leaf_tris + range_size(nodes@, start as int, end as int) == n,
            0 <= leaves <= leaf_tris,
            end == 2 * (leaves + (end - start)) - 1,
            leaves + (end - start) <= n,
            0 <= rounds,
            !done ==> rounds + 1 <= leaves + (end - start),
            !done ==> run_rounds(nodes@, indices@, tris@, strategy, start as int, end as int, (n - rounds) as nat) == target,
            done ==> (nodes@, indices@, end as int) == target,
            target == run_rounds(seq![fresh_node(0, n as int)], idx0, tris@, strategy, 0, 1, n as nat),
        decreases 2 * (n - leaves - (end - start)) + if done { 0int } else { 1int },
    {
        let ghost fuel = (n - rounds) as nat;
        let ghost pre = nodes@;
        let ghost pre_idx = indices@;
        proof {
            assert forall|i: int| start <= i < end implies (#[trigger] nodes@[i]).l <= nodes@[i].r <= indices.len() by {
                assert(frontier_ok(pre, i, n_int));
            }
        }
        build_bbs(&mut nodes, tris, &indices, start, end);
        let ghost boxed = nodes@;
        proof {
            assert forall|i: int| 0 <= i < start implies node_ok(boxed, i, n_int) by {
                lemma_node_ok_frame(pre, boxed, i, n_int);
            }
            assert forall|i: int| start <= i < end implies frontier_ok(boxed, i, n_int) by {
                assert(frontier_ok(pre, i, n_int));
                assert(same_structure(boxed[i], pre[i]));
            }
            lemma_range_size_frame(pre, boxed, start as int, end as int);
            assert forall|i: int| start <= i < end implies (#[trigger] boxed[i]).l < boxed[i].r by {
                assert(frontier_ok(boxed, i, n_int));
            }
            assert forall|i: int| start <= i < end implies aabb_valid(node_box(#[trigger] boxed[i])) by {
                assert(frontier_ok(pre, i, n_int));
                lemma_range_box_valid(tris@, indices@, pre[i].l as int, pre[i].r as int);
            }
        }
        let (offsets, total) = find_node_offsets(&nodes, start, end);
        let ghost flags = split_flags(boxed, start as int, end as int);
        proof {
            lemma_flags_count(boxed, start as int, end as int, (end - start) as int);
            lemma_leaf_count_bound(boxed, start as int, end as int);
            lemma_split_sizes(boxed, start as int, end as int);
        }
        if total == 0 {
            proof {
                lemma_zero_sum(flags, 0, (end - start) as int);
                assert forall|i: int| start <= i < end implies node_ok(boxed, i, n_int) by {
                    assert(frontier_ok(boxed, i, n_int));
                    assert(flags[i - start] == 0);
                }
                assert(round(pre, indices@, tris@, strategy, start as int, end as int).4);
            }
            done = true;
        } else {
            let evals = match strategy {
                BuildStrategy::FastTrace => split_evaluations(&nodes, tris, &indices, start, end),
                BuildStrategy::FastBuild => midpoint_evaluations(&nodes, start, end),
            };
            proof {
                assert(evals@ =~= evals_spec(strategy, boxed, tris@, indices@, start as int, end as int));
                assert forall|k: int| 0 <= k < evals.len() && needs_split(boxed[start + k]) implies #[trigger] evals[k] != SplitChoice::NoSplit by {
                }
                if strategy == BuildStrategy::FastBuild {
                    assert forall|k: int| 0 <= k < evals.len() implies !(#[trigger] evals@[k] is Plane) by {
                        assert(evals[k] == midpoint_choice(boxed[start + k]));
                    }
                }
            }
            build_next_level(&mut nodes, &mut indices, tris, &evals, &offsets, start, end);
            proof {
                let after = nodes@;
                assert forall|i: int| 0 <= i < end implies node_ok(after, i, n_int) by {
                    if i < start {
                        lemma_node_ok_frame(boxed, after, i, n_int);
                    }
                }
                assert forall|i: int| end <= i < after.len() implies (#[trigger] after[i]).l < after[i].r by {
                    assert(frontier_ok(after, i, n_int));
                }
                lemma_range_size_bound(after, end as int, after.len() as int);
                leaves = leaves + leaf_count(boxed, start as int, end as int);
                leaf_tris = leaf_tris + leaf_size_sum(boxed, start as int, end as int);
                rounds = rounds + 1;
                let r = round(pre, pre_idx, tris@, strategy, start as int, end as int);
                assert(!r.4);
                assert(r.0 == nodes@ && r.1 == indices@);
            }
            start = end;
            end = end + 2 * total;
        }
    }
    let ghost pre = nodes@;
    proof {
        assert forall|i: int| 0 <= i < end implies (#[trigger] nodes@[i]).l <= nodes@[i].r <= indices.len() by {
            assert(node_ok(pre, i, n_int));
        }
    }
    build_bbs(&mut nodes, tris, &indices, 0, end);
    proof {
        let fin = nodes@;
        assert forall|i: int| 0 <= i < end implies node_ok(fin, i, n_int) by {
            lemma_node_ok_frame(pre, fin, i, n_int);
        }
        assert forall|i: int| 0 <= i < end implies node_box(#[trigger] fin[i]) == range_box(
            tris@,
            indices@,
            fin[i].l as int,
            fin[i].r as int,
        ) by {
            assert(node_ok(pre, i, n_int));
        }
    }
    (nodes, indices)
}

} // verus!
