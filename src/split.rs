//! Choosing where to split a node, and reordering its triangles to match.
//!
//! A node is split by a plane across its longest axis. A few evenly spaced
//! planes are tried; each is scored by the surface-area heuristic: the number
//! of triangles on a side times half the surface area of that side's box,
//! summed over both sides. Triangles go to the side of their centroid.
use vstd::prelude::*;
use crate::bvh::{is_permutation, lemma_swap_keeps_permutation, needs_split, node_box, MeshBBHNode};
use crate::geometry::{
    aabb_valid, centroid_coord, coord, half_area_spec, tri_box, union_spec, Aabb, Axis, Point3,
    TriangleBounds,
};

verus! {

/// The number of planes tried per node.
pub const SPLIT_CANDIDATES: u32 = 4;

/// What to do with a node.
#[derive(Clone, Copy, Debug, PartialEq, Eq, Structural)]
pub enum SplitChoice {
    /// The node is small enough to stay a leaf.
    NoSplit,
    /// Triangles whose centroid (times three) lies below `pos` on `axis` go left.
    Plane { axis: Axis, pos: i64 },
    /// No plane separates the triangles: split the range in the middle as it is.
    Midpoint,
}

/// Every triangle's box has ordered corners.
pub open spec fn tris_valid(tb: Seq<TriangleBounds>) -> bool {
    forall|t: int| 0 <= t < tb.len() ==> aabb_valid(#[trigger] tri_box(tb[t]))
}

/// Every index names a triangle.
pub open spec fn indices_in_range(idx: Seq<u32>, n: int) -> bool {
    forall|i: int| 0 <= i < idx.len() ==> (#[trigger] idx[i] as int) < n
}

/// Triangle `t` lies on the left of the plane at `pos` across `axis`.
pub open spec fn goes_left(tb: Seq<TriangleBounds>, t: u32, axis: Axis, pos: int) -> bool {
    centroid_coord(tb[t as int].centroid, axis) < pos
}

pub open spec fn zero_box() -> Aabb {
    Aabb { min_corner: Point3 { x: 0, y: 0, z: 0 }, max_corner: Point3 { x: 0, y: 0, z: 0 } }
}

/// How many of `idx[l..r]` fall on the given side of the plane.
pub open spec fn side_count(
    tb: Seq<TriangleBounds>,
    idx: Seq<u32>,
    l: int,
    r: int,
    axis: Axis,
    pos: int,
    left: bool,
) -> int
    decreases r - l,
{
    if r <= l {
        0
    } else {
        side_count(tb, idx, l, r - 1, axis, pos, left) + if goes_left(tb, idx[r - 1], axis, pos) == left {
            1int
        } else {
            0int
        }
    }
}

/// The box of those of `idx[l..r]` on the given side (the zero box when there are none).
pub open spec fn side_box(
    tb: Seq<TriangleBounds>,
    idx: Seq<u32>,
    l: int,
    r: int,
    axis: Axis,
    pos: int,
    left: bool,
) -> Aabb
    decreases r - l,
{
    if r <= l {
        zero_box()
    } else {
        let prev = side_box(tb, idx, l, r - 1, axis, pos, left);
        let t = tri_box(tb[idx[r - 1] as int]);
        if goes_left(tb, idx[r - 1], axis, pos) == left {
            if side_count(tb, idx, l, r - 1, axis, pos, left) == 0 {
                t
            } else {
                union_spec(prev, t)
            }
        } else {
            prev
        }
    }
}

/// The heuristic cost of splitting `idx[l..r]` at the plane.
pub open spec fn split_cost(tb: Seq<TriangleBounds>, idx: Seq<u32>, l: int, r: int, axis: Axis, pos: int) -> int {
    side_count(tb, idx, l, r, axis, pos, true) * half_area_spec(side_box(tb, idx, l, r, axis, pos, true))
        + side_count(tb, idx, l, r, axis, pos, false) * half_area_spec(side_box(tb, idx, l, r, axis, pos, false))
}

/// The plane puts at least one triangle on each side.
pub open spec fn separates(tb: Seq<TriangleBounds>, idx: Seq<u32>, l: int, r: int, axis: Axis, pos: int) -> bool {
    side_count(tb, idx, l, r, axis, pos, true) > 0 && side_count(tb, idx, l, r, axis, pos, false) > 0
}

/// The axis along which a box is longest (X before Y before Z on ties).
pub open spec fn longest_axis(b: Aabb) -> Axis {
    let dx = b.max_corner.x - b.min_corner.x;
    let dy = b.max_corner.y - b.min_corner.y;
    let dz = b.max_corner.z - b.min_corner.z;
    if dx >= dy && dx >= dz {
        Axis::X
    } else if dy >= dz {
        Axis::Y
    } else {
        Axis::Z
    }
}

/// Candidate `k` of the planes across `[lo, hi]`, in centroid units (three
/// times a coordinate): the planes cut the extent into equal parts.
pub open spec fn candidate_pos(lo: int, hi: int, k: int) -> int {
    3 * lo + (3 * (hi - lo) * (k + 1)) / (SPLIT_CANDIDATES + 1)
}

/// The cheapest separating candidate among the first `k` (the first such on ties).
pub open spec fn best_candidate(
    tb: Seq<TriangleBounds>,
    idx: Seq<u32>,
    l: int,
    r: int,
    axis: Axis,
    lo: int,
    hi: int,
    k: int,
) -> Option<int>
    decreases k,
{
    if k <= 0 {
        None
    } else {
        let prev = best_candidate(tb, idx, l, r, axis, lo, hi, k - 1);
        let p = candidate_pos(lo, hi, k - 1);
        if !separates(tb, idx, l, r, axis, p) {
            prev
        } else {
            match prev {
                None => Some(k - 1),
                Some(b) => if split_cost(tb, idx, l, r, axis, p) < split_cost(
                    tb,
                    idx,
                    l,
                    r,
                    axis,
                    candidate_pos(lo, hi, b),
                ) {
                    Some(k - 1)
                } else {
                    prev
                },
            }
        }
    }
}

/// The decision for a node whose stored box is that of its triangles.
pub open spec fn choose_split(tb: Seq<TriangleBounds>, idx: Seq<u32>, n: MeshBBHNode) -> SplitChoice {
    if !needs_split(n) {
        SplitChoice::NoSplit
    } else {
        let b = node_box(n);
        let axis = longest_axis(b);
        let lo = coord(b.min_corner, axis);
        let hi = coord(b.max_corner, axis);
        match best_candidate(tb, idx, n.l as int, n.r as int, axis, lo, hi, SPLIT_CANDIDATES as int) {
            None => SplitChoice::Midpoint,
            Some(c) => SplitChoice::Plane { axis, pos: candidate_pos(lo, hi, c) as i64 },
        }
    }
}

proof fn lemma_side_box_valid(
    tb: Seq<TriangleBounds>,
    idx: Seq<u32>,
    l: int,
    r: int,
    axis: Axis,
    pos: int,
    left: bool,
)
    requires
        tris_valid(tb),
        forall|i: int| l <= i < r ==> 0 <= #[trigger] idx[i] < tb.len(),
    ensures
        aabb_valid(side_box(tb, idx, l, r, axis, pos, left)),
    decreases r - l,
{
    if r > l {
        lemma_side_box_valid(tb, idx, l, r - 1, axis, pos, left);
        assert(aabb_valid(tri_box(tb[idx[r - 1] as int])));
    }
}

fn longest_axis_of(b: &Aabb) -> (a: Axis)
    ensures
        a == longest_axis(*b),
{
    let dx = b.max_corner.x as i64 - b.min_corner.x as i64;
    let dy = b.max_corner.y as i64 - b.min_corner.y as i64;
    let dz = b.max_corner.z as i64 - b.min_corner.z as i64;
    if dx >= dy && dx >= dz {
        Axis::X
    } else if dy >= dz {
        Axis::Y
    } else {
        Axis::Z
    }
}

/// Counts, boxes and cost of one candidate plane over `idx[l..r]`.
/// Returns the left count, the right count and the cost.
pub fn evaluate_plane(tris: &Vec<TriangleBounds>, indices: &Vec<u32>, l: u32, r: u32, axis: Axis, pos: i64) -> (res: (u32, u32, u128))
    requires
        l <= r <= indices.len(),
        tris_valid(tris@),
        indices_in_range(indices@, tris.len() as int),
    ensures
        res.0 == side_count(tris@, indices@, l as int, r as int, axis, pos as int, true),
        res.1 == side_count(tris@, indices@, l as int, r as int, axis, pos as int, false),
        res.2 == split_cost(tris@, indices@, l as int, r as int, axis, pos as int),
{
    let ghost tb = tris@;
    let ghost idx = indices@;
    let mut left_count: u32 = 0;
    let mut right_count: u32 = 0;
    let mut left_box = Aabb { min_corner: Point3 { x: 0, y: 0, z: 0 }, max_corner: Point3 { x: 0, y: 0, z: 0 } };
    let mut right_box = left_box;
    let mut k: u32 = l;
    while k < r
        invariant
            l <= k <= r,
            r <= indices.len(),
            tb == tris@,
            idx == indices@,
            tris_valid(tb),
            indices_in_range(idx, tb.len() as int),
            left_count == side_count(tb, idx, l as int, k as int, axis, pos as int, true),
            right_count == side_count(tb, idx, l as int, k as int, axis, pos as int, false),
            left_count + right_count == k - l,
            left_box == side_box(tb, idx, l as int, k as int, axis, pos as int, true),
            right_box == side_box(tb, idx, l as int, k as int, axis, pos as int, false),
        decreases r - k,
    {
        let t = indices[k as usize];
        let tri = tris[t as usize];
        let b = tri.aabb();
        if tri.centroid.get(axis) < pos {
            left_box = if left_count == 0 { b } else { left_box.union(&b) };
            left_count += 1;
        } else {
            right_box = if right_count == 0 { b } else { right_box.union(&b) };
            right_count += 1;
        }
        k += 1;
    }
    proof {
        lemma_side_box_valid(tb, idx, l as int, r as int, axis, pos as int, true);
        lemma_side_box_valid(tb, idx, l as int, r as int, axis, pos as int, false);
    }
    let la = left_box.half_area();
    let ra = right_box.half_area();
    assert(left_count * la <= 0xffff_ffff * (3 * 0xffff_ffff * 0xffff_ffff)) by (nonlinear_arith)
        requires left_count <= 0xffff_ffff, la <= 3 * 0xffff_ffff * 0xffff_ffff;
    assert(right_count * ra <= 0xffff_ffff * (3 * 0xffff_ffff * 0xffff_ffff)) by (nonlinear_arith)
        requires right_count <= 0xffff_ffff, ra <= 3 * 0xffff_ffff * 0xffff_ffff;
    (left_count, right_count, left_count as u128 * la + right_count as u128 * ra)
}

/// The decision for one node, as `choose_split` gives it.
pub fn evaluate_node(tris: &Vec<TriangleBounds>, indices: &Vec<u32>, node: &MeshBBHNode) -> (c: SplitChoice)
    requires
        node.l <= node.r <= indices.len(),
        aabb_valid(node_box(*node)),
        tris_valid(tris@),
        indices_in_range(indices@, tris.len() as int),
    ensures
        c == choose_split(tris@, indices@, *node),
{
    if node.r - node.l <= crate::bvh::MAX_TRIS_PER_LEAF {
        return SplitChoice::NoSplit;
    }
    let b = node_box_of(node);
    let axis = longest_axis_of(&b);
    let lo = b.min_corner.get(axis) as i64;
    let hi = b.max_corner.get(axis) as i64;
    let ghost tb = tris@;
    let ghost idx = indices@;
    let mut best: Option<u32> = None;
    let mut best_pos: i64 = 0;
    let mut best_cost: u128 = 0;
    let mut k: u32 = 0;
    while k < SPLIT_CANDIDATES
        invariant
            k <= SPLIT_CANDIDATES,
            node.l <= node.r <= indices.len(),
            tb == tris@,
            idx == indices@,
            tris_valid(tb),
            indices_in_range(idx, tb.len() as int),
            b == node_box(*node),
            aabb_valid(b),
            axis == longest_axis(b),
            lo == coord(b.min_corner, axis),
            hi == coord(b.max_corner, axis),
            best == (match best_candidate(tb, idx, node.l as int, node.r as int, axis, lo as int, hi as int, k as int) {
                None => None,
                Some(c) => Some(c as u32),
            }),
            match best_candidate(tb, idx, node.l as int, node.r as int, axis, lo as int, hi as int, k as int) {
                None => true,
                Some(c) => 0 <= c < k && best_pos == candidate_pos(lo as int, hi as int, c)
                    && best_cost == split_cost(tb, idx, node.l as int, node.r as int, axis, best_pos as int),
            },
        decreases SPLIT_CANDIDATES - k,
    {
        assert(0 <= 3 * (hi - lo) * (k + 1) <= 3 * 0xffff_ffff * 5) by (nonlinear_arith)
            requires 0 <= hi - lo <= 0xffff_ffff, k < 4, k >= 0;
        let pos: i64 = 3 * lo + (3 * (hi - lo) * (k as i64 + 1)) / (SPLIT_CANDIDATES as i64 + 1);
        let (nl, nr, cost) = evaluate_plane(tris, indices, node.l, node.r, axis, pos);
        if nl > 0 && nr > 0 {
            let better = match best {
                None => true,
                Some(_) => cost < best_cost,
            };
            if better {
                best = Some(k);
                best_pos = pos;
                best_cost = cost;
            }
        }
        k += 1;
    }
    match best {
        None => SplitChoice::Midpoint,
        Some(_) => SplitChoice::Plane { axis, pos: best_pos },
    }
}

fn node_box_of(n: &MeshBBHNode) -> (b: Aabb)
    ensures
        b == node_box(*n),
{
    Aabb { min_corner: n.min_corner, max_corner: n.max_corner }
}

/// One decision per node of `nodes[start..end]`.
pub fn split_evaluations(
    nodes: &Vec<MeshBBHNode>,
    tris: &Vec<TriangleBounds>,
    indices: &Vec<u32>,
    start: u32,
    end: u32,
) -> (res: Vec<SplitChoice>)
    requires
        start <= end <= nodes.len(),
        forall|i: int| start <= i < end ==> (#[trigger] nodes[i]).l <= nodes[i].r <= indices.len(),
        forall|i: int| start <= i < end ==> aabb_valid(node_box(#[trigger] nodes[i])),
        tris_valid(tris@),
        indices_in_range(indices@, tris.len() as int),
    ensures
        res.len() == end - start,
        forall|k: int| 0 <= k < res.len() ==> #[trigger] res[k] == choose_split(tris@, indices@, nodes[start + k]),
{
    let mut res: Vec<SplitChoice> = Vec::with_capacity((end - start) as usize);
    let mut i: u32 = start;
    while i < end
        invariant
            start <= i <= end,
            end <= nodes.len(),
            forall|j: int| start <= j < end ==> (#[trigger] nodes[j]).l <= nodes[j].r <= indices.len(),
            forall|j: int| start <= j < end ==> aabb_valid(node_box(#[trigger] nodes[j])),
            tris_valid(tris@),
            indices_in_range(indices@, tris.len() as int),
            res.len() == i - start,
            forall|k: int| 0 <= k < res.len() ==> #[trigger] res[k] == choose_split(tris@, indices@, nodes[start + k]),
        decreases end - i,
    {
        let c = evaluate_node(tris, indices, &nodes[i as usize]);
        res.push(c);
        i += 1;
    }
    res
}

/// Exchanges two entries.
fn swap_entries(v: &mut Vec<u32>, i: usize, j: usize)
    requires
        i < old(v).len(),
        j < old(v).len(),
    ensures
        final(v)@ == old(v)@.update(i as int, old(v)@[j as int]).update(j as int, old(v)@[i as int]),
{
    let a = v[i];
    let b = v[j];
    v.set(i, b);
    v.set(j, a);
}

/// The reordering that `partition_range` makes, after it has looked at the
/// entries `l..j`, and the end of the left side so far: each entry left of
/// the plane is swapped to the end of the left side.
pub open spec fn lomuto(s: Seq<u32>, tb: Seq<TriangleBounds>, l: int, j: int, axis: Axis, pos: int) -> (Seq<u32>, int)
    decreases j - l,
{
    if j <= l {
        (s, l)
    } else {
        let (t, i) = lomuto(s, tb, l, j - 1, axis, pos);
        if goes_left(tb, t[j - 1], axis, pos) {
            (t.update(i, t[j - 1]).update(j - 1, t[i]), i + 1)
        } else {
            (t, i)
        }
    }
}

/// Reorders `indices[l..r]` so that the triangles left of the plane come
/// first; returns where the right side begins. Entries outside the range are
/// not moved, and a permutation stays a permutation.
pub fn partition_range(
    indices: &mut Vec<u32>,
    tris: &Vec<TriangleBounds>,
    l: u32,
    r: u32,
    axis: Axis,
    pos: i64,
) -> (m: u32)
    requires
        l <= r <= old(indices).len(),
        indices_in_range(old(indices)@, tris.len() as int),
    ensures
        l <= m <= r,
        final(indices).len() == old(indices).len(),
        indices_in_range(final(indices)@, tris.len() as int),
        forall|i: int| 0 <= i < final(indices).len() && !(l <= i < r) ==> #[trigger] final(indices)[i] == old(indices)[i],
        forall|i: int| l <= i < m ==> goes_left(tris@, #[trigger] final(indices)[i], axis, pos as int),
        forall|i: int| m <= i < r ==> !goes_left(tris@, #[trigger] final(indices)[i], axis, pos as int),
        forall|n: int| is_permutation(old(indices)@, n) ==> is_permutation(final(indices)@, n),
        (final(indices)@, m as int) == lomuto(old(indices)@, tris@, l as int, r as int, axis, pos as int),
{
    let ghost before = indices@;
    let mut i: u32 = l;
    let mut j: u32 = l;
    while j < r
        invariant
            l <= i <= j <= r,
            r <= indices.len(),
            indices.len() == before.len(),
            indices_in_range(indices@, tris.len() as int),
            forall|k: int| 0 <= k < indices.len() && !(l <= k < r) ==> #[trigger] indices[k] == before[k],
            forall|k: int| l <= k < i ==> goes_left(tris@, #[trigger] indices[k], axis, pos as int),
            forall|k: int| i <= k < j ==> !goes_left(tris@, #[trigger] indices[k], axis, pos as int),
            forall|n: int| is_permutation(before, n) ==> is_permutation(indices@, n),
            (indices@, i as int) == lomuto(before, tris@, l as int, j as int, axis, pos as int),
        decreases r - j,
    {
        let t = indices[j as usize];
        if tris[t as usize].centroid.get(axis) < pos {
            let ghost cur = indices@;
            swap_entries(indices, i as usize, j as usize);
            proof {
                assert forall|n: int| is_permutation(before, n) implies is_permutation(indices@, n) by {
                    lemma_swap_keeps_permutation(cur, i as int, j as int, n);
                }
                assert forall|k: int| 0 <= k < indices.len() implies (#[trigger] indices@[k] as int) < tris.len() by {
                    assert(indices@[k] == cur[k] || indices@[k] == cur[i as int] || indices@[k] == cur[j as int]);
                }
            }
            i += 1;
        }
        j += 1;
    }
    i
}

} // verus!
