//! Building a hierarchy from a mesh: the two strategies and their common
//! checks.
use vstd::prelude::*;
use crate::bitonic::{bitonic_merge_sort, keyed_by};
use crate::builder::{build_levels, build_spec, fresh_node, tree_wf, BuildStrategy};
use crate::bvh::{
    is_permutation, lemma_distinct_complete_len, lemma_permutation_complete, MeshBBH, MeshBBHNode,
    MAX_TRIANGLES,
};
use crate::geometry::{Point3, TriangleBounds};
use crate::iota::iota;
use crate::morton::{calculate_morton_codes, morton_code_spec};
use crate::network::{apply_phases_values, is_pow2};
use crate::split::tris_valid;
use crate::triangle_bounds::{
    compute_triangle_bounds, indices_valid, mesh_box, mesh_indices_valid, mesh_triangle, prefix_box,
    triangle_count_of,
};

verus! {

/// Why a mesh could not be built into a hierarchy.
#[derive(Clone, Copy, Debug, PartialEq, Eq, Structural)]
pub enum BuildError {
    /// An entry of the index list names no vertex.
    VertexIndexOutOfRange,
    /// The mesh has more triangles than `MAX_TRIANGLES`.
    TooManyTriangles,
}

/// The bounds records of a mesh's triangles, in triangle order.
pub open spec fn mesh_tris(vertices: Seq<Point3>, indices: Seq<u32>) -> Seq<TriangleBounds> {
    Seq::new(triangle_count_of(indices) as nat, |t: int| mesh_triangle(vertices, indices, t))
}

/// When a mesh is refused, and why.
pub open spec fn mesh_error(vertices: Seq<Point3>, indices: Seq<u32>) -> Option<BuildError> {
    if !indices_valid(vertices, indices) {
        Some(BuildError::VertexIndexOutOfRange)
    } else if triangle_count_of(indices) > MAX_TRIANGLES {
        Some(BuildError::TooManyTriangles)
    } else {
        None
    }
}

/// The nodes and index buffer that `strategy` builds from a mesh that is not
/// refused: the index buffer starts as `0..n` for the fast-trace strategy and
/// in Morton order for the fast-build one.
pub open spec fn bbh_spec(vertices: Seq<Point3>, indices: Seq<u32>, strategy: BuildStrategy) -> (Seq<MeshBBHNode>, Seq<u32>) {
    let tb = mesh_tris(vertices, indices);
    let start = match strategy {
        BuildStrategy::FastTrace => identity_order(tb.len() as int),
        BuildStrategy::FastBuild => if tb.len() == 0 {
            Seq::empty()
        } else {
            morton_order_spec(tb)
        },
    };
    build_spec(tb, start, strategy)
}

/// `r` is what building a mesh with `strategy` gives: the refusal when the
/// mesh is refused, and otherwise the finished hierarchy over its triangles
/// that the strategy makes.
pub open spec fn generated(vertices: Seq<Point3>, indices: Seq<u32>, strategy: BuildStrategy, r: Result<MeshBBH, BuildError>) -> bool {
    match r {
        Ok(bbh) => mesh_error(vertices, indices).is_none() && bbh.wf(mesh_tris(vertices, indices)) && (bbh.tree@, bbh.indices@)
            == bbh_spec(vertices, indices, strategy),
        Err(e) => mesh_error(vertices, indices) == Some(e),
    }
}

impl MeshBBH {
    /// A finished hierarchy over the triangles `tb`.
    pub open spec fn wf(&self, tb: Seq<TriangleBounds>) -> bool {
        &&& self.node_count == self.tree.len()
        &&& tree_wf(self.tree@, self.indices@, tb)
    }
}

/// The hierarchy of no triangles: one empty root.
pub fn empty_bbh() -> (r: MeshBBH)
    ensures
        r.wf(Seq::empty()),
        forall|strategy: BuildStrategy| (r.tree@, r.indices@) == #[trigger] build_spec(Seq::empty(), Seq::empty(), strategy),
{
    let tree = crate::builder::init_tree_buffer(0);
    let r = MeshBBH::new(tree, Vec::new(), 1);
    assert forall|strategy: BuildStrategy| (r.tree@, r.indices@) == #[trigger] build_spec(Seq::empty(), Seq::empty(), strategy) by {
        let tb = Seq::<TriangleBounds>::empty();
        assert(crate::bvh::bbs_spec(seq![fresh_node(0, 0)], tb, Seq::empty(), 0, 1) =~= seq![fresh_node(0, 0)]);
        assert(r.indices@ =~= Seq::<u32>::empty());
    }
    r
}

/// Builds the hierarchy over already computed triangle bounds. The index
/// buffer starts as `0..n` and is reordered by the splits.
pub fn build_from_bounds(tris: &Vec<TriangleBounds>, strategy: BuildStrategy) -> (r: MeshBBH)
    requires
        tris.len() <= MAX_TRIANGLES,
        tris_valid(tris@),
    ensures
        r.wf(tris@),
        (r.tree@, r.indices@) == build_spec(tris@, identity_order(tris.len() as int), strategy),
{
    if tris.len() == 0 {
        let r = empty_bbh();
        assert(tris@ =~= Seq::<TriangleBounds>::empty());
        assert(identity_order(0) =~= Seq::<u32>::empty());
        assert((r.tree@, r.indices@) == build_spec(Seq::empty(), Seq::empty(), strategy));
        return r;
    }
    let n = tris.len() as u32;
    let indices = iota(n, 1);
    proof {
        assert((n + 1 - 1) / 1int * 1 == n);
        assert(indices@ =~= identity_order(n as int));
    }
    let (tree, indices) = build_levels(tris, indices, strategy);
    let count = tree.len() as u32;
    MeshBBH::new(tree, indices, count)
}

/// Checks a mesh and computes its triangles' bounds, or says why it is refused.
pub fn mesh_triangle_bounds(vertices: &Vec<Point3>, indices: &Vec<u32>) -> (r: Result<Vec<TriangleBounds>, BuildError>)
    ensures
        match r {
            Ok(tris) => mesh_error(vertices@, indices@).is_none() && tris@ == mesh_tris(vertices@, indices@)
                && tris_valid(tris@),
            Err(e) => mesh_error(vertices@, indices@) == Some(e),
        },
{
    if !mesh_indices_valid(vertices, indices) {
        return Err(BuildError::VertexIndexOutOfRange);
    }
    if indices.len() / 3 > MAX_TRIANGLES as usize {
        return Err(BuildError::TooManyTriangles);
    }
    let tris = compute_triangle_bounds(vertices, indices);
    assert(tris@ =~= mesh_tris(vertices@, indices@));
    Ok(tris)
}

/// Builds hierarchies over meshes, by either strategy.
pub struct MeshBBHGenerator {
    fast_trace_generator: MeshBBHGeneratorFastTrace,
    fast_build_generator: MeshBBHGeneratorFastBuild,
}

impl MeshBBHGenerator {
    pub fn new() -> (r: MeshBBHGenerator) {
        MeshBBHGenerator {
            fast_trace_generator: MeshBBHGeneratorFastTrace::new(),
            fast_build_generator: MeshBBHGeneratorFastBuild::new(),
        }
    }

    /// The hierarchy split by the surface-area heuristic; see
    /// `MeshBBHGeneratorFastTrace::generate_mesh_bbh`.
    pub fn generate_mesh_bbh_fast_trace(&self, vertices: &Vec<Point3>, indices: &Vec<u32>) -> (r: Result<MeshBBH, BuildError>)
        ensures
            generated(vertices@, indices@, BuildStrategy::FastTrace, r),
    {
        self.fast_trace_generator.generate_mesh_bbh(vertices, indices)
    }

    /// The hierarchy in Morton order cut at midpoints; see
    /// `MeshBBHGeneratorFastBuild::generate_mesh_bbh`.
    pub fn generate_mesh_bbh_fast_build(&self, vertices: &Vec<Point3>, indices: &Vec<u32>) -> (r: Result<MeshBBH, BuildError>)
        ensures
            generated(vertices@, indices@, BuildStrategy::FastBuild, r),
    {
        self.fast_build_generator.generate_mesh_bbh(vertices, indices)
    }
}

/// Builds hierarchies split by the surface-area heuristic.
pub struct MeshBBHGeneratorFastTrace {}

impl MeshBBHGeneratorFastTrace {
    pub fn new() -> (r: MeshBBHGeneratorFastTrace) {
        MeshBBHGeneratorFastTrace {  }
    }

    /// The hierarchy over the mesh's whole triangles (trailing indices that
    /// make no triangle are ignored). The mesh itself is not changed: the
    /// hierarchy has an index buffer of its own, a permutation of the
    /// triangle numbers. A mesh with an index that names no vertex, or with
    /// more than `MAX_TRIANGLES` triangles, is refused.
    pub fn generate_mesh_bbh(&self, vertices: &Vec<Point3>, indices: &Vec<u32>) -> (r: Result<MeshBBH, BuildError>)
        ensures
            generated(vertices@, indices@, BuildStrategy::FastTrace, r),
    {
        let tris = mesh_triangle_bounds(vertices, indices)?;
        Ok(build_from_bounds(&tris, BuildStrategy::FastTrace))
    }
}

/// The keys of the entries of `s` are in ascending order.
pub open spec fn ordered_by(key_of: Seq<u64>, s: Seq<u32>) -> bool {
    forall|a: int, b: int| 0 <= a < b < s.len() ==> #[trigger] key_of[s[a] as int] <= #[trigger] key_of[s[b] as int]
}

/// The first of `m, 2m, 4m, ...` that is at least `n`.
pub open spec fn pow2_ceil(n: int, m: int) -> int
    decreases (if n > m { n - m } else { 0 }),
{
    if m <= 0 || m >= n {
        m
    } else {
        pow2_ceil(n, 2 * m)
    }
}

/// The sequence `0..m`.
pub open spec fn identity_order(m: int) -> Seq<u32> {
    Seq::new(m as nat, |i: int| i as u32)
}

/// The Morton codes of the triangles within the box `b`, padded to `m` entries
/// with the largest key.
pub open spec fn padded_codes(tb: Seq<TriangleBounds>, b: crate::geometry::Aabb, m: int) -> Seq<u64> {
    Seq::new(m as nat, |t: int| if t < tb.len() { morton_code_spec(tb[t], b) as u64 } else { u64::MAX })
}

/// The order that `morton_order` gives the triangles `tb`.
pub open spec fn morton_order_spec(tb: Seq<TriangleBounds>) -> Seq<u32> {
    let n = tb.len() as int;
    let m = pow2_ceil(n, 1);
    apply_phases_values(padded_codes(tb, prefix_box(tb, n), m), identity_order(m), m).filter(|v: u32| (v as int) < n)
}

/// The smallest power of two that is at least `n`.
pub fn padded_sort_len(n: u32) -> (m: u64)
    requires
        1 <= n <= MAX_TRIANGLES,
    ensures
        n <= m < 2 * n,
        is_pow2(m as int),
        m == pow2_ceil(n as int, 1),
{
    let mut m: u64 = 1;
    proof {
        reveal_with_fuel(is_pow2, 2);
    }
    while m < n as u64
        invariant
            1 <= m,
            m < 2 * n,
            is_pow2(m as int),
            pow2_ceil(n as int, m as int) == pow2_ceil(n as int, 1),
        decreases 2 * n - m,
    {
        proof {
            assert((2 * m) / 2 == m);
            reveal_with_fuel(is_pow2, 2);
        }
        m = m * 2;
    }
    m
}

/// The entries of `values` below `n`, in the order they come.
pub fn drop_padding(values: &Vec<u32>, n: u32) -> (order: Vec<u32>)
    requires
        n <= values.len(),
        is_permutation(values@, values.len() as int),
    ensures
        is_permutation(order@, n as int),
        forall|a: int| 0 <= a < order.len() ==> #[trigger] values@.contains(order[a]),
        forall|key_of: Seq<u64>| ordered_by(key_of, values@) ==> #[trigger] ordered_by(key_of, order@),
        order@ == values@.filter(|v: u32| v < n),
{
    let mut order: Vec<u32> = Vec::new();
    let ghost mut pos: Seq<int> = Seq::empty();
    let mut i: usize = 0;
    while i < values.len()
        invariant
            i <= values.len(),
            n <= values.len(),
            is_permutation(values@, values.len() as int),
            pos.len() == order.len(),
            forall|a: int| 0 <= a < order.len() ==> 0 <= #[trigger] pos[a] < i && values[pos[a]] == order[a] && order[a] < n,
            forall|a: int, b: int| 0 <= a < b < order.len() ==> pos[a] < pos[b],
            forall|p: int| 0 <= p < i && values[p] < n ==> #[trigger] order@.contains(values[p]),
            order@ == values@.take(i as int).filter(|v: u32| v < n),
        decreases values.len() - i,
    {
        proof {
            assert(values@.take(i as int + 1) =~= values@.take(i as int).push(values@[i as int]));
            values@.take(i as int).lemma_filter_push(values@[i as int], |v: u32| v < n);
        }
        let v = values[i];
        if v < n {
            let ghost before = order@;
            order.push(v);
            proof {
                pos = pos.push(i as int);
                assert forall|p: int| 0 <= p < i + 1 && values[p] < n implies #[trigger] order@.contains(values[p]) by {
                    if p < i {
                        assert(before.contains(values[p]));
                        let a = choose|a: int| 0 <= a < before.len() && before[a] == values[p];
                        assert(order@[a] == values[p]);
                    } else {
                        assert(order@[order.len() - 1] == values[p]);
                    }
                }
            }
        }
        i += 1;
    }
    proof {
        assert forall|a: int, b: int| 0 <= a < order.len() && 0 <= b < order.len() && a != b implies order[a] != order[b] by {
            if a < b {
                assert(pos[a] < pos[b]);
            } else {
                assert(pos[b] < pos[a]);
            }
            assert(values[pos[a]] == order[a]);
            assert(values[pos[b]] == order[b]);
        }
        lemma_permutation_complete(values@, values.len() as int);
        assert forall|v: u32| (v as int) < n implies #[trigger] order@.contains(v) by {
            assert(values@.contains(v));
            let p = choose|p: int| 0 <= p < values.len() && values[p] == v;
            assert(values[p] < n);
        }
        assert forall|a: int| 0 <= a < order.len() implies #[trigger] values@.contains(order[a]) by {
            assert(values[pos[a]] == order[a]);
        }
        assert forall|a: int| 0 <= a < order.len() implies (#[trigger] order@[a] as int) < n by {
            assert(0 <= pos[a] < values.len());
        }
        lemma_distinct_complete_len(order@, n as int);
        assert(values@.take(values.len() as int) =~= values@);
        assert forall|key_of: Seq<u64>| ordered_by(key_of, values@) implies #[trigger] ordered_by(key_of, order@) by {
            assert forall|a: int, b: int| 0 <= a < b < order.len() implies #[trigger] key_of[order[a] as int] <= #[trigger] key_of[order[b] as int] by {
                assert(pos[a] < pos[b]);
                assert(values[pos[a]] == order[a] && values[pos[b]] == order[b]);
                assert(key_of[values[pos[a]] as int] <= key_of[values[pos[b]] as int]);
            }
        }
    }
    order
}

/// The triangle numbers sorted by the Morton code of their centroids within
/// the mesh's box, as the bitonic network leaves them: the codes are padded
/// to a power of two with the largest key, sorted with the numbers, and the
/// padding dropped.
pub fn morton_order(tris: &Vec<TriangleBounds>) -> (order: Vec<u32>)
    requires
        1 <= tris.len() <= MAX_TRIANGLES,
    ensures
        is_permutation(order@, tris.len() as int),
        forall|a: int, b: int| 0 <= a < b < order.len() ==>
            morton_code_spec(tris[#[trigger] order[a] as int], prefix_box(tris@, tris.len() as int))
            <= morton_code_spec(tris[#[trigger] order[b] as int], prefix_box(tris@, tris.len() as int)),
        order@ == morton_order_spec(tris@),
{
    let n = tris.len() as u32;
    let b = mesh_box(tris);
    let codes = calculate_morton_codes(tris, &b);
    let m = padded_sort_len(n);
    let mut keys: Vec<u64> = codes;
    while (keys.len() as u64) < m
        invariant
            n <= keys.len() <= m,
            m < 2 * n,
            n == tris.len(),
            forall|t: int| 0 <= t < n ==> #[trigger] keys[t] == morton_code_spec(tris[t], b),
            forall|t: int| n <= t < keys.len() ==> #[trigger] keys[t] == u64::MAX,
        decreases m - keys.len(),
    {
        keys.push(u64::MAX);
    }
    let ghost key_of = keys@;
    let mut values = iota(m as u32, 1);
    proof {
        assert(key_of =~= padded_codes(tris@, b, m as int));
        assert(values@ =~= identity_order(m as int));
        assert((m + 1 - 1) / 1int * 1 == m);
        assert(is_permutation(values@, m as int));
        assert(keyed_by(keys@, values@, key_of));
    }
    bitonic_merge_sort(&mut keys, &mut values);
    let order = drop_padding(&values, n);
    proof {
        assert forall|p: int, q: int| 0 <= p < q < values.len() implies #[trigger] key_of[values[p] as int] <= #[trigger] key_of[values[q] as int] by {
            assert(keys@[p] <= keys@[q]);
        }
        assert(ordered_by(key_of, values@));
        assert(ordered_by(key_of, order@));
        assert forall|a: int, b2: int| 0 <= a < b2 < order.len() implies
            morton_code_spec(tris[#[trigger] order[a] as int], prefix_box(tris@, tris.len() as int))
            <= morton_code_spec(tris[#[trigger] order[b2] as int], prefix_box(tris@, tris.len() as int)) by {
            assert(key_of[order[a] as int] <= key_of[order[b2] as int]);
        }
    }
    order
}

/// Builds hierarchies fast: triangles sorted along a Morton curve, every
/// range cut in the middle.
pub struct MeshBBHGeneratorFastBuild {}

impl MeshBBHGeneratorFastBuild {
    pub fn new() -> (r: MeshBBHGeneratorFastBuild) {
        MeshBBHGeneratorFastBuild {  }
    }

    /// The hierarchy over the mesh's whole triangles, with the index buffer
    /// in Morton order and every node cut in the middle of its range. A mesh
    /// with an index that names no vertex, or with more than
    /// `MAX_TRIANGLES` triangles, is refused.
    pub fn generate_mesh_bbh(&self, vertices: &Vec<Point3>, indices: &Vec<u32>) -> (r: Result<MeshBBH, BuildError>)
        ensures
            generated(vertices@, indices@, BuildStrategy::FastBuild, r),
    {
        let tris = mesh_triangle_bounds(vertices, indices)?;
        if tris.len() == 0 {
            let r = empty_bbh();
            assert(tris@ =~= Seq::<TriangleBounds>::empty());
            assert((r.tree@, r.indices@) == build_spec(Seq::empty(), Seq::empty(), BuildStrategy::FastBuild));
            return Ok(r);
        }
        let order = morton_order(&tris);
        let (tree, order) = build_levels(&tris, order, BuildStrategy::FastBuild);
        let count = tree.len() as u32;
        Ok(MeshBBH::new(tree, order, count))
    }
}

} // verus!
