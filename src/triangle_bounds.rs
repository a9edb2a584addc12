//! Per-triangle boxes and centroids, and the box of a whole mesh.
use vstd::prelude::*;
use crate::geometry::{
    aabb_valid, contains_spec, point_max, point_min, tri_box, union_spec, Aabb, Centroid, Point3,
    TriangleBounds,
};

verus! {

/// The bounds record of the triangle with corners `a`, `b` and `c`.
pub open spec fn bounds_of(a: Point3, b: Point3, c: Point3) -> TriangleBounds {
    TriangleBounds {
        min_corner: point_min(point_min(a, b), c),
        max_corner: point_max(point_max(a, b), c),
        centroid: Centroid {
            x: (a.x + b.x + c.x) as i64,
            y: (a.y + b.y + c.y) as i64,
            z: (a.z + b.z + c.z) as i64,
        },
    }
}

/// Every index names a vertex.
pub open spec fn indices_valid(vertices: Seq<Point3>, indices: Seq<u32>) -> bool {
    forall|i: int| 0 <= i < indices.len() ==> (#[trigger] indices[i] as int) < vertices.len()
}

/// The number of whole triangles in an index list.
pub open spec fn triangle_count_of(indices: Seq<u32>) -> int {
    indices.len() as int / 3
}

/// The bounds record of triangle `t` of a mesh.
pub open spec fn mesh_triangle(vertices: Seq<Point3>, indices: Seq<u32>, t: int) -> TriangleBounds {
    bounds_of(
        vertices[indices[3 * t] as int],
        vertices[indices[3 * t + 1] as int],
        vertices[indices[3 * t + 2] as int],
    )
}

/// The box of the first `k` triangle boxes (of the first one alone when `k` is 0 or 1).
pub open spec fn prefix_box(tris: Seq<TriangleBounds>, k: int) -> Aabb
    decreases k,
{
    if k <= 1 {
        tri_box(tris[0])
    } else {
        union_spec(prefix_box(tris, k - 1), tri_box(tris[k - 1]))
    }
}

fn triangle_bounds(a: Point3, b: Point3, c: Point3) -> (r: TriangleBounds)
    ensures
        r == bounds_of(a, b, c),
        aabb_valid(tri_box(r)),
{
    TriangleBounds {
        min_corner: a.min(&b).min(&c),
        max_corner: a.max(&b).max(&c),
        centroid: Centroid {
            x: a.x as i64 + b.x as i64 + c.x as i64,
            y: a.y as i64 + b.y as i64 + c.y as i64,
            z: a.z as i64 + b.z as i64 + c.z as i64,
        },
    }
}

/// Whether every index names a vertex.
pub fn mesh_indices_valid(vertices: &Vec<Point3>, indices: &Vec<u32>) -> (r: bool)
    ensures
        r == indices_valid(vertices@, indices@),
{
    let mut i: usize = 0;
    while i < indices.len()
        invariant
            i <= indices.len(),
            forall|k: int| 0 <= k < i ==> (#[trigger] indices@[k] as int) < vertices.len(),
        decreases indices.len() - i,
    {
        if indices[i] as usize >= vertices.len() {
            return false;
        }
        i += 1;
    }
    true
}

/// One bounds record per whole triangle of the mesh, in triangle order.
/// Trailing indices that do not make up a triangle are ignored. A triangle
/// of zero area gets a flat box.
pub fn compute_triangle_bounds(vertices: &Vec<Point3>, indices: &Vec<u32>) -> (r: Vec<TriangleBounds>)
    requires
        indices_valid(vertices@, indices@),
    ensures
        r.len() == triangle_count_of(indices@),
        forall|t: int| 0 <= t < r.len() ==> #[trigger] r[t] == mesh_triangle(vertices@, indices@, t),
        forall|t: int| 0 <= t < r.len() ==> aabb_valid(#[trigger] tri_box(r[t])),
{
    let count = indices.len() / 3;
    let mut r: Vec<TriangleBounds> = Vec::with_capacity(count);
    let mut t: usize = 0;
    while t < count
        invariant
            count == indices.len() / 3,
            indices_valid(vertices@, indices@),
            t <= count,
            r.len() == t,
            forall|k: int| 0 <= k < t ==> #[trigger] r[k] == mesh_triangle(vertices@, indices@, k),
            forall|k: int| 0 <= k < t ==> aabb_valid(#[trigger] tri_box(r[k])),
        decreases count - t,
    {
        let i0 = indices[3 * t] as usize;
        let i1 = indices[3 * t + 1] as usize;
        let i2 = indices[3 * t + 2] as usize;
        r.push(triangle_bounds(vertices[i0], vertices[i1], vertices[i2]));
        t += 1;
    }
    r
}

/// The box of all triangles together.
pub fn mesh_box(tris: &Vec<TriangleBounds>) -> (r: Aabb)
    requires
        tris.len() >= 1,
    ensures
        r == prefix_box(tris@, tris.len() as int),
        forall|t: int| 0 <= t < tris.len() ==> contains_spec(r, #[trigger] tri_box(tris[t])),
{
    let mut acc = tris[0].aabb();
    let mut k: usize = 1;
    while k < tris.len()
        invariant
            1 <= k <= tris.len(),
            acc == prefix_box(tris@, k as int),
            forall|t: int| 0 <= t < k ==> contains_spec(acc, #[trigger] tri_box(tris[t])),
        decreases tris.len() - k,
    {
        acc = acc.union(&tris[k].aabb());
        k += 1;
    }
    acc
}

} // verus!
