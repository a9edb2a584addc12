//! The boxes of a hierarchy as line geometry, to draw for inspection.
use vstd::prelude::*;
use crate::bvh::{node_box, MeshBBH};
use crate::geometry::{Aabb, Point3};

verus! {

/// How a vertex list is drawn.
#[derive(Clone, Copy, Debug, PartialEq, Eq, Structural)]
pub enum PipelinePrimitive {
    Mesh,
    LineStrip,
    Lines,
    Points,
}

/// Line segments: each pair of entries of `indices` joins two vertices.
pub struct Lines {
    pub vertices: Vec<Point3>,
    pub indices: Vec<u32>,
}

impl Lines {
    /// The number of indices, two per segment.
    pub fn get_index_count(&self) -> (r: usize)
        ensures
            r == self.indices.len(),
    {
        self.indices.len()
    }

    /// The primitive to draw these with.
    pub fn primitive(&self) -> (r: PipelinePrimitive)
        ensures
            r == PipelinePrimitive::Lines,
    {
        PipelinePrimitive::Lines
    }
}

/// Corner `c` (0 to 7) of a box: bit 0 picks the larger x, bit 1 the larger
/// y, bit 2 the larger z.
pub open spec fn box_corner(b: Aabb, c: int) -> Point3 {
    Point3 {
        x: if c % 2 == 1 { b.max_corner.x } else { b.min_corner.x },
        y: if (c / 2) % 2 == 1 { b.max_corner.y } else { b.min_corner.y },
        z: if (c / 4) % 2 == 1 { b.max_corner.z } else { b.min_corner.z },
    }
}

/// The first corner of edge `e` (0 to 11): four edges along x, four along y,
/// four along z.
pub open spec fn edge_start(e: int) -> int {
    if e < 4 {
        2 * e
    } else if e < 8 {
        ((e - 4) / 2) * 4 + (e - 4) % 2
    } else {
        e - 8
    }
}

/// How far the second corner of edge `e` is from its first.
pub open spec fn edge_step(e: int) -> int {
    if e < 4 {
        1
    } else if e < 8 {
        2
    } else {
        4
    }
}

fn corner(b: &Aabb, c: u32) -> (p: Point3)
    requires
        c < 8,
    ensures
        p == box_corner(*b, c as int),
{
    Point3 {
        x: if c % 2 == 1 { b.max_corner.x } else { b.min_corner.x },
        y: if (c / 2) % 2 == 1 { b.max_corner.y } else { b.min_corner.y },
        z: if (c / 4) % 2 == 1 { b.max_corner.z } else { b.min_corner.z },
    }
}

/// Eight corners and twelve edges for every node's box, node by node: the
/// corners of node `i` are vertices `8 i ..= 8 i + 7`, and its edges are
/// indices `24 i .. 24 i + 24`.
pub fn mesh_bbh_to_lines(bbh: &MeshBBH) -> (lines: Lines)
    requires
        bbh.tree.len() * 8 <= u32::MAX,
    ensures
        lines.vertices.len() == 8 * bbh.tree.len(),
        lines.indices.len() == 24 * bbh.tree.len(),
        forall|i: int, c: int| 0 <= i < bbh.tree.len() && 0 <= c < 8 ==>
            #[trigger] lines.vertices[8 * i + c] == box_corner(node_box(bbh.tree[i]), c),
        forall|i: int, e: int| 0 <= i < bbh.tree.len() && 0 <= e < 12 ==>
            #[trigger] lines.indices[24 * i + 2 * e] == 8 * i + edge_start(e)
            && lines.indices[24 * i + 2 * e + 1] == 8 * i + edge_start(e) + edge_step(e),
{
    let count = bbh.tree.len();
    let mut vertices: Vec<Point3> = Vec::new();
    let mut indices: Vec<u32> = Vec::new();
    let mut i: usize = 0;
    while i < count
        invariant
            count == bbh.tree.len(),
            count * 8 <= u32::MAX,
            i <= count,
            vertices.len() == 8 * i,
            indices.len() == 24 * i,
            forall|j: int, c: int| 0 <= j < i && 0 <= c < 8 ==>
                #[trigger] vertices[8 * j + c] == box_corner(node_box(bbh.tree[j]), c),
            forall|j: int, e: int| 0 <= j < i && 0 <= e < 12 ==>
                #[trigger] indices[24 * j + 2 * e] == 8 * j + edge_start(e)
                && indices[24 * j + 2 * e + 1] == 8 * j + edge_start(e) + edge_step(e),
        decreases count - i,
    {
        let nd = &bbh.tree[i];
        let b = Aabb { min_corner: nd.min_corner, max_corner: nd.max_corner };
        let base = (8 * i) as u32;
        let ghost v0 = vertices@;
        let ghost x0 = indices@;
        let mut c: u32 = 0;
        while c < 8
            invariant
                c <= 8,
                vertices.len() == 8 * i + c,
                v0.len() == 8 * i,
                forall|k: int| 0 <= k < 8 * i ==> #[trigger] vertices[k] == v0[k],
                forall|k: int| 0 <= k < c ==> #[trigger] vertices[8 * i + k] == box_corner(b, k),
            decreases 8 - c,
        {
            vertices.push(corner(&b, c));
            c += 1;
        }
        let mut e: u32 = 0;
        while e < 12
            invariant
                e <= 12,
                base == 8 * i,
                8 * i + 7 <= u32::MAX,
                indices.len() == 24 * i + 2 * e,
                x0.len() == 24 * i,
                forall|k: int| 0 <= k < 24 * i ==> #[trigger] indices[k] == x0[k],
                forall|k: int| 0 <= k < e ==> #[trigger] indices[24 * i + 2 * k] == 8 * i + edge_start(k)
                    && indices[24 * i + 2 * k + 1] == 8 * i + edge_start(k) + edge_step(k),
            decreases 12 - e,
        {
            let (start, step): (u32, u32) = if e < 4 {
                (2 * e, 1)
            } else if e < 8 {
                (((e - 4) / 2) * 4 + (e - 4) % 2, 2)
            } else {
                (e - 8, 4)
            };
            indices.push(base + start);
            indices.push(base + start + step);
            e += 1;
        }
        proof {
            assert(node_box(bbh.tree[i as int]) == b);
            assert forall|j: int, c: int| 0 <= j < i + 1 && 0 <= c < 8 implies
                #[trigger] vertices[8 * j + c] == box_corner(node_box(bbh.tree[j]), c) by {
                if j < i {
                    assert(8 * j + c < 8 * i) by (nonlinear_arith)
                        requires j < i, c < 8;
                    assert(vertices[8 * j + c] == v0[8 * j + c]);
                }
            }
            assert forall|j: int, e: int| 0 <= j < i + 1 && 0 <= e < 12 implies
                #[trigger] indices[24 * j + 2 * e] == 8 * j + edge_start(e)
                && indices[24 * j + 2 * e + 1] == 8 * j + edge_start(e) + edge_step(e) by {
                if j < i {
                    assert(24 * j + 2 * e + 1 < 24 * i) by (nonlinear_arith)
                        requires j < i, e < 12;
                    assert(indices[24 * j + 2 * e] == x0[24 * j + 2 * e]);
                    assert(indices[24 * j + 2 * e + 1] == x0[24 * j + 2 * e + 1]);
                } else {
                    assert(j == i);
                    assert(indices[24 * i + 2 * e] == 8 * i + edge_start(e));
                }
            }
        }
        i += 1;
    }
    Lines { vertices, indices }
}

} // verus!
