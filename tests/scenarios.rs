use mesh_bvh::bvh::{MeshBBH, MeshBBHNode, MAX_TRIS_PER_LEAF};
use mesh_bvh::generator::{BuildError, MeshBBHGenerator};
use mesh_bvh::geometry::Point3;

fn p(x: i32, y: i32, z: i32) -> Point3 {
    Point3 { x, y, z }
}

fn cube() -> (Vec<Point3>, Vec<u32>) {
    let mut v = Vec::new();
    for c in 0..8 {
        v.push(p(c & 1, (c >> 1) & 1, (c >> 2) & 1));
    }
    let idx: Vec<u32> = vec![
        0, 1, 3, 0, 3, 2, // z = 0
        4, 5, 7, 4, 7, 6, // z = 1
        0, 1, 5, 0, 5, 4, // y = 0
        2, 3, 7, 2, 7, 6, // y = 1
        0, 2, 6, 0, 6, 4, // x = 0
        1, 3, 7, 1, 7, 5, // x = 1
    ];
    (v, idx)
}

/// A deterministic scatter of `n` small triangles.
fn scattered(n: u32) -> (Vec<Point3>, Vec<u32>) {
    let mut seed: u64 = 12345;
    let mut next = move || {
        seed = seed.wrapping_mul(6364136223846793005).wrapping_add(1442695040888963407);
        ((seed >> 33) % 2000) as i32 - 1000
    };
    let mut v = Vec::new();
    let mut idx = Vec::new();
    for t in 0..n {
        let (x, y, z) = (next(), next(), next());
        v.push(p(x, y, z));
        v.push(p(x + 5, y, z + 1));
        v.push(p(x, y + 3, z - 2));
        idx.extend_from_slice(&[3 * t, 3 * t + 1, 3 * t + 2]);
    }
    (v, idx)
}

fn tri_box(v: &[Point3], idx: &[u32], t: u32) -> (Point3, Point3) {
    let a = v[idx[3 * t as usize] as usize];
    let b = v[idx[3 * t as usize + 1] as usize];
    let c = v[idx[3 * t as usize + 2] as usize];
    (
        p(a.x.min(b.x).min(c.x), a.y.min(b.y).min(c.y), a.z.min(b.z).min(c.z)),
        p(a.x.max(b.x).max(c.x), a.y.max(b.y).max(c.y), a.z.max(b.z).max(c.z)),
    )
}

/// Checks every invariant of a finished hierarchy against the mesh.
fn check_invariants(bbh: &MeshBBH, v: &[Point3], idx: &[u32]) {
    let n = (idx.len() / 3) as u32;
    let tree = bbh.get_tree();
    let order = bbh.get_indices();
    assert_eq!(tree.len() as u32, bbh.get_node_count());
    // a permutation of 0..n
    assert_eq!(order.len() as u32, n);
    let mut seen = vec![false; n as usize];
    for &t in order.iter() {
        assert!(t < n);
        assert!(!seen[t as usize]);
        seen[t as usize] = true;
    }
    assert_eq!(tree[0].l, 0);
    assert_eq!(tree[0].r, n);
    for (i, nd) in tree.iter().enumerate() {
        if nd.left_child == 0 {
            assert!(nd.r - nd.l <= MAX_TRIS_PER_LEAF);
        } else {
            let c = nd.left_child as usize;
            assert!(c > i && c + 1 < tree.len());
            assert_eq!(tree[c].l, nd.l);
            assert_eq!(tree[c].r, tree[c + 1].l);
            assert_eq!(tree[c + 1].r, nd.r);
        }
        for k in nd.l..nd.r {
            let (lo, hi) = tri_box(v, idx, order[k as usize]);
            assert!(nd.min_corner.x <= lo.x && nd.min_corner.y <= lo.y && nd.min_corner.z <= lo.z);
            assert!(hi.x <= nd.max_corner.x && hi.y <= nd.max_corner.y && hi.z <= nd.max_corner.z);
        }
    }
}

fn leaf_sizes(tree: &[MeshBBHNode]) -> Vec<u32> {
    tree.iter().filter(|n| n.left_child == 0).map(|n| n.r - n.l).collect()
}

#[test]
fn single_triangle_is_one_leaf() {
    let v = vec![p(0, 0, 0), p(4, 1, 0), p(1, 5, 2)];
    let idx = vec![0, 1, 2];
    let g = MeshBBHGenerator::new();
    for bbh in [g.generate_mesh_bbh_fast_trace(&v, &idx).unwrap(), g.generate_mesh_bbh_fast_build(&v, &idx).unwrap()] {
        assert_eq!(bbh.get_node_count(), 1);
        let root = bbh.get_tree()[0];
        assert_eq!(root.left_child, 0);
        assert_eq!((root.l, root.r), (0, 1));
        assert_eq!(root.min_corner, p(0, 0, 0));
        assert_eq!(root.max_corner, p(4, 5, 2));
        assert_eq!(bbh.get_indices().clone(), vec![0]);
    }
}

#[test]
fn unit_cube_splits_into_leaves() {
    let (v, idx) = cube();
    let g = MeshBBHGenerator::new();
    for bbh in [g.generate_mesh_bbh_fast_trace(&v, &idx).unwrap(), g.generate_mesh_bbh_fast_build(&v, &idx).unwrap()] {
        check_invariants(&bbh, &v, &idx);
        let sizes = leaf_sizes(bbh.get_tree());
        assert!(sizes.len() >= 3);
        assert_eq!(sizes.iter().sum::<u32>(), 12);
        let root = bbh.get_tree()[0];
        assert_eq!(root.min_corner, p(0, 0, 0));
        assert_eq!(root.max_corner, p(1, 1, 1));
    }
}

#[test]
fn degenerate_mesh_terminates() {
    // forty triangles, all on one line, many on top of each other
    let mut v = Vec::new();
    let mut idx = Vec::new();
    for t in 0..40u32 {
        let x = (t % 3) as i32;
        v.push(p(x, 0, 0));
        v.push(p(x, 0, 0));
        v.push(p(x + 1, 0, 0));
        idx.extend_from_slice(&[3 * t, 3 * t + 1, 3 * t + 2]);
    }
    let g = MeshBBHGenerator::new();
    for bbh in [g.generate_mesh_bbh_fast_trace(&v, &idx).unwrap(), g.generate_mesh_bbh_fast_build(&v, &idx).unwrap()] {
        check_invariants(&bbh, &v, &idx);
        assert!(bbh.get_node_count() <= 2 * 40 - 1);
        assert_eq!(leaf_sizes(bbh.get_tree()).iter().sum::<u32>(), 40);
    }
}

#[test]
fn identical_points_terminate() {
    let v = vec![p(7, 7, 7)];
    let idx: Vec<u32> = vec![0; 3 * 33];
    let g = MeshBBHGenerator::new();
    let bbh = g.generate_mesh_bbh_fast_trace(&v, &idx).unwrap();
    check_invariants(&bbh, &v, &idx);
}

#[test]
fn rebuild_gives_same_tree() {
    let (v, idx) = scattered(200);
    let g = MeshBBHGenerator::new();
    let a = g.generate_mesh_bbh_fast_trace(&v, &idx).unwrap();
    let b = g.generate_mesh_bbh_fast_trace(&v, &idx).unwrap();
    assert_eq!(a.get_node_count(), b.get_node_count());
    assert_eq!(leaf_sizes(a.get_tree()), leaf_sizes(b.get_tree()));
    assert_eq!(a.get_tree().clone(), b.get_tree().clone());
    let c = g.generate_mesh_bbh_fast_build(&v, &idx).unwrap();
    let d = g.generate_mesh_bbh_fast_build(&v, &idx).unwrap();
    assert_eq!(c.get_tree().clone(), d.get_tree().clone());
    assert_eq!(c.get_indices().clone(), d.get_indices().clone());
}

#[test]
fn invariants_hold_on_scattered_meshes() {
    let g = MeshBBHGenerator::new();
    for n in [2u32, 5, 17, 64, 100, 333] {
        let (v, idx) = scattered(n);
        let t = g.generate_mesh_bbh_fast_trace(&v, &idx).unwrap();
        check_invariants(&t, &v, &idx);
        assert!(t.get_node_count() <= 2 * n - 1);
        let b = g.generate_mesh_bbh_fast_build(&v, &idx).unwrap();
        check_invariants(&b, &v, &idx);
        assert!(b.get_node_count() <= 2 * n - 1);
    }
}

#[test]
fn empty_mesh_gives_empty_root() {
    let g = MeshBBHGenerator::new();
    let bbh = g.generate_mesh_bbh_fast_trace(&vec![p(1, 2, 3)], &vec![0, 0]).unwrap();
    assert_eq!(bbh.get_node_count(), 1);
    let root = bbh.get_tree()[0];
    assert_eq!((root.l, root.r, root.left_child), (0, 0, 0));
    assert!(bbh.get_indices().is_empty());
}

#[test]
fn bad_vertex_index_is_refused() {
    let v = vec![p(0, 0, 0), p(1, 0, 0), p(0, 1, 0)];
    let g = MeshBBHGenerator::new();
    assert_eq!(g.generate_mesh_bbh_fast_trace(&v, &vec![0, 1, 3]).err(), Some(BuildError::VertexIndexOutOfRange));
    assert_eq!(g.generate_mesh_bbh_fast_build(&v, &vec![0, 1, 2, 2, 9, 0]).err(), Some(BuildError::VertexIndexOutOfRange));
}

#[test]
fn mesh_is_left_unchanged() {
    let (v, idx) = cube();
    let copy = idx.clone();
    let g = MeshBBHGenerator::new();
    let _ = g.generate_mesh_bbh_fast_trace(&v, &idx).unwrap();
    assert_eq!(idx, copy);
}
