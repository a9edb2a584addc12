use mesh_bvh::bitonic::{bitonic_merge_sort, compare_exchange_pass};
use mesh_bvh::builder::{find_node_offsets, init_tree_buffer};
use mesh_bvh::bvh::{build_bbs, compute_range_box, MeshBBH, MeshBBHNode};
use mesh_bvh::generator::{drop_padding, morton_order, padded_sort_len, MeshBBHGenerator};
use mesh_bvh::geometry::{Aabb, Axis, Centroid, Point3, TriangleBounds};
use mesh_bvh::iota::iota;
use mesh_bvh::morton::{calculate_morton_codes, morton_code};
use mesh_bvh::passes::Algorithm;
use mesh_bvh::prefix_sum::prefix_sum;
use mesh_bvh::split::{evaluate_node, evaluate_plane, partition_range, split_evaluations, SplitChoice};
use mesh_bvh::triangle_bounds::{compute_triangle_bounds, mesh_box, mesh_indices_valid};
use mesh_bvh::wireframe::{mesh_bbh_to_lines, PipelinePrimitive};

fn p(x: i32, y: i32, z: i32) -> Point3 {
    Point3 { x, y, z }
}

fn tri_at(x: i32, y: i32, z: i32) -> TriangleBounds {
    TriangleBounds {
        min_corner: p(x, y, z),
        max_corner: p(x + 1, y + 1, z + 1),
        centroid: Centroid { x: 3 * x as i64 + 1, y: 3 * y as i64 + 1, z: 3 * z as i64 + 1 },
    }
}

fn node(l: u32, r: u32) -> MeshBBHNode {
    MeshBBHNode { min_corner: p(0, 0, 0), max_corner: p(0, 0, 0), l, r, left_child: 0 }
}

#[test]
fn prefix_sum_of_counts() {
    let (sums, total) = prefix_sum(&vec![3, 1, 4, 1, 5]);
    assert_eq!(sums, vec![0, 3, 4, 8, 9, 14]);
    assert_eq!(total, 14);
    let (sums, total) = prefix_sum(&vec![]);
    assert_eq!(sums, vec![0]);
    assert_eq!(total, 0);
    let (sums, total) = prefix_sum(&vec![7]);
    assert_eq!(sums, vec![0, 7]);
    assert_eq!(total, 7);
    let ones = vec![1u32; 1000];
    let (sums, total) = prefix_sum(&ones);
    assert_eq!(total, 1000);
    for (i, s) in sums.iter().enumerate() {
        assert_eq!(*s as usize, i);
    }
}

#[test]
fn iota_rounds_up_to_resolution() {
    assert_eq!(iota(5, 4), vec![0, 1, 2, 3, 4, 5, 6, 7]);
    assert_eq!(iota(8, 4), vec![0, 1, 2, 3, 4, 5, 6, 7]);
    assert_eq!(iota(3, 1), vec![0, 1, 2]);
    assert_eq!(iota(0, 16), Vec::<u32>::new());
    assert_eq!(iota(17, 16).len(), 32);
}

#[test]
fn bitonic_sorts_pairs() {
    let mut keys: Vec<u64> = vec![9, 3, 7, 1, 8, 2, 6, 5, 4, 0, 15, 11, 13, 12, 10, 14];
    let orig = keys.clone();
    let mut values: Vec<u32> = (0..16).collect();
    bitonic_merge_sort(&mut keys, &mut values);
    assert_eq!(keys, (0..16).collect::<Vec<u64>>());
    for i in 0..16 {
        assert_eq!(orig[values[i] as usize], keys[i]);
    }
}

#[test]
fn bitonic_sorts_with_duplicates_and_padding() {
    let mut keys: Vec<u64> = vec![5, 5, 1, u64::MAX, 3, 1, u64::MAX, 0];
    let mut values: Vec<u32> = vec![0, 1, 2, 3, 4, 5, 6, 7];
    bitonic_merge_sort(&mut keys, &mut values);
    assert_eq!(keys, vec![0, 1, 1, 3, 5, 5, u64::MAX, u64::MAX]);
    let mut v = values.clone();
    v.sort();
    assert_eq!(v, vec![0, 1, 2, 3, 4, 5, 6, 7]);
}

#[test]
fn one_compare_exchange_pass() {
    let mut keys: Vec<u64> = vec![2, 1, 3, 4];
    let mut values: Vec<u32> = vec![0, 1, 2, 3];
    compare_exchange_pass(&mut keys, &mut values, 2, 1);
    // first pair ascending, second pair descending
    assert_eq!(keys, vec![1, 2, 4, 3]);
    assert_eq!(values, vec![1, 0, 3, 2]);
}

#[test]
fn pass_counts() {
    assert_eq!(Algorithm::Iota.pass_count(1000), 1);
    assert_eq!(Algorithm::PrefixSum.pass_count(1), 0);
    assert_eq!(Algorithm::PrefixSum.pass_count(5), 3);
    assert_eq!(Algorithm::PrefixSum.pass_count(8), 3);
    assert_eq!(Algorithm::PrefixSum.pass_count(9), 4);
    assert_eq!(Algorithm::BitonicMergeSort.pass_count(8), 6);
    assert_eq!(Algorithm::BitonicMergeSort.pass_count(16), 10);
    assert_eq!(Algorithm::BitonicMergeSort.pass_count(1), 0);
}

#[test]
fn morton_codes_interleave_bits() {
    let b = Aabb { min_corner: p(0, 0, 0), max_corner: p(1023, 1023, 1023) };
    let t = |x: i64, y: i64, z: i64| TriangleBounds {
        min_corner: p(0, 0, 0),
        max_corner: p(0, 0, 0),
        centroid: Centroid { x: 3 * x, y: 3 * y, z: 3 * z },
    };
    assert_eq!(morton_code(&t(0, 0, 0), &b), 0);
    assert_eq!(morton_code(&t(1, 0, 0), &b), 4);
    assert_eq!(morton_code(&t(0, 1, 0), &b), 2);
    assert_eq!(morton_code(&t(0, 0, 1), &b), 1);
    assert_eq!(morton_code(&t(3, 0, 0), &b), 4 + 32);
    assert_eq!(morton_code(&t(1023, 1023, 1023), &b), (1u64 << 30) - 1);
    // outside the box: clamped
    assert_eq!(morton_code(&t(-5, 2000, 0), &b), morton_code(&t(0, 1023, 0), &b));
    let codes = calculate_morton_codes(&vec![t(1, 0, 0), t(0, 0, 1)], &b);
    assert_eq!(codes, vec![4, 1]);
}

#[test]
fn morton_order_is_sorted_by_code() {
    let tris = vec![tri_at(100, 100, 100), tri_at(0, 0, 0), tri_at(50, 0, 0), tri_at(100, 0, 0), tri_at(0, 100, 0)];
    let order = morton_order(&tris);
    let b = mesh_box(&tris);
    let codes = calculate_morton_codes(&tris, &b);
    assert_eq!(order.len(), 5);
    for w in order.windows(2) {
        assert!(codes[w[0] as usize] <= codes[w[1] as usize]);
    }
    assert_eq!(order[0], 1);
    assert_eq!(order[4], 0);
}

#[test]
fn padding_is_dropped() {
    assert_eq!(padded_sort_len(5), 8);
    assert_eq!(padded_sort_len(8), 8);
    assert_eq!(padded_sort_len(1), 1);
    assert_eq!(drop_padding(&vec![6, 2, 5, 0, 7, 1, 4, 3], 5), vec![2, 0, 1, 4, 3]);
}

#[test]
fn triangle_bounds_and_mesh_box() {
    let v = vec![p(0, 0, 0), p(3, -1, 2), p(1, 4, -2), p(9, 9, 9)];
    let idx = vec![0, 1, 2, 1, 3, 2, 0];
    assert!(mesh_indices_valid(&v, &idx));
    assert!(!mesh_indices_valid(&v, &vec![0, 4, 1]));
    let tris = compute_triangle_bounds(&v, &idx);
    assert_eq!(tris.len(), 2);
    assert_eq!(tris[0].min_corner, p(0, -1, -2));
    assert_eq!(tris[0].max_corner, p(3, 4, 2));
    assert_eq!(tris[0].centroid, Centroid { x: 4, y: 3, z: 0 });
    assert_eq!(tris[1].centroid, Centroid { x: 13, y: 12, z: 9 });
    let b = mesh_box(&tris);
    assert_eq!(b.min_corner, p(0, -1, -2));
    assert_eq!(b.max_corner, p(9, 9, 9));
}

#[test]
fn range_boxes_and_level_bounds() {
    let tris = vec![tri_at(0, 0, 0), tri_at(10, 0, 0), tri_at(0, -5, 3)];
    let indices = vec![2, 0, 1];
    let b = compute_range_box(&tris, &indices, 0, 2);
    assert_eq!(b.min_corner, p(0, -5, 0));
    assert_eq!(b.max_corner, p(1, 1, 4));
    let mut nodes = vec![node(0, 3), node(1, 3), node(2, 2)];
    build_bbs(&mut nodes, &tris, &indices, 1, 3);
    assert_eq!(nodes[0].max_corner, p(0, 0, 0));
    assert_eq!(nodes[1].min_corner, p(0, 0, 0));
    assert_eq!(nodes[1].max_corner, p(11, 1, 1));
    assert_eq!(nodes[2], node(2, 2));
}

#[test]
fn node_offsets_count_splitting_nodes() {
    let nodes = vec![node(0, 10), node(0, 3), node(3, 10), node(10, 20), node(20, 24)];
    let (offsets, total) = find_node_offsets(&nodes, 1, 5);
    assert_eq!(offsets, vec![0, 0, 1, 2, 2]);
    assert_eq!(total, 2);
    let root = init_tree_buffer(7);
    assert_eq!(root, vec![node(0, 7)]);
}

#[test]
fn split_planes_and_partition() {
    // two clusters along x
    let mut tris = Vec::new();
    for i in 0..4 {
        tris.push(tri_at(i, 0, 0));
    }
    for i in 0..4 {
        tris.push(tri_at(100 + i, 0, 0));
    }
    let mut indices: Vec<u32> = vec![4, 0, 5, 1, 6, 2, 7, 3];
    let (nl, nr, cost) = evaluate_plane(&tris, &indices, 0, 8, Axis::X, 150);
    assert_eq!((nl, nr), (4, 4));
    // each side: box 4 x 1 x 1, half area 4 + 1 + 4 = 9
    assert_eq!(cost, 4 * 9 + 4 * 9);
    let (nl, nr, _) = evaluate_plane(&tris, &indices, 0, 8, Axis::X, 0);
    assert_eq!((nl, nr), (0, 8));

    let mut root = node(0, 8);
    root.min_corner = p(0, 0, 0);
    root.max_corner = p(104, 1, 1);
    let choice = evaluate_node(&tris, &indices, &root);
    match choice {
        SplitChoice::Plane { axis, pos } => {
            assert_eq!(axis, Axis::X);
            assert!(pos > 3 * 4 && pos <= 3 * 100);
        }
        _ => panic!("expected a plane"),
    }
    assert_eq!(evaluate_node(&tris, &indices, &node(0, 4)), SplitChoice::NoSplit);
    let evals = split_evaluations(&vec![root, node(0, 2)], &tris, &indices, 0, 2);
    assert_eq!(evals[0], choice);
    assert_eq!(evals[1], SplitChoice::NoSplit);

    let m = partition_range(&mut indices, &tris, 0, 8, Axis::X, 150);
    assert_eq!(m, 4);
    let mut left: Vec<u32> = indices[0..4].to_vec();
    left.sort();
    assert_eq!(left, vec![0, 1, 2, 3]);
}

#[test]
fn all_on_one_point_gives_midpoint() {
    let tris = vec![tri_at(5, 5, 5); 6];
    let indices: Vec<u32> = (0..6).collect();
    let mut root = node(0, 6);
    root.min_corner = p(5, 5, 5);
    root.max_corner = p(6, 6, 6);
    assert_eq!(evaluate_node(&tris, &indices, &root), SplitChoice::Midpoint);
}

#[test]
fn wireframe_of_one_box() {
    let mut root = node(0, 1);
    root.min_corner = p(-1, -2, -3);
    root.max_corner = p(1, 2, 3);
    let bbh = MeshBBH::new(vec![root], vec![0], 1);
    let lines = mesh_bbh_to_lines(&bbh);
    assert_eq!(lines.vertices.len(), 8);
    assert_eq!(lines.get_index_count(), 24);
    assert_eq!(lines.vertices[0], p(-1, -2, -3));
    assert_eq!(lines.vertices[7], p(1, 2, 3));
    assert_eq!(lines.vertices[5], p(1, -2, 3));
    assert_eq!(&lines.indices[0..2], &[0, 1]);
    assert_eq!(&lines.indices[22..24], &[3, 7]);
    assert_eq!(lines.primitive(), PipelinePrimitive::Lines);
}

#[test]
fn box_operations() {
    let a = Aabb { min_corner: p(0, 0, 0), max_corner: p(2, 3, 4) };
    let b = Aabb { min_corner: p(-1, 1, 1), max_corner: p(1, 5, 2) };
    let u = a.union(&b);
    assert_eq!(u.min_corner, p(-1, 0, 0));
    assert_eq!(u.max_corner, p(2, 5, 4));
    assert!(u.contains(&a) && u.contains(&b));
    assert!(!a.contains(&b));
    // 2*3 + 3*4 + 4*2
    assert_eq!(a.half_area(), 26);
    assert_eq!(p(1, 2, 3).get(Axis::Y), 2);
    assert_eq!(Centroid { x: 1, y: 2, z: 3 }.get(Axis::Z), 3);
}

#[test]
fn fast_build_keeps_morton_order() {
    let mut v = Vec::new();
    let mut idx = Vec::new();
    for t in 0..20u32 {
        let x = ((t * 37) % 50) as i32;
        let y = ((t * 11) % 30) as i32;
        v.push(p(x, y, 0));
        v.push(p(x + 1, y, 0));
        v.push(p(x, y + 1, 1));
        idx.extend_from_slice(&[3 * t, 3 * t + 1, 3 * t + 2]);
    }
    let tris = compute_triangle_bounds(&v, &idx);
    let expected = morton_order(&tris);
    let bbh = MeshBBHGenerator::new().generate_mesh_bbh_fast_build(&v, &idx).unwrap();
    assert_eq!(bbh.get_indices().clone(), expected);
    // every node is cut in the middle of its range
    for nd in bbh.get_tree() {
        if nd.left_child != 0 {
            let c = &bbh.get_tree()[nd.left_child as usize];
            assert_eq!(c.r, nd.l + (nd.r - nd.l) / 2);
        }
    }
}
