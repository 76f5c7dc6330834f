use oxideav_mesh3d::combine::{append_or_fill, group_by_material, merge_connectivity, union_shape, AttributeShape};
use oxideav_mesh3d::ids::MaterialId;
use oxideav_mesh3d::mesh::{Connectivity, Indices, Topology};
use oxideav_mesh3d::optimize::{
    apply_triangle_order, cache_counts, cache_order_triangles, gather_or, optimize_vertex_fetch, pack_indices,
};
use oxideav_mesh3d::vertex_cache::{greedy_cache_order, recent_vertices, DEFAULT_CACHE_SIZE};
use oxideav_mesh3d::weld::weld_plan;

fn indexed(indices: Vec<u32>, vertex_count: usize) -> Connectivity {
    Connectivity { topology: Topology::Triangles, indices: Some(Indices::U32(indices)), vertex_count }
}

fn first_found_score(_t: [u32; 3], _lru: &Vec<u32>, _pos: &Vec<u32>, _live: u32, _size: usize) -> u32 {
    1
}

fn shared_corner_score(t: [u32; 3], lru: &Vec<u32>, _pos: &Vec<u32>, _live: u32, _size: usize) -> u32 {
    t.iter().filter(|v| lru.contains(v)).count() as u32
}

fn is_permutation_of(order: &[usize], n: usize) -> bool {
    let mut seen = vec![false; n];
    for &k in order {
        if k >= n || seen[k] {
            return false;
        }
        seen[k] = true;
    }
    order.len() == n
}

#[test]
fn fifo_counts_on_a_quad() {
    let r = cache_counts(&vec![0, 1, 2, 2, 1, 3], 32);
    assert_eq!((r.cache_size, r.triangles, r.vertices, r.misses), (32, 2, 4, 4));
}

#[test]
fn fifo_size_zero_acts_as_one_slot() {
    let r = cache_counts(&vec![0, 1, 2, 2, 1, 3], 0);
    assert_eq!(r.cache_size, 1);
    assert_eq!(r.misses, 5);
}

#[test]
fn fifo_evicts_oldest_entry() {
    // Two slots: 0 1 | 2 evicts 0 | 0 misses again, evicting 1 | 2 hits.
    let r = cache_counts(&vec![0, 1, 2, 0, 2, 1], 2);
    assert_eq!(r.misses, 5);
    assert_eq!(r.vertices, 3);
}

#[test]
fn pack_picks_narrowest_width() {
    assert_eq!(pack_indices(vec![0, 1, 2], 3), Indices::U16(vec![0, 1, 2]));
    assert_eq!(pack_indices(vec![0, 65535], 65536), Indices::U16(vec![0, 65535]));
    assert_eq!(pack_indices(vec![0, 70000], 70001), Indices::U32(vec![0, 70000]));
}

#[test]
fn fetch_order_relabels_by_first_use() {
    let c = indexed(vec![3, 2, 1, 1, 2, 0], 5);
    let (out, perm) = optimize_vertex_fetch(&c);
    assert_eq!(perm, vec![3, 2, 1, 0, 4]);
    assert_eq!(out.topology, Topology::Triangles);
    assert_eq!(out.vertex_count, 5);
    assert_eq!(out.indices, Some(Indices::U16(vec![0, 1, 2, 2, 1, 3])));
}

#[test]
fn gather_fills_out_of_range_slots() {
    assert_eq!(gather_or(&vec![10, 20, 30], &vec![2, 0, 5], 99), vec![30, 10, 99]);
}

#[test]
fn cache_order_drops_out_of_pool_triangles() {
    let c = indexed(vec![0, 1, 2, 0, 1, 7, 2, 1, 3], 4);
    assert_eq!(cache_order_triangles(&c), vec![[0, 1, 2], [2, 1, 3]]);
}

#[test]
fn apply_order_reorders_triangles() {
    let tris = vec![[0, 1, 2], [2, 1, 3]];
    let c = apply_triangle_order(&tris, &vec![1, 0], 4);
    assert_eq!(c.topology, Topology::Triangles);
    assert_eq!(c.vertex_count, 4);
    assert_eq!(c.indices, Some(Indices::U16(vec![2, 1, 3, 0, 1, 2])));
}

#[test]
fn frontier_of_recent_triangles() {
    let tris = vec![[0, 1, 2], [2, 1, 3], [4, 5, 6]];
    // Cache of 6 slots remembers the last two emitted triangles.
    assert_eq!(recent_vertices(&vec![2, 0, 1], &tris, 6), vec![0, 1, 2, 3]);
    // A tiny cache still remembers the last one.
    assert_eq!(recent_vertices(&vec![0, 2], &tris, 1), vec![4, 5, 6]);
    assert_eq!(recent_vertices(&Vec::new(), &tris, 32), Vec::<usize>::new());
}

#[test]
fn greedy_order_is_a_permutation_starting_at_zero() {
    let tris = vec![[0, 1, 2], [4, 5, 6], [2, 1, 3], [3, 1, 7], [5, 6, 8]];
    let order = greedy_cache_order(&tris, 9, DEFAULT_CACHE_SIZE, shared_corner_score, |a: u32, b: u32| a > b);
    assert_eq!(order[0], 0);
    assert!(is_permutation_of(&order, tris.len()));
    let flat = greedy_cache_order(&tris, 9, 3, first_found_score, |a: u32, b: u32| a > b);
    assert_eq!(flat[0], 0);
    assert!(is_permutation_of(&flat, tris.len()));
}

#[test]
fn optimize_cache_keeps_triangles() {
    let c = indexed(vec![0, 1, 2, 4, 5, 6, 2, 1, 3, 0, 1, 9], 7);
    let out = c.optimize_vertex_cache(shared_corner_score, |a: u32, b: u32| a > b).expect("triangle topology");
    assert_eq!(out.topology, Topology::Triangles);
    assert_eq!(out.vertex_count, 7);
    let got = out.triangle_indices();
    assert_eq!(got.len(), 3);
    assert_eq!(got[0], [0, 1, 2]);
    let mut sorted = got.clone();
    sorted.sort();
    assert_eq!(sorted, vec![[0, 1, 2], [2, 1, 3], [4, 5, 6]]);
    match out.indices {
        Some(Indices::U16(_)) => {},
        other => panic!("expected U16 indices, got {:?}", other),
    }
}

#[test]
fn optimize_cache_rejects_lines() {
    let c = Connectivity { topology: Topology::Lines, indices: None, vertex_count: 4 };
    assert!(c.optimize_vertex_cache_sized(16, first_found_score, |a: u32, b: u32| a > b).is_none());
}

#[test]
fn optimize_cache_of_empty_list() {
    let c = indexed(vec![0, 1, 5], 3);
    let out = c.optimize_vertex_cache(first_found_score, |a: u32, b: u32| a > b).expect("triangle topology");
    assert_eq!(out.indices, Some(Indices::U32(Vec::new())));
}

#[test]
fn weld_plan_merges_equal_keys() {
    let keys = vec![vec![1, 7], vec![2, 7], vec![1, 7], vec![3, 0], vec![2, 7]];
    let (remap, sources) = weld_plan(&keys);
    assert_eq!(remap, vec![0, 1, 0, 2, 1]);
    assert_eq!(sources, vec![0, 1, 3]);
}

#[test]
fn weld_vertices_rewrites_indices() {
    let c = indexed(vec![0, 1, 2, 2, 1, 3], 4);
    let keys = vec![vec![10], vec![20], vec![10], vec![30]];
    let w = c.weld_vertices(&keys);
    assert_eq!(w.remap, vec![0, 1, 0, 2]);
    assert_eq!(w.sources, vec![0, 1, 3]);
    assert_eq!(w.connectivity.vertex_count, 3);
    assert_eq!(w.connectivity.topology, Topology::Triangles);
    assert_eq!(w.connectivity.indices, Some(Indices::U16(vec![0, 1, 0, 0, 1, 2])));
}

#[test]
fn weld_makes_implicit_order_explicit() {
    let c = Connectivity { topology: Topology::Triangles, indices: None, vertex_count: 3 };
    let w = c.weld_vertices(&vec![vec![5], vec![6], vec![5]]);
    assert_eq!(w.connectivity.indices, Some(Indices::U16(vec![0, 1, 0])));
    // Every corner keeps its key after the weld.
    let keys = vec![vec![5], vec![6], vec![5]];
    for (i, &slot) in w.remap.iter().enumerate() {
        assert_eq!(keys[w.sources[slot as usize]], keys[i]);
    }
}

#[test]
fn append_or_fill_pads_and_truncates() {
    let mut dst = vec![1, 2];
    append_or_fill(&mut dst, &vec![7], 3, 0);
    assert_eq!(dst, vec![1, 2, 7, 0, 0]);
    append_or_fill(&mut dst, &vec![8, 9, 10], 2, 0);
    assert_eq!(dst, vec![1, 2, 7, 0, 0, 8, 9]);
}

#[test]
fn merge_rebases_each_part() {
    let a = indexed(vec![0, 1, 2], 3);
    let b = indexed(vec![0, 1, 2, 0, 1, 8], 4);
    let lines = Connectivity { topology: Topology::Lines, indices: None, vertex_count: 2 };
    let out = merge_connectivity(&vec![a, lines, b]);
    assert_eq!(out.topology, Topology::Triangles);
    assert_eq!(out.vertex_count, 9);
    assert_eq!(out.indices, Some(Indices::U32(vec![0, 1, 2, 5, 6, 7])));
}

#[test]
fn groups_follow_first_appearance() {
    let keys = vec![Some(MaterialId(2)), None, Some(MaterialId(2)), Some(MaterialId(0)), None];
    assert_eq!(group_by_material(&keys), vec![vec![0, 2], vec![1, 4], vec![3]]);
}

#[test]
fn union_of_attribute_shapes() {
    let a = AttributeShape { normals: true, tangents: false, joints: false, weights: false, uv_sets: 1, color_sets: 0 };
    let b = AttributeShape { normals: false, tangents: false, joints: true, weights: true, uv_sets: 2, color_sets: 1 };
    assert_eq!(
        union_shape(&vec![a, b]),
        AttributeShape { normals: true, tangents: false, joints: true, weights: true, uv_sets: 2, color_sets: 1 }
    );
    assert_eq!(
        union_shape(&Vec::new()),
        AttributeShape { normals: false, tangents: false, joints: false, weights: false, uv_sets: 0, color_sets: 0 }
    );
}

#[test]
fn optimize_cache_drops_degenerate_and_out_of_range_triangles() {
    let c = indexed(vec![0, 1, 2, 0, 0, 1, 0, 1, 7], 3);
    let out = c.optimize_vertex_cache(first_found_score, |a: u32, b: u32| a > b).expect("triangle topology");
    assert_eq!(out.triangle_indices(), vec![[0, 1, 2]]);
}

#[test]
fn cache_counts_first_reference_of_max_index_misses() {
    let r = cache_counts(&vec![u32::MAX, u32::MAX, 0], 4);
    assert_eq!(r.vertices, 2);
    assert_eq!(r.misses, 2);
    assert!(r.vertices <= r.misses);
}

#[test]
fn welding_a_welded_pool_again_keeps_it() {
    let keys = vec![vec![1, 7], vec![2, 7], vec![1, 7], vec![3, 0], vec![2, 7]];
    let (_, sources) = weld_plan(&keys);
    let keys2: Vec<Vec<u32>> = sources.iter().map(|&s| keys[s].clone()).collect();
    let (remap2, sources2) = weld_plan(&keys2);
    assert_eq!(sources2, (0..keys2.len()).collect::<Vec<usize>>());
    assert_eq!(remap2, (0..keys2.len() as u32).collect::<Vec<u32>>());
}
