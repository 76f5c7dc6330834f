use oxideav_mesh3d::mesh::{Connectivity, Indices, Topology};
use oxideav_mesh3d::summary::TopologySummary;
use oxideav_mesh3d::topology::{EdgeManifoldReport, OrientationReport};

fn tri_list(indices: Vec<u32>, vertex_count: usize) -> Connectivity {
    Connectivity { topology: Topology::Triangles, indices: Some(Indices::U32(indices)), vertex_count }
}

fn single_triangle() -> Connectivity {
    Connectivity { topology: Topology::Triangles, indices: None, vertex_count: 3 }
}

fn tetrahedron() -> Connectivity {
    tri_list(vec![0, 2, 1, 0, 1, 3, 1, 2, 3, 0, 3, 2], 4)
}

#[test]
fn triangle_count_per_topology() {
    assert_eq!(tri_list(vec![0, 1, 2, 2, 1, 3, 4], 5).triangle_count(), 2);
    let strip = Connectivity { topology: Topology::TriangleStrip, indices: None, vertex_count: 5 };
    assert_eq!(strip.triangle_count(), 3);
    let fan = Connectivity { topology: Topology::TriangleFan, indices: Some(Indices::U16(vec![0, 1])), vertex_count: 5 };
    assert_eq!(fan.triangle_count(), 0);
    let lines = Connectivity { topology: Topology::Lines, indices: None, vertex_count: 6 };
    assert_eq!(lines.triangle_count(), 0);
}

#[test]
fn strip_alternates_winding() {
    let strip = Connectivity { topology: Topology::TriangleStrip, indices: None, vertex_count: 4 };
    assert_eq!(strip.triangle_indices(), vec![[0, 1, 2], [1, 3, 2]]);
    assert_eq!(strip.triangle_count(), strip.triangle_indices().len());
}

#[test]
fn fan_shares_anchor() {
    let fan = Connectivity { topology: Topology::TriangleFan, indices: Some(Indices::U16(vec![7, 1, 2, 3])), vertex_count: 8 };
    assert_eq!(fan.triangle_indices(), vec![[7, 1, 2], [7, 2, 3]]);
}

#[test]
fn to_triangle_list_flattens_strip() {
    let strip = Connectivity { topology: Topology::TriangleStrip, indices: None, vertex_count: 4 };
    let list = strip.to_triangle_list();
    assert_eq!(list.topology, Topology::Triangles);
    assert_eq!(list.vertex_count, 4);
    assert_eq!(list.indices, Some(Indices::U32(vec![0, 1, 2, 1, 3, 2])));
}

#[test]
fn indices_len_and_widening() {
    let ix = Indices::U16(vec![1, 2, 65535]);
    assert_eq!(ix.len(), 3);
    assert!(!ix.is_empty());
    assert_eq!(ix.to_u32_vec(), vec![1, 2, 65535]);
    assert!(Indices::U32(Vec::new()).is_empty());
}

#[test]
fn single_triangle_has_three_boundary_edges() {
    let c = single_triangle();
    assert_eq!(c.boundary_edges(), vec![[0, 1], [0, 2], [1, 2]]);
    assert!(!c.edge_manifold_report().is_closed_manifold());
}

#[test]
fn boundary_edges_are_sorted_and_skip_shared_edges() {
    let quad = tri_list(vec![2, 1, 3, 0, 1, 2], 4);
    assert_eq!(quad.boundary_edges(), vec![[0, 1], [0, 2], [1, 3], [2, 3]]);
}

#[test]
fn single_triangle_boundary_loop() {
    let loops = single_triangle().boundary_loops();
    assert_eq!(loops, vec![vec![0, 1, 2]]);
}

#[test]
fn quad_boundary_loop_follows_winding() {
    let quad = tri_list(vec![0, 1, 2, 2, 1, 3], 4);
    assert_eq!(quad.boundary_loops(), vec![vec![0, 1, 3, 2]]);
}

#[test]
fn closed_surface_has_no_boundary() {
    let t = tetrahedron();
    assert!(t.boundary_edges().is_empty());
    assert!(t.boundary_loops().is_empty());
}

#[test]
fn excluded_triangles_do_not_count() {
    // One triangle with a repeated corner, one out of range, one valid.
    let c = tri_list(vec![0, 0, 1, 0, 1, 9, 0, 1, 2], 3);
    let r = c.edge_manifold_report();
    assert_eq!(r.total_edge_count, 3);
    assert_eq!(r.boundary_edge_count, 3);
}

#[test]
fn tetrahedron_is_closed_manifold() {
    let r = tetrahedron().edge_manifold_report();
    assert_eq!(
        r,
        EdgeManifoldReport {
            total_edge_count: 6,
            boundary_edge_count: 0,
            manifold_interior_edge_count: 6,
            non_manifold_edge_count: 0,
            max_edge_use: 2,
        }
    );
    assert!(r.is_closed_manifold());
}

#[test]
fn fin_edge_is_non_manifold() {
    // Three triangles sharing edge 0–1.
    let c = tri_list(vec![0, 1, 2, 1, 0, 3, 0, 1, 4], 5);
    let r = c.edge_manifold_report();
    assert_eq!(r.total_edge_count, 7);
    assert_eq!(r.non_manifold_edge_count, 1);
    assert_eq!(r.boundary_edge_count, 6);
    assert_eq!(r.max_edge_use, 3);
    assert!(!r.is_closed_manifold());
}

#[test]
fn empty_report_is_not_closed() {
    let r = tri_list(Vec::new(), 0).edge_manifold_report();
    assert_eq!(r, EdgeManifoldReport::default());
    assert!(!r.is_closed_manifold());
}

#[test]
fn quad_adjacency() {
    let quad = tri_list(vec![0, 1, 2, 2, 1, 3], 4);
    let adj = quad.triangle_adjacency();
    assert_eq!(adj, vec![[None, Some(1), None], [Some(0), None, None]]);
}

#[test]
fn adjacency_is_symmetric_on_tetrahedron() {
    let adj = tetrahedron().triangle_adjacency();
    for (f, sides) in adj.iter().enumerate() {
        for s in sides.iter() {
            let g = s.expect("closed surface has a neighbour on every side") as usize;
            assert!(adj[g].contains(&Some(f as u32)));
        }
    }
}

#[test]
fn orient_flips_the_misoriented_neighbour() {
    let quad = tri_list(vec![0, 1, 2, 1, 2, 3], 4);
    let (faces, report) = quad.orient_consistent();
    assert_eq!(report, OrientationReport { flipped_count: 1, component_count: 1, non_orientable: false });
    assert_eq!(faces, vec![[0, 1, 2], [1, 3, 2]]);
}

#[test]
fn orient_keeps_consistent_surface() {
    let (faces, report) = tetrahedron().orient_consistent();
    assert_eq!(report.flipped_count, 0);
    assert_eq!(report.component_count, 1);
    assert!(!report.non_orientable);
    assert_eq!(faces, vec![[0, 2, 1], [0, 1, 3], [1, 2, 3], [0, 3, 2]]);
}

#[test]
fn single_triangle_topology_summary() {
    let t = single_triangle().topology_summary();
    assert_eq!(
        t,
        TopologySummary {
            vertex_count: 3,
            edge_count: 3,
            face_count: 1,
            euler_characteristic: 1,
            component_count: 1,
            boundary_loop_count: 1,
            genus: None,
        }
    );
}

#[test]
fn tetrahedron_topology_summary_has_genus_zero() {
    let t = tetrahedron().topology_summary();
    assert_eq!((t.vertex_count, t.edge_count, t.face_count), (4, 6, 4));
    assert_eq!(t.euler_characteristic, 2);
    assert_eq!(t.component_count, 1);
    assert_eq!(t.boundary_loop_count, 0);
    assert_eq!(t.genus, Some(0));
}

#[test]
fn two_islands_are_two_components() {
    let c = tri_list(vec![0, 1, 2, 3, 4, 5], 7);
    let t = c.topology_summary();
    assert_eq!(t.vertex_count, 6);
    assert_eq!(t.component_count, 2);
    assert_eq!(t.boundary_loop_count, 2);
    assert_eq!(t.euler_characteristic, 2);
    assert_eq!(t.genus, None);
}

#[test]
fn empty_topology_summary_is_default() {
    let c = tri_list(vec![0, 0, 1], 2);
    assert_eq!(c.topology_summary(), TopologySummary::default());
}

#[test]
fn mobius_band_is_non_orientable() {
    // Five triangles (i, i+1, i+2 mod 5) close into a band with a twist.
    let c = tri_list(vec![0, 1, 2, 1, 2, 3, 2, 3, 4, 3, 4, 0, 4, 0, 1], 5);
    let (faces, report) = c.orient_consistent();
    assert!(report.non_orientable);
    assert_eq!(report.component_count, 1);
    // Some neighbour pair still walks its shared edge the same way.
    let oriented = tri_list(faces.iter().flat_map(|t| t.iter().copied()).collect(), 5);
    let walks = |t: [u32; 3], a: u32, b: u32| (0..3).any(|k| t[k] == a && t[(k + 1) % 3] == b);
    let adj = oriented.triangle_adjacency();
    let mut clash = false;
    for (f, sides) in adj.iter().enumerate() {
        for (j, s) in sides.iter().enumerate() {
            if let Some(g) = s {
                let t = faces[f];
                let (a, b) = (t[j], t[(j + 1) % 3]);
                if walks(faces[*g as usize], a, b) {
                    clash = true;
                }
            }
        }
    }
    assert!(clash);
}

#[test]
fn to_triangle_list_uses_u32_indices() {
    let fan = Connectivity { topology: Topology::TriangleFan, indices: Some(Indices::U16(vec![7, 1, 2, 3])), vertex_count: 8 };
    let list = fan.to_triangle_list();
    assert_eq!(list.indices, Some(Indices::U32(vec![7, 1, 2, 7, 2, 3])));
}

#[test]
fn orient_two_neighbours_are_orientable() {
    // Two triangles sharing an edge always admit a consistent winding.
    let (_, report) = tri_list(vec![0, 1, 2, 2, 1, 3], 4).orient_consistent();
    assert!(!report.non_orientable);
}

#[test]
fn single_triangle_boundary_is_one_closed_loop() {
    assert_eq!(single_triangle().boundary_loops(), vec![vec![0, 1, 2]]);
    assert_eq!(single_triangle().topology_summary().boundary_loop_count, 1);
}
