use unison2d::boundary::{edges_on_loop, outer_boundary_edges, trace_boundary_loops};
use unison2d::mesh::compute_boundary_edges_from_triangles;

fn ring_triangles(segments: u32, radial_divisions: u32) -> Vec<u32> {
    let mut triangles = Vec::new();
    for r in 0..radial_divisions {
        for i in 0..segments {
            let curr = r * segments + i;
            let next = r * segments + (i + 1) % segments;
            let curr_outer = (r + 1) * segments + i;
            let next_outer = (r + 1) * segments + (i + 1) % segments;
            triangles.extend_from_slice(&[curr, curr_outer, next, next, curr_outer, next_outer]);
        }
    }
    triangles
}

#[test]
fn ring_has_inner_and_outer_loops() {
    let tris = ring_triangles(8, 2);
    let edges = compute_boundary_edges_from_triangles(&tris);
    assert_eq!(edges.len(), 16);
    let loops = trace_boundary_loops(&edges);
    assert_eq!(loops.len(), 2);
    let mut first = loops[0].clone();
    first.sort();
    let mut second = loops[1].clone();
    second.sort();
    let inner: Vec<u32> = (0..8).collect();
    let outer: Vec<u32> = (16..24).collect();
    assert!((first == inner && second == outer) || (first == outer && second == inner));
}

#[test]
fn outer_loop_keeps_only_its_edges() {
    let tris = ring_triangles(6, 1);
    let edges = compute_boundary_edges_from_triangles(&tris);
    let loops = trace_boundary_loops(&edges);
    assert_eq!(loops.len(), 2);
    let outer_idx = if loops[0].contains(&6) { 0 } else { 1 };
    let kept = outer_boundary_edges(&edges, &loops, outer_idx);
    assert_eq!(kept.len(), 6);
    assert!(kept.iter().all(|&(a, b)| a >= 6 && b >= 6));
    assert_eq!(kept, edges_on_loop(&edges, &loops[outer_idx]));
}

#[test]
fn single_loop_keeps_every_edge() {
    // Two triangles forming a quad.
    let tris = vec![0, 1, 2, 0, 2, 3];
    let edges = compute_boundary_edges_from_triangles(&tris);
    assert_eq!(edges, vec![(0, 1), (1, 2), (2, 3), (3, 0)]);
    let loops = trace_boundary_loops(&edges);
    assert_eq!(loops, vec![vec![0, 1, 2, 3]]);
    assert_eq!(outer_boundary_edges(&edges, &loops, 0), edges);
}

#[test]
fn no_edges_no_loops() {
    let loops = trace_boundary_loops(&[]);
    assert!(loops.is_empty());
    assert!(outer_boundary_edges(&[], &loops, 0).is_empty());
}

#[test]
fn short_walks_are_not_loops() {
    // A lone segment walks two vertices only.
    let loops = trace_boundary_loops(&[(4, 5)]);
    assert!(loops.is_empty());
}

#[test]
fn edges_on_loop_filters_by_both_ends() {
    let edges = vec![(1, 2), (2, 9), (9, 1), (2, 3)];
    assert_eq!(edges_on_loop(&edges, &[1, 2, 3]), vec![(1, 2), (2, 3)]);
}
