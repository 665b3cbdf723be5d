use unison2d::lighting::compute_boundary_edges;
use unison2d::mesh::{compute_boundary_edges_from_triangles, create_radial_wireframe, create_ring_wireframe};

#[test]
fn test_ring_wireframe() {
    let wireframe = create_ring_wireframe(8, 2);
    // 8 segments * 2 radial divisions * 3 edges + 8 outer edges = 56 edges of 2 indices.
    assert!(wireframe.len() > 0);
    assert_eq!(wireframe.len() % 2, 0);
}

#[test]
fn test_radial_wireframe() {
    let wireframe = create_radial_wireframe(8, 3);
    assert!(wireframe.len() > 0);
    assert_eq!(wireframe.len() % 2, 0);
}

#[test]
fn ring_wireframe_counts_edges() {
    assert_eq!(create_ring_wireframe(8, 2).len(), 112);
    assert_eq!(create_ring_wireframe(16, 3).len(), 2 * (3 * 16 * 3 + 16));
    assert!(create_ring_wireframe(8, 0).is_empty());
    assert!(create_ring_wireframe(0, 4).is_empty());
}

#[test]
fn ring_wireframe_exact_indices() {
    let w = create_ring_wireframe(3, 1);
    assert_eq!(
        w,
        vec![
            0, 1, 0, 3, 1, 3, 3, 4, //
            1, 2, 1, 4, 2, 4, 4, 5, //
            2, 0, 2, 5, 0, 5, 5, 3,
        ]
    );
    let w2 = create_ring_wireframe(2, 2);
    assert_eq!(w2.len(), 6 * 2 * 2 + 2 * 2);
    assert!(w2.iter().all(|&i| i < 6));
}

#[test]
fn radial_wireframe_exact_indices() {
    let w = create_radial_wireframe(3, 1);
    assert_eq!(
        w,
        vec![
            0, 1, 0, 3, 1, 2, 1, 4, 2, 0, 2, 5, //
            3, 4, 4, 5, 5, 3,
        ]
    );
    assert_eq!(create_radial_wireframe(8, 3).len(), 2 * 8 * 7);
    assert_eq!(create_radial_wireframe(5, 0).len(), 10);
}

#[test]
fn wireframe_indices_stay_in_the_mesh() {
    let w = create_radial_wireframe(10, 4);
    assert!(w.iter().all(|&i| i < 50));
    let r = create_ring_wireframe(12, 5);
    assert!(r.iter().all(|&i| i < 72));
}

#[test]
fn single_triangle_is_all_boundary() {
    assert_eq!(compute_boundary_edges_from_triangles(&[0, 1, 2]), vec![(0, 1), (1, 2), (2, 0)]);
}

#[test]
fn shared_edges_are_not_boundary() {
    let quad = [0, 1, 2, 0, 2, 3];
    assert_eq!(compute_boundary_edges_from_triangles(&quad), vec![(0, 1), (1, 2), (2, 3), (3, 0)]);
    assert_eq!(compute_boundary_edges(&quad), vec![(0, 1), (1, 2), (2, 3), (3, 0)]);
}

#[test]
fn partial_triangle_is_ignored() {
    assert_eq!(compute_boundary_edges(&[0, 1, 2, 7, 8]), vec![(0, 1), (1, 2), (2, 0)]);
    assert!(compute_boundary_edges(&[]).is_empty());
    assert!(compute_boundary_edges(&[4, 5]).is_empty());
}

#[test]
fn repeated_triangle_has_no_boundary() {
    assert!(compute_boundary_edges(&[0, 1, 2, 2, 1, 0]).is_empty());
    // An edge used three times is not a boundary edge either.
    let fan = [0, 1, 2, 0, 1, 3, 1, 0, 4];
    assert_eq!(
        compute_boundary_edges(&fan),
        vec![(1, 2), (2, 0), (1, 3), (3, 0), (0, 4), (4, 1)]
    );
}

#[test]
fn ring_mesh_boundary_has_inner_and_outer_loops() {
    // Triangles of a ring mesh with 4 segments and 1 band, as the engine builds them.
    let seg = 4u32;
    let mut tris = Vec::new();
    for i in 0..seg {
        let curr = i;
        let next = (i + 1) % seg;
        let curr_outer = seg + i;
        let next_outer = seg + (i + 1) % seg;
        tris.extend_from_slice(&[curr, curr_outer, next, next, curr_outer, next_outer]);
    }
    let b = compute_boundary_edges(&tris);
    assert_eq!(b.len(), 8);
    for (a, c) in &b {
        assert!((*a < 4) == (*c < 4));
    }
}

#[test]
fn constraint_edges_skip_shared_edges() {
    let edges = unison2d::mesh::constraint_edges(&[0, 1, 2, 0, 2, 3]);
    assert_eq!(edges, vec![(0, 1), (1, 2), (2, 0), (2, 3), (3, 0)]);
}

#[test]
fn constraint_edges_ignore_partial_triangle() {
    let edges = unison2d::mesh::constraint_edges(&[4, 5, 6, 7, 8]);
    assert_eq!(edges, vec![(4, 5), (5, 6), (6, 4)]);
    assert!(unison2d::mesh::constraint_edges(&[]).is_empty());
}
