use unison2d::topology::{blob_jitter_permille, fan_triangles, grid_triangles, ring_band_triangles};

#[test]
fn ring_bands_wrap_around() {
    assert_eq!(
        ring_band_triangles(3, 1),
        vec![0, 3, 1, 1, 3, 4, 1, 4, 2, 2, 4, 5, 2, 5, 0, 0, 5, 3]
    );
}

#[test]
fn ring_band_counts_match_ring_mesh() {
    // An 8-segment ring with 2 radial divisions: 24 vertices, 32 triangles.
    let tris = ring_band_triangles(8, 2);
    assert_eq!(tris.len() / 3, 32);
    assert!(tris.iter().all(|&v| v < 24));
    assert!(ring_band_triangles(8, 0).is_empty());
}

#[test]
fn grid_cells_split_in_two() {
    assert_eq!(grid_triangles(1), vec![0, 1, 2, 1, 3, 2]);
    // A 4x4 grid: 25 vertices, 32 triangles.
    let tris = grid_triangles(4);
    assert_eq!(tris.len() / 3, 32);
    assert!(tris.iter().all(|&v| v < 25));
    assert!(grid_triangles(0).is_empty());
}

#[test]
fn fan_closes_on_first_rim_vertex() {
    assert_eq!(fan_triangles(4), vec![0, 1, 2, 0, 2, 3, 0, 3, 4, 0, 4, 1]);
    assert!(fan_triangles(0).is_empty());
}

#[test]
fn blob_jitter_wraps_like_u32() {
    assert_eq!(blob_jitter_permille(0, 0, 0), 0);
    assert_eq!(blob_jitter_permille(1, 0, 0), 245);
    assert_eq!(blob_jitter_permille(0, 1, 0), 345);
    assert_eq!(blob_jitter_permille(1, 1, 7), 597);
    assert_eq!(blob_jitter_permille(4, 0, 0), 684);
}

#[test]
fn ring_wireframe_draws_the_mesh_edges() {
    let key = |a: u32, b: u32| if a < b { (a, b) } else { (b, a) };
    for (seg, rd) in [(8u32, 2u32), (3, 1), (5, 3)] {
        let lines = unison2d::mesh::create_ring_wireframe(seg, rd);
        let drawn: std::collections::BTreeSet<(u32, u32)> = lines.chunks(2).map(|p| key(p[0], p[1])).collect();
        let tris = ring_band_triangles(seg, rd);
        let mut edges = std::collections::BTreeSet::new();
        for t in tris.chunks(3) {
            edges.insert(key(t[0], t[1]));
            edges.insert(key(t[1], t[2]));
            edges.insert(key(t[2], t[0]));
        }
        assert_eq!(drawn, edges);
        assert_eq!(lines.len() / 2, drawn.len());
    }
}
