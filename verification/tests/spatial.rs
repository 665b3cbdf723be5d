use unison2d::spatial::CellGrid;

fn sample_grid() -> CellGrid {
    let mut g = CellGrid::new();
    g.insert_cell(0, 0, 0, 0);
    g.insert_cell(1, 0, 1, 0);
    g.insert_cell(2, 0, 5, 5);
    g.insert_cell(3, 1, 0, 0);
    assert!(g.build_fits());
    g.build();
    g
}

#[test]
fn query_collects_the_block_in_cell_order() {
    let g = sample_grid();
    let mut out = Vec::new();
    g.query_neighbors_cell(0, 0, &mut out);
    assert_eq!(out, vec![(0, 0), (3, 1), (1, 0)]);
}

#[test]
fn query_keeps_what_was_in_the_buffer() {
    let g = sample_grid();
    let mut out = vec![(9, 9)];
    g.query_neighbors_cell(6, 4, &mut out);
    assert_eq!(out, vec![(9, 9), (2, 0)]);
}

#[test]
fn query_far_from_entries_is_empty() {
    let g = sample_grid();
    let mut out = Vec::new();
    g.query_neighbors_cell(3, 3, &mut out);
    assert!(out.is_empty());
    g.query_neighbors_cell(i32::MIN, i32::MAX, &mut out);
    assert!(out.is_empty());
}

#[test]
fn query_reaches_diagonal_neighbors() {
    let g = sample_grid();
    let mut out = Vec::new();
    g.query_neighbors_cell(1, 1, &mut out);
    assert_eq!(out, vec![(0, 0), (3, 1), (1, 0)]);
    out.clear();
    g.query_neighbors_cell(2, 1, &mut out);
    assert_eq!(out, vec![(1, 0)]);
}

#[test]
fn empty_grid_answers_nothing() {
    let mut g = CellGrid::new();
    assert!(g.is_ready());
    assert!(g.build_fits());
    g.build();
    let mut out = Vec::new();
    g.query_neighbors_cell(0, 0, &mut out);
    assert!(out.is_empty());
}

#[test]
fn clear_then_rebuild() {
    let mut g = sample_grid();
    assert!(g.is_ready());
    g.clear();
    assert!(!g.is_ready());
    g.insert_cell(7, 7, -3, 2);
    g.build();
    assert!(g.is_ready());
    let mut out = Vec::new();
    g.query_neighbors_cell(-2, 3, &mut out);
    assert_eq!(out, vec![(7, 7)]);
    out.clear();
    g.query_neighbors_cell(0, 0, &mut out);
    assert!(out.is_empty());
}

#[test]
fn grid_too_wide_does_not_fit() {
    let mut g = CellGrid::new();
    g.insert_cell(0, 0, i32::MIN, 0);
    g.insert_cell(1, 0, i32::MAX, 0);
    assert!(!g.build_fits());
}
