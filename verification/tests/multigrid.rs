use tpt_physics::{Grid2D, Multigrid};

#[test]
fn grid_indexing_and_size() {
    let g = Grid2D::new(4, 3);
    assert_eq!(g.nx, 4);
    assert_eq!(g.ny, 3);
    assert_eq!(g.idx(0, 0), 0);
    assert_eq!(g.idx(3, 0), 3);
    assert_eq!(g.idx(1, 2), 9);
    assert_eq!(g.len(), 12);
    assert!(!g.is_empty());
    assert!(Grid2D::new(0, 5).is_empty());
    assert!(Grid2D::new(5, 0).is_empty());
    assert_eq!(Grid2D::new(0, 5).len(), 0);
}

#[test]
fn laplacian_entries_on_two_by_two_grid() {
    // Nodes 0 1 / 2 3: each has two neighbours.
    let g = Grid2D::new(2, 2);
    let e = g.laplacian_entries();
    assert_eq!(
        e,
        vec![
            (0, 0, 4),
            (0, 1, -1),
            (0, 2, -1),
            (1, 1, 4),
            (1, 0, -1),
            (1, 3, -1),
            (2, 2, 4),
            (2, 3, -1),
            (2, 0, -1),
            (3, 3, 4),
            (3, 2, -1),
            (3, 1, -1),
        ]
    );
}

#[test]
fn laplacian_is_symmetric_with_interior_row_of_five() {
    let g = Grid2D::new(3, 3);
    let e = g.laplacian_entries();
    // Interior node 4 has the full 5-point stencil.
    let row4: Vec<_> = e.iter().filter(|t| t.0 == 4).cloned().collect();
    assert_eq!(row4, vec![(4, 4, 4), (4, 3, -1), (4, 5, -1), (4, 1, -1), (4, 7, -1)]);
    // Corners have three entries, edges four.
    assert_eq!(e.iter().filter(|t| t.0 == 0).count(), 3);
    assert_eq!(e.iter().filter(|t| t.0 == 1).count(), 4);
    assert_eq!(e.len(), 9 + 2 * 12);
    for &(r, c, w) in &e {
        assert!(e.contains(&(c, r, w)), "missing mirror of ({r},{c})");
        assert!(r < 9 && c < 9);
        assert_eq!(w == 4, r == c);
    }
}

#[test]
fn empty_grid_has_no_laplacian_entries() {
    assert!(Grid2D::new(0, 3).laplacian_entries().is_empty());
}

#[test]
fn multigrid_layout_halves_the_grid() {
    let mg = Multigrid::new(Grid2D::new(8, 6), 2, 3);
    assert_eq!(mg.fine_grid().nx, 8);
    assert_eq!(mg.fine_grid().ny, 6);
    assert_eq!(mg.coarse_grid().nx, 4);
    assert_eq!(mg.coarse_grid().ny, 3);
    assert_eq!(mg.nu_pre(), 2);
    assert_eq!(mg.nu_post(), 3);
}

#[test]
fn restriction_weights_interior_and_corner() {
    let mg = Multigrid::new(Grid2D::new(4, 4), 1, 1);
    // Coarse (1,1) -> fine centre (2,2) = 10; all nine neighbours exist.
    let r = mg.restriction(1, 1);
    assert_eq!(
        r,
        vec![(10, 16), (9, 8), (11, 8), (6, 8), (5, 4), (7, 4), (14, 8), (13, 4), (15, 4)]
    );
    let total: u32 = r.iter().map(|t| t.1 as u32).sum();
    assert_eq!(total, 64);
    // Coarse (0,0) -> fine corner 0: west and south neighbours are clipped.
    let c = mg.restriction(0, 0);
    assert_eq!(c, vec![(0, 16), (1, 8), (4, 8), (5, 4)]);
}

#[test]
fn prolongation_injects_even_nodes_and_reads_neighbours() {
    let mg = Multigrid::new(Grid2D::new(4, 4), 1, 1);
    // Even fine node (2,2) takes coarse (1,1) = 3 with weight one.
    assert_eq!(mg.prolongation(2, 2), vec![(3, 1)]);
    // Fine (0,0) -> coarse 0 only weight-bearing term.
    assert_eq!(mg.prolongation(0, 0), vec![(0, 1), (1, 0), (2, 0), (3, 0)]);
    // Odd column (1,0): weight goes to the east coarse neighbour.
    assert_eq!(mg.prolongation(1, 0), vec![(0, 0), (1, 1), (2, 0), (3, 0)]);
    // Odd row (0,1): weight goes to the north coarse neighbour.
    assert_eq!(mg.prolongation(0, 1), vec![(0, 0), (1, 0), (2, 1), (3, 0)]);
    // Odd/odd (1,1): weight goes to the north-east coarse neighbour.
    assert_eq!(mg.prolongation(1, 1), vec![(0, 0), (1, 0), (2, 0), (3, 1)]);
    // Last odd column (3,0): no east neighbour, so nothing is added.
    assert_eq!(mg.prolongation(3, 0), vec![(1, 0), (3, 0)]);
}

#[test]
fn index_roundtrip_covers_grid_once() {
    let g = Grid2D::new(5, 4);
    let mut seen = vec![false; g.len()];
    for j in 0..4 {
        for i in 0..5 {
            let k = g.idx(i, j);
            assert!(k < g.len());
            assert_eq!((k % 5, k / 5), (i, j));
            assert!(!seen[k]);
            seen[k] = true;
        }
    }
    assert!(seen.iter().all(|s| *s));
}
