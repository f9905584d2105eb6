use heatmap_isolines::grid::{Dimensions, Grid};

fn unit_grid(w: i32, h: i32) -> Grid {
    Grid { x0: -1_000_000, x1: 1_000_000, y0: -1_000_000, y1: 1_000_000, dimensions: Dimensions {
        w,
        h,
    } }
}

#[test]
fn cell_sizes_are_derived() {
    let g = unit_grid(100, 50);
    assert_eq!(g.get_cell_width(), 20_000);
    assert_eq!(g.get_cell_height(), 40_000);
}

#[test]
fn point_at_lattice_indices() {
    let g = unit_grid(100, 100);
    assert_eq!(g.get_point(0, 0), (-1_000_000, -1_000_000));
    assert_eq!(g.get_point(50, 50), (0, 0));
    assert_eq!(g.get_point(100, 100), (1_000_000, 1_000_000));
}

#[test]
fn point_round_trip() {
    let g = unit_grid(100, 50);
    for ix in [0, 1, 7, 50, 99, 100] {
        for iy in [0, 1, 25, 49, 50] {
            let p = g.get_point(ix, iy);
            assert_eq!(g.get_point_rev(p.0, p.1), (ix, iy));
        }
    }
}

#[test]
fn boundary_point_lands_in_higher_cell() {
    let g = unit_grid(100, 100);
    // A point exactly on the lattice line between cells 49 and 50.
    let p = g.get_point(50, 50);
    let r = g.get_point_rev(p.0, p.1);
    assert_eq!(r, (50, 50));
}

#[test]
fn verticals_and_horizontals() {
    let g = unit_grid(4, 4);
    let vs = g.verticals();
    assert_eq!(vs, vec![-1_000_000, -500_000, 0, 500_000, 1_000_000]);
    let hs = g.horizontals();
    assert_eq!(hs, vec![-1_000_000, -500_000, 0, 500_000, 1_000_000]);
}

#[test]
fn iterator_cell_mode_row_major() {
    let g = unit_grid(2, 2);
    let mut it = g.iterator(false);
    let mut pts = Vec::new();
    while let Some(p) = it.next() {
        pts.push(p);
    }
    assert_eq!(pts, vec![
        (-1_000_000, -1_000_000),
        (-1_000_000, 0),
        (0, -1_000_000),
        (0, 0),
    ]);
}

#[test]
fn iterator_node_mode_counts_all_nodes() {
    let g = unit_grid(2, 2);
    let mut it = g.iterator(true);
    let mut count = 0;
    while let Some(_) = it.next() {
        count += 1;
    }
    assert_eq!(count, 9);
}

#[test]
fn new_keeps_matching_aspect() {
    let g = Grid::new(
        -1_000_000,
        1_000_000,
        -1_000_000,
        1_000_000,
        Dimensions { w: 100, h: 100 },
        Dimensions { w: 1000, h: 1000 },
    )
    .unwrap();
    assert_eq!(g.x0, -1_000_000);
    assert_eq!(g.x1, 1_000_000);
    assert_eq!(g.y0, -1_000_000);
    assert_eq!(g.y1, 1_000_000);
}

#[test]
fn new_shrinks_width_of_tall_rectangle() {
    let g = Grid::new(
        -1_000_000,
        1_000_000,
        -2_000_000,
        2_000_000,
        Dimensions { w: 100, h: 100 },
        Dimensions { w: 1000, h: 1000 },
    )
    .unwrap();
    assert_eq!(g.x0, -500_000);
    assert_eq!(g.x1, 500_000);
    assert_eq!(g.y0, -2_000_000);
    assert_eq!(g.y1, 2_000_000);
}

#[test]
fn new_rejects_degenerate_fit() {
    // Extremely tall rectangle: the fitted horizontal extent collapses
    // below one cell per epsilon, so no well-formed grid comes out.
    let r = Grid::new(
        -1_000,
        1_000,
        -100_000_000,
        100_000_000,
        Dimensions { w: 16_384, h: 1 },
        Dimensions { w: 100_000, h: 1 },
    );
    assert!(r.is_none());
}
