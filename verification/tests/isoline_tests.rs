use heatmap_isolines::function::PerlinNoise;
use heatmap_isolines::grid::{Dimensions, Grid};
use heatmap_isolines::isoline::Isolines;

fn grid_1x1() -> Grid {
    Grid { x0: 0, x1: 2_000_000, y0: 0, y1: 2_000_000, dimensions: Dimensions { w: 1, h: 1 } }
}

fn grid_2x1() -> Grid {
    Grid { x0: 0, x1: 4_000_000, y0: 0, y1: 2_000_000, dimensions: Dimensions { w: 2, h: 1 } }
}

/// Corner pattern (below, above, below, above) at corners (0, 1, 2, 3):
/// one segment between the bottom and top edge crossings, interpolated
/// strictly inside the cell.
#[test]
fn single_cell_vertical_band() {
    let g = grid_1x1();
    // Node order is column-major per column: (0,0), (0,1), (1,0), (1,1).
    // Corners: 0 = (0,0) -> 0, 1 = (1,0) -> 1_000_000,
    //          2 = (0,1) -> 0, 3 = (1,1) -> 1_000_000.
    let nodes: Vec<i64> = vec![0, 0, 1_000_000, 1_000_000];
    let centers: Vec<i64> = vec![500_000];
    let c: i64 = 500_000;
    let mut iso = Isolines::from_levels(vec![c]);
    iso.extract_level(&g, c, &nodes, &centers);
    // Exactly one segment: two indices, two fresh vertices.
    assert_eq!(iso.indices().clone(), vec![0u32, 1u32]);
    let vs = iso.vertices().clone();
    assert_eq!(vs.len(), 2);
    // Bottom edge crossing at the midpoint, strictly between the corners.
    assert_eq!(vs[0].x, 1_000_000);
    assert_eq!(vs[0].y, 0);
    assert!(0 < vs[0].x && vs[0].x < 2_000_000);
    // Top edge crossing.
    assert_eq!(vs[1].x, 1_000_000);
    assert_eq!(vs[1].y, 2_000_000);
}

/// Two cells sharing a vertical edge both cross it: the shared crossing
/// is emitted once and referenced twice by index.
#[test]
fn shared_edge_single_vertex() {
    let g = grid_2x1();
    // Columns: x = 0 -> 0, x = 2 -> (0 bottom, 1_000_000 top),
    // x = 4 -> (0 bottom, 1_000_000 top); bottom row below the threshold,
    // top row above it in every column.
    let nodes: Vec<i64> = vec![0, 1_000_000, 0, 1_000_000, 0, 1_000_000];
    let centers: Vec<i64> = vec![500_000, 500_000];
    let c: i64 = 500_000;
    let mut iso = Isolines::from_levels(vec![c]);
    iso.extract_level(&g, c, &nodes, &centers);
    // Cell 0 emits (left, right); cell 1 emits (left, right) where its
    // left edge is cell 0's right edge: one shared vertex index.
    assert_eq!(iso.indices().clone(), vec![0u32, 1u32, 1u32, 2u32]);
    let vs = iso.vertices().clone();
    assert_eq!(vs.len(), 3);
    assert_eq!((vs[0].x, vs[0].y), (0, 1_000_000));
    assert_eq!((vs[1].x, vs[1].y), (2_000_000, 1_000_000));
    assert_eq!((vs[2].x, vs[2].y), (4_000_000, 1_000_000));
}

/// A constant field emits nothing for the cell.
#[test]
fn constant_cell_emits_nothing() {
    let g = grid_1x1();
    let nodes: Vec<i64> = vec![700_000, 700_000, 700_000, 700_000];
    let centers: Vec<i64> = vec![700_000];
    let mut iso = Isolines::from_levels(vec![500_000]);
    iso.extract_level(&g, 500_000, &nodes, &centers);
    assert_eq!(iso.indices().len(), 0);
    assert_eq!(iso.vertices().len(), 0);
}

/// A saddle cell (diagonal corners agree) splits on the center sample
/// and always emits two segments.
#[test]
fn saddle_cell_emits_two_segments() {
    let g = grid_1x1();
    // Corners: 0 above, 1 below, 2 below, 3 above -> diagonal saddle.
    let nodes: Vec<i64> = vec![1_000_000, 0, 0, 1_000_000];
    let centers: Vec<i64> = vec![0];
    let c: i64 = 500_000;
    let mut iso = Isolines::from_levels(vec![c]);
    iso.extract_level(&g, c, &nodes, &centers);
    assert_eq!(iso.indices().len(), 4);
    assert_eq!(iso.vertices().len(), 4);
}

/// After building with `k` levels, exactly `k` ascending levels exist,
/// each a sampled field value.
#[test]
fn rebuild_produces_k_ascending_levels() {
    let g = Grid {
        x0: -1_000_000,
        x1: 1_000_000,
        y0: -1_000_000,
        y1: 1_000_000,
        dimensions: Dimensions { w: 20, h: 20 },
    };
    let f = PerlinNoise::new(Dimensions { w: 4, h: 4 });
    for k in [1usize, 2, 5, 9] {
        let iso = Isolines::new(&g, &f, k);
        let levels = iso.levels().clone();
        assert_eq!(levels.len(), k);
        for w in levels.windows(2) {
            assert!(w[0] <= w[1]);
        }
        for v in &levels {
            assert!(v.abs() <= 100_000_000_000_000);
        }
    }
}

/// Increasing then decreasing the precision restores the level count.
#[test]
fn precision_round_trip_restores_count() {
    let g = Grid {
        x0: -1_000_000,
        x1: 1_000_000,
        y0: -1_000_000,
        y1: 1_000_000,
        dimensions: Dimensions { w: 10, h: 10 },
    };
    let f = PerlinNoise::new(Dimensions { w: 2, h: 2 });
    let mut iso = Isolines::new(&g, &f, 5);
    assert_eq!(iso.levels().len(), 5);
    iso.increase_precision(&g, &f);
    assert_eq!(iso.levels().len(), 6);
    iso.decrease_precision(&g, &f);
    assert_eq!(iso.levels().len(), 5);
}

/// The precision floor: decreasing at one level stays at one level.
#[test]
fn precision_floor_is_one_level() {
    let g = Grid {
        x0: -1_000_000,
        x1: 1_000_000,
        y0: -1_000_000,
        y1: 1_000_000,
        dimensions: Dimensions { w: 10, h: 10 },
    };
    let f = PerlinNoise::new(Dimensions { w: 2, h: 2 });
    let mut iso = Isolines::new(&g, &f, 1);
    iso.decrease_precision(&g, &f);
    assert_eq!(iso.levels().len(), 1);
}

/// The levels come from exact order statistics: level `i` of `k` is the
/// `(i + 1) * N / (k + 1)`-th smallest sampled value.
#[test]
fn levels_are_exact_percentiles() {
    let g = Grid {
        x0: -1_000_000,
        x1: 1_000_000,
        y0: -1_000_000,
        y1: 1_000_000,
        dimensions: Dimensions { w: 8, h: 8 },
    };
    let f = PerlinNoise::new(Dimensions { w: 2, h: 2 });
    // Recompute the cell-corner samples the extractor uses (the field is
    // a deterministic function of its state).
    let mut samples: Vec<i64> = Vec::new();
    for cx in 0..8 {
        for cy in 0..8 {
            let p = g.get_point(cx, cy);
            samples.push(f.get_value(p.0, p.1, &g));
        }
    }
    samples.sort();
    let n = samples.len();
    for k in [1usize, 3, 5] {
        let iso = Isolines::new(&g, &f, k);
        let levels = iso.levels().clone();
        assert_eq!(levels.len(), k);
        for i in 0..k {
            let rank = (i + 1) * n / (k + 1);
            assert_eq!(levels[i], samples[rank]);
        }
    }
}

/// A full extraction pass produces a well-formed line list: pairs of
/// indices, each within the vertex list.
#[test]
fn process_produces_valid_line_list() {
    let g = Grid {
        x0: -1_000_000,
        x1: 1_000_000,
        y0: -1_000_000,
        y1: 1_000_000,
        dimensions: Dimensions { w: 16, h: 16 },
    };
    let f = PerlinNoise::new(Dimensions { w: 4, h: 4 });
    let mut iso = Isolines::new(&g, &f, 3);
    iso.process(&g, &f);
    let inds = iso.indices().clone();
    let n_verts = iso.vertices().len();
    assert_eq!(inds.len() % 2, 0);
    for i in &inds {
        assert!((*i as usize) < n_verts);
    }
    // Rebuilding replaces the cache wholesale: same sizes again.
    let before = (iso.vertices().len(), iso.indices().len());
    iso.process(&g, &f);
    assert_eq!((iso.vertices().len(), iso.indices().len()), before);
}
