use heatmap_isolines::background::Background;
use heatmap_isolines::function::PerlinNoise;
use heatmap_isolines::grid::{Dimensions, Grid};
use heatmap_isolines::isoline::Isolines;

#[test]
fn one_cell_triangle_fan() {
    let g = Grid { x0: 0, x1: 2_000_000, y0: 0, y1: 2_000_000, dimensions: Dimensions {
        w: 1,
        h: 1,
    } };
    let f = PerlinNoise::new(Dimensions { w: 1, h: 1 });
    let mut bg = Background::new(g);
    let mut iso = Isolines::new(&g, &f, 1);
    bg.process(&f, &mut iso);
    let (verts, inds) = bg.geometry();
    assert_eq!(verts.len(), 4);
    // Node order: (0,0), (0,1), (1,0), (1,1).
    assert_eq!((verts[0].x, verts[0].y), (0, 0));
    assert_eq!((verts[1].x, verts[1].y), (0, 2_000_000));
    assert_eq!((verts[2].x, verts[2].y), (2_000_000, 0));
    assert_eq!((verts[3].x, verts[3].y), (2_000_000, 2_000_000));
    // Two triangles over the single cell.
    assert_eq!(inds, vec![0u32, 2, 3, 0, 3, 1]);
}

#[test]
fn colors_follow_field_values() {
    let g = Grid {
        x0: -1_000_000,
        x1: 1_000_000,
        y0: -1_000_000,
        y1: 1_000_000,
        dimensions: Dimensions { w: 4, h: 4 },
    };
    let f = PerlinNoise::new(Dimensions { w: 2, h: 2 });
    let mut bg = Background::new(g);
    let mut iso = Isolines::new(&g, &f, 2);
    bg.process(&f, &mut iso);
    let (verts, inds) = bg.geometry();
    assert_eq!(verts.len(), 25);
    assert_eq!(inds.len(), 6 * 16);
    for i in &inds {
        assert!((*i as usize) < verts.len());
    }
    // The color encodes the field value: red channel is value + 0.4,
    // green and blue are fixed.
    for v in &verts {
        let field = f.get_value(v.x, v.y, &g);
        assert_eq!(v.color.r, field + 400_000);
        assert_eq!(v.color.g, 200_000);
        assert_eq!(v.color.b, 50_000);
    }
}
