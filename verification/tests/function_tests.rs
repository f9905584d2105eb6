use heatmap_isolines::fixed::SCALE;
use heatmap_isolines::function::{cos_fx, interpolate, sin_fx, PerlinNoise};
use heatmap_isolines::grid::{Dimensions, Grid};

fn unit_grid(w: i32, h: i32) -> Grid {
    Grid { x0: -1_000_000, x1: 1_000_000, y0: -1_000_000, y1: 1_000_000, dimensions: Dimensions {
        w,
        h,
    } }
}

#[test]
fn sine_known_values() {
    assert_eq!(sin_fx(0), 0);
    // pi/6: the rational approximation is exact here.
    assert_eq!(sin_fx(523_599), 500_000);
    // pi/2: within a couple of micro-units of 1.
    assert_eq!(sin_fx(1_570_796), 999_999);
    // odd reflection on the second half turn.
    assert_eq!(sin_fx(4_712_389), -999_999);
}

#[test]
fn cosine_known_values() {
    assert_eq!(cos_fx(0), 999_999);
    assert_eq!(cos_fx(3_141_593), -999_999);
}

#[test]
fn blend_hits_endpoints_exactly() {
    assert_eq!(interpolate(123_456, -654_321, 0), 123_456);
    assert_eq!(interpolate(123_456, -654_321, SCALE), -654_321);
}

#[test]
fn blend_midpoint_is_average() {
    // The smoothstep weight of t = 1/2 is exactly 1/2.
    assert_eq!(interpolate(0, 1_000_000, 500_000), 500_000);
    assert_eq!(interpolate(-400, 400, 500_000), 0);
}

#[test]
fn field_evaluation_is_deterministic() {
    let g = unit_grid(100, 100);
    let f = PerlinNoise::new(Dimensions { w: 4, h: 4 });
    assert!(f.is_compatible(&g));
    let a = f.get_value(123_000, -456_000, &g);
    let b = f.get_value(123_000, -456_000, &g);
    assert_eq!(a, b);
}

#[test]
fn update_keeps_field_defined() {
    let g = unit_grid(100, 100);
    let mut f = PerlinNoise::new(Dimensions { w: 4, h: 4 });
    let before = f.get_value(0, 0, &g);
    f.update();
    let after = f.get_value(0, 0, &g);
    // Both evaluations stay within the documented field range.
    assert!(before.abs() <= 100_000_000_000_000);
    assert!(after.abs() <= 100_000_000_000_000);
}

#[test]
fn compatibility_check() {
    let g = unit_grid(100, 100);
    let f4 = PerlinNoise::new(Dimensions { w: 4, h: 4 });
    let f7 = PerlinNoise::new(Dimensions { w: 7, h: 4 });
    assert!(f4.is_compatible(&g));
    assert!(!f7.is_compatible(&g));
}
