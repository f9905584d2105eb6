//! Fixed-point geometry records handed to a renderer: positions in
//! micro-units, color channels in micro-intensity.

use vstd::prelude::*;

verus! {

/// A bare 2-D position.
#[derive(Clone, Copy, PartialEq, Eq, Structural, Debug)]
pub struct Vertex {
    pub x: i64,
    pub y: i64,
}

/// An RGB triple.
#[derive(Clone, Copy, PartialEq, Eq, Structural, Debug)]
pub struct Color {
    pub r: i64,
    pub g: i64,
    pub b: i64,
}

/// A position with its color, for the filled heatmap.
#[derive(Clone, Copy, PartialEq, Eq, Structural, Debug)]
pub struct ColoredVertex {
    pub x: i64,
    pub y: i64,
    pub color: Color,
}

} // verus!
