//! Core of a scalar-field heatmap visualizer: a rectangular sampling grid,
//! a procedural gradient-noise field over it, and a marching-squares isoline
//! extractor, all computed in fixed-point arithmetic (micro-units).

pub mod fixed;
pub mod grid;
pub mod function;
pub mod draw;
pub mod isoline;
pub mod background;
