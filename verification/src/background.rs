//! The filled heatmap behind the isolines: per-node colors derived from
//! the field, and the two-triangle-per-cell fan over the node-inclusive
//! lattice that a renderer draws them with.

use vstd::prelude::*;
use crate::draw::{Color, ColoredVertex};
use crate::fixed::{FIELD_LIMIT, MAX_LEVELS};
use crate::function::PerlinNoise;
use crate::grid::Grid;
use crate::isoline::{center_samples, emissions, node_samples, Isolines};

verus! {

/// The heatmap shade of a field value: the value drives the red channel,
/// green and blue are fixed.
pub open spec fn color_of(v: int) -> Color {
    Color { r: (v + 400_000) as i64, g: 200_000, b: 50_000 }
}

/// Node index of the `k`-th cell's lower-left corner in the
/// node-inclusive vertex list (cells enumerated row-major).
pub open spec fn fan_base(g: Grid, k: int) -> int {
    (k / (g.dimensions.h as int)) * (g.dimensions.h + 1) + k % (g.dimensions.h as int)
}

/// The triangle-fan index list over the node-inclusive lattice: two
/// triangles per cell, skipping the last row and column of nodes (they
/// have no cell of their own). Triangles are (lower-left, lower-right,
/// upper-right) and (lower-left, upper-right, upper-left).
pub open spec fn fan_indices(g: Grid) -> Seq<u32> {
    Seq::new(
        (6 * (g.dimensions.w as int) * (g.dimensions.h as int)) as nat,
        |i: int|
            {
                let idx = fan_base(g, i / 6);
                let h = g.dimensions.h as int;
                let r = i % 6;
                if r == 0 {
                    idx as u32
                } else if r == 1 {
                    (idx + 1 + h) as u32
                } else if r == 2 {
                    (idx + 2 + h) as u32
                } else if r == 3 {
                    idx as u32
                } else if r == 4 {
                    (idx + 2 + h) as u32
                } else {
                    (idx + 1) as u32
                }
            },
    )
}

/// The filled background: a sampling grid and the per-node colors of the
/// last processed frame.
pub struct Background {
    pub grid: Grid,
    colors: Vec<Color>,
}

impl Background {
    /// The grid this background samples over.
    pub closed spec fn spec_grid(self) -> Grid {
        self.grid
    }

    /// The per-node colors computed by the last `process`.
    pub closed spec fn spec_colors(self) -> Seq<Color> {
        self.colors@
    }

    /// A background over a grid, with no colors yet.
    pub fn new(grid: Grid) -> (r: Background)
        requires
            grid.wf(),
        ensures
            r.spec_grid() == grid,
            r.spec_colors() == Seq::<Color>::empty(),
    {
        Background { grid, colors: Vec::new() }
    }

    /// One frame's computation: recolors every lattice node from the
    /// field and rebuilds the isoline geometry against the same grid.
    pub fn process(&mut self, function: &PerlinNoise, isolines: &mut Isolines)
        requires
            old(self).spec_grid().wf(),
            old(self).spec_grid().exact(),
            function.wf(),
            function.compatible(old(self).spec_grid()),
            old(isolines).spec_levels().len() <= MAX_LEVELS,
            forall|i: int|
                0 <= i < old(isolines).spec_levels().len() ==> -FIELD_LIMIT <= #[trigger] old(isolines).spec_levels()[i] <= FIELD_LIMIT,
            4 * ((old(self).spec_grid().dimensions.w as int) * (
            old(self).spec_grid().dimensions.h as int)) * (old(isolines).spec_levels().len() as int)
                + 4 < 0x1_0000_0000,
        ensures
            final(self).spec_grid() == old(self).spec_grid(),
            final(self).spec_colors().len() == node_samples(*function, old(self).spec_grid()).len(),
            forall|t: int|
                0 <= t < final(self).spec_colors().len() ==> #[trigger] final(self).spec_colors()[t] == color_of(node_samples(*function, old(self).spec_grid())[t] as int),
            final(isolines).spec_levels() == old(isolines).spec_levels(),
            final(isolines).geometry_matches(
                old(self).spec_grid(),
                node_samples(*function, old(self).spec_grid()),
                emissions(
                    old(self).spec_grid(),
                    node_samples(*function, old(self).spec_grid()),
                    center_samples(*function, old(self).spec_grid()),
                    old(isolines).spec_levels(),
                ),
                old(isolines).spec_levels(),
            ),
    {
        let nodes = Isolines::sample_nodes(&self.grid, function);
        let mut colors: Vec<Color> = Vec::new();
        let mut t: usize = 0;
        while t < nodes.len()
            invariant
                0 <= t <= nodes@.len(),
                colors@.len() == t,
                forall|i: int| 0 <= i < nodes@.len() ==> -FIELD_LIMIT <= #[trigger] nodes@[i] <= FIELD_LIMIT,
                forall|j: int|
                    0 <= j < t ==> #[trigger] colors@[j] == color_of(nodes@[j] as int),
            decreases nodes@.len() - t,
        {
            let v = nodes[t];
            colors.push(Color { r: v + 400_000, g: 200_000, b: 50_000 });
            t = t + 1;
        }
        self.colors = colors;
        isolines.process(&self.grid, function);
    }

    /// The filled-quad geometry of the last processed frame: one colored
    /// vertex per lattice node (node-inclusive, row-major) and the
    /// two-triangle-per-cell fan indices. Every index is in range of the
    /// vertex list.
    pub fn geometry(&self) -> (r: (Vec<ColoredVertex>, Vec<u32>))
        requires
            self.spec_grid().wf(),
            self.spec_colors().len() == (self.spec_grid().dimensions.w + 1) * (
            self.spec_grid().dimensions.h + 1),
        ensures
            r.0@.len() == (self.spec_grid().dimensions.w + 1) * (self.spec_grid().dimensions.h
                + 1),
            forall|t: int|
                0 <= t < r.0@.len() ==> #[trigger] r.0@[t] == (ColoredVertex {
                    x: self.spec_grid().spec_point_x(t / (self.spec_grid().dimensions.h + 1)) as i64,
                    y: self.spec_grid().spec_point_y(t % (self.spec_grid().dimensions.h + 1)) as i64,
                    color: self.spec_colors()[t],
                }),
            r.1@ == fan_indices(self.spec_grid()),
            forall|i: int| 0 <= i < r.1@.len() ==> (#[trigger] r.1@[i] as int) < r.0@.len(),
    {
        let w: i32 = self.grid.dimensions.w;
        let h: i32 = self.grid.dimensions.h;
        proof {
            assert(1 <= (w as int) * (h as int) <= 0x2000_0000 && (w + 1) * (h + 1) <= 0x2000_0000)
                by (nonlinear_arith)
                requires
                    1 <= w <= 16_384,
                    1 <= h <= 16_384,
            ;
        }
        let n_nodes: i32 = (w + 1) * (h + 1);
        let mut verts: Vec<ColoredVertex> = Vec::new();
        let mut t: i32 = 0;
        while t < n_nodes
            invariant
                self.grid.wf(),
                w == self.grid.dimensions.w,
                h == self.grid.dimensions.h,
                n_nodes as int == (w + 1) * (h + 1),
                self.spec_colors().len() == n_nodes,
                0 <= t <= n_nodes,
                verts@.len() == t,
                forall|j: int|
                    0 <= j < t ==> #[trigger] verts@[j] == (ColoredVertex {
                        x: self.grid.spec_point_x(j / (h + 1)) as i64,
                        y: self.grid.spec_point_y(j % (h + 1)) as i64,
                        color: self.spec_colors()[j],
                    }),
            decreases n_nodes - t,
        {
            proof {
                vstd::arithmetic::div_mod::lemma_div_pos_is_pos(t as int, (h + 1) as int);
                assert(((w + 1) as int) * ((h + 1) as int) == ((h + 1) as int) * ((w + 1) as int))
                    by (nonlinear_arith);
                vstd::arithmetic::div_mod::lemma_multiply_divide_lt(
                    t as int,
                    (h + 1) as int,
                    (w + 1) as int,
                );
                vstd::arithmetic::div_mod::lemma_mod_bound(t as int, (h + 1) as int);
            }
            let p = self.grid.get_point(t / (h + 1), t % (h + 1));
            let c = self.colors[t as usize];
            verts.push(ColoredVertex { x: p.0, y: p.1, color: c });
            t = t + 1;
        }
        let total: i32 = w * h;
        proof {
            assert((6 * (w as int)) * (h as int) == 6 * ((w as int) * (h as int)))
                by (nonlinear_arith);
        }
        let mut inds: Vec<u32> = Vec::new();
        let mut k: i32 = 0;
        while k < total
            invariant
                fan_indices(self.grid).len() == 6 * (total as int),
                self.grid.wf(),
                w == self.grid.dimensions.w,
                h == self.grid.dimensions.h,
                total as int == (w as int) * (h as int),
                n_nodes as int == (w + 1) * (h + 1),
                0 <= k <= total,
                inds@.len() == 6 * k,
                forall|i: int| 0 <= i < 6 * k ==> #[trigger] inds@[i] == fan_indices(self.grid)[i],
                forall|i: int| 0 <= i < 6 * k ==> (#[trigger] inds@[i] as int) < n_nodes,
            decreases total - k,
        {
            proof {
                vstd::arithmetic::div_mod::lemma_div_pos_is_pos(k as int, h as int);
                assert((w as int) * (h as int) == (h as int) * (w as int)) by (nonlinear_arith);
                vstd::arithmetic::div_mod::lemma_multiply_divide_lt(k as int, h as int, w as int);
                vstd::arithmetic::div_mod::lemma_mod_bound(k as int, h as int);
            }
            let cx: i32 = k / h;
            let cy: i32 = k % h;
            proof {
                assert(0 <= (cx as int) * ((h as int) + 1) && (cx as int) * ((h as int) + 1) + (
                cy as int) + 2 + (h as int) < (w + 1) * (h + 1) && (cx as int) * ((h as int) + 1)
                    + (cy as int) < 0x2000_0000) by (nonlinear_arith)
                    requires
                        0 <= cx < w,
                        0 <= cy < h,
                        1 <= w <= 16_384,
                        1 <= h <= 16_384,
                ;
            }
            let idx: i32 = cx * (h + 1) + cy;
            let ghost pre = inds@;
            inds.push(idx as u32);
            inds.push((idx + 1 + h) as u32);
            inds.push((idx + 2 + h) as u32);
            inds.push(idx as u32);
            inds.push((idx + 2 + h) as u32);
            inds.push((idx + 1) as u32);
            proof {
                assert(fan_base(self.grid, k as int) == idx);
                assert forall|i: int| 0 <= i < 6 * (k + 1) implies #[trigger] inds@[i]
                    == fan_indices(self.grid)[i] by {
                    if i < 6 * k {
                        assert(inds@[i] == pre[i]);
                    } else {
                        assert(i / 6 == k as int && (i == 6 * k + i % 6)) by (nonlinear_arith)
                            requires
                                6 * k <= i < 6 * (k + 1),
                        ;
                    }
                }
                assert forall|i: int| 0 <= i < 6 * (k + 1) implies (#[trigger] inds@[i] as int)
                    < n_nodes by {
                    if i < 6 * k {
                        assert(inds@[i] == pre[i]);
                    }
                }
            }
            k = k + 1;
        }
        proof {
            assert(inds@ =~= fan_indices(self.grid));
        }
        (verts, inds)
    }
}

} // verus!
