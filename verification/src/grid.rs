//! A rectangular continuous domain split into a `w` x `h` lattice of cells,
//! with the bijective mapping between lattice indices and continuous
//! coordinates (in micro-units) and the row-major iteration over the
//! lattice's sample points.

use vstd::prelude::*;
use crate::fixed::{COORD_LIMIT, DIM_MAX, EPS_INDEX, SCALE, WINDOW_MAX};

verus! {

/// A lattice size, counting cells (not nodes) along each axis.
#[derive(Clone, Copy, PartialEq, Eq, Structural, Debug)]
pub struct Dimensions {
    pub w: i32,
    pub h: i32,
}

impl Dimensions {
    /// Both cell counts are positive and within the global limit.
    pub open spec fn wf(self) -> bool {
        &&& 1 <= self.w <= DIM_MAX
        &&& 1 <= self.h <= DIM_MAX
    }
}

/// A rectangle `[x0, x1] x [y0, y1]` (coordinates in micro-units) carved
/// into `dimensions.w * dimensions.h` cells.
#[derive(Clone, Copy, PartialEq, Eq, Structural, Debug)]
pub struct Grid {
    pub x0: i64,
    pub x1: i64,
    pub y0: i64,
    pub y1: i64,
    pub dimensions: Dimensions,
}

impl Grid {
    /// Width of one cell: the horizontal extent divided by the cell count
    /// (truncated when the extent is not an exact multiple).
    pub open spec fn spec_cell_width(self) -> int {
        (self.x1 - self.x0) / (self.dimensions.w as int)
    }

    /// Height of one cell.
    pub open spec fn spec_cell_height(self) -> int {
        (self.y1 - self.y0) / (self.dimensions.h as int)
    }

    /// Well-formed: a non-degenerate rectangle within the coordinate
    /// limits, lattice sizes in range, and cells wider and taller than the
    /// boundary epsilon (otherwise the inverse lookup could not round-trip).
    pub open spec fn wf(self) -> bool {
        &&& -COORD_LIMIT <= self.x0 < self.x1 <= COORD_LIMIT
        &&& -COORD_LIMIT <= self.y0 < self.y1 <= COORD_LIMIT
        &&& self.dimensions.wf()
        &&& self.spec_cell_width() > EPS_INDEX
        &&& self.spec_cell_height() > EPS_INDEX
    }

    /// The extents divide evenly into cells, so every lattice coordinate is
    /// exact. The field sampler and the isoline extractor require this.
    pub open spec fn exact(self) -> bool {
        &&& (self.x1 - self.x0) % (self.dimensions.w as int) == 0
        &&& (self.y1 - self.y0) % (self.dimensions.h as int) == 0
    }

    /// Continuous x-coordinate of lattice column `ix`.
    pub open spec fn spec_point_x(self, ix: int) -> int {
        self.x0 + ix * self.spec_cell_width()
    }

    /// Continuous y-coordinate of lattice row `iy`.
    pub open spec fn spec_point_y(self, iy: int) -> int {
        self.y0 + iy * self.spec_cell_height()
    }

    /// Lattice column containing continuous coordinate `x`: a floor
    /// division after adding the boundary epsilon, so a coordinate lying
    /// exactly on a cell boundary lands in the higher-index cell.
    pub open spec fn spec_inv_x(self, x: int) -> int {
        (x - self.x0 + EPS_INDEX) / self.spec_cell_width()
    }

    /// Lattice row containing continuous coordinate `y`.
    pub open spec fn spec_inv_y(self, y: int) -> int {
        (y - self.y0 + EPS_INDEX) / self.spec_cell_height()
    }
}

/// A lattice point never leaves the rectangle: for `0 <= ix <= w` the
/// x-coordinate of column `ix` lies in `[x0, x1]` (and symmetrically in y).
pub proof fn lemma_point_in_range(g: Grid, ix: int, iy: int)
    requires
        g.wf(),
        0 <= ix <= g.dimensions.w,
        0 <= iy <= g.dimensions.h,
    ensures
        g.x0 <= g.spec_point_x(ix) <= g.x1,
        g.y0 <= g.spec_point_y(iy) <= g.y1,
        0 <= ix * g.spec_cell_width() <= g.x1 - g.x0,
        0 <= iy * g.spec_cell_height() <= g.y1 - g.y0,
{
    let w = g.dimensions.w as int;
    let h = g.dimensions.h as int;
    let cw = g.spec_cell_width();
    let ch = g.spec_cell_height();
    vstd::arithmetic::div_mod::lemma_fundamental_div_mod(g.x1 - g.x0, w);
    vstd::arithmetic::div_mod::lemma_mod_bound(g.x1 - g.x0, w);
    vstd::arithmetic::mul::lemma_mul_inequality(ix, w, cw);
    vstd::arithmetic::mul::lemma_mul_nonnegative(ix, cw);
    assert(w * cw == cw * w) by (nonlinear_arith);
    vstd::arithmetic::div_mod::lemma_fundamental_div_mod(g.y1 - g.y0, h);
    vstd::arithmetic::div_mod::lemma_mod_bound(g.y1 - g.y0, h);
    vstd::arithmetic::mul::lemma_mul_inequality(iy, h, ch);
    vstd::arithmetic::mul::lemma_mul_nonnegative(iy, ch);
    assert(h * ch == ch * h) by (nonlinear_arith);
}

/// Consecutive lattice points are exactly one cell apart.
pub proof fn lemma_point_step(g: Grid, ix: int, iy: int)
    ensures
        g.spec_point_x(ix + 1) == g.spec_point_x(ix) + g.spec_cell_width(),
        g.spec_point_y(iy + 1) == g.spec_point_y(iy) + g.spec_cell_height(),
{
    let cw = g.spec_cell_width();
    let ch = g.spec_cell_height();
    assert((ix + 1) * cw == ix * cw + cw) by (nonlinear_arith);
    assert((iy + 1) * ch == iy * ch + ch) by (nonlinear_arith);
}

/// Mapping a lattice index to its continuous coordinate and back returns
/// the same index: the boundary epsilon is smaller than a cell, so the
/// floor division recovers the index exactly.
pub proof fn lemma_point_index_round_trip(g: Grid, ix: int, iy: int)
    requires
        g.wf(),
        0 <= ix <= g.dimensions.w,
        0 <= iy <= g.dimensions.h,
    ensures
        g.spec_inv_x(g.spec_point_x(ix)) == ix,
        g.spec_inv_y(g.spec_point_y(iy)) == iy,
{
    let cw = g.spec_cell_width();
    let ch = g.spec_cell_height();
    assert(ix * cw == cw * ix) by (nonlinear_arith);
    vstd::arithmetic::div_mod::lemma_div_multiples_vanish_fancy(ix, EPS_INDEX as int, cw);
    assert(iy * ch == ch * iy) by (nonlinear_arith);
    vstd::arithmetic::div_mod::lemma_div_multiples_vanish_fancy(iy, EPS_INDEX as int, ch);
}

/// A rectangle's fields form a well-formed grid with the given lattice
/// size (the same condition as `Grid::wf`, over unbounded integers).
pub open spec fn wf_vals(x0: int, x1: int, y0: int, y1: int, dims: Dimensions) -> bool {
    &&& -COORD_LIMIT <= x0 < x1 <= COORD_LIMIT
    &&& -COORD_LIMIT <= y0 < y1 <= COORD_LIMIT
    &&& dims.wf()
    &&& (x1 - x0) / (dims.w as int) > EPS_INDEX
    &&& (y1 - y0) / (dims.h as int) > EPS_INDEX
}

/// The aspect-ratio fit: when the rectangle is taller (relative to its
/// width) than the window, the horizontal extent is replaced by the
/// symmetric range whose ratio matches the window's; when it is wider, the
/// vertical extent is replaced instead; otherwise the rectangle is kept.
pub open spec fn spec_fit(x0: int, x1: int, y0: int, y1: int, window: Dimensions) -> (
    int,
    int,
    int,
    int,
) {
    let dx = x1 - x0;
    let dy = y1 - y0;
    let ww = window.w as int;
    let wh = window.h as int;
    if dy * ww > wh * dx {
        let xe = (SCALE as int) * wh * dx / (ww * dy);
        (-xe, xe, y0, y1)
    } else if dy * ww < wh * dx {
        let ye = (SCALE as int) * dy * ww / (wh * dx);
        (x0, x1, -ye, ye)
    } else {
        (x0, x1, y0, y1)
    }
}

impl Grid {
    /// Runtime check of the grid invariant.
    pub fn is_wf(&self) -> (b: bool)
        ensures
            b == self.wf(),
    {
        -COORD_LIMIT <= self.x0 && self.x0 < self.x1 && self.x1 <= COORD_LIMIT && -COORD_LIMIT
            <= self.y0 && self.y0 < self.y1 && self.y1 <= COORD_LIMIT && 1 <= self.dimensions.w
            && self.dimensions.w <= DIM_MAX && 1 <= self.dimensions.h && self.dimensions.h
            <= DIM_MAX && (self.x1 - self.x0) / (self.dimensions.w as i64) > EPS_INDEX && (self.y1
            - self.y0) / (self.dimensions.h as i64) > EPS_INDEX
    }

    /// Runtime check that the extents split into exact cells.
    pub fn is_exact(&self) -> (b: bool)
        requires
            self.wf(),
        ensures
            b == self.exact(),
    {
        (self.x1 - self.x0) % (self.dimensions.w as i64) == 0 && (self.y1 - self.y0) % (
        self.dimensions.h as i64) == 0
    }

    /// Builds a grid over the given rectangle, first shrinking one of its
    /// extents so that its aspect ratio matches the window's (the fitted
    /// extent is expressed in screen units, at most one unit half-width).
    /// Returns `None` when the fitted rectangle is too degenerate to form
    /// a well-formed grid (for instance when its cells would be thinner
    /// than the boundary epsilon).
    pub fn new(
        x0: i64,
        x1: i64,
        y0: i64,
        y1: i64,
        dimensions: Dimensions,
        window: Dimensions,
    ) -> (r: Option<Grid>)
        requires
            -COORD_LIMIT <= x0 < x1 <= COORD_LIMIT,
            -COORD_LIMIT <= y0 < y1 <= COORD_LIMIT,
            dimensions.wf(),
            1 <= window.w <= WINDOW_MAX,
            1 <= window.h <= WINDOW_MAX,
        ensures
            ({
                let (fx0, fx1, fy0, fy1) = spec_fit(x0 as int, x1 as int, y0 as int, y1 as int, window);
                match r {
                    Some(g) => {
                        &&& g.x0 == fx0
                        &&& g.x1 == fx1
                        &&& g.y0 == fy0
                        &&& g.y1 == fy1
                        &&& g.dimensions == dimensions
                        &&& g.wf()
                    },
                    None => !wf_vals(fx0, fx1, fy0, fy1, dimensions),
                }
            }),
    {
        let dx = x1 - x0;
        let dy = y1 - y0;
        let ww = window.w as i64;
        let wh = window.h as i64;
        let candidate: Grid;
        proof {
            assert(0 < (dy as int) * (ww as int) <= 20_000_000_000_000 && 0 < (wh as int) * (
            dx as int) <= 20_000_000_000_000) by (nonlinear_arith)
                requires
                    0 < dy <= 200_000_000,
                    1 <= ww <= 100_000,
                    0 < dx <= 200_000_000,
                    1 <= wh <= 100_000,
            ;
        }
        if dy * ww > wh * dx {
            proof {
                assert(0 <= ((SCALE as int) * (wh as int)) * (dx as int)
                    <= 20_000_000_000_000_000_000) by (nonlinear_arith)
                    requires
                        1 <= wh <= 100_000,
                        0 < dx <= 200_000_000,
                        SCALE == 1_000_000,
                ;
                assert(1 <= (ww as int) * (dy as int) <= 20_000_000_000_000) by (nonlinear_arith)
                    requires
                        1 <= ww <= 100_000,
                        0 < dy <= 200_000_000,
                ;
            }
            let num: i128 = (SCALE as i128) * (wh as i128) * (dx as i128);
            let den: i128 = (ww as i128) * (dy as i128);
            proof {
                assert((num as int) < (den as int) * (SCALE as int)) by (nonlinear_arith)
                    requires
                        (dy as int) * (ww as int) > (wh as int) * (dx as int),
                        num as int == (SCALE as int) * (wh as int) * (dx as int),
                        den as int == (ww as int) * (dy as int),
                        SCALE == 1_000_000,
                        dx > 0,
                        wh > 0,
                ;
                vstd::arithmetic::div_mod::lemma_multiply_divide_lt(
                    num as int,
                    den as int,
                    SCALE as int,
                );
                vstd::arithmetic::div_mod::lemma_div_pos_is_pos(num as int, den as int);
            }
            let xe: i64 = (num / den) as i64;
            candidate = Grid { x0: -xe, x1: xe, y0, y1, dimensions };
        } else if dy * ww < wh * dx {
            proof {
                assert(0 <= ((SCALE as int) * (dy as int)) * (ww as int)
                    <= 20_000_000_000_000_000_000) by (nonlinear_arith)
                    requires
                        1 <= ww <= 100_000,
                        0 < dy <= 200_000_000,
                        SCALE == 1_000_000,
                ;
                assert(1 <= (wh as int) * (dx as int) <= 20_000_000_000_000) by (nonlinear_arith)
                    requires
                        1 <= wh <= 100_000,
                        0 < dx <= 200_000_000,
                ;
            }
            let num: i128 = (SCALE as i128) * (dy as i128) * (ww as i128);
            let den: i128 = (wh as i128) * (dx as i128);
            proof {
                assert((num as int) < (den as int) * (SCALE as int)) by (nonlinear_arith)
                    requires
                        (dy as int) * (ww as int) < (wh as int) * (dx as int),
                        num as int == (SCALE as int) * (dy as int) * (ww as int),
                        den as int == (wh as int) * (dx as int),
                        SCALE == 1_000_000,
                        dy > 0,
                        ww > 0,
                ;
                vstd::arithmetic::div_mod::lemma_multiply_divide_lt(
                    num as int,
                    den as int,
                    SCALE as int,
                );
                vstd::arithmetic::div_mod::lemma_div_pos_is_pos(num as int, den as int);
            }
            let ye: i64 = (num / den) as i64;
            candidate = Grid { x0, x1, y0: -ye, y1: ye, dimensions };
        } else {
            candidate = Grid { x0, x1, y0, y1, dimensions };
        }
        if candidate.is_wf() {
            Some(candidate)
        } else {
            None
        }
    }

    /// Derived width of one cell; never stored.
    pub fn get_cell_width(&self) -> (r: i64)
        requires
            self.wf(),
        ensures
            r == self.spec_cell_width(),
            EPS_INDEX < r <= self.x1 - self.x0,
    {
        proof {
            vstd::arithmetic::div_mod::lemma_div_nonincreasing(
                self.x1 - self.x0,
                self.dimensions.w as int,
            );
        }
        (self.x1 - self.x0) / (self.dimensions.w as i64)
    }

    /// Derived height of one cell; never stored.
    pub fn get_cell_height(&self) -> (r: i64)
        requires
            self.wf(),
        ensures
            r == self.spec_cell_height(),
            EPS_INDEX < r <= self.y1 - self.y0,
    {
        proof {
            vstd::arithmetic::div_mod::lemma_div_nonincreasing(
                self.y1 - self.y0,
                self.dimensions.h as int,
            );
        }
        (self.y1 - self.y0) / (self.dimensions.h as i64)
    }

    /// Continuous coordinates of lattice point `(x, y)`. In node-inclusive
    /// terms the valid range is `0..=w` by `0..=h`; no clamping is done.
    pub fn get_point(&self, x: i32, y: i32) -> (r: (i64, i64))
        requires
            self.wf(),
            0 <= x <= self.dimensions.w,
            0 <= y <= self.dimensions.h,
        ensures
            r.0 == self.spec_point_x(x as int),
            r.1 == self.spec_point_y(y as int),
            self.x0 <= r.0 <= self.x1,
            self.y0 <= r.1 <= self.y1,
    {
        proof {
            lemma_point_in_range(*self, x as int, y as int);
        }
        let cw = self.get_cell_width();
        let ch = self.get_cell_height();
        (self.x0 + (x as i64) * cw, self.y0 + (y as i64) * ch)
    }

    /// Lattice indices of the cell containing the continuous point
    /// `(x, y)`, with a coordinate exactly on a boundary pushed into the
    /// higher-index cell by the epsilon.
    pub fn get_point_rev(&self, x: i64, y: i64) -> (r: (i32, i32))
        requires
            self.wf(),
            self.x0 <= x <= self.x1,
            self.y0 <= y <= self.y1,
        ensures
            r.0 == self.spec_inv_x(x as int),
            r.1 == self.spec_inv_y(y as int),
            0 <= r.0,
            0 <= r.1,
    {
        let cw = self.get_cell_width();
        let ch = self.get_cell_height();
        proof {
            let num_x = x - self.x0 + EPS_INDEX;
            let num_y = y - self.y0 + EPS_INDEX;
            let bound = 2 * COORD_LIMIT + EPS_INDEX;
            vstd::arithmetic::div_mod::lemma_div_pos_is_pos(num_x as int, cw as int);
            vstd::arithmetic::div_mod::lemma_div_is_ordered(num_x as int, bound as int, cw as int);
            vstd::arithmetic::div_mod::lemma_div_is_ordered_by_denominator(
                bound as int,
                (EPS_INDEX + 1) as int,
                cw as int,
            );
            vstd::arithmetic::div_mod::lemma_div_pos_is_pos(num_y as int, ch as int);
            vstd::arithmetic::div_mod::lemma_div_is_ordered(num_y as int, bound as int, ch as int);
            vstd::arithmetic::div_mod::lemma_div_is_ordered_by_denominator(
                bound as int,
                (EPS_INDEX + 1) as int,
                ch as int,
            );
        }
        (((x - self.x0 + EPS_INDEX) / cw) as i32, ((y - self.y0 + EPS_INDEX) / ch) as i32)
    }

    /// The x-coordinates of all `w + 1` vertical lattice lines, ascending.
    pub fn verticals(&self) -> (r: Vec<i64>)
        requires
            self.wf(),
        ensures
            r@.len() == self.dimensions.w + 1,
            forall|i: int| 0 <= i < r@.len() ==> r@[i] == self.spec_point_x(i),
    {
        let mut out: Vec<i64> = Vec::new();
        let cw = self.get_cell_width();
        let w = self.dimensions.w;
        let mut i: i32 = 0;
        while i <= w
            invariant
                self.wf(),
                cw == self.spec_cell_width(),
                w == self.dimensions.w,
                0 <= i <= w + 1,
                out@.len() == i,
                forall|j: int| 0 <= j < i ==> out@[j] == self.spec_point_x(j),
            decreases w + 1 - i,
        {
            proof {
                lemma_point_in_range(*self, i as int, 0);
            }
            out.push(self.x0 + (i as i64) * cw);
            i = i + 1;
        }
        out
    }

    /// A restartable row-major walk over the lattice's sample points:
    /// cell-interior mode visits the `w * h` lower-left cell corners,
    /// node-inclusive mode (`extra_bound`) all `(w + 1) * (h + 1)` nodes.
    pub fn iterator(&self, extra_bound: bool) -> (it: GridIterator)
        requires
            self.wf(),
        ensures
            it.wf(),
            it.grid == *self,
            it.extra_bound == extra_bound,
            it.idx == 0,
    {
        GridIterator { idx: 0, grid: *self, extra_bound }
    }

    /// The y-coordinates of all `h + 1` horizontal lattice lines, ascending.
    pub fn horizontals(&self) -> (r: Vec<i64>)
        requires
            self.wf(),
        ensures
            r@.len() == self.dimensions.h + 1,
            forall|i: int| 0 <= i < r@.len() ==> r@[i] == self.spec_point_y(i),
    {
        let mut out: Vec<i64> = Vec::new();
        let ch = self.get_cell_height();
        let h = self.dimensions.h;
        let mut i: i32 = 0;
        while i <= h
            invariant
                self.wf(),
                ch == self.spec_cell_height(),
                h == self.dimensions.h,
                0 <= i <= h + 1,
                out@.len() == i,
                forall|j: int| 0 <= j < i ==> out@[j] == self.spec_point_y(j),
            decreases h + 1 - i,
        {
            proof {
                lemma_point_in_range(*self, 0, i as int);
            }
            out.push(self.y0 + (i as i64) * ch);
            i = i + 1;
        }
        out
    }
}


/// A position in the row-major walk over a grid's sample points. The walk
/// is ordered with the outer loop over x and the inner loop over y.
pub struct GridIterator {
    pub idx: i32,
    pub grid: Grid,
    pub extra_bound: bool,
}

impl GridIterator {
    /// Number of points in the inner (y) loop.
    pub open spec fn rows(self) -> int {
        if self.extra_bound {
            self.grid.dimensions.h + 1
        } else {
            self.grid.dimensions.h as int
        }
    }

    /// Total number of points the walk yields.
    pub open spec fn count(self) -> int {
        if self.extra_bound {
            (self.grid.dimensions.w + 1) * (self.grid.dimensions.h + 1)
        } else {
            (self.grid.dimensions.w as int) * (self.grid.dimensions.h as int)
        }
    }

    /// The walk is over a well-formed grid and has not run past its end.
    pub open spec fn wf(self) -> bool {
        &&& self.grid.wf()
        &&& 0 <= self.idx <= self.count()
    }

    /// The lattice column and row visited at walk position `t`.
    pub open spec fn spec_cell_at(self, t: int) -> (int, int) {
        (t / self.rows(), t % self.rows())
    }

    /// Yields the next sample point, or `None` once all points are spent.
    pub fn next(&mut self) -> (r: Option<(i64, i64)>)
        requires
            old(self).wf(),
        ensures
            final(self).wf(),
            final(self).grid == old(self).grid,
            final(self).extra_bound == old(self).extra_bound,
            old(self).idx < old(self).count() ==> {
                let (cx, cy) = old(self).spec_cell_at(old(self).idx as int);
                &&& final(self).idx == old(self).idx + 1
                &&& r matches Some(p) && p.0 == old(self).grid.spec_point_x(cx) && p.1
                    == old(self).grid.spec_point_y(cy)
            },
            old(self).idx >= old(self).count() ==> r is None && final(self).idx == old(self).idx,
    {
        let t = self.idx;
        let w = self.grid.dimensions.w;
        let h = self.grid.dimensions.h;
        proof {
            assert((w + 1) * (h + 1) <= 0x4000_0000 && (w as int) * (h as int) <= 0x4000_0000
                && (w as int) * (h as int) >= 1) by (nonlinear_arith)
                requires
                    1 <= w <= 16_384,
                    1 <= h <= 16_384,
            ;
        }
        if !self.extra_bound {
            if t == w * h {
                return None;
            }
            proof {
                vstd::arithmetic::div_mod::lemma_div_pos_is_pos(t as int, h as int);
                assert((w as int) * (h as int) == (h as int) * (w as int)) by (nonlinear_arith);
                vstd::arithmetic::div_mod::lemma_multiply_divide_lt(t as int, h as int, w as int);
                vstd::arithmetic::div_mod::lemma_mod_bound(t as int, h as int);
            }
            let x = t / h;
            let y = t % h;
            self.idx = t + 1;
            Some(self.grid.get_point(x, y))
        } else {
            if t == (w + 1) * (h + 1) {
                return None;
            }
            proof {
                vstd::arithmetic::div_mod::lemma_div_pos_is_pos(t as int, (h + 1) as int);
                assert(((w + 1) as int) * ((h + 1) as int) == ((h + 1) as int) * ((w + 1) as int))
                    by (nonlinear_arith);
                vstd::arithmetic::div_mod::lemma_multiply_divide_lt(
                    t as int,
                    (h + 1) as int,
                    (w + 1) as int,
                );
                vstd::arithmetic::div_mod::lemma_mod_bound(t as int, (h + 1) as int);
            }
            let x = t / (h + 1);
            let y = t % (h + 1);
            self.idx = t + 1;
            Some(self.grid.get_point(x, y))
        }
    }
}

} // verus!
