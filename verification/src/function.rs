//! The procedural scalar field: a lattice of rotating unit gradient
//! vectors, evaluated at arbitrary continuous points by smooth (C1)
//! interpolation of corner influences. All arithmetic is fixed-point over
//! micro-units; the sine is a rational approximation evaluated exactly in
//! integers.

use vstd::prelude::*;
use crate::fixed::{
    tdiv, tdiv_spec, FIELD_GAIN, FIELD_LIMIT, HALF_PI_FX, INTERP_LIMIT, PI_FX, SCALE,
    SIN_LIMIT, SPEED_LIMIT, TWO_PI_FX,
};
use crate::grid::{Dimensions, Grid};

verus! {

/// Rational approximation of the sine on `[0, pi]`, in micro-units: the
/// exact integer evaluation of `16 x (pi - x) / (5 pi^2 - 4 x (pi - x))`,
/// with both long products shortened by a factor 1000 to stay in range.
pub open spec fn sin_half_spec(x: int) -> int {
    let u = x * ((PI_FX as int) - x);
    let den = (5 * (PI_FX as int) * (PI_FX as int) - 4 * u) / 1000;
    16 * (u / 1000) * (SCALE as int) / den
}

/// The sine approximation over a full turn `[0, 2 pi)`: odd reflection of
/// the half-turn approximation.
pub open spec fn sin_spec(x: int) -> int {
    if x <= PI_FX as int {
        sin_half_spec(x)
    } else {
        -sin_half_spec(x - (PI_FX as int))
    }
}

/// The cosine as the sine shifted a quarter turn, wrapped back into the
/// turn.
pub open spec fn cos_spec(x: int) -> int {
    if x + (HALF_PI_FX as int) < TWO_PI_FX as int {
        sin_spec(x + (HALF_PI_FX as int))
    } else {
        sin_spec(x + (HALF_PI_FX as int) - (TWO_PI_FX as int))
    }
}

/// On the half turn the product `x (pi - x)` is nonnegative and at most a
/// quarter of `pi^2`.
proof fn lemma_quarter_square(x: int)
    requires
        0 <= x <= PI_FX as int,
    ensures
        0 <= x * ((PI_FX as int) - x),
        4 * (x * ((PI_FX as int) - x)) <= (PI_FX as int) * (PI_FX as int),
{
    assert(0 <= x * ((PI_FX as int) - x) && 4 * (x * ((PI_FX as int) - x)) <= (PI_FX as int) * (
    PI_FX as int)) by (nonlinear_arith)
        requires
            0 <= x <= PI_FX as int,
    ;
}

/// Sine on `[0, pi]`, nonnegative and bounded by `SIN_LIMIT`.
fn sin_half(x: i64) -> (r: i64)
    requires
        0 <= x <= PI_FX,
    ensures
        r == sin_half_spec(x as int),
        0 <= r <= SIN_LIMIT,
{
    proof {
        lemma_quarter_square(x as int);
    }
    let u: i64 = x * (PI_FX - x);
    let den: i64 = (5 * PI_FX * PI_FX - 4 * u) / 1000;
    let uk: i64 = u / 1000;
    let num: i64 = 16 * uk * SCALE;
    proof {
        let ui = u as int;
        let di = 5 * (PI_FX as int) * (PI_FX as int) - 4 * ui;
        vstd::arithmetic::div_mod::lemma_fundamental_div_mod(ui, 1000);
        vstd::arithmetic::div_mod::lemma_mod_bound(ui, 1000);
        vstd::arithmetic::div_mod::lemma_fundamental_div_mod(di, 1000);
        vstd::arithmetic::div_mod::lemma_mod_bound(di, 1000);
        vstd::arithmetic::div_mod::lemma_div_pos_is_pos(ui, 1000);
        vstd::arithmetic::div_mod::lemma_div_pos_is_pos(di, 1000);
        assert(num <= (den as int) * (SIN_LIMIT as int));
        vstd::arithmetic::div_mod::lemma_multiply_divide_le(
            num as int,
            den as int,
            SIN_LIMIT as int,
        );
        vstd::arithmetic::div_mod::lemma_div_pos_is_pos(num as int, den as int);
    }
    num / den
}

/// Fixed-point sine of an angle within one turn.
pub fn sin_fx(x: i64) -> (r: i64)
    requires
        0 <= x < TWO_PI_FX,
    ensures
        r == sin_spec(x as int),
        -SIN_LIMIT <= r <= SIN_LIMIT,
{
    if x <= PI_FX {
        sin_half(x)
    } else {
        -sin_half(x - PI_FX)
    }
}

/// Fixed-point cosine of an angle within one turn.
pub fn cos_fx(x: i64) -> (r: i64)
    requires
        0 <= x < TWO_PI_FX,
    ensures
        r == cos_spec(x as int),
        -SIN_LIMIT <= r <= SIN_LIMIT,
{
    let s = x + HALF_PI_FX;
    if s < TWO_PI_FX {
        sin_fx(s)
    } else {
        sin_fx(s - TWO_PI_FX)
    }
}


/// The cubic Hermite blend factor `3 t^2 - 2 t^3`, computed in fixed point
/// (inputs and outputs scaled by `SCALE`).
pub open spec fn smoothstep_spec(t: int) -> int {
    let t2 = t * t / (SCALE as int);
    let t3 = t2 * t / (SCALE as int);
    3 * t2 - 2 * t3
}

/// Smooth interpolation from `a` (at `t = 0`) to `b` (at `t = SCALE`):
/// `(b - a) * (3 t^2 - 2 t^3) + a`, with the scale divided away by a
/// truncation toward zero.
pub open spec fn interp_spec(a: int, b: int, t: int) -> int {
    a + tdiv_spec((b - a) * smoothstep_spec(t), SCALE as int)
}

/// The blend factor stays within `[0, 3 * SCALE]` on the unit interval.
pub proof fn lemma_smoothstep_bound(t: int)
    requires
        0 <= t <= SCALE as int,
    ensures
        0 <= smoothstep_spec(t) <= 3 * (SCALE as int),
{
    let sc = SCALE as int;
    let t2 = t * t / sc;
    let t3 = t2 * t / sc;
    assert(0 <= t * t && t * t <= sc * sc) by (nonlinear_arith)
        requires
            0 <= t <= sc,
    ;
    vstd::arithmetic::div_mod::lemma_div_pos_is_pos(t * t, sc);
    vstd::arithmetic::div_mod::lemma_multiply_divide_le(t * t, sc, sc);
    assert(0 <= t2 * t && t2 * t <= sc * t2) by (nonlinear_arith)
        requires
            0 <= t <= sc,
            0 <= t2,
    ;
    vstd::arithmetic::div_mod::lemma_div_pos_is_pos(t2 * t, sc);
    vstd::arithmetic::div_mod::lemma_multiply_divide_le(t2 * t, sc, t2);
}

/// The blend hits its endpoints exactly: at `t = 0` it returns `a`, at
/// `t = SCALE` it returns `b`. This is the ingredient that makes the
/// interpolated field agree at shared lattice lines, so adjacent noise
/// cells join without a jump.
pub proof fn lemma_blend_endpoints(a: int, b: int)
    ensures
        interp_spec(a, b, 0) == a,
        interp_spec(a, b, SCALE as int) == b,
{
    let sc = SCALE as int;
    vstd::arithmetic::div_mod::lemma_div_basics(sc);
    assert(smoothstep_spec(0) == 0);
    vstd::arithmetic::div_mod::lemma_div_by_multiple(sc, sc);
    assert(smoothstep_spec(sc) == sc);
    crate::fixed::lemma_tdiv_exact(b - a, sc);
    assert((b - a) * sc == (b - a) * smoothstep_spec(sc)) by (nonlinear_arith)
        requires
            smoothstep_spec(sc) == sc,
    ;
    vstd::arithmetic::mul::lemma_mul_by_zero_is_zero(b - a);
}

/// An interpolation between values of magnitude at most `m` has magnitude
/// at most `7 m` (the blend factor's fixed-point overshoot is below 3).
pub proof fn lemma_interp_bound(a: int, b: int, t: int, m: int)
    requires
        0 <= t <= SCALE as int,
        0 <= m,
        -m <= a <= m,
        -m <= b <= m,
    ensures
        -7 * m <= interp_spec(a, b, t) <= 7 * m,
{
    let sc = SCALE as int;
    let s = smoothstep_spec(t);
    lemma_smoothstep_bound(t);
    assert(-((6 * m) * sc) <= (b - a) * s <= (6 * m) * sc) by (nonlinear_arith)
        requires
            0 <= s <= 3 * sc,
            -2 * m <= b - a <= 2 * m,
            0 <= m,
            sc > 0,
    ;
    crate::fixed::lemma_tdiv_ratio_bound((b - a) * s, sc, 6 * m);
}

/// Executable smooth interpolation; see `interp_spec`.
pub fn interpolate(a: i64, b: i64, t: i64) -> (r: i64)
    requires
        0 <= t <= SCALE,
        -INTERP_LIMIT <= a <= INTERP_LIMIT,
        -INTERP_LIMIT <= b <= INTERP_LIMIT,
    ensures
        r == interp_spec(a as int, b as int, t as int),
        t == 0 ==> r == a,
        t == SCALE ==> r == b,
{
    proof {
        assert(0 <= (t as int) * (t as int) <= (SCALE as int) * (SCALE as int))
            by (nonlinear_arith)
            requires
                0 <= t <= SCALE as int,
        ;
    }
    let t2: i64 = t * t / SCALE;
    proof {
        vstd::arithmetic::div_mod::lemma_div_pos_is_pos((t * t) as int, SCALE as int);
        vstd::arithmetic::div_mod::lemma_multiply_divide_le(
            (t * t) as int,
            SCALE as int,
            SCALE as int,
        );
        assert(0 <= (t2 as int) * (t as int) <= (SCALE as int) * (t2 as int))
            by (nonlinear_arith)
            requires
                0 <= t <= SCALE as int,
                0 <= t2 <= SCALE as int,
        ;
    }
    let t3: i64 = t2 * t / SCALE;
    proof {
        vstd::arithmetic::div_mod::lemma_div_pos_is_pos((t2 * t) as int, SCALE as int);
        vstd::arithmetic::div_mod::lemma_multiply_divide_le(
            (t2 * t) as int,
            SCALE as int,
            t2 as int,
        );
    }
    let s: i64 = 3 * t2 - 2 * t3;
    let d: i64 = b - a;
    proof {
        assert(-(6_000_000_000_000 * (SCALE as int)) <= (d as int) * (s as int) <= 
            6_000_000_000_000 * (SCALE as int)) by (nonlinear_arith)
            requires
                -2_000_000_000_000 <= d <= 2_000_000_000_000,
                0 <= s <= 3 * (SCALE as int),
                SCALE == 1_000_000,
        ;
        crate::fixed::lemma_tdiv_ratio_bound((d as int) * (s as int), SCALE as int, 6_000_000_000_000);
        if t == 0 {
            vstd::arithmetic::div_mod::lemma_div_basics(SCALE as int);
            vstd::arithmetic::mul::lemma_mul_by_zero_is_zero(d as int);
        }
        if t == SCALE {
            vstd::arithmetic::div_mod::lemma_div_by_multiple(SCALE as int, SCALE as int);
            assert(s == SCALE);
            crate::fixed::lemma_tdiv_exact(d as int, SCALE as int);
            assert((d as int) * (SCALE as int) == (SCALE as int) * (d as int))
                by (nonlinear_arith);
        }
    }
    a + tdiv(d * s, SCALE)
}


/// One lattice node: a gradient direction (in micro-radians) that advances
/// by a fixed speed every tick.
#[derive(Clone, Copy)]
struct RotatingVector {
    angle: i64,
    rotation_speed: i64,
}

/// Relies on rand::random: draws one machine word from the thread-local
/// generator. Nothing is promised of the value.
#[verifier::external_body]
fn random_u64() -> u64 {
    rand::random::<u64>()
}

/// A procedural gradient-noise field: one rotating unit gradient vector per
/// node of a `(w + 1) x (h + 1)` lattice, indexed row-major by
/// `x * h + y`.
pub struct PerlinNoise {
    vectors: Vec<RotatingVector>,
    dimensions: Dimensions,
}

impl PerlinNoise {
    /// The noise lattice's cell counts.
    pub closed spec fn spec_dimensions(self) -> Dimensions {
        self.dimensions
    }

    /// Number of lattice nodes.
    pub closed spec fn node_count(self) -> int {
        self.vectors@.len() as int
    }

    /// Gradient angle of node `i`, in micro-radians.
    pub closed spec fn angle_at(self, i: int) -> int {
        self.vectors@[i].angle as int
    }

    /// Rotation speed of node `i`, in micro-radians per tick.
    pub closed spec fn speed_at(self, i: int) -> int {
        self.vectors@[i].rotation_speed as int
    }

    /// Well-formed: the node count matches the lattice size, every angle
    /// lies within one turn and every speed within the speed limit.
    pub closed spec fn wf(self) -> bool {
        &&& self.dimensions.wf()
        &&& self.vectors@.len() == (self.dimensions.w + 1) * (self.dimensions.h + 1)
        &&& forall|i: int|
            0 <= i < self.vectors@.len() ==> 0 <= #[trigger] self.vectors@[i].angle < TWO_PI_FX
        &&& forall|i: int|
            0 <= i < self.vectors@.len() ==> 0 <= #[trigger] self.vectors@[i].rotation_speed
                < SPEED_LIMIT
    }

    /// The sampling grid's cell counts are exact multiples of the noise
    /// lattice's, so noise cells align with whole sampling cells.
    pub closed spec fn compatible(self, g: Grid) -> bool {
        &&& (g.dimensions.w as int) % (self.dimensions.w as int) == 0
        &&& (g.dimensions.h as int) % (self.dimensions.h as int) == 0
        &&& self.dimensions.w <= g.dimensions.w
        &&& self.dimensions.h <= g.dimensions.h
    }

    /// Runtime check of `compatible`.
    pub fn is_compatible(&self, g: &Grid) -> (b: bool)
        requires
            self.wf(),
            g.dimensions.wf(),
        ensures
            b == self.compatible(*g),
    {
        g.dimensions.w % self.dimensions.w == 0 && g.dimensions.h % self.dimensions.h == 0
            && self.dimensions.w <= g.dimensions.w && self.dimensions.h <= g.dimensions.h
    }

    /// Width of one noise-lattice cell, in the grid's coordinate system.
    pub closed spec fn noise_cell_w(self, g: Grid) -> int {
        (g.x1 - g.x0) / (self.dimensions.w as int)
    }

    /// Height of one noise-lattice cell.
    pub closed spec fn noise_cell_h(self, g: Grid) -> int {
        (g.y1 - g.y0) / (self.dimensions.h as int)
    }

    /// Influence of noise-lattice corner `(cx, cy)` on the point `(x, y)`:
    /// the dot product of the displacement from the corner with the
    /// corner's gradient direction scaled by half a noise cell.
    pub closed spec fn influence(self, g: Grid, x: int, y: int, cx: int, cy: int) -> int {
        let ncw = self.noise_cell_w(g);
        let nch = self.noise_cell_h(g);
        let px = g.x0 + cx * ncw;
        let py = g.y0 + cy * nch;
        let a = self.angle_at(cx * (self.dimensions.h as int) + cy);
        let qx = tdiv_spec(cos_spec(a) * ncw, 2 * (SCALE as int));
        let qy = tdiv_spec(sin_spec(a) * nch, 2 * (SCALE as int));
        tdiv_spec((x - px) * qx, SCALE as int) + tdiv_spec((y - py) * qy, SCALE as int)
    }

    /// The field value at `(x, y)` as blended inside noise cell
    /// `(xl, yl)`: the smoothstep-weighted mix of the four corner
    /// influences, scaled by the gain.
    pub closed spec fn eval_at_cell(self, g: Grid, x: int, y: int, xl: int, yl: int) -> int {
        let ncw = self.noise_cell_w(g);
        let nch = self.noise_cell_h(g);
        let d0 = self.influence(g, x, y, xl, yl);
        let d1 = self.influence(g, x, y, xl + 1, yl);
        let d2 = self.influence(g, x, y, xl, yl + 1);
        let d3 = self.influence(g, x, y, xl + 1, yl + 1);
        let tx = (x - (g.x0 + xl * ncw)) * (SCALE as int) / ncw;
        let ty = (y - (g.y0 + yl * nch)) * (SCALE as int) / nch;
        (FIELD_GAIN as int) * interp_spec(interp_spec(d0, d1, tx), interp_spec(d2, d3, tx), ty)
    }

    /// The noise cell containing `(x, y)`, clamped to the lattice.
    pub closed spec fn cell_of(self, g: Grid, x: int, y: int) -> (int, int) {
        let ncw = self.noise_cell_w(g);
        let nch = self.noise_cell_h(g);
        let nw = self.dimensions.w as int;
        let nh = self.dimensions.h as int;
        let xr = (x - g.x0) / ncw;
        let yr = (y - g.y0) / nch;
        let xl = if xr > nw - 1 { nw - 1 } else { xr };
        let yl = if yr > nh - 1 { nh - 1 } else { yr };
        (xl, yl)
    }

    /// The field value at `(x, y)`: locate the noise cell containing the
    /// point (clamped to the lattice), blend the four corner influences
    /// with the smoothstep weights of the point's position inside the
    /// cell, and scale by the gain.
    pub closed spec fn eval_spec(self, g: Grid, x: int, y: int) -> int {
        let (xl, yl) = self.cell_of(g, x, y);
        self.eval_at_cell(g, x, y, xl, yl)
    }

    /// Allocates one gradient vector per lattice node, each with a random
    /// initial angle within one turn and a random rotation speed below the
    /// speed limit. The draws come from the thread-local generator, so
    /// reproducibility across runs is not promised.
    pub fn new(dimensions: Dimensions) -> (r: PerlinNoise)
        requires
            dimensions.wf(),
        ensures
            r.wf(),
            r.spec_dimensions() == dimensions,
    {
        proof {
            assert((dimensions.w + 1) * (dimensions.h + 1) <= 0x4000_0000) by (nonlinear_arith)
                requires
                    1 <= dimensions.w <= 16_384,
                    1 <= dimensions.h <= 16_384,
            ;
        }
        let count: i32 = (dimensions.w + 1) * (dimensions.h + 1);
        let mut vectors: Vec<RotatingVector> = Vec::new();
        let mut i: i32 = 0;
        while i < count
            invariant
                0 <= i <= count,
                vectors@.len() == i,
                forall|j: int|
                    0 <= j < i ==> 0 <= #[trigger] vectors@[j].angle < TWO_PI_FX,
                forall|j: int|
                    0 <= j < i ==> 0 <= #[trigger] vectors@[j].rotation_speed < SPEED_LIMIT,
            decreases count - i,
        {
            let angle = (random_u64() % (TWO_PI_FX as u64)) as i64;
            let speed = (random_u64() % (SPEED_LIMIT as u64)) as i64;
            vectors.push(RotatingVector { angle, rotation_speed: speed });
            i = i + 1;
        }
        PerlinNoise { vectors, dimensions }
    }

    /// One simulation tick: every node's angle advances by its rotation
    /// speed. The stored angle is kept within one turn by reducing modulo
    /// 2 pi; the gradient direction only ever feeds the periodic sine and
    /// cosine, so the reduction does not change the field.
    pub fn update(&mut self)
        requires
            old(self).wf(),
        ensures
            final(self).wf(),
            final(self).spec_dimensions() == old(self).spec_dimensions(),
            final(self).node_count() == old(self).node_count(),
            forall|i: int|
                0 <= i < old(self).node_count() ==> final(self).angle_at(i) == (old(self).angle_at(
                    i,
                ) + old(self).speed_at(i)) % (TWO_PI_FX as int),
            forall|i: int|
                0 <= i < old(self).node_count() ==> final(self).speed_at(i) == old(self).speed_at(
                    i,
                ),
    {
        let n = self.vectors.len();
        let mut i: usize = 0;
        while i < n
            invariant
                old(self).wf(),
                self.dimensions == old(self).dimensions,
                self.vectors@.len() == n,
                n == old(self).vectors@.len(),
                0 <= i <= n,
                forall|j: int| i <= j < n ==> self.vectors@[j] == old(self).vectors@[j],
                forall|j: int|
                    0 <= j < i ==> #[trigger] self.vectors@[j].angle == (old(self).vectors@[j].angle
                        + old(self).vectors@[j].rotation_speed) % (TWO_PI_FX as int),
                forall|j: int|
                    0 <= j < i ==> #[trigger] self.vectors@[j].rotation_speed == old(
                        self,
                    ).vectors@[j].rotation_speed,
                forall|j: int| 0 <= j < i ==> 0 <= #[trigger] self.vectors@[j].angle < TWO_PI_FX,
            decreases n - i,
        {
            let v = self.vectors[i];
            let na = (v.angle + v.rotation_speed) % TWO_PI_FX;
            self.vectors[i] = RotatingVector { angle: na, rotation_speed: v.rotation_speed };
            i = i + 1;
        }
    }

    /// Row-major index of lattice node `(x, y)` into the vector array.
    fn map_idx(&self, x: i32, y: i32) -> (r: i32)
        requires
            self.wf(),
            0 <= x <= self.spec_dimensions().w,
            0 <= y <= self.spec_dimensions().h,
        ensures
            r == x * self.spec_dimensions().h + y,
            0 <= r < self.node_count(),
    {
        proof {
            let w = self.dimensions.w as int;
            let h = self.dimensions.h as int;
            assert(0 <= (x as int) * h + y && (x as int) * h + y < (w + 1) * (h + 1) && (
            x as int) * h + y < 0x4000_0000) by (nonlinear_arith)
                requires
                    0 <= x <= w,
                    0 <= y <= h,
                    1 <= h <= 16_384,
                    1 <= w <= 16_384,
            ;
        }
        x * self.dimensions.h + y
    }

    /// Influence of one noise-lattice corner on the query point; see
    /// `influence`.
    fn influence_at(&self, grid: &Grid, x: i64, y: i64, cx: i32, cy: i32) -> (r: i64)
        requires
            self.wf(),
            grid.wf(),
            0 <= cx <= self.spec_dimensions().w,
            0 <= cy <= self.spec_dimensions().h,
            grid.x0 <= x <= grid.x1,
            grid.y0 <= y <= grid.y1,
            (self.spec_dimensions().w as int) * self.noise_cell_w(*grid) == grid.x1 - grid.x0,
            (self.spec_dimensions().h as int) * self.noise_cell_h(*grid) == grid.y1 - grid.y0,
            self.noise_cell_w(*grid) > 0,
            self.noise_cell_h(*grid) > 0,
        ensures
            r == self.influence(*grid, x as int, y as int, cx as int, cy as int),
            -50_000_000_000 <= r <= 50_000_000_000,
    {
        let ncw = (grid.x1 - grid.x0) / (self.dimensions.w as i64);
        let nch = (grid.y1 - grid.y0) / (self.dimensions.h as i64);
        proof {
            vstd::arithmetic::mul::lemma_mul_inequality(cx as int, self.dimensions.w as int, ncw as int);
            vstd::arithmetic::mul::lemma_mul_nonnegative(cx as int, ncw as int);
            vstd::arithmetic::mul::lemma_mul_inequality(cy as int, self.dimensions.h as int, nch as int);
            vstd::arithmetic::mul::lemma_mul_nonnegative(cy as int, nch as int);
        }
        let px = grid.x0 + (cx as i64) * ncw;
        let py = grid.y0 + (cy as i64) * nch;
        let idx = self.map_idx(cx, cy);
        let a = self.vectors[idx as usize].angle;
        let c = cos_fx(a);
        let s = sin_fx(a);
        proof {
            assert(-220_000_000_000_000 <= (c as int) * (ncw as int) <= 220_000_000_000_000
                && -220_000_000_000_000 <= (s as int) * (nch as int) <= 220_000_000_000_000)
                by (nonlinear_arith)
                requires
                    -1_100_000 <= c <= 1_100_000,
                    -1_100_000 <= s <= 1_100_000,
                    0 < ncw <= 200_000_000,
                    0 < nch <= 200_000_000,
            ;
            crate::fixed::lemma_tdiv_ratio_bound(
                (c as int) * (ncw as int),
                2 * (SCALE as int),
                110_000_000,
            );
            crate::fixed::lemma_tdiv_ratio_bound(
                (s as int) * (nch as int),
                2 * (SCALE as int),
                110_000_000,
            );
        }
        let qx = tdiv(c * ncw, 2 * SCALE);
        let qy = tdiv(s * nch, 2 * SCALE);
        let dxp = x - px;
        let dyp = y - py;
        proof {
            assert(-22_000_000_000_000_000 <= (dxp as int) * (qx as int) <= 22_000_000_000_000_000
                && -22_000_000_000_000_000 <= (dyp as int) * (qy as int) <= 22_000_000_000_000_000)
                by (nonlinear_arith)
                requires
                    -200_000_000 <= dxp <= 200_000_000,
                    -200_000_000 <= dyp <= 200_000_000,
                    -110_000_000 <= qx <= 110_000_000,
                    -110_000_000 <= qy <= 110_000_000,
            ;
            crate::fixed::lemma_tdiv_ratio_bound(
                (dxp as int) * (qx as int),
                SCALE as int,
                22_000_000_000,
            );
            crate::fixed::lemma_tdiv_ratio_bound(
                (dyp as int) * (qy as int),
                SCALE as int,
                22_000_000_000,
            );
        }
        tdiv(dxp * qx, SCALE) + tdiv(dyp * qy, SCALE)
    }

    /// Evaluates the field at the continuous point `(x, y)` inside the
    /// sampling grid's rectangle; see `eval_spec`. The value is exact
    /// fixed-point arithmetic, so equal inputs always give equal values.
    pub fn get_value(&self, x: i64, y: i64, grid: &Grid) -> (r: i64)
        requires
            self.wf(),
            grid.wf(),
            grid.exact(),
            self.compatible(*grid),
            grid.x0 <= x <= grid.x1,
            grid.y0 <= y <= grid.y1,
        ensures
            r == self.eval_spec(*grid, x as int, y as int),
            -FIELD_LIMIT <= r <= FIELD_LIMIT,
    {
        let nw = self.dimensions.w as i64;
        let nh = self.dimensions.h as i64;
        let ex = grid.x1 - grid.x0;
        let ey = grid.y1 - grid.y0;
        proof {
            lemma_noise_cells_exact(self, grid);
        }
        let ncw = ex / nw;
        let nch = ey / nh;
        let sx = x - grid.x0;
        let sy = y - grid.y0;
        proof {
            vstd::arithmetic::div_mod::lemma_div_pos_is_pos(sx as int, ncw as int);
            vstd::arithmetic::div_mod::lemma_div_pos_is_pos(sy as int, nch as int);
        }
        let xr = sx / ncw;
        let yr = sy / nch;
        let xl: i64 = if xr > nw - 1 { nw - 1 } else { xr };
        let yl: i64 = if yr > nh - 1 { nh - 1 } else { yr };
        proof {
            lemma_cell_offset(sx as int, ncw as int, nw as int);
            lemma_cell_offset(sy as int, nch as int, nh as int);
        }
        let d0 = self.influence_at(grid, x, y, xl as i32, yl as i32);
        let d1 = self.influence_at(grid, x, y, (xl + 1) as i32, yl as i32);
        let d2 = self.influence_at(grid, x, y, xl as i32, (yl + 1) as i32);
        let d3 = self.influence_at(grid, x, y, (xl + 1) as i32, (yl + 1) as i32);
        let rem_x = sx - xl * ncw;
        let rem_y = sy - yl * nch;
        proof {
            vstd::arithmetic::mul::lemma_mul_inequality(rem_x as int, ncw as int, SCALE as int);
            vstd::arithmetic::div_mod::lemma_multiply_divide_le(
                (rem_x as int) * (SCALE as int),
                ncw as int,
                SCALE as int,
            );
            vstd::arithmetic::div_mod::lemma_div_pos_is_pos(
                (rem_x as int) * (SCALE as int),
                ncw as int,
            );
            vstd::arithmetic::mul::lemma_mul_inequality(rem_y as int, nch as int, SCALE as int);
            vstd::arithmetic::div_mod::lemma_multiply_divide_le(
                (rem_y as int) * (SCALE as int),
                nch as int,
                SCALE as int,
            );
            vstd::arithmetic::div_mod::lemma_div_pos_is_pos(
                (rem_y as int) * (SCALE as int),
                nch as int,
            );
        }
        let tx = rem_x * SCALE / ncw;
        let ty = rem_y * SCALE / nch;
        let i1 = interpolate(d0, d1, tx);
        let i2 = interpolate(d2, d3, tx);
        proof {
            lemma_interp_bound(d0 as int, d1 as int, tx as int, 50_000_000_000);
            lemma_interp_bound(d2 as int, d3 as int, tx as int, 50_000_000_000);
        }
        let i3 = interpolate(i1, i2, ty);
        proof {
            lemma_interp_bound(i1 as int, i2 as int, ty as int, 350_000_000_000);
        }
        FIELD_GAIN * i3
    }
}

/// Adjacent noise cells agree where they meet: a point lying on the
/// shared vertical lattice line between cells `m - 1` and `m` blends to
/// the same field value through either cell. The smooth blend gives the
/// far corners zero weight at the boundary, so both cells reduce to the
/// influences of the two shared corners. (This is the cell-boundary
/// ingredient of the field's continuity; the quantitative modulus of the
/// real-valued field is not stated here.)
pub proof fn lemma_eval_continuous_x(f: PerlinNoise, g: Grid, x: int, y: int, m: int, yl: int)
    requires
        f.wf(),
        g.wf(),
        g.exact(),
        f.compatible(g),
        1 <= m <= f.spec_dimensions().w - 1,
        x == g.x0 + m * f.noise_cell_w(g),
    ensures
        f.eval_at_cell(g, x, y, m - 1, yl) == f.eval_at_cell(g, x, y, m, yl),
{
    lemma_noise_cells_exact(&f, &g);
    let ncw = f.noise_cell_w(g);
    let sc = SCALE as int;
    assert((m - 1) * ncw == m * ncw - ncw) by (nonlinear_arith);
    assert(x - (g.x0 + (m - 1) * ncw) == ncw);
    vstd::arithmetic::div_mod::lemma_div_multiples_vanish(sc, ncw);
    assert(ncw * sc == ncw * (SCALE as int));
    assert((x - (g.x0 + (m - 1) * ncw)) * sc == ncw * sc) by (nonlinear_arith)
        requires
            x - (g.x0 + (m - 1) * ncw) == ncw,
    ;
    assert((x - (g.x0 + (m - 1) * ncw)) * sc / ncw == sc);
    assert(x - (g.x0 + m * ncw) == 0);
    vstd::arithmetic::div_mod::lemma_div_basics(ncw);
    assert((x - (g.x0 + m * ncw)) * sc == 0) by (nonlinear_arith)
        requires
            x - (g.x0 + m * ncw) == 0,
    ;
    let d1 = f.influence(g, x, y, m, yl);
    let d3 = f.influence(g, x, y, m, yl + 1);
    lemma_blend_endpoints(f.influence(g, x, y, m - 1, yl), d1);
    lemma_blend_endpoints(f.influence(g, x, y, m - 1, yl + 1), d3);
    lemma_blend_endpoints(d1, f.influence(g, x, y, m + 1, yl));
    lemma_blend_endpoints(d3, f.influence(g, x, y, m + 1, yl + 1));
}

/// The same agreement across a shared horizontal lattice line: blending
/// through the cell below or the cell above gives the same value.
pub proof fn lemma_eval_continuous_y(f: PerlinNoise, g: Grid, x: int, y: int, xl: int, m: int)
    requires
        f.wf(),
        g.wf(),
        g.exact(),
        f.compatible(g),
        1 <= m <= f.spec_dimensions().h - 1,
        y == g.y0 + m * f.noise_cell_h(g),
    ensures
        f.eval_at_cell(g, x, y, xl, m - 1) == f.eval_at_cell(g, x, y, xl, m),
{
    lemma_noise_cells_exact(&f, &g);
    let nch = f.noise_cell_h(g);
    let sc = SCALE as int;
    assert((m - 1) * nch == m * nch - nch) by (nonlinear_arith);
    assert(y - (g.y0 + (m - 1) * nch) == nch);
    vstd::arithmetic::div_mod::lemma_div_multiples_vanish(sc, nch);
    assert((y - (g.y0 + (m - 1) * nch)) * sc == nch * sc) by (nonlinear_arith)
        requires
            y - (g.y0 + (m - 1) * nch) == nch,
    ;
    assert((y - (g.y0 + (m - 1) * nch)) * sc / nch == sc);
    assert(y - (g.y0 + m * nch) == 0);
    vstd::arithmetic::div_mod::lemma_div_basics(nch);
    assert((y - (g.y0 + m * nch)) * sc == 0) by (nonlinear_arith)
        requires
            y - (g.y0 + m * nch) == 0,
    ;
    let ncw = f.noise_cell_w(g);
    let tx = (x - (g.x0 + xl * ncw)) * sc / ncw;
    let d0b = f.influence(g, x, y, xl, m - 1);
    let d1b = f.influence(g, x, y, xl + 1, m - 1);
    let d0 = f.influence(g, x, y, xl, m);
    let d1 = f.influence(g, x, y, xl + 1, m);
    let d2 = f.influence(g, x, y, xl, m + 1);
    let d3 = f.influence(g, x, y, xl + 1, m + 1);
    lemma_blend_endpoints(interp_spec(d0b, d1b, tx), interp_spec(d0, d1, tx));
    lemma_blend_endpoints(interp_spec(d0, d1, tx), interp_spec(d2, d3, tx));
}

/// Under exactness and compatibility, the noise-cell sizes divide the
/// extents exactly and are at least as large as the sampling cells.
proof fn lemma_noise_cells_exact(f: &PerlinNoise, g: &Grid)
    requires
        f.wf(),
        g.wf(),
        g.exact(),
        f.compatible(*g),
    ensures
        (f.spec_dimensions().w as int) * f.noise_cell_w(*g) == g.x1 - g.x0,
        (f.spec_dimensions().h as int) * f.noise_cell_h(*g) == g.y1 - g.y0,
        f.noise_cell_w(*g) >= g.spec_cell_width(),
        f.noise_cell_h(*g) >= g.spec_cell_height(),
        f.noise_cell_w(*g) > 0,
        f.noise_cell_h(*g) > 0,
{
    let ex = g.x1 - g.x0;
    let ey = g.y1 - g.y0;
    let gw = g.dimensions.w as int;
    let gh = g.dimensions.h as int;
    let nw = f.spec_dimensions().w as int;
    let nh = f.spec_dimensions().h as int;
    let cw = g.spec_cell_width();
    let ch = g.spec_cell_height();
    let kx = gw / nw;
    let ky = gh / nh;
    vstd::arithmetic::div_mod::lemma_fundamental_div_mod(ex, gw);
    vstd::arithmetic::div_mod::lemma_fundamental_div_mod(gw, nw);
    assert(ex == (kx * cw) * nw) by (nonlinear_arith)
        requires
            ex == gw * cw,
            gw == nw * kx,
    ;
    vstd::arithmetic::div_mod::lemma_mod_multiples_basic(kx * cw, nw);
    vstd::arithmetic::div_mod::lemma_fundamental_div_mod(ex, nw);
    vstd::arithmetic::div_mod::lemma_fundamental_div_mod(ey, gh);
    vstd::arithmetic::div_mod::lemma_fundamental_div_mod(gh, nh);
    assert(ey == (ky * ch) * nh) by (nonlinear_arith)
        requires
            ey == gh * ch,
            gh == nh * ky,
    ;
    vstd::arithmetic::div_mod::lemma_mod_multiples_basic(ky * ch, nh);
    vstd::arithmetic::div_mod::lemma_fundamental_div_mod(ey, nh);
    vstd::arithmetic::div_mod::lemma_div_is_ordered_by_denominator(ex, nw, gw);
    vstd::arithmetic::div_mod::lemma_div_is_ordered_by_denominator(ey, nh, gh);
}

/// Position of a clamped cell lookup: the offset of the query inside its
/// (clamped) cell lies within `[0, cell]`.
proof fn lemma_cell_offset(s: int, cell: int, n: int)
    requires
        cell > 0,
        n >= 1,
        0 <= s <= n * cell,
    ensures
        ({
            let r = s / cell;
            let l = if r > n - 1 { n - 1 } else { r };
            0 <= l <= n - 1 && 0 <= s - l * cell <= cell
        }),
{
    let r = s / cell;
    let l = if r > n - 1 { n - 1 } else { r };
    vstd::arithmetic::div_mod::lemma_div_pos_is_pos(s, cell);
    vstd::arithmetic::div_mod::lemma_fundamental_div_mod(s, cell);
    vstd::arithmetic::div_mod::lemma_mod_bound(s, cell);
    if r > n - 1 {
        assert(s - (n - 1) * cell <= cell) by (nonlinear_arith)
            requires
                s <= n * cell,
                cell > 0,
        ;
        assert(s - (n - 1) * cell >= cell * r - (n - 1) * cell) by (nonlinear_arith)
            requires
                s >= cell * r,
        ;
        assert(cell * r - (n - 1) * cell >= 0) by (nonlinear_arith)
            requires
                r >= n,
                cell > 0,
        ;
    } else {
        assert(s - l * cell == s - cell * l) by (nonlinear_arith);
    }
}

} // verus!
