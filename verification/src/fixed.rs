//! Fixed-point scale, global limits, and the small arithmetic helpers the
//! rest of the crate builds on. One unit of a coordinate, angle or field
//! value is one millionth (a "micro-unit") of the corresponding real
//! quantity.

use vstd::prelude::*;

verus! {

/// Micro-units per 1.0: all coordinates, angles and field values are scaled
/// by this factor.
pub const SCALE: i64 = 1_000_000;

/// The epsilon added before an inverse grid lookup (one thousandth of a
/// unit), pushing a coordinate lying exactly on a cell boundary into the
/// higher-index cell.
pub const EPS_INDEX: i64 = 1_000;

/// Largest magnitude a grid coordinate may have (one hundred units).
pub const COORD_LIMIT: i64 = 100_000_000;

/// Largest cell count a grid may have along one axis.
pub const DIM_MAX: i32 = 16_384;

/// Largest window extent (in pixels) accepted when fitting a grid to a
/// window's aspect ratio.
pub const WINDOW_MAX: i32 = 100_000;

/// pi in micro-radians.
pub const PI_FX: i64 = 3_141_593;

/// 2*pi in micro-radians (rounded independently of `PI_FX`, so it is one
/// less than `2 * PI_FX`).
pub const TWO_PI_FX: i64 = 6_283_185;

/// pi/2 in micro-radians.
pub const HALF_PI_FX: i64 = 1_570_796;

/// Exclusive upper bound on a lattice node's rotation speed (0.2 radians
/// per tick, in micro-radians).
pub const SPEED_LIMIT: i64 = 200_000;

/// Magnitude bound on the fixed-point sine and cosine: the approximation
/// can overshoot 1.0 by a little, so the bound is slightly above `SCALE`.
pub const SIN_LIMIT: i64 = 1_100_000;

/// Magnitude bound on the operands of the smoothstep blend.
pub const INTERP_LIMIT: i64 = 1_000_000_000_000;

/// Magnitude bound on an evaluated field value.
pub const FIELD_LIMIT: i64 = 100_000_000_000_000;

/// Largest number of threshold levels an isoline extractor may hold.
pub const MAX_LEVELS: usize = 65_536;

/// Gain applied to the blended noise value to spread it into a visually
/// usable range.
pub const FIELD_GAIN: i64 = 10;

/// Division that truncates toward zero (the rounding a float-to-int cast
/// would give), defined for a positive divisor.
pub open spec fn tdiv_spec(a: int, b: int) -> int
    recommends
        b > 0,
{
    if a >= 0 {
        a / b
    } else {
        -((-a) / b)
    }
}

/// A dividend of magnitude at most `m * b` gives a quotient of magnitude
/// at most `m`.
pub proof fn lemma_tdiv_ratio_bound(a: int, b: int, m: int)
    requires
        b > 0,
        0 <= m,
        -(m * b) <= a <= m * b,
    ensures
        -m <= tdiv_spec(a, b) <= m,
{
    vstd::arithmetic::mul::lemma_mul_is_commutative(m, b);
    if a >= 0 {
        vstd::arithmetic::div_mod::lemma_multiply_divide_le(a, b, m);
        vstd::arithmetic::div_mod::lemma_div_pos_is_pos(a, b);
    } else {
        vstd::arithmetic::div_mod::lemma_multiply_divide_le(-a, b, m);
        vstd::arithmetic::div_mod::lemma_div_pos_is_pos(-a, b);
    }
}

/// Scaling by a factor and dividing it away again is the identity, for
/// either sign of the value.
pub proof fn lemma_tdiv_exact(v: int, b: int)
    requires
        b > 0,
    ensures
        tdiv_spec(v * b, b) == v,
{
    if v >= 0 {
        vstd::arithmetic::div_mod::lemma_div_by_multiple(v, b);
    } else {
        assert(-(v * b) == (-v) * b) by (nonlinear_arith);
        vstd::arithmetic::div_mod::lemma_div_by_multiple(-v, b);
    }
}

/// Executable truncating division; `a > i64::MIN` keeps the negation of a
/// negative dividend representable.
pub fn tdiv(a: i64, b: i64) -> (r: i64)
    requires
        b > 0,
        a > i64::MIN,
    ensures
        r == tdiv_spec(a as int, b as int),
{
    if a >= 0 {
        a / b
    } else {
        proof {
            vstd::arithmetic::div_mod::lemma_div_nonincreasing(-a as int, b as int);
            vstd::arithmetic::div_mod::lemma_div_pos_is_pos(-a as int, b as int);
        }
        -((-a) / b)
    }
}

} // verus!
