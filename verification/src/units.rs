//! Fixed-point coordinates.
//!
//! Positions, sizes and velocities are whole numbers of units, with
//! [`UNITS_PER_TILE`] units to the tile. A coordinate is an `i64`, so the
//! tile that holds a coordinate always has an `i32` index.

use vstd::prelude::*;

verus! {

/// Number of coordinate units in the width (and height) of one tile.
pub const UNITS_PER_TILE: i64 = 0x1_0000_0000;

/// Index of the tile that holds coordinate `x`: `x / UNITS_PER_TILE` rounded
/// down, also for negative `x`.
pub open spec fn tile_index(x: int) -> int {
    x / (UNITS_PER_TILE as int)
}

/// `v` limited to the range of a coordinate.
pub open spec fn saturate(v: int) -> int {
    if v < i64::MIN {
        i64::MIN as int
    } else if v > i64::MAX {
        i64::MAX as int
    } else {
        v
    }
}

/// Quotient of `a` by the positive `b`, rounded towards zero.
pub open spec fn div_toward_zero(a: int, b: int) -> int {
    if a >= 0 {
        a / b
    } else {
        -((-a) / b)
    }
}

/// Index of the tile that holds coordinate `x`.
///
/// Rounds down, not towards zero: every coordinate of tile `-1` is negative.
pub fn tile_of(x: i64) -> (index: i32)
    ensures
        index == tile_index(x as int),
{
    x.checked_div_euclid(UNITS_PER_TILE).unwrap() as i32
}

/// Sum of two coordinates, limited to the range of a coordinate.
pub fn offset(x: i64, d: i64) -> (sum: i64)
    ensures
        sum == saturate(x + d),
{
    let wide: i128 = x as i128 + d as i128;
    if wide < i64::MIN as i128 {
        i64::MIN
    } else if wide > i64::MAX as i128 {
        i64::MAX
    } else {
        wide as i64
    }
}

/// Floor semantics of [`tile_index`]: the tile with index `t` holds exactly
/// the coordinates from `t * UNITS_PER_TILE` up to, and not including,
/// `(t + 1) * UNITS_PER_TILE`.
pub proof fn lemma_tile_index_floor(x: int, t: int)
    ensures
        tile_index(x) == t <==> t * UNITS_PER_TILE <= x < (t + 1) * UNITS_PER_TILE,
{
}

} // verus!
