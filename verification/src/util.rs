//! Rounding helpers on fixed-point values and coordinate types.

use vstd::prelude::*;

use crate::fixed::{abs_int, div_half_away, fround_unit, in_fx, SCALE};
use crate::position::{SignedTilePosition, TilePosition};

verus! {

/// Tolerance under which a fixed-point coordinate counts as zero: the
/// machine epsilon of a single-precision float, on the fixed-point grid.
pub const ZERO_EPS: i64 = 12;

/// Whether two fixed-point values lie within [`ZERO_EPS`] of each other.
pub open spec fn fx_equal_spec(a: int, b: int) -> bool {
    abs_int(a - b) < ZERO_EPS
}

/// Whether two fixed-point values lie within [`ZERO_EPS`] of each other.
pub fn fx_equal(a: i64, b: i64) -> (r: bool)
    ensures
        r == fx_equal_spec(a as int, b as int),
{
    let d: i128 = (a as i128) - (b as i128);
    -(ZERO_EPS as i128) < d && d < (ZERO_EPS as i128)
}

/// The rounding unit that keeps `decimals` decimal places of a fixed-point
/// value (at most eight are stored).
pub open spec fn round_unit(decimals: int) -> int {
    if decimals <= 0 {
        100_000_000
    } else if decimals == 1 {
        10_000_000
    } else if decimals == 2 {
        1_000_000
    } else if decimals == 3 {
        100_000
    } else if decimals == 4 {
        10_000
    } else if decimals == 5 {
        1_000
    } else if decimals == 6 {
        100
    } else if decimals == 7 {
        10
    } else {
        1
    }
}

/// Round a fixed-point value to `decimals` decimal places, half away from
/// zero.
pub fn round(n: i64, decimals: u32) -> (r: i64)
    requires
        in_fx(n as int),
    ensures
        r == div_half_away(n as int, round_unit(decimals as int)) * round_unit(
            decimals as int,
        ),
{
    let unit: i64 = if decimals == 0 {
        100_000_000
    } else if decimals == 1 {
        10_000_000
    } else if decimals == 2 {
        1_000_000
    } else if decimals == 3 {
        100_000
    } else if decimals == 4 {
        10_000
    } else if decimals == 5 {
        1_000
    } else if decimals == 6 {
        100
    } else if decimals == 7 {
        10
    } else {
        1
    };
    fround_unit(n, unit)
}

/// A tile position with its offsets rounded to three decimal places, the
/// precision the scenario expectations are written in.
pub fn round_tp(tp: &TilePosition) -> (r: TilePosition)
    requires
        tp.wf(),
    ensures
        r.x == tp.x,
        r.y == tp.y,
        r.rel_x == div_half_away(tp.rel_x as int, 100_000) * 100_000,
        r.rel_y == div_half_away(tp.rel_y as int, 100_000) * 100_000,
{
    TilePosition {
        x: tp.x,
        y: tp.y,
        rel_x: round(tp.rel_x, 3),
        rel_y: round(tp.rel_y, 3),
    }
}

/// A signed tile position with its offsets rounded to three decimal places.
pub fn round_stp(stp: &SignedTilePosition) -> (r: SignedTilePosition)
    requires
        stp.wf(),
    ensures
        r.x == stp.x,
        r.y == stp.y,
        r.rel_x == div_half_away(stp.rel_x as int, 100_000) * 100_000,
        r.rel_y == div_half_away(stp.rel_y as int, 100_000) * 100_000,
{
    SignedTilePosition {
        x: stp.x,
        y: stp.y,
        rel_x: round(stp.rel_x, 3),
        rel_y: round(stp.rel_y, 3),
    }
}

} // verus!
