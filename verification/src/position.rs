//! Coordinate types: tile positions, their signed intermediate form, and
//! continuous world coordinates.
//!
//! A tile position addresses a cell by non-negative indices and carries the
//! fixed-point offset of the point from the cell's lower-left corner. The
//! signed form admits negative indices and offsets, which arise transiently
//! while delta arithmetic steps across or off the grid. World coordinates
//! are the flat continuous position: `tile_size * index + offset` per axis.

use vstd::prelude::*;

use crate::fixed::{
    abs_int, dist_sq, fadd, fdivmod_trunc, fsat, in_fx, isqrt128, sadd_i64, sat_fx, sat_i64,
    smul_int, trunc_div, trunc_rem, FX_SAT,
};
use crate::grid::{Grid, TILE_SIZE_MAX};

verus! {

/// Error of a conversion whose signed coordinates lie outside the unsigned
/// tile-index range.
#[derive(Clone, Copy, Debug, PartialEq, Eq, Structural)]
pub struct OffGridError;

/// A cell of the grid together with a fixed-point offset from the cell's
/// lower-left corner.
#[derive(Clone, Copy, Debug, PartialEq, Eq, Structural)]
pub struct TilePosition {
    pub x: u32,
    pub y: u32,
    pub rel_x: i64,
    pub rel_y: i64,
}

/// The signed variant of [`TilePosition`] used during delta arithmetic that
/// may transiently leave the grid.
#[derive(Clone, Copy, Debug, PartialEq, Eq, Structural)]
pub struct SignedTilePosition {
    pub x: i64,
    pub y: i64,
    pub rel_x: i64,
    pub rel_y: i64,
}

/// A continuous-space position, with the tile edge length it was measured
/// against.
#[derive(Clone, Copy, Debug, PartialEq, Eq, Structural)]
pub struct WorldCoords {
    pub x: i64,
    pub y: i64,
    pub tile_size: i64,
}

impl TilePosition {
    /// Offsets within the representable fixed-point range.
    pub open spec fn wf(&self) -> bool {
        in_fx(self.rel_x as int) && in_fx(self.rel_y as int)
    }

    /// Continuous horizontal position for tile edge length `ts`.
    pub open spec fn world_x(&self, ts: int) -> int {
        ts * self.x + self.rel_x
    }

    /// Continuous vertical position for tile edge length `ts`.
    pub open spec fn world_y(&self, ts: int) -> int {
        ts * self.y + self.rel_y
    }

    /// Build a tile position; offsets are clamped to the representable
    /// range.
    pub fn new(x: u32, y: u32, rel_x: i64, rel_y: i64) -> (r: Self)
        ensures
            r.x == x,
            r.y == y,
            r.rel_x == sat_fx(rel_x as int),
            r.rel_y == sat_fx(rel_y as int),
            r.wf(),
    {
        TilePosition { x, y, rel_x: fsat(rel_x), rel_y: fsat(rel_y) }
    }

    /// The center of the given cell.
    pub fn centered(x: u32, y: u32, tile_size: i64) -> (r: Self)
        requires
            0 <= tile_size <= FX_SAT,
        ensures
            r.x == x,
            r.y == y,
            r.rel_x == tile_size as int / 2,
            r.rel_y == tile_size as int / 2,
            r.wf(),
    {
        let half: i64 = ((tile_size as u64) / 2) as i64;
        TilePosition::new(x, y, half, half)
    }

    /// The offset a move by `d` tiles lands on: the trailing edge
    /// (`tile_size`) when moving toward lower indices, the leading edge
    /// (`0`) otherwise.
    pub open spec fn edge_for_move(d: int, ts: int) -> int {
        if d < 0 {
            ts
        } else {
            0
        }
    }

    /// The position moved by whole tiles onto the edge of the target cell
    /// that faces away from the direction of the move.
    pub fn move_to_edge(&self, dx: i32, dy: i32, tile_size: i64) -> (r: Self)
        requires
            0 <= self.x + dx <= u32::MAX,
            0 <= self.y + dy <= u32::MAX,
            0 <= tile_size <= FX_SAT,
        ensures
            r.x == self.x + dx,
            r.y == self.y + dy,
            r.rel_x == Self::edge_for_move(dx as int, tile_size as int),
            r.rel_y == Self::edge_for_move(dy as int, tile_size as int),
            r.wf(),
    {
        let nx: i64 = (self.x as i64) + (dx as i64);
        let ny: i64 = (self.y as i64) + (dy as i64);
        let rel_x: i64 = if dx < 0 {
            tile_size
        } else {
            0
        };
        let rel_y: i64 = if dy < 0 {
            tile_size
        } else {
            0
        };
        TilePosition::new(nx as u32, ny as u32, rel_x, rel_y)
    }

    /// The continuous position of this tile position.
    pub fn to_world_coords(&self, tile_size: i64) -> (r: WorldCoords)
        requires
            self.wf(),
        ensures
            r == WorldCoords::of_tile_position(*self, tile_size as int),
    {
        WorldCoords::from_tile_position(self, tile_size)
    }

    /// Euclidean world-space distance to another tile position, rounded
    /// down to the fixed-point grid.
    pub fn distance(&self, other: &TilePosition, tile_size: i64) -> (d: i64)
        requires
            self.wf(),
            other.wf(),
        ensures
            0 <= d,
            ({
                let a = WorldCoords::of_tile_position(*self, tile_size as int);
                let b = WorldCoords::of_tile_position(*other, tile_size as int);
                let dd = (a.x - b.x) * (a.x - b.x) + (a.y - b.y) * (a.y - b.y);
                d * d <= dd && (d < FX_SAT ==> dd < (d + 1) * (d + 1))
            }),
    {
        let a = self.to_world_coords(tile_size);
        let b = other.to_world_coords(tile_size);
        a.distance(&b)
    }

    /// The difference of two tile positions as a signed position; offsets
    /// saturate at the representable range.
    pub fn minus(&self, rhs: &TilePosition) -> (r: SignedTilePosition)
        ensures
            r.x == self.x - rhs.x,
            r.y == self.y - rhs.y,
            r.rel_x == sat_fx(self.rel_x - rhs.rel_x),
            r.rel_y == sat_fx(self.rel_y - rhs.rel_y),
            r.wf(),
    {
        let dx: i64 = (self.x as i64) - (rhs.x as i64);
        let dy: i64 = (self.y as i64) - (rhs.y as i64);
        let s: i128 = (self.rel_x as i128) - (rhs.rel_x as i128);
        let t: i128 = (self.rel_y as i128) - (rhs.rel_y as i128);
        let rel_x: i64 = if s > (FX_SAT as i128) {
            FX_SAT
        } else if s < (-FX_SAT as i128) {
            -FX_SAT
        } else {
            s as i64
        };
        let rel_y: i64 = if t > (FX_SAT as i128) {
            FX_SAT
        } else if t < (-FX_SAT as i128) {
            -FX_SAT
        } else {
            t as i64
        };
        SignedTilePosition { x: dx, y: dy, rel_x, rel_y }
    }

    /// The sum of a tile position and a signed delta; indices saturate at
    /// the 64-bit range, offsets at the representable fixed-point range.
    pub fn plus(&self, rhs: &SignedTilePosition) -> (r: SignedTilePosition)
        ensures
            r.x == sat_i64(self.x + rhs.x),
            r.y == sat_i64(self.y + rhs.y),
            r.rel_x == sat_fx(self.rel_x + rhs.rel_x),
            r.rel_y == sat_fx(self.rel_y + rhs.rel_y),
            r.wf(),
    {
        SignedTilePosition {
            x: sadd_i64(self.x as i64, rhs.x),
            y: sadd_i64(self.y as i64, rhs.y),
            rel_x: fadd(self.rel_x, rhs.rel_x),
            rel_y: fadd(self.rel_y, rhs.rel_y),
        }
    }

    /// Convert a signed position back to an unsigned tile position; fails
    /// exactly when an index is negative (or beyond the unsigned index
    /// range).
    pub fn try_from_signed(stp: SignedTilePosition) -> (r: Result<TilePosition, OffGridError>)
        ensures
            r is Ok <==> (0 <= stp.x <= u32::MAX && 0 <= stp.y <= u32::MAX),
            r matches Ok(tp) ==> tp == (TilePosition {
                x: stp.x as u32,
                y: stp.y as u32,
                rel_x: stp.rel_x,
                rel_y: stp.rel_y,
            }),
    {
        if 0 <= stp.x && stp.x <= (u32::MAX as i64) && 0 <= stp.y && stp.y <= (u32::MAX as i64) {
            Ok(TilePosition {
                x: stp.x as u32,
                y: stp.y as u32,
                rel_x: stp.rel_x,
                rel_y: stp.rel_y,
            })
        } else {
            Err(OffGridError)
        }
    }

    /// This position as a signed position.
    pub fn to_signed(&self) -> (r: SignedTilePosition)
        ensures
            r.x == self.x,
            r.y == self.y,
            r.rel_x == self.rel_x,
            r.rel_y == self.rel_y,
    {
        SignedTilePosition { x: self.x as i64, y: self.y as i64, rel_x: self.rel_x, rel_y: self.rel_y }
    }
}

impl SignedTilePosition {
    /// Offsets within the representable fixed-point range.
    pub open spec fn wf(&self) -> bool {
        in_fx(self.rel_x as int) && in_fx(self.rel_y as int)
    }

    /// Continuous horizontal position for tile edge length `ts`.
    pub open spec fn world_x(&self, ts: int) -> int {
        ts * self.x + self.rel_x
    }

    /// Continuous vertical position for tile edge length `ts`.
    pub open spec fn world_y(&self, ts: int) -> int {
        ts * self.y + self.rel_y
    }

    /// Build a signed position; offsets are clamped to the representable
    /// range.
    pub fn new(x: i64, y: i64, rel_x: i64, rel_y: i64) -> (r: Self)
        ensures
            r.x == x,
            r.y == y,
            r.rel_x == sat_fx(rel_x as int),
            r.rel_y == sat_fx(rel_y as int),
            r.wf(),
    {
        SignedTilePosition { x, y, rel_x: fsat(rel_x), rel_y: fsat(rel_y) }
    }

    /// Re-normalize so that each offset's magnitude is below the tile size
    /// again, by carrying whole tiles into the indices; the continuous
    /// position is unchanged.
    pub fn normalized(self, tile_size: i64) -> (r: Self)
        requires
            0 < tile_size <= TILE_SIZE_MAX,
            self.wf(),
            abs_int(self.rel_x as int) < 2 * tile_size,
            abs_int(self.rel_y as int) < 2 * tile_size,
            in_fx(self.world_x(tile_size as int)),
            in_fx(self.world_y(tile_size as int)),
            in_fx(tile_size * self.x),
            in_fx(tile_size * self.y),
        ensures
            r.world_x(tile_size as int) == self.world_x(tile_size as int),
            r.world_y(tile_size as int) == self.world_y(tile_size as int),
            abs_int(r.rel_x as int) < tile_size,
            abs_int(r.rel_y as int) < tile_size,
            r.x == trunc_div(self.world_x(tile_size as int), tile_size as int),
            r.y == trunc_div(self.world_y(tile_size as int), tile_size as int),
            r.wf(),
    {
        let wx: i64 = fadd(smul_int(tile_size, self.x), self.rel_x);
        let wy: i64 = fadd(smul_int(tile_size, self.y), self.rel_y);
        let (qx, mx) = fdivmod_trunc(wx, tile_size);
        let (qy, my) = fdivmod_trunc(wy, tile_size);
        assert(tile_size * qx == qx * tile_size) by (nonlinear_arith);
        assert(tile_size * qy == qy * tile_size) by (nonlinear_arith);
        SignedTilePosition { x: qx, y: qy, rel_x: mx, rel_y: my }
    }
}

impl WorldCoords {
    /// Coordinates within the representable fixed-point range.
    pub open spec fn wf(&self) -> bool {
        in_fx(self.x as int) && in_fx(self.y as int)
    }

    /// The world coordinates [`WorldCoords::from_tile_position`] computes:
    /// `tile_size * index + offset` per axis, saturated stepwise.
    pub open spec fn of_tile_position(tp: TilePosition, ts: int) -> WorldCoords {
        WorldCoords {
            x: sat_fx(sat_fx(ts * tp.x) + tp.rel_x) as i64,
            y: sat_fx(sat_fx(ts * tp.y) + tp.rel_y) as i64,
            tile_size: ts as i64,
        }
    }

    /// The world coordinates [`WorldCoords::from_signed_tile_position`]
    /// computes.
    pub open spec fn of_signed_tile_position(stp: SignedTilePosition, ts: int) -> WorldCoords {
        WorldCoords {
            x: sat_fx(sat_fx(ts * stp.x) + stp.rel_x) as i64,
            y: sat_fx(sat_fx(ts * stp.y) + stp.rel_y) as i64,
            tile_size: ts as i64,
        }
    }

    /// Build world coordinates; values are clamped to the representable
    /// range.
    pub fn new(x: i64, y: i64, tile_size: i64) -> (r: Self)
        ensures
            r.x == sat_fx(x as int),
            r.y == sat_fx(y as int),
            r.tile_size == tile_size,
            r.wf(),
    {
        WorldCoords { x: fsat(x), y: fsat(y), tile_size }
    }

    /// The position translated by a continuous delta, saturating at the
    /// representable range.
    pub fn translated(&self, dx: i64, dy: i64) -> (r: Self)
        ensures
            r.x == sat_fx(self.x + dx),
            r.y == sat_fx(self.y + dy),
            r.tile_size == self.tile_size,
            r.wf(),
    {
        WorldCoords { x: fadd(self.x, dx), y: fadd(self.y, dy), tile_size: self.tile_size }
    }

    /// Euclidean distance to another point, rounded down to the
    /// fixed-point grid and saturated.
    pub fn distance(&self, other: &WorldCoords) -> (d: i64)
        requires
            self.wf(),
            other.wf(),
        ensures
            0 <= d,
            ({
                let dd = (self.x - other.x) * (self.x - other.x) + (self.y - other.y) * (self.y
                    - other.y);
                d * d <= dd && (d < FX_SAT ==> dd < (d + 1) * (d + 1))
            }),
    {
        let dd: u128 = dist_sq(self.x, self.y, other.x, other.y);
        let root: u64 = isqrt128(dd);
        if root > (FX_SAT as u64) {
            proof {
                crate::fixed::lemma_product_bound(
                    FX_SAT as int,
                    FX_SAT as int,
                    FX_SAT as int,
                    FX_SAT as int,
                );
                assert((FX_SAT as int) * (FX_SAT as int) <= (root as int) * (root as int))
                    by (nonlinear_arith)
                    requires
                        FX_SAT < root,
                ;
            }
            FX_SAT
        } else {
            root as i64
        }
    }

    /// The continuous position of a tile position.
    pub fn from_tile_position(tp: &TilePosition, tile_size: i64) -> (r: Self)
        requires
            tp.wf(),
        ensures
            r == Self::of_tile_position(*tp, tile_size as int),
            tile_size >= 0 && in_fx(tile_size * tp.x) && in_fx(tile_size * tp.y) && in_fx(
                tp.world_x(tile_size as int),
            ) && in_fx(tp.world_y(tile_size as int)) ==> r.x == tp.world_x(tile_size as int)
                && r.y == tp.world_y(tile_size as int),
    {
        let x: i64 = fadd(smul_int(tile_size, tp.x as i64), tp.rel_x);
        let y: i64 = fadd(smul_int(tile_size, tp.y as i64), tp.rel_y);
        WorldCoords { x, y, tile_size }
    }

    /// The continuous position of a signed tile position.
    pub fn from_signed_tile_position(stp: &SignedTilePosition, tile_size: i64) -> (r: Self)
        requires
            stp.wf(),
        ensures
            r == Self::of_signed_tile_position(*stp, tile_size as int),
            in_fx(tile_size * stp.x) && in_fx(tile_size * stp.y) && in_fx(
                stp.world_x(tile_size as int),
            ) && in_fx(stp.world_y(tile_size as int)) ==> r.x == stp.world_x(tile_size as int)
                && r.y == stp.world_y(tile_size as int),
    {
        let x: i64 = fadd(smul_int(tile_size, stp.x), stp.rel_x);
        let y: i64 = fadd(smul_int(tile_size, stp.y), stp.rel_y);
        WorldCoords { x, y, tile_size }
    }

    /// Decompose into whole tiles and sub-tile offsets, truncating toward
    /// zero: the offsets carry the sign of the coordinates.
    pub fn to_signed_tile_position(&self) -> (r: SignedTilePosition)
        requires
            0 < self.tile_size <= TILE_SIZE_MAX,
            self.wf(),
        ensures
            r.x == trunc_div(self.x as int, self.tile_size as int),
            r.y == trunc_div(self.y as int, self.tile_size as int),
            r.rel_x == trunc_rem(self.x as int, self.tile_size as int),
            r.rel_y == trunc_rem(self.y as int, self.tile_size as int),
            r.world_x(self.tile_size as int) == self.x,
            r.world_y(self.tile_size as int) == self.y,
            abs_int(r.rel_x as int) < self.tile_size,
            abs_int(r.rel_y as int) < self.tile_size,
            abs_int(r.x as int) <= abs_int(self.x as int),
            abs_int(r.y as int) <= abs_int(self.y as int),
            r.wf(),
    {
        let (qx, mx) = fdivmod_trunc(self.x, self.tile_size);
        let (qy, my) = fdivmod_trunc(self.y, self.tile_size);
        assert(self.tile_size * qx == qx * self.tile_size) by (nonlinear_arith);
        assert(self.tile_size * qy == qy * self.tile_size) by (nonlinear_arith);
        SignedTilePosition { x: qx, y: qy, rel_x: mx, rel_y: my }
    }

    /// Decompose into an unsigned tile position; fails exactly when a
    /// coordinate is negative (or beyond the unsigned index range).
    pub fn to_tile_position(&self) -> (r: Result<TilePosition, OffGridError>)
        requires
            0 < self.tile_size <= TILE_SIZE_MAX,
            self.wf(),
        ensures
            r is Ok <==> {
                let stp = SignedTilePosition {
                    x: trunc_div(self.x as int, self.tile_size as int) as i64,
                    y: trunc_div(self.y as int, self.tile_size as int) as i64,
                    rel_x: trunc_rem(self.x as int, self.tile_size as int) as i64,
                    rel_y: trunc_rem(self.y as int, self.tile_size as int) as i64,
                };
                0 <= stp.x <= u32::MAX && 0 <= stp.y <= u32::MAX
            },
            r matches Ok(tp) ==> {
                &&& tp.x == trunc_div(self.x as int, self.tile_size as int)
                &&& tp.y == trunc_div(self.y as int, self.tile_size as int)
                &&& tp.rel_x == trunc_rem(self.x as int, self.tile_size as int)
                &&& tp.rel_y == trunc_rem(self.y as int, self.tile_size as int)
            },
    {
        TilePosition::try_from_signed(self.to_signed_tile_position())
    }

    /// `Some(self)` exactly when the point lies inside the grid's
    /// world-space extent.
    pub fn bounds_checked<'a>(&'a self, grid: &Grid) -> (r: Option<&'a Self>)
        ensures
            (0 <= self.x < grid.width && 0 <= self.y < grid.height) ==> r == Some(self),
            !(0 <= self.x < grid.width && 0 <= self.y < grid.height) ==> r is None,
    {
        let in_bounds: bool = 0 <= self.x && self.x < grid.width && 0 <= self.y && self.y
            < grid.height;
        if in_bounds {
            Some(self)
        } else {
            None
        }
    }
}

} // verus!
