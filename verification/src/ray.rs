//! Single-ray tile traversal: a state machine that steps from one grid-line
//! crossing to the next, always advancing the axis whose pending crossing is
//! nearer to the ray's origin.
//!
//! Every crossing is normalized before it is stored: the crossed axis lands
//! exactly on a grid line, and an offset within [`ZERO_EPS`] of either edge
//! of its cell is snapped onto that edge, so that the same physical point
//! always gets the same representation. A ray travelling toward lower
//! indices owns a line crossing as the trailing edge (`rel == tile_size`) of
//! the previous cell; one travelling toward higher indices owns it as the
//! leading edge (`rel == 0`) of the next cell.

use vstd::prelude::*;

use crate::angle::{clamp_spec, direction_x_spec, direction_y_spec, AngleRad, DirectionX,
    DirectionY};
use crate::fixed::{abs_int, dist_sq, fdiv, fdiv_total_spec, fmul, fmul_spec, in_fx, sat_fx,
    sat_i64, trunc_div, trunc_rem, FX_SAT};
use crate::grid::Grid;
use crate::position::{SignedTilePosition, TilePosition, WorldCoords};
use crate::util::{fx_equal, ZERO_EPS};

verus! {

/// Snap an offset within the tolerance of either edge of its cell onto that
/// edge, carrying a whole tile when the far edge is reached.
pub open spec fn snap_comp(tile: int, rel: int, ts: int) -> (int, int) {
    if rel >= ts - ZERO_EPS {
        (tile + 1, 0int)
    } else if rel <= -(ts - ZERO_EPS) {
        (tile - 1, 0int)
    } else if -ZERO_EPS < rel && rel < ZERO_EPS {
        (tile, 0int)
    } else {
        (tile, rel)
    }
}

/// When the ray travels toward lower indices on this axis, a point on a
/// grid line belongs to the previous cell's trailing edge.
pub open spec fn adjust_low_comp(low: bool, tile: int, rel: int, ts: int) -> (int, int) {
    if low && rel == 0 {
        (tile - 1, ts)
    } else {
        (tile, rel)
    }
}

/// Snap, then apply the direction rule.
pub open spec fn snap_adjust(tile: int, rel: int, ts: int, low: bool) -> (int, int) {
    let s = snap_comp(tile, rel, ts);
    adjust_low_comp(low, s.0, s.1, ts)
}

/// Normal form of one world coordinate: truncating decomposition into tile
/// and offset, snapped and direction-adjusted.
pub open spec fn norm_comp(w: int, ts: int, low: bool) -> (int, int) {
    snap_adjust(trunc_div(w, ts), trunc_rem(w, ts), ts, low)
}

/// The tile position a world point normalizes and validates to: `None` when
/// it lies outside the grid.
pub open spec fn norm_tile_spec(wc: WorldCoords, grid: Grid, dx: DirectionX, dy: DirectionY)
    -> Option<TilePosition> {
    let cx = norm_comp(wc.x as int, grid.tile_size as int, dx == DirectionX::Left);
    let cy = norm_comp(wc.y as int, grid.tile_size as int, dy == DirectionY::Down);
    if 0 <= cx.0 && cx.0 <= u32::MAX && 0 <= cy.0 && cy.0 <= u32::MAX && cx.0 < grid.cols
        && cy.0 < grid.rows {
        Some(
            TilePosition {
                x: cx.0 as u32,
                y: cy.0 as u32,
                rel_x: cx.1 as i64,
                rel_y: cy.1 as i64,
            },
        )
    } else {
        None
    }
}

/// An offset within the tolerance of zero collapses to zero.
pub open spec fn zero_snap(v: int) -> int {
    if -ZERO_EPS < v && v < ZERO_EPS {
        0int
    } else {
        v
    }
}

/// The signed tile delta of a world-space delta: truncating decomposition
/// with near-zero offsets collapsed.
pub open spec fn delta_of_world(dxw: int, dyw: int, ts: int) -> SignedTilePosition {
    SignedTilePosition {
        x: trunc_div(dxw, ts) as i64,
        y: trunc_div(dyw, ts) as i64,
        rel_x: zero_snap(trunc_rem(dxw, ts)) as i64,
        rel_y: zero_snap(trunc_rem(dyw, ts)) as i64,
    }
}

/// The fixed per-step delta for crossing one vertical grid line: one tile
/// along x, the tangent relation along y. `None` for a vertically parallel
/// ray, which never crosses a vertical line.
pub open spec fn x_delta_spec(grid: Grid, tan: int, dx: DirectionX) -> Option<SignedTilePosition> {
    if dx == DirectionX::Parallel {
        None
    } else {
        let dxw: int = if dx == DirectionX::Right {
            grid.tile_size as int
        } else {
            -(grid.tile_size as int)
        };
        Some(delta_of_world(dxw, fmul_spec(tan, dxw), grid.tile_size as int))
    }
}

/// The fixed per-step delta for crossing one horizontal grid line.
pub open spec fn y_delta_spec(grid: Grid, tan: int, dy: DirectionY) -> Option<SignedTilePosition> {
    if dy == DirectionY::Parallel {
        None
    } else {
        let dyw: int = if dy == DirectionY::Up {
            grid.tile_size as int
        } else {
            -(grid.tile_size as int)
        };
        Some(delta_of_world(fdiv_total_spec(dyw, tan), dyw, grid.tile_size as int))
    }
}

/// World coordinates translated by a delta, saturating.
pub open spec fn translated_spec(wc: WorldCoords, dxw: int, dyw: int) -> WorldCoords {
    WorldCoords {
        x: sat_fx(wc.x + dxw) as i64,
        y: sat_fx(wc.y + dyw) as i64,
        tile_size: wc.tile_size,
    }
}

/// The first vertical-line crossing reachable from the origin: `None` when
/// the ray is vertically parallel or the origin's column is the last one in
/// the direction of travel.
pub open spec fn initial_x_spec(
    grid: Grid,
    tp: TilePosition,
    tan: int,
    dx: DirectionX,
    dy: DirectionY,
    wc: WorldCoords,
) -> Option<TilePosition> {
    if (dx == DirectionX::Left && tp.x == 0) || (dx == DirectionX::Right && tp.x + 1
        == grid.cols) {
        None
    } else if dx == DirectionX::Parallel {
        None
    } else {
        let offx: int = if dx == DirectionX::Left {
            -(tp.rel_x as int)
        } else {
            grid.tile_size - tp.rel_x
        };
        norm_tile_spec(translated_spec(wc, offx, fmul_spec(tan, offx)), grid, dx, dy)
    }
}

/// The world-space offset from the origin to the nearest vertical grid
/// line in the direction of travel.
pub open spec fn init_offx_spec(grid: Grid, tp: TilePosition, dx: DirectionX) -> int {
    if dx == DirectionX::Left {
        -(tp.rel_x as int)
    } else {
        grid.tile_size - tp.rel_x
    }
}

/// The world-space offset from the origin to the nearest horizontal grid
/// line in the direction of travel.
pub open spec fn init_offy_spec(grid: Grid, tp: TilePosition, dy: DirectionY) -> int {
    if dy == DirectionY::Down {
        -(tp.rel_y as int)
    } else {
        grid.tile_size - tp.rel_y
    }
}

/// The first horizontal-line crossing reachable from the origin.
pub open spec fn initial_y_spec(
    grid: Grid,
    tp: TilePosition,
    tan: int,
    dx: DirectionX,
    dy: DirectionY,
    wc: WorldCoords,
) -> Option<TilePosition> {
    if (dy == DirectionY::Down && tp.y == 0) || (dy == DirectionY::Up && tp.y + 1 == grid.rows) {
        None
    } else if dy == DirectionY::Parallel {
        None
    } else {
        let offy: int = if dy == DirectionY::Down {
            -(tp.rel_y as int)
        } else {
            grid.tile_size - tp.rel_y
        };
        norm_tile_spec(translated_spec(wc, fdiv_total_spec(offy, tan), offy), grid, dx, dy)
    }
}

/// The sum of a pending crossing and a step delta, saturating per field.
pub open spec fn stp_plus_spec(i: TilePosition, d: SignedTilePosition) -> SignedTilePosition {
    SignedTilePosition {
        x: sat_i64(i.x + d.x) as i64,
        y: sat_i64(i.y + d.y) as i64,
        rel_x: sat_fx(i.rel_x + d.rel_x) as i64,
        rel_y: sat_fx(i.rel_y + d.rel_y) as i64,
    }
}

/// One step along an axis: add the fixed delta, re-derive world
/// coordinates, normalize and validate.
pub open spec fn step_spec(grid: Grid, dx: DirectionX, dy: DirectionY, i: TilePosition,
    d: SignedTilePosition) -> Option<TilePosition> {
    let s = stp_plus_spec(i, d);
    let w = WorldCoords::of_signed_tile_position(s, grid.tile_size as int);
    norm_tile_spec(w, grid, dx, dy)
}

/// The successor of a pending slot: `None` stays `None`, otherwise one step.
pub open spec fn next_for_spec(grid: Grid, dx: DirectionX, dy: DirectionY,
    i: Option<TilePosition>, d: Option<SignedTilePosition>) -> Option<TilePosition> {
    match (i, d) {
        (Some(i), Some(d)) => step_spec(grid, dx, dy, i, d),
        _ => None,
    }
}

/// A crossing that may be stored in a pending slot: inside the grid, with
/// offsets no larger than one tile.
pub open spec fn tile_in_grid(p: TilePosition, grid: Grid) -> bool {
    &&& p.x < grid.cols
    &&& p.y < grid.rows
    &&& abs_int(p.rel_x as int) <= grid.tile_size
    &&& abs_int(p.rel_y as int) <= grid.tile_size
}

/// A valid ray origin: a cell of the grid with offsets inside the cell.
pub open spec fn origin_in_grid(p: TilePosition, grid: Grid) -> bool {
    &&& p.x < grid.cols
    &&& p.y < grid.rows
    &&& 0 <= p.rel_x < grid.tile_size
    &&& 0 <= p.rel_y < grid.tile_size
}

/// Normal form of a pending vertical-line crossing: on the leading edge
/// when travelling right, on the trailing edge when travelling left.
pub open spec fn x_normal(p: TilePosition, dx: DirectionX, ts: int) -> bool {
    if dx == DirectionX::Right {
        p.rel_x == 0
    } else if dx == DirectionX::Left {
        p.rel_x == ts
    } else {
        false
    }
}

/// Normal form of a pending horizontal-line crossing.
pub open spec fn y_normal(p: TilePosition, dy: DirectionY, ts: int) -> bool {
    if dy == DirectionY::Up {
        p.rel_y == 0
    } else if dy == DirectionY::Down {
        p.rel_y == ts
    } else {
        false
    }
}

/// Squared world-space distance from the ray origin to a pending crossing.
pub open spec fn tile_dsq(wc: WorldCoords, p: TilePosition, ts: int) -> int {
    let w = WorldCoords::of_tile_position(p, ts);
    (w.x - wc.x) * (w.x - wc.x) + (w.y - wc.y) * (w.y - wc.y)
}

/// Single-ray traversal state. `intersect_x` / `intersect_y` hold the next
/// unconsumed vertical- and horizontal-line crossings; the delta fields are
/// the fixed per-step advances of each axis.
#[derive(Clone, Copy, Debug)]
pub struct Ray {
    pub tan: i64,
    pub direction_x: DirectionX,
    pub direction_y: DirectionY,
    pub grid: Grid,
    pub intersect_x: Option<TilePosition>,
    pub intersect_y: Option<TilePosition>,
    pub delta_x_axis_intersect: Option<SignedTilePosition>,
    pub delta_y_axis_intersect: Option<SignedTilePosition>,
    pub wc: WorldCoords,
    pub tp: TilePosition,
}

/// The ray state [`Ray::new`] builds.
pub open spec fn ray_make(grid: Grid, tp: TilePosition, angle: AngleRad, tan: int) -> Ray {
    let a = clamp_spec(angle.0 as int);
    let dx = direction_x_spec(a);
    let dy = direction_y_spec(a);
    let wc = WorldCoords::of_tile_position(tp, grid.tile_size as int);
    Ray {
        tan: tan as i64,
        direction_x: dx,
        direction_y: dy,
        grid,
        intersect_x: initial_x_spec(grid, tp, tan, dx, dy, wc),
        intersect_y: initial_y_spec(grid, tp, tan, dx, dy, wc),
        delta_x_axis_intersect: x_delta_spec(grid, tan, dx),
        delta_y_axis_intersect: y_delta_spec(grid, tan, dy),
        wc,
        tp,
    }
}

impl Ray {
    /// Well-formedness of everything except the pending slots.
    pub open spec fn core_wf(&self) -> bool {
        &&& self.grid.wf()
        &&& self.tp.wf()
        &&& origin_in_grid(self.tp, self.grid)
        &&& self.wc == WorldCoords::of_tile_position(self.tp, self.grid.tile_size as int)
        &&& self.delta_x_axis_intersect == x_delta_spec(self.grid, self.tan as int,
            self.direction_x)
        &&& self.delta_y_axis_intersect == y_delta_spec(self.grid, self.tan as int,
            self.direction_y)
    }

    /// Well-formedness of a pending slot: a stored crossing is in the grid
    /// and in the normal form of its axis and direction.
    pub open spec fn pending_wf(&self) -> bool {
        &&& (self.intersect_x matches Some(p) ==> tile_in_grid(p, self.grid) && x_normal(
            p,
            self.direction_x,
            self.grid.tile_size as int,
        ) && p.wf())
        &&& (self.intersect_y matches Some(p) ==> tile_in_grid(p, self.grid) && y_normal(
            p,
            self.direction_y,
            self.grid.tile_size as int,
        ) && p.wf())
    }

    /// Full traversal-state invariant.
    pub open spec fn wf(&self) -> bool {
        self.core_wf() && self.pending_wf()
    }

    /// Crossings this axis can still produce before the traversal leaves
    /// the grid horizontally.
    pub open spec fn x_measure(&self) -> int {
        match self.intersect_x {
            Option::None => 0,
            Option::Some(p) => 1 + if self.direction_x == DirectionX::Right {
                self.grid.cols - p.x
            } else {
                p.x + 1
            },
        }
    }

    /// Crossings this axis can still produce before the traversal leaves
    /// the grid vertically.
    pub open spec fn y_measure(&self) -> int {
        match self.intersect_y {
            Option::None => 0,
            Option::Some(p) => 1 + if self.direction_y == DirectionY::Up {
                self.grid.rows - p.y
            } else {
                p.y + 1
            },
        }
    }

    /// Upper bound on the crossings the traversal can still produce.
    pub open spec fn measure(&self) -> int {
        self.x_measure() + self.y_measure()
    }

    /// The invariant keeps the step measure non-negative.
    pub proof fn lemma_measure_nonneg(&self)
        requires
            self.wf(),
        ensures
            0 <= self.x_measure(),
            0 <= self.y_measure(),
            0 <= self.measure(),
    {
    }
}

/// Snapping and adjusting keeps the offset within one tile, moves the tile
/// index by at most one, and moves the described world point by at most the
/// snap tolerance.
proof fn lemma_snap_adjust_props(tile: int, rel: int, ts: int, low: bool)
    requires
        2 * ZERO_EPS < ts,
        abs_int(rel) < ts,
    ensures
        ({
            let r = snap_adjust(tile, rel, ts, low);
            &&& abs_int(r.1) <= ts
            &&& abs_int(r.0 - tile) <= 2
            &&& abs_int(r.0 * ts + r.1 - (tile * ts + rel)) <= ZERO_EPS
        }),
{
    let s = snap_comp(tile, rel, ts);
    let r = snap_adjust(tile, rel, ts, low);
    assert((tile + 1) * ts == tile * ts + ts) by (nonlinear_arith);
    assert((tile - 1) * ts == tile * ts - ts) by (nonlinear_arith);
    assert((tile - 2) * ts == tile * ts - 2 * ts) by (nonlinear_arith);
    if low && s.1 == 0 {
        assert(r == (s.0 - 1, ts as int));
        assert((s.0 - 1) * ts == s.0 * ts - ts) by (nonlinear_arith);
    } else {
        assert(r == s);
    }
}

/// A world point exactly on a grid line normalizes to that line's leading
/// cell going high, and to the previous cell's trailing edge going low.
proof fn lemma_norm_comp_line(k: int, ts: int)
    requires
        2 * ZERO_EPS < ts,
    ensures
        norm_comp(k * ts, ts, false) == (k, 0int),
        norm_comp(k * ts, ts, true) == (k - 1, ts),
{
    crate::fixed::lemma_trunc_div_multiple(k, ts);
}

/// A normalized, validated tile position lies in the grid with offsets
/// within one tile.
proof fn lemma_norm_tile_in_grid(wc: WorldCoords, grid: Grid, dx: DirectionX, dy: DirectionY)
    requires
        grid.wf(),
    ensures
        norm_tile_spec(wc, grid, dx, dy) matches Some(p) ==> tile_in_grid(p, grid) && p.wf(),
{
    let ts = grid.tile_size as int;
    crate::fixed::lemma_trunc_div_multiple(0, ts);
    vstd::arithmetic::div_mod::lemma_fundamental_div_mod(wc.x as int, ts);
    assert(abs_int(trunc_rem(wc.x as int, ts)) < ts) by {
        lemma_trunc_rem_bound(wc.x as int, ts);
    }
    assert(abs_int(trunc_rem(wc.y as int, ts)) < ts) by {
        lemma_trunc_rem_bound(wc.y as int, ts);
    }
    lemma_snap_adjust_props(
        trunc_div(wc.x as int, ts),
        trunc_rem(wc.x as int, ts),
        ts,
        dx == DirectionX::Left,
    );
    lemma_snap_adjust_props(
        trunc_div(wc.y as int, ts),
        trunc_rem(wc.y as int, ts),
        ts,
        dy == DirectionY::Down,
    );
}

/// The truncating remainder is smaller in magnitude than the divisor.
proof fn lemma_trunc_rem_bound(a: int, d: int)
    requires
        0 < d,
    ensures
        abs_int(trunc_rem(a, d)) < d,
        abs_int(trunc_div(a, d)) <= abs_int(a),
        a >= 0 ==> trunc_rem(a, d) >= 0 && trunc_div(a, d) >= 0,
        a <= 0 ==> trunc_rem(a, d) <= 0 && trunc_div(a, d) <= 0,
{
    let m = abs_int(a);
    vstd::arithmetic::div_mod::lemma_fundamental_div_mod(m, d);
    vstd::arithmetic::div_mod::lemma_mod_bound(m, d);
    assert(m / d <= m) by {
        vstd::arithmetic::div_mod::lemma_div_is_ordered_by_denominator(m, 1, d);
        vstd::arithmetic::div_mod::lemma_div_by_self(1);
    }
    assert(m / d >= 0) by {
        vstd::arithmetic::div_mod::lemma_div_pos_is_pos(m, d);
    }
    assert(d * (m / d) == (m / d) * d) by (nonlinear_arith);
    if a >= 0 {
        assert(trunc_rem(a, d) == a - (a / d) * d);
        assert(a - (a / d) * d == a % d);
    } else {
        crate::fixed::lemma_neg_mul(m / d, d);
        assert(trunc_div(a, d) == -(m / d));
        assert(trunc_rem(a, d) == a + (m / d) * d);
        assert(a + (m / d) * d == -(m % d));
    }
}

/// Axis-parallel degeneracy: a well-formed traversal state whose direction
/// is parallel to an axis holds no pending crossing for that axis, at
/// construction and after every step, since both preserve well-formedness.
pub proof fn lemma_axis_parallel_degeneracy(r: Ray)
    requires
        r.wf(),
    ensures
        r.direction_x == DirectionX::Parallel ==> r.intersect_x is None,
        r.direction_y == DirectionY::Parallel ==> r.intersect_y is None,
{
}

/// The per-step delta of the vertical-crossing axis moves exactly one tile
/// horizontally and stays within bounds elsewhere.
proof fn lemma_x_delta_wf(grid: Grid, tan: int, dx: DirectionX)
    requires
        grid.wf(),
    ensures
        x_delta_spec(grid, tan, dx) matches Some(d) ==> {
            &&& d.x == if dx == DirectionX::Right {
                1int
            } else {
                -1int
            }
            &&& d.rel_x == 0
            &&& abs_int(d.y as int) <= FX_SAT
            &&& abs_int(d.rel_y as int) < grid.tile_size
            &&& d.wf()
        },
{
    if dx != DirectionX::Parallel {
        let ts = grid.tile_size as int;
        assert(ts == 1 * ts) by (nonlinear_arith);
        assert(-ts == (-1) * ts) by (nonlinear_arith);
        crate::fixed::lemma_trunc_div_multiple(1, ts);
        crate::fixed::lemma_trunc_div_multiple(-1, ts);
        let dyw = fmul_spec(tan, if dx == DirectionX::Right { ts } else { -ts });
        lemma_trunc_rem_bound(dyw, ts);
    }
}

/// The per-step delta of the horizontal-crossing axis moves exactly one
/// tile vertically and stays within bounds elsewhere.
proof fn lemma_y_delta_wf(grid: Grid, tan: int, dy: DirectionY)
    requires
        grid.wf(),
    ensures
        y_delta_spec(grid, tan, dy) matches Some(d) ==> {
            &&& d.y == if dy == DirectionY::Up {
                1int
            } else {
                -1int
            }
            &&& d.rel_y == 0
            &&& abs_int(d.x as int) <= FX_SAT
            &&& abs_int(d.rel_x as int) < grid.tile_size
            &&& d.wf()
        },
{
    if dy != DirectionY::Parallel {
        let ts = grid.tile_size as int;
        assert(ts == 1 * ts) by (nonlinear_arith);
        assert(-ts == (-1) * ts) by (nonlinear_arith);
        crate::fixed::lemma_trunc_div_multiple(1, ts);
        crate::fixed::lemma_trunc_div_multiple(-1, ts);
        let dxw = fdiv_total_spec(if dy == DirectionY::Up { ts } else { -ts }, tan);
        lemma_trunc_rem_bound(dxw, ts);
    }
}

/// Products of a tile count within the grid and the tile size stay within
/// the grid extent.
proof fn lemma_tile_mul_in_extent(k: int, ts: int, count: int, extent: int)
    by (nonlinear_arith)
    requires
        0 < ts,
        0 <= count,
        -1 <= k <= count,
        count * ts <= extent,
    ensures
        -ts <= k * ts <= extent,
        k * ts == ts * k,
        (k + 1) * ts == k * ts + ts,
{
}

/// Monotone advance, vertical crossings: stepping the pending
/// vertical-line crossing of a well-formed ray moves it exactly one column
/// farther in the travel direction (or off the grid), and keeps it
/// normalized; successive crossings of this axis therefore lie on strictly
/// advancing grid lines.
pub proof fn lemma_step_x(r: Ray, p: TilePosition)
    requires
        r.wf(),
        r.intersect_x == Some(p),
    ensures
        next_for_spec(
            r.grid,
            r.direction_x,
            r.direction_y,
            r.intersect_x,
            r.delta_x_axis_intersect,
        ) matches Some(q) ==> {
            &&& tile_in_grid(q, r.grid)
            &&& q.wf()
            &&& x_normal(q, r.direction_x, r.grid.tile_size as int)
            &&& (r.direction_x == DirectionX::Right ==> q.x == p.x + 1)
            &&& (r.direction_x == DirectionX::Left ==> q.x == p.x - 1)
        },
{
    let ts = r.grid.tile_size as int;
    lemma_x_delta_wf(r.grid, r.tan as int, r.direction_x);
    let d = r.delta_x_axis_intersect->Some_0;
    let s = stp_plus_spec(p, d);
    let w = WorldCoords::of_signed_tile_position(s, ts);
    lemma_norm_tile_in_grid(w, r.grid, r.direction_x, r.direction_y);
    if r.direction_x == DirectionX::Right {
        lemma_tile_mul_in_extent(p.x + 1, ts, r.grid.cols as int, crate::grid::GRID_EXTENT_MAX as int);
        assert(s.x == p.x + 1);
        assert(s.rel_x == 0);
        assert(w.x == (p.x + 1) * ts);
        lemma_norm_comp_line(p.x + 1, ts);
    } else {
        assert(r.direction_x == DirectionX::Left);
        lemma_tile_mul_in_extent(p.x - 1, ts, r.grid.cols as int, crate::grid::GRID_EXTENT_MAX as int);
        lemma_tile_mul_in_extent(p.x as int, ts, r.grid.cols as int, crate::grid::GRID_EXTENT_MAX as int);
        assert(s.x == p.x - 1);
        assert(s.rel_x == ts);
        assert(w.x == p.x * ts);
        lemma_norm_comp_line(p.x as int, ts);
    }
}

/// Monotone advance, horizontal crossings: stepping the pending
/// horizontal-line crossing of a well-formed ray moves it exactly one row
/// farther in the travel direction (or off the grid), and keeps it
/// normalized.
pub proof fn lemma_step_y(r: Ray, p: TilePosition)
    requires
        r.wf(),
        r.intersect_y == Some(p),
    ensures
        next_for_spec(
            r.grid,
            r.direction_x,
            r.direction_y,
            r.intersect_y,
            r.delta_y_axis_intersect,
        ) matches Some(q) ==> {
            &&& tile_in_grid(q, r.grid)
            &&& q.wf()
            &&& y_normal(q, r.direction_y, r.grid.tile_size as int)
            &&& (r.direction_y == DirectionY::Up ==> q.y == p.y + 1)
            &&& (r.direction_y == DirectionY::Down ==> q.y == p.y - 1)
        },
{
    let ts = r.grid.tile_size as int;
    lemma_y_delta_wf(r.grid, r.tan as int, r.direction_y);
    let d = r.delta_y_axis_intersect->Some_0;
    let s = stp_plus_spec(p, d);
    let w = WorldCoords::of_signed_tile_position(s, ts);
    lemma_norm_tile_in_grid(w, r.grid, r.direction_x, r.direction_y);
    if r.direction_y == DirectionY::Up {
        lemma_tile_mul_in_extent(p.y + 1, ts, r.grid.rows as int, crate::grid::GRID_EXTENT_MAX as int);
        assert(s.y == p.y + 1);
        assert(s.rel_y == 0);
        assert(w.y == (p.y + 1) * ts);
        lemma_norm_comp_line(p.y + 1, ts);
    } else {
        assert(r.direction_y == DirectionY::Down);
        lemma_tile_mul_in_extent(p.y - 1, ts, r.grid.rows as int, crate::grid::GRID_EXTENT_MAX as int);
        lemma_tile_mul_in_extent(p.y as int, ts, r.grid.rows as int, crate::grid::GRID_EXTENT_MAX as int);
        assert(s.y == p.y - 1);
        assert(s.rel_y == ts);
        assert(w.y == p.y * ts);
        lemma_norm_comp_line(p.y as int, ts);
    }
}

/// The initial vertical-line crossing of a well-formed construction is
/// normalized and adjacent to the origin's column.
proof fn lemma_initial_x(grid: Grid, tp: TilePosition, tan: int, dx: DirectionX, dy: DirectionY,
    wc: WorldCoords)
    requires
        grid.wf(),
        tp.wf(),
        origin_in_grid(tp, grid),
        wc == WorldCoords::of_tile_position(tp, grid.tile_size as int),
    ensures
        initial_x_spec(grid, tp, tan, dx, dy, wc) matches Some(q) ==> {
            let ts = grid.tile_size as int;
            &&& tile_in_grid(q, grid)
            &&& q.wf()
            &&& x_normal(q, dx, ts)
            &&& (dx == DirectionX::Right ==> q.x == tp.x + 1)
            &&& (dx == DirectionX::Left ==> q.x == tp.x - 1)
            &&& abs_int(wy_of(q, ts) - (wc.y + fmul_spec(tan, init_offx_spec(grid, tp, dx))))
                <= ZERO_EPS
        },
{
    let ts = grid.tile_size as int;
    lemma_tile_mul_in_extent(tp.x as int, ts, grid.cols as int, crate::grid::GRID_EXTENT_MAX as int);
    lemma_tile_mul_in_extent(tp.x + 1, ts, grid.cols as int, crate::grid::GRID_EXTENT_MAX as int);
    assert(wc.x == tp.x * ts + tp.rel_x);
    if initial_x_spec(grid, tp, tan, dx, dy, wc) is Some {
        let q = initial_x_spec(grid, tp, tan, dx, dy, wc)->Some_0;
        let offx = init_offx_spec(grid, tp, dx);
        let dyw0 = fmul_spec(tan, offx);
        let w = translated_spec(wc, offx, dyw0);
        if dx == DirectionX::Right {
            assert(w.x == (tp.x + 1) * ts);
            lemma_norm_comp_line(tp.x + 1, ts);
        } else {
            assert(w.x == tp.x * ts);
            lemma_norm_comp_line(tp.x as int, ts);
        }
        lemma_norm_tile_in_grid(w, grid, dx, dy);
        lemma_tile_mul_in_extent(q.y as int, ts, grid.rows as int, crate::grid::GRID_EXTENT_MAX as int);
        lemma_trunc_rem_bound(w.y as int, ts);
        lemma_snap_adjust_props(
            trunc_div(w.y as int, ts),
            trunc_rem(w.y as int, ts),
            ts,
            dy == DirectionY::Down,
        );
        assert(trunc_div(w.y as int, ts) * ts + trunc_rem(w.y as int, ts) == w.y);
        assert(wy_of(q, ts) == norm_comp(w.y as int, ts, dy == DirectionY::Down).0 * ts
            + norm_comp(w.y as int, ts, dy == DirectionY::Down).1);
        assert(abs_int(wy_of(q, ts) - w.y) <= ZERO_EPS);
        assert(abs_int(wy_of(q, ts)) <= crate::grid::GRID_EXTENT_MAX + ts);
        assert(abs_int(w.y as int) < FX_SAT);
        lemma_sat_id(wc.y + dyw0);
    }
}

/// The initial horizontal-line crossing of a well-formed construction is
/// normalized and adjacent to the origin's row.
proof fn lemma_initial_y(grid: Grid, tp: TilePosition, tan: int, dx: DirectionX, dy: DirectionY,
    wc: WorldCoords)
    requires
        grid.wf(),
        tp.wf(),
        origin_in_grid(tp, grid),
        wc == WorldCoords::of_tile_position(tp, grid.tile_size as int),
    ensures
        initial_y_spec(grid, tp, tan, dx, dy, wc) matches Some(q) ==> {
            let ts = grid.tile_size as int;
            &&& tile_in_grid(q, grid)
            &&& q.wf()
            &&& y_normal(q, dy, ts)
            &&& (dy == DirectionY::Up ==> q.y == tp.y + 1)
            &&& (dy == DirectionY::Down ==> q.y == tp.y - 1)
            &&& abs_int(wx_of(q, ts) - (wc.x + fdiv_total_spec(init_offy_spec(grid, tp, dy),
                tan))) <= ZERO_EPS
        },
{
    let ts = grid.tile_size as int;
    lemma_tile_mul_in_extent(tp.y as int, ts, grid.rows as int, crate::grid::GRID_EXTENT_MAX as int);
    lemma_tile_mul_in_extent(tp.y + 1, ts, grid.rows as int, crate::grid::GRID_EXTENT_MAX as int);
    assert(wc.y == tp.y * ts + tp.rel_y);
    if initial_y_spec(grid, tp, tan, dx, dy, wc) is Some {
        let q = initial_y_spec(grid, tp, tan, dx, dy, wc)->Some_0;
        let offy = init_offy_spec(grid, tp, dy);
        let dxw0 = fdiv_total_spec(offy, tan);
        let w = translated_spec(wc, dxw0, offy);
        if dy == DirectionY::Up {
            assert(w.y == (tp.y + 1) * ts);
            lemma_norm_comp_line(tp.y + 1, ts);
        } else {
            assert(w.y == tp.y * ts);
            lemma_norm_comp_line(tp.y as int, ts);
        }
        lemma_norm_tile_in_grid(w, grid, dx, dy);
        lemma_tile_mul_in_extent(q.x as int, ts, grid.cols as int, crate::grid::GRID_EXTENT_MAX as int);
        lemma_trunc_rem_bound(w.x as int, ts);
        lemma_snap_adjust_props(
            trunc_div(w.x as int, ts),
            trunc_rem(w.x as int, ts),
            ts,
            dx == DirectionX::Left,
        );
        assert(trunc_div(w.x as int, ts) * ts + trunc_rem(w.x as int, ts) == w.x);
        assert(wx_of(q, ts) == norm_comp(w.x as int, ts, dx == DirectionX::Left).0 * ts
            + norm_comp(w.x as int, ts, dx == DirectionX::Left).1);
        assert(abs_int(wx_of(q, ts) - w.x) <= ZERO_EPS);
        assert(abs_int(wx_of(q, ts)) <= crate::grid::GRID_EXTENT_MAX + ts);
        assert(abs_int(w.x as int) < FX_SAT);
        lemma_sat_id(wc.x + dxw0);
    }
}

impl Ray {
    /// Normalize one axis component that has already been decomposed into
    /// tile and offset.
    pub(crate) fn normalize_comp(tile: i64, rel: i64, ts: i64, low: bool) -> (r: (i64, i64))
        requires
            2 * ZERO_EPS < ts <= crate::grid::TILE_SIZE_MAX,
            abs_int(rel as int) < ts,
            abs_int(tile as int) <= FX_SAT,
        ensures
            r.0 == snap_adjust(tile as int, rel as int, ts as int, low).0,
            r.1 == snap_adjust(tile as int, rel as int, ts as int, low).1,
    {
        let (t1, r1): (i64, i64) = if rel >= ts - ZERO_EPS {
            (tile + 1, 0)
        } else if rel <= -(ts - ZERO_EPS) {
            (tile - 1, 0)
        } else if -ZERO_EPS < rel && rel < ZERO_EPS {
            (tile, 0)
        } else {
            (tile, rel)
        };
        if low && r1 == 0 {
            (t1 - 1, ts)
        } else {
            (t1, r1)
        }
    }

    /// Decompose a world point, normalize both components, and validate the
    /// result against the grid bounds.
    fn normalized_valid_tile_position(&self, wc: &WorldCoords) -> (r: Option<TilePosition>)
        requires
            self.grid.wf(),
            wc.tile_size == self.grid.tile_size,
            wc.wf(),
        ensures
            r == norm_tile_spec(*wc, self.grid, self.direction_x, self.direction_y),
            r matches Some(p) ==> tile_in_grid(p, self.grid) && p.wf(),
    {
        let ts: i64 = self.grid.tile_size;
        let stp = wc.to_signed_tile_position();
        let (nx, rx) = Self::normalize_comp(
            stp.x,
            stp.rel_x,
            ts,
            self.direction_x == DirectionX::Left,
        );
        let (ny, ry) = Self::normalize_comp(
            stp.y,
            stp.rel_y,
            ts,
            self.direction_y == DirectionY::Down,
        );
        proof {
            lemma_norm_tile_in_grid(*wc, self.grid, self.direction_x, self.direction_y);
        }
        if 0 <= nx && nx <= (u32::MAX as i64) && 0 <= ny && ny <= (u32::MAX as i64) && nx
            < (self.grid.cols as i64) && ny < (self.grid.rows as i64) {
            Some(TilePosition { x: nx as u32, y: ny as u32, rel_x: rx, rel_y: ry })
        } else {
            None
        }
    }

    /// Build the fixed per-step delta from its world-space components:
    /// decompose and collapse near-zero offsets.
    fn delta_for(tile_size: i64, dxw: i64, dyw: i64) -> (r: SignedTilePosition)
        requires
            2 * ZERO_EPS < tile_size <= crate::grid::TILE_SIZE_MAX,
            in_fx(dxw as int),
            in_fx(dyw as int),
        ensures
            r == delta_of_world(dxw as int, dyw as int, tile_size as int),
    {
        let wcd = WorldCoords::new(dxw, dyw, tile_size);
        let stp = wcd.to_signed_tile_position();
        let rel_x: i64 = if fx_equal(stp.rel_x, 0) {
            0
        } else {
            stp.rel_x
        };
        let rel_y: i64 = if fx_equal(stp.rel_y, 0) {
            0
        } else {
            stp.rel_y
        };
        SignedTilePosition { x: stp.x, y: stp.y, rel_x, rel_y }
    }

    /// The first vertical-line crossing reachable from the origin, or
    /// `None` when the ray is vertically parallel or the origin's column is
    /// the last one in its direction of travel.
    fn initial_x_intersect(&self) -> (r: Option<TilePosition>)
        requires
            self.core_wf(),
        ensures
            r == initial_x_spec(
                self.grid,
                self.tp,
                self.tan as int,
                self.direction_x,
                self.direction_y,
                self.wc,
            ),
            r matches Some(p) ==> tile_in_grid(p, self.grid) && p.wf() && x_normal(
                p,
                self.direction_x,
                self.grid.tile_size as int,
            ),
    {
        proof {
            lemma_initial_x(
                self.grid,
                self.tp,
                self.tan as int,
                self.direction_x,
                self.direction_y,
                self.wc,
            );
        }
        if (self.direction_x == DirectionX::Left && self.tp.x == 0) || (self.direction_x
            == DirectionX::Right && self.tp.x + 1 == self.grid.cols) {
            return None;
        }
        let offx: i64 = match self.direction_x {
            DirectionX::Left => -self.tp.rel_x,
            DirectionX::Right => self.grid.tile_size - self.tp.rel_x,
            DirectionX::Parallel => {
                return None;
            },
        };
        let offy: i64 = fmul(self.tan, offx);
        let wc = self.wc.translated(offx, offy);
        self.normalized_valid_tile_position(&wc)
    }

    /// The first horizontal-line crossing reachable from the origin.
    fn initial_y_intersect(&self) -> (r: Option<TilePosition>)
        requires
            self.core_wf(),
        ensures
            r == initial_y_spec(
                self.grid,
                self.tp,
                self.tan as int,
                self.direction_x,
                self.direction_y,
                self.wc,
            ),
            r matches Some(p) ==> tile_in_grid(p, self.grid) && p.wf() && y_normal(
                p,
                self.direction_y,
                self.grid.tile_size as int,
            ),
    {
        proof {
            lemma_initial_y(
                self.grid,
                self.tp,
                self.tan as int,
                self.direction_x,
                self.direction_y,
                self.wc,
            );
        }
        if (self.direction_y == DirectionY::Down && self.tp.y == 0) || (self.direction_y
            == DirectionY::Up && self.tp.y + 1 == self.grid.rows) {
            return None;
        }
        let offy: i64 = match self.direction_y {
            DirectionY::Up => self.grid.tile_size - self.tp.rel_y,
            DirectionY::Down => -self.tp.rel_y,
            DirectionY::Parallel => {
                return None;
            },
        };
        let offx: i64 = fdiv(offy, self.tan);
        let wc = self.wc.translated(offx, offy);
        self.normalized_valid_tile_position(&wc)
    }

    /// Build a ray: classify the clamped angle, compute the fixed per-step
    /// deltas and the two initial pending crossings. The tangent of the
    /// angle enters as a plain fixed-point input.
    pub fn new(grid: Grid, tp: TilePosition, angle: &AngleRad, tan: i64) -> (r: Self)
        requires
            grid.wf(),
            tp.wf(),
            origin_in_grid(tp, grid),
        ensures
            r == ray_make(grid, tp, *angle, tan as int),
            r.wf(),
    {
        let ts: i64 = grid.tile_size;
        let wc = WorldCoords::from_tile_position(&tp, ts);
        proof {
            lemma_tile_mul_in_extent(
                tp.x as int,
                ts as int,
                grid.cols as int,
                crate::grid::GRID_EXTENT_MAX as int,
            );
            lemma_tile_mul_in_extent(
                tp.y as int,
                ts as int,
                grid.rows as int,
                crate::grid::GRID_EXTENT_MAX as int,
            );
        }
        let a = angle.clamp();
        let direction_x = DirectionX::from_angle(&a);
        let direction_y = DirectionY::from_angle(&a);

        let delta_x: Option<SignedTilePosition> = match direction_x {
            DirectionX::Parallel => None,
            _ => {
                let dxw: i64 = if direction_x == DirectionX::Right {
                    ts
                } else {
                    -ts
                };
                let dyw: i64 = fmul(tan, dxw);
                Some(Self::delta_for(ts, dxw, dyw))
            },
        };
        let delta_y: Option<SignedTilePosition> = match direction_y {
            DirectionY::Parallel => None,
            _ => {
                let dyw: i64 = if direction_y == DirectionY::Up {
                    ts
                } else {
                    -ts
                };
                let dxw: i64 = fdiv(dyw, tan);
                Some(Self::delta_for(ts, dxw, dyw))
            },
        };

        let mut me = Ray {
            grid,
            tp,
            wc,
            tan,
            direction_x,
            direction_y,
            intersect_x: None,
            intersect_y: None,
            delta_x_axis_intersect: delta_x,
            delta_y_axis_intersect: delta_y,
        };
        let ix = me.initial_x_intersect();
        let iy = me.initial_y_intersect();
        me.intersect_x = ix;
        me.intersect_y = iy;
        me
    }

    /// The successor of a pending slot: add the fixed delta, re-derive
    /// world coordinates, normalize and validate.
    fn next_intersect_for(&self, intersect: &Option<TilePosition>,
        delta: &Option<SignedTilePosition>) -> (r: Option<TilePosition>)
        requires
            self.grid.wf(),
            intersect matches Some(p) ==> p.wf(),
            delta matches Some(d) ==> d.wf(),
        ensures
            r == next_for_spec(self.grid, self.direction_x, self.direction_y, *intersect, *delta),
            r matches Some(p) ==> tile_in_grid(p, self.grid) && p.wf(),
    {
        match (intersect, delta) {
            (Some(i), Some(d)) => {
                let stp = i.plus(d);
                let wc = WorldCoords::from_signed_tile_position(&stp, self.grid.tile_size);
                self.normalized_valid_tile_position(&wc)
            },
            _ => None,
        }
    }

    /// Emit the pending crossing nearer to the origin (the horizontal one
    /// on a tie) and advance only that axis; `None` when both axes are
    /// exhausted.
    pub fn next_intersect(&mut self) -> (r: Option<TilePosition>)
        requires
            old(self).wf(),
        ensures
            final(self).wf(),
            final(self).tan == old(self).tan,
            final(self).grid == old(self).grid,
            final(self).direction_x == old(self).direction_x,
            final(self).direction_y == old(self).direction_y,
            final(self).delta_x_axis_intersect == old(self).delta_x_axis_intersect,
            final(self).delta_y_axis_intersect == old(self).delta_y_axis_intersect,
            final(self).wc == old(self).wc,
            final(self).tp == old(self).tp,
            chooses_x(*old(self)) ==> r == old(self).intersect_x && final(self).intersect_y == old(
                self,
            ).intersect_y && final(self).intersect_x == next_for_spec(
                old(self).grid,
                old(self).direction_x,
                old(self).direction_y,
                old(self).intersect_x,
                old(self).delta_x_axis_intersect,
            ),
            chooses_y(*old(self)) ==> r == old(self).intersect_y && final(self).intersect_x == old(
                self,
            ).intersect_x && final(self).intersect_y == next_for_spec(
                old(self).grid,
                old(self).direction_x,
                old(self).direction_y,
                old(self).intersect_y,
                old(self).delta_y_axis_intersect,
            ),
            !chooses_x(*old(self)) && !chooses_y(*old(self)) ==> r is None && *final(self) == *old(self),
            r is Some ==> final(self).measure() < old(self).measure(),
            r is None ==> *final(self) == *old(self),
            r matches Some(p) ==> tile_in_grid(p, old(self).grid) && p.wf(),
    {
        let ghost pre = *self;
        let take_x: bool = match (&self.intersect_x, &self.intersect_y) {
            (None, None) => {
                return None;
            },
            (None, Some(_)) => false,
            (Some(_), None) => true,
            (Some(tpx), Some(tpy)) => {
                let wx = WorldCoords::from_tile_position(tpx, self.grid.tile_size);
                let wy = WorldCoords::from_tile_position(tpy, self.grid.tile_size);
                let dx: u128 = dist_sq(wx.x, wx.y, self.wc.x, self.wc.y);
                let dy: u128 = dist_sq(wy.x, wy.y, self.wc.x, self.wc.y);
                dx < dy
            },
        };
        if take_x {
            let next = self.intersect_x;
            proof {
                lemma_step_x(pre, pre.intersect_x->Some_0);
                lemma_x_delta_wf(pre.grid, pre.tan as int, pre.direction_x);
            }
            self.intersect_x = self.next_intersect_for(
                &self.intersect_x,
                &self.delta_x_axis_intersect,
            );
            next
        } else {
            let next = self.intersect_y;
            proof {
                lemma_step_y(pre, pre.intersect_y->Some_0);
                lemma_y_delta_wf(pre.grid, pre.tan as int, pre.direction_y);
            }
            self.intersect_y = self.next_intersect_for(
                &self.intersect_y,
                &self.delta_y_axis_intersect,
            );
            next
        }
    }
}

/// Horizontal travel sign: negative toward lower columns.
pub open spec fn sign_x(d: DirectionX) -> int {
    if d == DirectionX::Left {
        -1int
    } else {
        1int
    }
}

/// Vertical travel sign: negative toward lower rows; an axis-parallel ray's
/// vertical movement stays within the snapping noise, counted as positive.
pub open spec fn sign_y(d: DirectionY) -> int {
    if d == DirectionY::Down {
        -1int
    } else {
        1int
    }
}

/// Exact world x of a crossing (valid while the saturation bounds hold,
/// which they do inside a well-formed grid).
pub open spec fn wx_of(p: TilePosition, ts: int) -> int {
    ts * p.x + p.rel_x
}

/// Exact world y of a crossing.
pub open spec fn wy_of(p: TilePosition, ts: int) -> int {
    ts * p.y + p.rel_y
}

/// The caller-supplied tangent agrees with the classified directions: its
/// sign matches the quadrant, and for an axis-parallel ray the projected
/// step along the degenerate axis stays within the snapping tolerance.
pub open spec fn trig_consistent(r: Ray) -> bool {
    let ts = r.grid.tile_size as int;
    &&& (r.direction_x != DirectionX::Parallel && r.direction_y != DirectionY::Parallel
        ==> sign_x(r.direction_x) * sign_y(r.direction_y) * r.tan >= 0)
    &&& (r.direction_y == DirectionY::Parallel ==> abs_int(fmul_spec(r.tan as int, ts))
        <= ZERO_EPS)
    &&& (r.direction_x == DirectionX::Parallel ==> abs_int(fdiv_total_spec(ts, r.tan as int))
        <= ZERO_EPS && abs_int(fdiv_total_spec(-ts, r.tan as int)) <= ZERO_EPS)
}

/// Tile size coarse enough that the snapping tolerance, accumulated over a
/// whole traversal, cannot outweigh one tile of forward progress.
pub open spec fn mono_scale_ok(g: Grid) -> bool {
    g.tile_size >= 80 * (g.cols + g.rows + 4)
}

/// Progress invariant of the distance law: every pending crossing lies on
/// or ahead of the origin along its crossed axis, and at most the
/// accumulated snapping noise behind it along the other axis.
pub open spec fn mono_inv(r: Ray) -> bool {
    let ts = r.grid.tile_size as int;
    &&& (r.intersect_x matches Some(p) ==> {
        let steps = sign_x(r.direction_x) * (p.x - r.tp.x);
        &&& 1 <= steps <= r.grid.cols
        &&& sign_x(r.direction_x) * (wx_of(p, ts) - r.wc.x) >= 0
        &&& sign_y(r.direction_y) * (wy_of(p, ts) - r.wc.y) >= -3 * ZERO_EPS * steps
    })
    &&& (r.intersect_y matches Some(p) ==> {
        let steps = sign_y(r.direction_y) * (p.y - r.tp.y);
        &&& 1 <= steps <= r.grid.rows
        &&& sign_y(r.direction_y) * (wy_of(p, ts) - r.wc.y) >= 0
        &&& sign_x(r.direction_x) * (wx_of(p, ts) - r.wc.x) >= -3 * ZERO_EPS * steps
    })
}

/// A saturated value strictly inside the saturation range was not clamped.
proof fn lemma_sat_id(z: int)
    ensures
        abs_int(sat_fx(z)) < FX_SAT ==> sat_fx(z) == z,
{
}

/// Magnitude and monotonicity of the rounding division, and of the scaled
/// product built on it.
proof fn lemma_dha_abs_mono(u: int, v: int, d: int)
    requires
        0 < d,
        0 <= u <= v,
    ensures
        0 <= crate::fixed::div_half_away(u, d) <= crate::fixed::div_half_away(v, d),
{
    vstd::arithmetic::div_mod::lemma_div_pos_is_pos(u + d / 2, d);
    vstd::arithmetic::div_mod::lemma_div_is_ordered(u + d / 2, v + d / 2, d);
}

/// The rounding division is odd: negating the dividend negates the result;
/// hence the magnitude of a product depends only on the factors' magnitudes.
proof fn lemma_dha_odd(a: int, d: int)
    requires
        0 < d,
    ensures
        crate::fixed::div_half_away(-a, d) == -crate::fixed::div_half_away(a, d),
        abs_int(crate::fixed::div_half_away(a, d)) == crate::fixed::div_half_away(
            abs_int(a),
            d,
        ),
{
    if a == 0 {
        vstd::arithmetic::div_mod::lemma_basic_div(d / 2, d);
    } else if a > 0 {
        vstd::arithmetic::div_mod::lemma_div_pos_is_pos(a + d / 2, d);
    } else {
        vstd::arithmetic::div_mod::lemma_div_pos_is_pos(-a + d / 2, d);
    }
}

/// Sign and magnitude facts about the fixed-point product: the product of
/// same-signed factors is non-negative, and shrinking one factor's
/// magnitude cannot grow the product's.
proof fn lemma_fmul_sign_mono(t: int, b: int, c: int)
    requires
        abs_int(b) <= abs_int(c),
    ensures
        t * b >= 0 ==> fmul_spec(t, b) >= 0,
        t * b <= 0 ==> fmul_spec(t, b) <= 0,
        abs_int(fmul_spec(t, b)) <= abs_int(fmul_spec(t, c)),
{
    let s = crate::fixed::SCALE as int;
    lemma_dha_odd(t * b, s);
    lemma_dha_odd(t * c, s);
    assert(abs_int(t * b) <= abs_int(t * c)) by (nonlinear_arith)
        requires
            abs_int(b) <= abs_int(c),
    ;
    lemma_dha_abs_mono(abs_int(t * b), abs_int(t * c), s);
    lemma_dha_abs_mono(0, abs_int(t * b), s);
}

/// The world point of one step along the vertical-crossing axis: the
/// crossed coordinate advances by exactly one tile, the other by the
/// tangent-projected step, up to twice the snapping tolerance.
proof fn lemma_step_x_world(r: Ray, p: TilePosition, q: TilePosition)
    requires
        r.wf(),
        r.intersect_x == Some(p),
        next_for_spec(
            r.grid,
            r.direction_x,
            r.direction_y,
            r.intersect_x,
            r.delta_x_axis_intersect,
        ) == Some(q),
    ensures
        ({
            let ts = r.grid.tile_size as int;
            let dyw = fmul_spec(r.tan as int, sign_x(r.direction_x) * ts);
            &&& wx_of(q, ts) == wx_of(p, ts) + sign_x(r.direction_x) * ts
            &&& abs_int(wy_of(q, ts) - wy_of(p, ts) - dyw) <= 2 * ZERO_EPS
            &&& tile_in_grid(q, r.grid)
            &&& q.wf()
            &&& x_normal(q, r.direction_x, ts)
            &&& sign_x(r.direction_x) * (q.x - p.x) == 1
        }),
{
    let ts = r.grid.tile_size as int;
    lemma_step_x(r, p);
    lemma_x_delta_wf(r.grid, r.tan as int, r.direction_x);
    let d = r.delta_x_axis_intersect->Some_0;
    let dxw: int = if r.direction_x == DirectionX::Right {
        ts
    } else {
        -ts
    };
    let dyw = fmul_spec(r.tan as int, dxw);
    assert(dxw == sign_x(r.direction_x) * ts) by (nonlinear_arith)
        requires
            dxw == if r.direction_x == DirectionX::Right {
                ts
            } else {
                -ts
            },
            sign_x(r.direction_x) == if r.direction_x == DirectionX::Left {
                -1int
            } else {
                1int
            },
            r.direction_x != DirectionX::Parallel,
    ;

    // Crossed coordinate: exactly one tile.
    if r.direction_x == DirectionX::Right {
        assert(wx_of(q, ts) == ts * (p.x + 1)) by (nonlinear_arith)
            requires
                q.x == p.x + 1,
                q.rel_x == 0,
                wx_of(q, ts) == ts * q.x + q.rel_x,
        ;
        assert(ts * (p.x + 1) == ts * p.x + ts) by (nonlinear_arith);
    } else {
        assert(wx_of(q, ts) == ts * (p.x - 1) + ts) by (nonlinear_arith)
            requires
                q.x == p.x - 1,
                q.rel_x == ts,
                wx_of(q, ts) == ts * q.x + q.rel_x,
        ;
        assert(ts * (p.x - 1) == ts * p.x - ts) by (nonlinear_arith);
    }

    // Delta's world y versus the tangent projection.
    let rem = trunc_rem(dyw, ts);
    lemma_trunc_rem_bound(dyw, ts);
    assert(ts * trunc_div(dyw, ts) == trunc_div(dyw, ts) * ts) by (nonlinear_arith);
    let wd = ts * (d.y as int) + d.rel_y;
    assert(abs_int(wd - dyw) < ZERO_EPS);

    // The summed position is exact: saturation cannot have clamped it,
    // since the result landed inside the grid.
    let s = stp_plus_spec(p, d);
    assert(s.y == p.y + d.y);
    assert(s.rel_y == p.rel_y + d.rel_y);
    let w = WorldCoords::of_signed_tile_position(s, ts);
    lemma_tile_mul_in_extent(q.y as int, ts, r.grid.rows as int, crate::grid::GRID_EXTENT_MAX as int);
    lemma_tile_mul_in_extent(p.y as int, ts, r.grid.rows as int, crate::grid::GRID_EXTENT_MAX as int);

    // The normalized result's world point is within tolerance of `w.y`.
    lemma_trunc_rem_bound(w.y as int, ts);
    lemma_snap_adjust_props(
        trunc_div(w.y as int, ts),
        trunc_rem(w.y as int, ts),
        ts,
        r.direction_y == DirectionY::Down,
    );
    assert(wy_of(q, ts) == norm_comp(w.y as int, ts, r.direction_y == DirectionY::Down).0 * ts
        + norm_comp(w.y as int, ts, r.direction_y == DirectionY::Down).1);
    assert(trunc_div(w.y as int, ts) * ts + trunc_rem(w.y as int, ts) == w.y);
    assert(abs_int(wy_of(q, ts) - w.y) <= ZERO_EPS);
    assert(abs_int(wy_of(q, ts)) <= crate::grid::GRID_EXTENT_MAX + ts);

    // Unwind the two saturations.
    assert(abs_int(w.y as int) < FX_SAT);
    let inner = sat_fx(ts * s.y);
    assert(w.y == sat_fx(inner + s.rel_y));
    lemma_sat_id(inner + s.rel_y);
    assert(abs_int(inner) < FX_SAT);
    lemma_sat_id(ts * s.y);
    assert(w.y == ts * (p.y + d.y) + p.rel_y + d.rel_y);
    assert(ts * (p.y + d.y) == ts * p.y + ts * d.y) by (nonlinear_arith);
    assert(w.y == wy_of(p, ts) + wd);
}

/// For an in-grid crossing the saturated world coordinates are exact and
/// bounded by the grid extent.
proof fn lemma_world_exact(p: TilePosition, grid: Grid)
    requires
        grid.wf(),
        tile_in_grid(p, grid),
    ensures
        ({
            let ts = grid.tile_size as int;
            let w = WorldCoords::of_tile_position(p, ts);
            &&& w.x == wx_of(p, ts)
            &&& w.y == wy_of(p, ts)
            &&& abs_int(wx_of(p, ts)) <= crate::grid::GRID_EXTENT_MAX + ts
            &&& abs_int(wy_of(p, ts)) <= crate::grid::GRID_EXTENT_MAX + ts
            &&& -(ts) <= wx_of(p, ts) <= grid.width + ts
            &&& -(ts) <= wy_of(p, ts) <= grid.height + ts
        }),
{
    let ts = grid.tile_size as int;
    lemma_tile_mul_in_extent(p.x as int, ts, grid.cols as int, grid.width as int);
    lemma_tile_mul_in_extent(p.y as int, ts, grid.rows as int, grid.height as int);
}

/// The distance inequality at the heart of the monotonicity law: one tile
/// of exact forward progress on the crossed axis outweighs both the
/// bounded backward noise and the sideways movement on the other axis.
proof fn lemma_mono_core(a: int, c: int, dd: int, ts: int, k: int, kk: int, hbound: int)
    requires
        a >= 0,
        ts > 0,
        1 <= k,
        k + 4 <= kk,
        ts >= 80 * kk,
        c >= -3 * ZERO_EPS * k,
        dd >= -3 * ZERO_EPS,
        -hbound <= c <= hbound,
        ts * ts > 72 * hbound,
    ensures
        2 * a * ts + ts * ts + 2 * c * dd + dd * dd > 0,
{
    assert(2 * a * ts >= 0) by (nonlinear_arith)
        requires
            a >= 0,
            ts > 0,
    ;
    if dd >= 0 {
        if c >= 0 {
            assert(2 * c * dd + dd * dd >= 0) by (nonlinear_arith)
                requires
                    c >= 0,
                    dd >= 0,
            ;
        } else {
            assert(2 * c * dd + dd * dd >= -(c * c)) by (nonlinear_arith);
            assert(c * c <= (36 * k) * (36 * k)) by (nonlinear_arith)
                requires
                    -36 * k <= c < 0,
            ;
            assert((36 * k) * (36 * k) < ts * ts) by (nonlinear_arith)
                requires
                    1 <= k,
                    k + 4 <= kk,
                    ts >= 80 * kk,
            ;
        }
    } else {
        assert(2 * c * dd >= -72 * hbound) by (nonlinear_arith)
            requires
                -36 <= dd < 0,
                -hbound <= c <= hbound,
        ;
        assert(dd * dd >= 0) by (nonlinear_arith);
    }
}

/// The scale condition turns the grid bounds into the two inequalities the
/// core argument needs.
proof fn lemma_mono_scale_facts(g: Grid)
    requires
        g.wf(),
        mono_scale_ok(g),
    ensures
        g.tile_size * g.tile_size > 72 * (g.width + g.height + 3 * g.tile_size),
{
    let ts = g.tile_size as int;
    assert(ts * ts >= 80 * (g.cols + g.rows + 4) * ts) by (nonlinear_arith)
        requires
            ts >= 80 * (g.cols + g.rows + 4),
            ts > 0,
    ;
    assert(80 * (g.cols + g.rows + 4) * ts == 80 * (g.cols as int) * ts + 80 * (g.rows as int)
        * ts + 320 * ts) by (nonlinear_arith);
    assert(80 * (g.cols as int) * ts >= 80 * g.width) by (nonlinear_arith)
        requires
            g.width == g.cols * g.tile_size,
            g.cols >= 1,
            ts == g.tile_size,
            ts > 0,
    ;
    assert(80 * (g.rows as int) * ts >= 80 * g.height) by (nonlinear_arith)
        requires
            g.height == g.rows * g.tile_size,
            g.rows >= 1,
            ts == g.tile_size,
            ts > 0,
    ;
    assert(g.width >= ts && g.height >= ts) by (nonlinear_arith)
        requires
            g.width == g.cols * g.tile_size,
            g.height == g.rows * g.tile_size,
            g.cols >= 1,
            g.rows >= 1,
            ts == g.tile_size,
            ts > 0,
    ;
}

/// Monotonic distance, vertical-crossing axis: under consistent
/// trigonometry and a coarse enough tile, stepping the pending
/// vertical-line crossing strictly increases its squared distance from the
/// origin, and the progress invariant carries to the new state.
pub proof fn lemma_mono_step_x(r: Ray)
    requires
        r.wf(),
        mono_inv(r),
        trig_consistent(r),
        mono_scale_ok(r.grid),
        r.intersect_x is Some,
    ensures
        ({
            let ts = r.grid.tile_size as int;
            let p = r.intersect_x->Some_0;
            let nxt = next_for_spec(
                r.grid,
                r.direction_x,
                r.direction_y,
                r.intersect_x,
                r.delta_x_axis_intersect,
            );
            &&& (nxt matches Some(q) ==> tile_dsq(r.wc, q, ts) > tile_dsq(r.wc, p, ts))
            &&& mono_inv(Ray { intersect_x: nxt, ..r })
        }),
{
    let ts = r.grid.tile_size as int;
    let p = r.intersect_x->Some_0;
    let sx = sign_x(r.direction_x);
    let sy = sign_y(r.direction_y);
    let nxt = next_for_spec(
        r.grid,
        r.direction_x,
        r.direction_y,
        r.intersect_x,
        r.delta_x_axis_intersect,
    );
    if nxt is Some {
        let q = nxt->Some_0;
        lemma_step_x_world(r, p, q);
        lemma_world_exact(p, r.grid);
        lemma_world_exact(q, r.grid);
        lemma_world_exact(r.tp, r.grid);
        lemma_mono_scale_facts(r.grid);

        let a0 = wx_of(p, ts) - r.wc.x;
        let c0 = wy_of(p, ts) - r.wc.y;
        let a = sx * a0;
        let c = sy * c0;
        let k = sx * (p.x - r.tp.x);
        let dxw = sx * ts;
        let dyw = fmul_spec(r.tan as int, dxw);
        let dtot = wy_of(q, ts) - wy_of(p, ts);
        let dd = sy * dtot;

        // Sideways movement is direction-aligned up to the tolerances.
        assert(-2 * ZERO_EPS <= dtot - dyw <= 2 * ZERO_EPS);
        if r.direction_y == DirectionY::Parallel {
            lemma_fmul_sign_mono(r.tan as int, dxw, ts);
            assert(-ZERO_EPS <= dyw <= ZERO_EPS);
            assert(dd >= -3 * ZERO_EPS) by (nonlinear_arith)
                requires
                    sy == 1,
                    -ZERO_EPS <= dyw <= ZERO_EPS,
                    -2 * ZERO_EPS <= dtot - dyw <= 2 * ZERO_EPS,
                    dd == sy * dtot,
            ;
        } else {
            assert((r.tan as int) * dxw * sy >= 0) by (nonlinear_arith)
                requires
                    sx * sy * r.tan >= 0,
                    dxw == sx * ts,
                    ts > 0,
                    sx == 1 || sx == -1,
                    sy == 1 || sy == -1,
            ;
            lemma_fmul_sign_mono(r.tan as int, dxw, dxw);
            assert(sy * dyw >= 0) by (nonlinear_arith)
                requires
                    sy == 1 || sy == -1,
                    (r.tan as int) * dxw * sy >= 0 ==> (sy == 1 ==> fmul_spec(r.tan as int, dxw)
                        >= 0) && (sy == -1 ==> fmul_spec(r.tan as int, dxw) <= 0),
                    (r.tan as int) * dxw * sy >= 0,
                    dyw == fmul_spec(r.tan as int, dxw),
            ;
            assert(dd >= -3 * ZERO_EPS) by (nonlinear_arith)
                requires
                    sy == 1 || sy == -1,
                    sy * dyw >= 0,
                    -2 * ZERO_EPS <= dtot - dyw <= 2 * ZERO_EPS,
                    dd == sy * dtot,
            ;
        }

        // The distance grows.
        let hb = r.grid.width + r.grid.height + 3 * ts;
        assert(-(r.grid.height + 2 * ts) <= c0 <= r.grid.height + 2 * ts);
        if sy == 1 {
            assert(c == c0) by (nonlinear_arith)
                requires
                    sy == 1,
                    c == sy * c0,
            ;
        } else {
            assert(c == -c0) by (nonlinear_arith)
                requires
                    sy == -1,
                    c == sy * c0,
            ;
        }
        assert(-hb <= c <= hb);
        lemma_mono_core(a, c, dd, ts, k, r.grid.cols + r.grid.rows + 4, hb);
        assert((a0 + sx * ts) * (a0 + sx * ts) == a0 * a0 + 2 * a * ts + ts * ts)
            by (nonlinear_arith)
            requires
                sx == 1 || sx == -1,
                a == sx * a0,
        ;
        assert((c0 + dtot) * (c0 + dtot) == c0 * c0 + 2 * c * dd + dd * dd)
            by (nonlinear_arith)
            requires
                sy == 1 || sy == -1,
                c == sy * c0,
                dd == sy * dtot,
        ;
        assert(wx_of(q, ts) - r.wc.x == a0 + sx * ts);
        assert(wy_of(q, ts) - r.wc.y == c0 + dtot);
        assert(tile_dsq(r.wc, q, ts) == (a0 + sx * ts) * (a0 + sx * ts) + (c0 + dtot) * (c0
            + dtot));
        assert(tile_dsq(r.wc, p, ts) == a0 * a0 + c0 * c0);

        // The invariant carries to the stepped crossing.
        assert(sx * (q.x - r.tp.x) == k + 1) by (nonlinear_arith)
            requires
                sx == 1 || sx == -1,
                sx * (q.x - p.x) == 1,
                k == sx * (p.x - r.tp.x),
        ;
        assert(sx * (wx_of(q, ts) - r.wc.x) == a + ts) by (nonlinear_arith)
            requires
                sx == 1 || sx == -1,
                wx_of(q, ts) == wx_of(p, ts) + sx * ts,
                a == sx * (wx_of(p, ts) - r.wc.x),
        ;
        assert(sy * (wy_of(q, ts) - r.wc.y) == c + dd) by (nonlinear_arith)
            requires
                sy == 1 || sy == -1,
                wy_of(q, ts) == wy_of(p, ts) + dtot,
                c == sy * (wy_of(p, ts) - r.wc.y),
                dd == sy * dtot,
        ;
        assert(c + dd >= -3 * ZERO_EPS * (k + 1)) by (nonlinear_arith)
            requires
                c >= -3 * ZERO_EPS * k,
                dd >= -3 * ZERO_EPS,
        ;
        if r.direction_x == DirectionX::Right {
            assert(sx * (q.x - r.tp.x) <= r.grid.cols);
        } else {
            assert(sx * (q.x - r.tp.x) <= r.grid.cols);
        }
    }
}

/// Sign and magnitude facts about the fixed-point quotient: the quotient of
/// same-signed operands is non-negative, and shrinking the dividend's
/// magnitude cannot grow the quotient's.
proof fn lemma_fdiv_sign_mono(a1: int, a2: int, t: int)
    requires
        abs_int(a1) <= abs_int(a2),
    ensures
        t != 0 && ((a1 < 0) == (t < 0)) ==> fdiv_total_spec(a1, t) >= 0,
        t != 0 && ((a1 < 0) != (t < 0)) ==> fdiv_total_spec(a1, t) <= 0,
        abs_int(fdiv_total_spec(a1, t)) <= abs_int(fdiv_total_spec(a2, t)),
{
    if t != 0 {
        let s = crate::fixed::SCALE as int;
        assert(abs_int(a1) * s <= abs_int(a2) * s) by (nonlinear_arith)
            requires
                abs_int(a1) <= abs_int(a2),
                s > 0,
        ;
        assert(abs_int(a1) * s >= 0) by (nonlinear_arith)
            requires
                abs_int(a1) >= 0,
                s > 0,
        ;
        lemma_dha_abs_mono(abs_int(a1) * s, abs_int(a2) * s, abs_int(t));
    }
}

/// The world point of one step along the horizontal-crossing axis.
proof fn lemma_step_y_world(r: Ray, p: TilePosition, q: TilePosition)
    requires
        r.wf(),
        r.intersect_y == Some(p),
        next_for_spec(
            r.grid,
            r.direction_x,
            r.direction_y,
            r.intersect_y,
            r.delta_y_axis_intersect,
        ) == Some(q),
    ensures
        ({
            let ts = r.grid.tile_size as int;
            let dxw = fdiv_total_spec(sign_y(r.direction_y) * ts, r.tan as int);
            &&& wy_of(q, ts) == wy_of(p, ts) + sign_y(r.direction_y) * ts
            &&& abs_int(wx_of(q, ts) - wx_of(p, ts) - dxw) <= 2 * ZERO_EPS
            &&& tile_in_grid(q, r.grid)
            &&& q.wf()
            &&& y_normal(q, r.direction_y, ts)
            &&& sign_y(r.direction_y) * (q.y - p.y) == 1
        }),
{
    let ts = r.grid.tile_size as int;
    lemma_step_y(r, p);
    lemma_y_delta_wf(r.grid, r.tan as int, r.direction_y);
    let d = r.delta_y_axis_intersect->Some_0;
    let dyw0: int = if r.direction_y == DirectionY::Up {
        ts
    } else {
        -ts
    };
    let dxw = fdiv_total_spec(dyw0, r.tan as int);
    assert(dyw0 == sign_y(r.direction_y) * ts) by (nonlinear_arith)
        requires
            dyw0 == if r.direction_y == DirectionY::Up {
                ts
            } else {
                -ts
            },
            sign_y(r.direction_y) == if r.direction_y == DirectionY::Down {
                -1int
            } else {
                1int
            },
            r.direction_y != DirectionY::Parallel,
    ;

    // Crossed coordinate: exactly one tile.
    if r.direction_y == DirectionY::Up {
        assert(wy_of(q, ts) == ts * (p.y + 1)) by (nonlinear_arith)
            requires
                q.y == p.y + 1,
                q.rel_y == 0,
                wy_of(q, ts) == ts * q.y + q.rel_y,
        ;
        assert(ts * (p.y + 1) == ts * p.y + ts) by (nonlinear_arith);
    } else {
        assert(wy_of(q, ts) == ts * (p.y - 1) + ts) by (nonlinear_arith)
            requires
                q.y == p.y - 1,
                q.rel_y == ts,
                wy_of(q, ts) == ts * q.y + q.rel_y,
        ;
        assert(ts * (p.y - 1) == ts * p.y - ts) by (nonlinear_arith);
    }

    // Delta's world x versus the tangent projection.
    let rem = trunc_rem(dxw, ts);
    lemma_trunc_rem_bound(dxw, ts);
    assert(ts * trunc_div(dxw, ts) == trunc_div(dxw, ts) * ts) by (nonlinear_arith);
    let wd = ts * (d.x as int) + d.rel_x;
    assert(abs_int(wd - dxw) < ZERO_EPS);

    // The summed position is exact: saturation cannot have clamped it.
    let s = stp_plus_spec(p, d);
    assert(s.x == p.x + d.x);
    assert(s.rel_x == p.rel_x + d.rel_x);
    let w = WorldCoords::of_signed_tile_position(s, ts);
    lemma_tile_mul_in_extent(q.x as int, ts, r.grid.cols as int, crate::grid::GRID_EXTENT_MAX as int);
    lemma_tile_mul_in_extent(p.x as int, ts, r.grid.cols as int, crate::grid::GRID_EXTENT_MAX as int);

    lemma_trunc_rem_bound(w.x as int, ts);
    lemma_snap_adjust_props(
        trunc_div(w.x as int, ts),
        trunc_rem(w.x as int, ts),
        ts,
        r.direction_x == DirectionX::Left,
    );
    assert(wx_of(q, ts) == norm_comp(w.x as int, ts, r.direction_x == DirectionX::Left).0 * ts
        + norm_comp(w.x as int, ts, r.direction_x == DirectionX::Left).1);
    assert(trunc_div(w.x as int, ts) * ts + trunc_rem(w.x as int, ts) == w.x);
    assert(abs_int(wx_of(q, ts) - w.x) <= ZERO_EPS);
    assert(abs_int(wx_of(q, ts)) <= crate::grid::GRID_EXTENT_MAX + ts);

    assert(abs_int(w.x as int) < FX_SAT);
    let inner = sat_fx(ts * s.x);
    assert(w.x == sat_fx(inner + s.rel_x));
    lemma_sat_id(inner + s.rel_x);
    assert(abs_int(inner) < FX_SAT);
    lemma_sat_id(ts * s.x);
    assert(w.x == ts * (p.x + d.x) + p.rel_x + d.rel_x);
    assert(ts * (p.x + d.x) == ts * p.x + ts * d.x) by (nonlinear_arith);
    assert(w.x == wx_of(p, ts) + wd);
}

/// Monotonic distance, horizontal-crossing axis.
pub proof fn lemma_mono_step_y(r: Ray)
    requires
        r.wf(),
        mono_inv(r),
        trig_consistent(r),
        mono_scale_ok(r.grid),
        r.intersect_y is Some,
    ensures
        ({
            let ts = r.grid.tile_size as int;
            let p = r.intersect_y->Some_0;
            let nxt = next_for_spec(
                r.grid,
                r.direction_x,
                r.direction_y,
                r.intersect_y,
                r.delta_y_axis_intersect,
            );
            &&& (nxt matches Some(q) ==> tile_dsq(r.wc, q, ts) > tile_dsq(r.wc, p, ts))
            &&& mono_inv(Ray { intersect_y: nxt, ..r })
        }),
{
    let ts = r.grid.tile_size as int;
    let p = r.intersect_y->Some_0;
    let sx = sign_x(r.direction_x);
    let sy = sign_y(r.direction_y);
    let nxt = next_for_spec(
        r.grid,
        r.direction_x,
        r.direction_y,
        r.intersect_y,
        r.delta_y_axis_intersect,
    );
    if nxt is Some {
        let q = nxt->Some_0;
        lemma_step_y_world(r, p, q);
        lemma_world_exact(p, r.grid);
        lemma_world_exact(q, r.grid);
        lemma_world_exact(r.tp, r.grid);
        lemma_mono_scale_facts(r.grid);

        let a0 = wy_of(p, ts) - r.wc.y;
        let c0 = wx_of(p, ts) - r.wc.x;
        let a = sy * a0;
        let c = sx * c0;
        let k = sy * (p.y - r.tp.y);
        let dyw0 = sy * ts;
        let dxw = fdiv_total_spec(dyw0, r.tan as int);
        let dtot = wx_of(q, ts) - wx_of(p, ts);
        let dd = sx * dtot;

        assert(-2 * ZERO_EPS <= dtot - dxw <= 2 * ZERO_EPS);
        if r.direction_x == DirectionX::Parallel {
            assert(dxw == fdiv_total_spec(ts, r.tan as int) || dxw == fdiv_total_spec(
                -ts,
                r.tan as int,
            ));
            assert(-ZERO_EPS <= dxw <= ZERO_EPS);
            assert(dd >= -3 * ZERO_EPS) by (nonlinear_arith)
                requires
                    sx == 1,
                    -ZERO_EPS <= dxw <= ZERO_EPS,
                    -2 * ZERO_EPS <= dtot - dxw <= 2 * ZERO_EPS,
                    dd == sx * dtot,
            ;
        } else if r.tan == 0 {
            // A zero tangent saturates the projected step far outside any
            // grid, so a valid stepped crossing cannot exist.
            assert(dxw == if dyw0 > 0 {
                FX_SAT as int
            } else {
                -(FX_SAT as int)
            });
            assert(abs_int(dtot) >= FX_SAT - 2 * ZERO_EPS);
            assert(abs_int(dtot) <= 2 * (crate::grid::GRID_EXTENT_MAX as int) + 2 * ts);
            assert(false);
        } else {
            assert(dyw0 * (r.tan as int) * sx >= 0) by (nonlinear_arith)
                requires
                    sx * sy * r.tan >= 0,
                    dyw0 == sy * ts,
                    ts > 0,
                    sx == 1 || sx == -1,
                    sy == 1 || sy == -1,
            ;
            lemma_fdiv_sign_mono(dyw0, dyw0, r.tan as int);
            assert(sx * dxw >= 0) by (nonlinear_arith)
                requires
                    sx == 1 || sx == -1,
                    r.tan != 0,
                    dyw0 * (r.tan as int) * sx >= 0,
                    ((dyw0 < 0) == ((r.tan as int) < 0)) ==> fdiv_total_spec(dyw0, r.tan as int)
                        >= 0,
                    ((dyw0 < 0) != ((r.tan as int) < 0)) ==> fdiv_total_spec(dyw0, r.tan as int)
                        <= 0,
                    dxw == fdiv_total_spec(dyw0, r.tan as int),
                    dyw0 != 0,
            ;
            assert(dd >= -3 * ZERO_EPS) by (nonlinear_arith)
                requires
                    sx == 1 || sx == -1,
                    sx * dxw >= 0,
                    -2 * ZERO_EPS <= dtot - dxw <= 2 * ZERO_EPS,
                    dd == sx * dtot,
            ;
        }

        let hb = r.grid.width + r.grid.height + 3 * ts;
        assert(-(r.grid.width + 2 * ts) <= c0 <= r.grid.width + 2 * ts);
        if sx == 1 {
            assert(c == c0) by (nonlinear_arith)
                requires
                    sx == 1,
                    c == sx * c0,
            ;
        } else {
            assert(c == -c0) by (nonlinear_arith)
                requires
                    sx == -1,
                    c == sx * c0,
            ;
        }
        assert(-hb <= c <= hb);
        lemma_mono_core(a, c, dd, ts, k, r.grid.cols + r.grid.rows + 4, hb);
        assert((a0 + sy * ts) * (a0 + sy * ts) == a0 * a0 + 2 * a * ts + ts * ts)
            by (nonlinear_arith)
            requires
                sy == 1 || sy == -1,
                a == sy * a0,
        ;
        assert((c0 + dtot) * (c0 + dtot) == c0 * c0 + 2 * c * dd + dd * dd)
            by (nonlinear_arith)
            requires
                sx == 1 || sx == -1,
                c == sx * c0,
                dd == sx * dtot,
        ;
        assert(wy_of(q, ts) - r.wc.y == a0 + sy * ts);
        assert(wx_of(q, ts) - r.wc.x == c0 + dtot);
        assert(tile_dsq(r.wc, q, ts) == (c0 + dtot) * (c0 + dtot) + (a0 + sy * ts) * (a0 + sy
            * ts));
        assert(tile_dsq(r.wc, p, ts) == c0 * c0 + a0 * a0);

        assert(sy * (q.y - r.tp.y) == k + 1) by (nonlinear_arith)
            requires
                sy == 1 || sy == -1,
                sy * (q.y - p.y) == 1,
                k == sy * (p.y - r.tp.y),
        ;
        assert(sy * (wy_of(q, ts) - r.wc.y) == a + ts) by (nonlinear_arith)
            requires
                sy == 1 || sy == -1,
                wy_of(q, ts) == wy_of(p, ts) + sy * ts,
                a == sy * (wy_of(p, ts) - r.wc.y),
        ;
        assert(sx * (wx_of(q, ts) - r.wc.x) == c + dd) by (nonlinear_arith)
            requires
                sx == 1 || sx == -1,
                wx_of(q, ts) == wx_of(p, ts) + dtot,
                c == sx * (wx_of(p, ts) - r.wc.x),
                dd == sx * dtot,
        ;
        assert(c + dd >= -3 * ZERO_EPS * (k + 1)) by (nonlinear_arith)
            requires
                c >= -3 * ZERO_EPS * k,
                dd >= -3 * ZERO_EPS,
        ;
    }
}

/// The progress invariant of the distance law holds of a freshly built
/// ray.
pub proof fn lemma_mono_init(grid: Grid, tp: TilePosition, angle: AngleRad, tan: i64)
    requires
        grid.wf(),
        tp.wf(),
        origin_in_grid(tp, grid),
        trig_consistent(ray_make(grid, tp, angle, tan as int)),
    ensures
        mono_inv(ray_make(grid, tp, angle, tan as int)),
{
    let r = ray_make(grid, tp, angle, tan as int);
    let ts = grid.tile_size as int;
    let sx = sign_x(r.direction_x);
    let sy = sign_y(r.direction_y);
    lemma_initial_x(grid, tp, tan as int, r.direction_x, r.direction_y, r.wc);
    lemma_initial_y(grid, tp, tan as int, r.direction_x, r.direction_y, r.wc);
    lemma_world_exact(tp, grid);

    if r.intersect_x is Some {
        let p = r.intersect_x->Some_0;
        lemma_world_exact(p, grid);
        let offx = init_offx_spec(grid, tp, r.direction_x);
        let dyw0 = fmul_spec(tan as int, offx);
        if r.direction_x == DirectionX::Right {
            assert(sx * (p.x - tp.x) == 1);
            assert(wx_of(p, ts) == ts * (tp.x + 1)) by (nonlinear_arith)
                requires
                    p.x == tp.x + 1,
                    p.rel_x == 0,
                    wx_of(p, ts) == ts * p.x + p.rel_x,
            ;
            assert(ts * (tp.x + 1) == ts * tp.x + ts) by (nonlinear_arith);
            assert(sx * (wx_of(p, ts) - r.wc.x) >= 0);
        } else {
            assert(sx * (p.x - tp.x) == 1) by (nonlinear_arith)
                requires
                    sx == -1,
                    p.x == tp.x - 1,
            ;
            assert(wx_of(p, ts) == ts * (tp.x - 1) + ts) by (nonlinear_arith)
                requires
                    p.x == tp.x - 1,
                    p.rel_x == ts,
                    wx_of(p, ts) == ts * p.x + p.rel_x,
            ;
            assert(ts * (tp.x - 1) == ts * tp.x - ts) by (nonlinear_arith);
            assert(sx * (wx_of(p, ts) - r.wc.x) == tp.rel_x) by (nonlinear_arith)
                requires
                    sx == -1,
                    wx_of(p, ts) == ts * tp.x,
                    r.wc.x == ts * tp.x + tp.rel_x,
            ;
        }
        if r.direction_y == DirectionY::Parallel {
            lemma_fmul_sign_mono(tan as int, offx, ts);
            assert(-ZERO_EPS <= dyw0 <= ZERO_EPS);
        } else {
            assert((tan as int) * offx * sy >= 0) by (nonlinear_arith)
                requires
                    sx * sy * tan >= 0,
                    sx == 1 || sx == -1,
                    sy == 1 || sy == -1,
                    sx == 1 ==> offx >= 0,
                    sx == -1 ==> offx <= 0,
            ;
            lemma_fmul_sign_mono(tan as int, offx, offx);
            assert(sy * dyw0 >= 0) by (nonlinear_arith)
                requires
                    sy == 1 || sy == -1,
                    (tan as int) * offx * sy >= 0,
                    (tan as int) * offx >= 0 ==> fmul_spec(tan as int, offx) >= 0,
                    (tan as int) * offx <= 0 ==> fmul_spec(tan as int, offx) <= 0,
                    dyw0 == fmul_spec(tan as int, offx),
            ;
        }
        assert(sy * (wy_of(p, ts) - r.wc.y) >= -3 * ZERO_EPS * 1) by (nonlinear_arith)
            requires
                sy == 1 || sy == -1,
                sy * dyw0 >= -ZERO_EPS,
                -ZERO_EPS <= wy_of(p, ts) - (r.wc.y + dyw0) <= ZERO_EPS,
        ;
    }
    if r.intersect_y is Some {
        let p = r.intersect_y->Some_0;
        lemma_world_exact(p, grid);
        let offy = init_offy_spec(grid, tp, r.direction_y);
        let dxw0 = fdiv_total_spec(offy, tan as int);
        if r.direction_y == DirectionY::Up {
            assert(sy * (p.y - tp.y) == 1);
            assert(wy_of(p, ts) == ts * (tp.y + 1)) by (nonlinear_arith)
                requires
                    p.y == tp.y + 1,
                    p.rel_y == 0,
                    wy_of(p, ts) == ts * p.y + p.rel_y,
            ;
            assert(ts * (tp.y + 1) == ts * tp.y + ts) by (nonlinear_arith);
            assert(sy * (wy_of(p, ts) - r.wc.y) >= 0);
        } else {
            assert(sy * (p.y - tp.y) == 1) by (nonlinear_arith)
                requires
                    sy == -1,
                    p.y == tp.y - 1,
            ;
            assert(wy_of(p, ts) == ts * (tp.y - 1) + ts) by (nonlinear_arith)
                requires
                    p.y == tp.y - 1,
                    p.rel_y == ts,
                    wy_of(p, ts) == ts * p.y + p.rel_y,
            ;
            assert(ts * (tp.y - 1) == ts * tp.y - ts) by (nonlinear_arith);
            assert(sy * (wy_of(p, ts) - r.wc.y) == tp.rel_y) by (nonlinear_arith)
                requires
                    sy == -1,
                    wy_of(p, ts) == ts * tp.y,
                    r.wc.y == ts * tp.y + tp.rel_y,
            ;
        }
        if r.direction_x == DirectionX::Parallel {
            lemma_fdiv_sign_mono(offy, ts, tan as int);
            lemma_fdiv_sign_mono(offy, -(ts), tan as int);
            assert(abs_int(offy) <= abs_int(ts) && abs_int(offy) <= abs_int(-(ts)));
            assert(-ZERO_EPS <= dxw0 <= ZERO_EPS);
        } else if tan == 0 {
            // A zero tangent with a non-parallel horizontal direction: the
            // projected first crossing saturates far outside the grid, so
            // no valid crossing exists on this axis unless the offset is
            // itself zero.
            if offy == 0 {
                assert(dxw0 == 0);
            } else {
                assert(abs_int(dxw0) == FX_SAT);
                assert(abs_int(wx_of(p, ts)) <= crate::grid::GRID_EXTENT_MAX + ts);
                assert(false);
            }
        } else {
            assert(offy * (tan as int) * sx >= 0) by (nonlinear_arith)
                requires
                    sx * sy * tan >= 0,
                    sx == 1 || sx == -1,
                    sy == 1 || sy == -1,
                    sy == 1 ==> offy >= 0,
                    sy == -1 ==> offy <= 0,
            ;
            lemma_fdiv_sign_mono(offy, offy, tan as int);
            if offy == 0 {
                vstd::arithmetic::div_mod::lemma_basic_div(
                    abs_int(tan as int) / 2,
                    abs_int(tan as int),
                );
                assert(dxw0 == 0);
            } else {
                assert(sx * dxw0 >= 0) by (nonlinear_arith)
                    requires
                        sx == 1 || sx == -1,
                        tan != 0,
                        offy != 0,
                        offy * (tan as int) * sx >= 0,
                        ((offy < 0) == ((tan as int) < 0)) ==> fdiv_total_spec(offy,
                            tan as int) >= 0,
                        ((offy < 0) != ((tan as int) < 0)) ==> fdiv_total_spec(offy,
                            tan as int) <= 0,
                        dxw0 == fdiv_total_spec(offy, tan as int),
                ;
            }
        }
        assert(sx * (wx_of(p, ts) - r.wc.x) >= -3 * ZERO_EPS * 1) by (nonlinear_arith)
            requires
                sx == 1 || sx == -1,
                sx * dxw0 >= -ZERO_EPS,
                -ZERO_EPS <= wx_of(p, ts) - (r.wc.x + dxw0) <= ZERO_EPS,
        ;
    }
}

/// Monotonic distance: a traversal step emits the pending crossing nearest
/// to the origin, and under consistent trigonometry on a sufficiently
/// coarse grid every crossing still pending afterwards lies strictly
/// farther out than the one emitted (the untouched slot on a distance tie
/// excepted, where it lies no nearer). Since the next emission again comes
/// from the pending slots, the emitted distances increase step over step;
/// the progress invariant is established by [`lemma_mono_init`] and carried
/// forward here.
pub proof fn lemma_monotonic_distance(r: Ray)
    requires
        r.wf(),
        mono_inv(r),
        trig_consistent(r),
        mono_scale_ok(r.grid),
    ensures
        ({
            let ts = r.grid.tile_size as int;
            &&& (chooses_x(r) ==> {
                let p = r.intersect_x->Some_0;
                let nxt = next_for_spec(
                    r.grid,
                    r.direction_x,
                    r.direction_y,
                    r.intersect_x,
                    r.delta_x_axis_intersect,
                );
                &&& (nxt matches Some(q) ==> tile_dsq(r.wc, q, ts) > tile_dsq(r.wc, p, ts))
                &&& (r.intersect_y matches Some(o) ==> tile_dsq(r.wc, o, ts) > tile_dsq(
                    r.wc,
                    p,
                    ts,
                ))
                &&& mono_inv(Ray { intersect_x: nxt, ..r })
            })
            &&& (chooses_y(r) ==> {
                let p = r.intersect_y->Some_0;
                let nxt = next_for_spec(
                    r.grid,
                    r.direction_x,
                    r.direction_y,
                    r.intersect_y,
                    r.delta_y_axis_intersect,
                );
                &&& (nxt matches Some(q) ==> tile_dsq(r.wc, q, ts) > tile_dsq(r.wc, p, ts))
                &&& (r.intersect_x matches Some(o) ==> tile_dsq(r.wc, o, ts) >= tile_dsq(
                    r.wc,
                    p,
                    ts,
                ))
                &&& mono_inv(Ray { intersect_y: nxt, ..r })
            })
        }),
{
    if chooses_x(r) {
        lemma_mono_step_x(r);
    }
    if chooses_y(r) {
        lemma_mono_step_y(r);
    }
}

/// Whether the traversal's next emission comes from the vertical-crossing
/// axis: its pending crossing exists and is strictly nearer to the origin
/// than the horizontal one.
pub open spec fn chooses_x(r: Ray) -> bool {
    match (r.intersect_x, r.intersect_y) {
        (Option::Some(_), Option::None) => true,
        (Option::Some(px), Option::Some(py)) => tile_dsq(r.wc, px, r.grid.tile_size as int)
            < tile_dsq(r.wc, py, r.grid.tile_size as int),
        _ => false,
    }
}

/// Whether the traversal's next emission comes from the horizontal-crossing
/// axis (which also wins ties).
pub open spec fn chooses_y(r: Ray) -> bool {
    match (r.intersect_x, r.intersect_y) {
        (Option::None, Option::Some(_)) => true,
        (Option::Some(px), Option::Some(py)) => !(tile_dsq(r.wc, px, r.grid.tile_size as int)
            < tile_dsq(r.wc, py, r.grid.tile_size as int)),
        _ => false,
    }
}

/// The parts of a traversal state that stepping never changes.
pub open spec fn ray_frame(r: Ray) -> Ray {
    Ray { intersect_x: None, intersect_y: None, ..r }
}

/// One raw traversal step as a value: the emitted crossing — the nearer
/// pending one, the horizontal-crossing axis on a tie — and the state left
/// behind, in which only the emitted axis's slot has been advanced.
pub open spec fn raw_step_spec(r: Ray) -> (Option<TilePosition>, Ray) {
    if chooses_x(r) {
        (
            r.intersect_x,
            Ray {
                intersect_x: next_for_spec(
                    r.grid,
                    r.direction_x,
                    r.direction_y,
                    r.intersect_x,
                    r.delta_x_axis_intersect,
                ),
                ..r
            },
        )
    } else if chooses_y(r) {
        (
            r.intersect_y,
            Ray {
                intersect_y: next_for_spec(
                    r.grid,
                    r.direction_x,
                    r.direction_y,
                    r.intersect_y,
                    r.delta_y_axis_intersect,
                ),
                ..r
            },
        )
    } else {
        (None, r)
    }
}

/// A raw step preserves the invariant and the frame, never grows the step
/// measure, and strictly shrinks it when it emits.
pub proof fn lemma_raw_step(r: Ray)
    requires
        r.wf(),
    ensures
        ({
            let s = raw_step_spec(r);
            &&& s.1.wf()
            &&& ray_frame(s.1) == ray_frame(r)
            &&& 0 <= s.1.measure() <= r.measure()
            &&& (s.0 is Some ==> s.1.measure() < r.measure())
            &&& (s.0 is None ==> s.1 == r && r.intersect_x is None && r.intersect_y is None)
            &&& (s.0 matches Some(p) ==> tile_in_grid(p, r.grid) && p.wf())
        }),
{
    r.lemma_measure_nonneg();
    if chooses_x(r) {
        lemma_step_x(r, r.intersect_x->Some_0);
        raw_step_spec(r).1.lemma_measure_nonneg();
    } else if chooses_y(r) {
        lemma_step_y(r, r.intersect_y->Some_0);
        raw_step_spec(r).1.lemma_measure_nonneg();
    }
}

/// The next deduplicated emission and the state it leaves: raw steps are
/// taken until one emits a cell different from `last`, or the traversal is
/// exhausted.
pub open spec fn emit_spec(r: Ray, last: Option<(u32, u32)>) -> (Option<TilePosition>, Ray)
    decreases r.measure(),
        when r.wf()
        via emit_spec_decreases
{
    let s = raw_step_spec(r);
    match s.0 {
        Option::None => (None, s.1),
        Option::Some(p) => if last == Some((p.x, p.y)) {
            emit_spec(s.1, last)
        } else {
            (Some(p), s.1)
        },
    }
}

#[via_fn]
proof fn emit_spec_decreases(r: Ray, last: Option<(u32, u32)>) {
    lemma_raw_step(r);
}

/// The deduplicated emission preserves the invariant and the frame,
/// shrinks the measure when it emits, emits only in-grid cells different
/// from `last`, and returns `None` exactly when the traversal is left with
/// no pending crossing.
pub proof fn lemma_emit_spec(r: Ray, last: Option<(u32, u32)>)
    requires
        r.wf(),
    ensures
        ({
            let s = emit_spec(r, last);
            &&& s.1.wf()
            &&& ray_frame(s.1) == ray_frame(r)
            &&& 0 <= s.1.measure() <= r.measure()
            &&& (s.0 is Some ==> s.1.measure() < r.measure())
            &&& (s.0 matches Some(p) ==> tile_in_grid(p, r.grid) && p.wf() && (last matches Some(
                c,
            ) ==> (p.x, p.y) != c))
            &&& (s.0 is None ==> s.1.intersect_x is None && s.1.intersect_y is None)
        }),
    decreases r.measure(),
{
    lemma_raw_step(r);
    let s0 = raw_step_spec(r);
    if s0.0 is Some && last == Some((s0.0->Some_0.x, s0.0->Some_0.y)) {
        lemma_emit_spec(s0.1, last);
    }
}

/// Every cell a traversal will emit from a given state, in order, given the
/// cell emitted just before.
pub open spec fn emissions_spec(r: Ray, last: Option<(u32, u32)>) -> Seq<TilePosition>
    decreases r.measure(),
        when r.wf()
        via emissions_spec_decreases
{
    let s = emit_spec(r, last);
    match s.0 {
        Option::None => Seq::empty(),
        Option::Some(p) => seq![p] + emissions_spec(s.1, Some((p.x, p.y))),
    }
}

#[via_fn]
proof fn emissions_spec_decreases(r: Ray, last: Option<(u32, u32)>) {
    lemma_emit_spec(r, last);
}

/// Every pending crossing lies at squared distance at least `d` from the
/// origin.
pub open spec fn pendings_ge(r: Ray, d: int) -> bool {
    let ts = r.grid.tile_size as int;
    &&& (r.intersect_x matches Some(p) ==> tile_dsq(r.wc, p, ts) >= d)
    &&& (r.intersect_y matches Some(p) ==> tile_dsq(r.wc, p, ts) >= d)
}

/// A deduplicated emission under the distance law's conditions: the
/// emitted crossing lies at least `d` out, and the state left behind keeps
/// the progress invariant with every pending crossing at least as far out
/// as the emission.
pub proof fn lemma_emit_mono(r: Ray, last: Option<(u32, u32)>, d: int)
    requires
        r.wf(),
        mono_inv(r),
        trig_consistent(r),
        mono_scale_ok(r.grid),
        pendings_ge(r, d),
    ensures
        ({
            let s = emit_spec(r, last);
            &&& mono_inv(s.1)
            &&& trig_consistent(s.1)
            &&& s.1.wc == r.wc
            &&& (s.0 matches Some(p) ==> {
                &&& tile_dsq(r.wc, p, r.grid.tile_size as int) >= d
                &&& pendings_ge(s.1, tile_dsq(r.wc, p, r.grid.tile_size as int))
            })
            &&& (s.0 is None ==> pendings_ge(s.1, d))
        }),
    decreases r.measure(),
{
    r.lemma_measure_nonneg();
    lemma_raw_step(r);
    lemma_monotonic_distance(r);
    let ts = r.grid.tile_size as int;
    let s0 = raw_step_spec(r);
    if s0.0 is Some {
        let p = s0.0->Some_0;
        assert(trig_consistent(s0.1));
        assert(pendings_ge(s0.1, tile_dsq(r.wc, p, ts)));
        if last == Some((p.x, p.y)) {
            assert(pendings_ge(s0.1, d));
            lemma_emit_mono(s0.1, last, d);
        }
    }
}

/// Monotonic distance over the emitted sequence: under consistent
/// trigonometry on a sufficiently coarse grid, the squared distances of a
/// traversal's emissions from the ray's origin never decrease (every
/// strict-increase exception is an exact distance tie between the two
/// axes' crossings; consecutive emissions always differ in cell).
pub proof fn lemma_monotonic_emissions(r: Ray, last: Option<(u32, u32)>, d: int)
    requires
        r.wf(),
        mono_inv(r),
        trig_consistent(r),
        mono_scale_ok(r.grid),
        pendings_ge(r, d),
    ensures
        ({
            let s = emissions_spec(r, last);
            let ts = r.grid.tile_size as int;
            &&& (forall|i: int| 0 <= i < s.len() ==> tile_dsq(r.wc, #[trigger] s[i], ts) >= d)
            &&& (forall|i: int| 0 <= i && i + 1 < s.len() ==> tile_dsq(r.wc, #[trigger] s[i
                + 1], ts) >= tile_dsq(r.wc, s[i], ts))
        }),
    decreases r.measure(),
{
    r.lemma_measure_nonneg();
    lemma_emit_spec(r, last);
    lemma_emit_mono(r, last, d);
    let ts = r.grid.tile_size as int;
    let e = emit_spec(r, last);
    let s = emissions_spec(r, last);
    if e.0 is Some {
        let p = e.0->Some_0;
        let dp = tile_dsq(r.wc, p, ts);
        let rest = emissions_spec(e.1, Some((p.x, p.y)));
        lemma_monotonic_emissions(e.1, Some((p.x, p.y)), dp);
        assert(s == seq![p] + rest);
        assert(s.len() == 1 + rest.len());
        assert((seq![p] + rest)[0] == p);
        assert(s[0] == p);
        assert forall|i: int| 0 <= i < s.len() implies tile_dsq(r.wc, #[trigger] s[i], ts)
            >= d by {
            if i > 0 {
                assert((seq![p] + rest)[i] == rest[i - 1]);
                assert(tile_dsq(e.1.wc, rest[i - 1], ts) >= dp);
            }
        }
        assert forall|i: int| 0 <= i && i + 1 < s.len() implies tile_dsq(r.wc, #[trigger] s[i
            + 1], ts) >= tile_dsq(r.wc, s[i], ts) by {
            assert(0 <= i < rest.len());
            assert(seq![p].len() == 1);
            assert((seq![p] + rest)[i + 1] == rest[(i + 1) - 1]);
            assert(rest[(i + 1) - 1] == rest[i]);
            if i > 0 {
                assert((seq![p] + rest)[i] == rest[i - 1]);
                assert(tile_dsq(e.1.wc, rest[(i - 1) + 1], ts) >= tile_dsq(e.1.wc, rest[i - 1],
                    ts));
            } else {
                assert(tile_dsq(e.1.wc, rest[0], ts) >= dp);
            }
        }
    }
}

/// A freshly built traversal state is well formed: what [`Ray::new`]
/// establishes, available as a fact about [`ray_make`] itself.
pub proof fn lemma_ray_make_wf(grid: Grid, tp: TilePosition, angle: AngleRad, tan: i64)
    requires
        grid.wf(),
        tp.wf(),
        origin_in_grid(tp, grid),
    ensures
        ray_make(grid, tp, angle, tan as int).wf(),
{
    let r = ray_make(grid, tp, angle, tan as int);
    lemma_initial_x(grid, tp, tan as int, r.direction_x, r.direction_y, r.wc);
    lemma_initial_y(grid, tp, tan as int, r.direction_x, r.direction_y, r.wc);
}

/// A squared distance is never negative.
pub proof fn lemma_tile_dsq_nonneg(wc: WorldCoords, p: TilePosition, ts: int)
    ensures
        tile_dsq(wc, p, ts) >= 0,
{
    let w = WorldCoords::of_tile_position(p, ts);
    assert((w.x - wc.x) * (w.x - wc.x) >= 0) by (nonlinear_arith);
    assert((w.y - wc.y) * (w.y - wc.y) >= 0) by (nonlinear_arith);
}

} // verus!
