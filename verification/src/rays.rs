//! Building the fan of parallel rays a beam is made of: ray origins are laid
//! out perpendicular to the firing angle, spanning the beam width, and each
//! origin that falls inside the grid yields one ray.

use vstd::prelude::*;

use crate::angle::{direction_x_spec, direction_y_spec, AngleRad, AngleTrig, DirectionX,
    DirectionY, PI_FX, THREE_HALF_PI_FX};
use crate::fixed::{fdiv, fdiv_total_spec, fmul, fmul_spec, fsat, in_fx, sat_fx, smul_int,
    trunc_div, trunc_rem, SCALE};
use crate::grid::Grid;
use crate::position::{TilePosition, WorldCoords};
use crate::ray::{norm_comp, origin_in_grid, ray_make, snap_adjust, translated_spec, Ray};
use crate::util::ZERO_EPS;

verus! {

/// Number of fan sections on each side of the beam center: the beam width
/// in whole tiles, at least one, capped at the 16-bit range like a float
/// conversion would.
pub open spec fn sections_spec(width: int, ts: int) -> int {
    let cw = (width + SCALE - 1) / (SCALE as int);
    let fts = ts / (SCALE as int);
    if fts == 0 {
        32767int
    } else {
        let q = (cw + fts - 1) / fts;
        let m = if q < 1 {
            1int
        } else {
            q
        };
        if m > 32767 {
            32767int
        } else {
            m
        }
    }
}

/// The origin of the fan member at a given signed index: the beam center
/// translated sideways by that many section widths, `None` when the point
/// leaves the grid.
pub open spec fn fan_origin_spec(
    center_wc: WorldCoords,
    grid: Grid,
    sw: int,
    left_sin: int,
    left_cos: int,
    fx_neg: bool,
    fy_neg: bool,
    idx: int,
) -> Option<TilePosition> {
    let len = sat_fx(sw * idx);
    let dx0 = fmul_spec(left_sin, len);
    let dx: int = if fx_neg {
        -dx0
    } else {
        dx0
    };
    let dy0 = fmul_spec(left_cos, len);
    let dy: int = if fy_neg {
        -dy0
    } else {
        dy0
    };
    let w = translated_spec(center_wc, dx, dy);
    if 0 <= w.x < grid.width && 0 <= w.y < grid.height {
        let cx = norm_comp(w.x as int, grid.tile_size as int, false);
        let cy = norm_comp(w.y as int, grid.tile_size as int, false);
        if 0 <= cx.0 < grid.cols && 0 <= cy.0 < grid.rows {
            Some(
                TilePosition {
                    x: cx.0 as u32,
                    y: cy.0 as u32,
                    rel_x: cx.1 as i64,
                    rel_y: cy.1 as i64,
                },
            )
        } else {
            None
        }
    } else {
        None
    }
}

/// The rays of the fan members from `idx` through `s`, in index order,
/// skipping members whose origin falls outside the grid.
pub open spec fn fan_rays_spec(
    center_wc: WorldCoords,
    grid: Grid,
    sw: int,
    left_sin: int,
    left_cos: int,
    fx_neg: bool,
    fy_neg: bool,
    angle: AngleRad,
    tan: int,
    idx: int,
    s: int,
) -> Seq<Ray>
    decreases s + 1 - idx,
{
    if idx > s {
        Seq::empty()
    } else {
        let rest = fan_rays_spec(
            center_wc,
            grid,
            sw,
            left_sin,
            left_cos,
            fx_neg,
            fy_neg,
            angle,
            tan,
            idx + 1,
            s,
        );
        match fan_origin_spec(center_wc, grid, sw, left_sin, left_cos, fx_neg, fy_neg, idx) {
            Option::Some(tp) => seq![ray_make(grid, tp, angle, tan)] + rest,
            Option::None => rest,
        }
    }
}

/// The full fan a beam is built from, as a function of the center, grid,
/// width, angle and the angle's trigonometric values.
pub open spec fn fan_spec(center: TilePosition, grid: Grid, width: int, angle: AngleRad,
    trig: AngleTrig) -> Seq<Ray> {
    let ts = grid.tile_size as int;
    let center_wc = WorldCoords::of_tile_position(center, ts);
    let left = sat_fx(angle.0 - PI_FX);
    let left_sin = -sat_fx(trig.sin as int);
    let left_cos = -sat_fx(trig.cos as int);
    let fx_neg = direction_x_spec(left) == DirectionX::Right;
    let fy_neg = if direction_y_spec(left) == DirectionY::Down {
        true
    } else {
        angle.0 > THREE_HALF_PI_FX
    };
    let s = sections_spec(width, ts);
    let sw = fdiv_total_spec(width / 2, s * SCALE);
    fan_rays_spec(
        center_wc,
        grid,
        sw,
        left_sin,
        left_cos,
        fx_neg,
        fy_neg,
        angle,
        trig.tan as int,
        -s,
        s,
    )
}

/// A world coordinate inside the grid extent decomposes to a tile index
/// inside the grid, with the offset inside the tile; snapping (without a
/// direction rule) keeps the offset inside the tile and moves the index up
/// by at most one.
proof fn lemma_div_in_grid(w: int, ts: int, count: int)
    requires
        2 * ZERO_EPS < ts,
        0 <= w,
        w < count * ts,
    ensures
        0 <= trunc_div(w, ts) < count,
        0 <= trunc_rem(w, ts) < ts,
        ({
            let c = snap_adjust(trunc_div(w, ts), trunc_rem(w, ts), ts, false);
            &&& trunc_div(w, ts) <= c.0 <= trunc_div(w, ts) + 1
            &&& 0 <= c.1 < ts
        }),
{
    vstd::arithmetic::div_mod::lemma_fundamental_div_mod(w, ts);
    vstd::arithmetic::div_mod::lemma_mod_bound(w, ts);
    vstd::arithmetic::div_mod::lemma_div_pos_is_pos(w, ts);
    assert(ts * (w / ts) == (w / ts) * ts) by (nonlinear_arith);
    assert(w / ts < count) by (nonlinear_arith)
        requires
            0 < ts,
            0 <= w,
            w < count * ts,
            w == ts * (w / ts) + (w % ts),
            0 <= w % ts,
    ;
}

/// Lay out the fan of rays for a beam: one ray per section index from
/// `-sections` through `sections`, each offset perpendicular to the firing
/// angle by that many section widths, keeping only origins inside the grid.
#[verifier::rlimit(100)]
pub fn rays_from(center: &TilePosition, grid: &Grid, width: i64, angle: &AngleRad,
    trig: &AngleTrig) -> (r: Vec<Ray>)
    requires
        grid.wf(),
        center.wf(),
        1 <= width,
    ensures
        r@ == fan_spec(*center, *grid, width as int, *angle, *trig),
        forall|i: int| 0 <= i < r@.len() ==> (#[trigger] r@[i]).wf(),
        forall|i: int| 0 <= i < r@.len() ==> (#[trigger] r@[i]).grid == *grid,
{
    let ts: i64 = grid.tile_size;
    let center_wc = WorldCoords::from_tile_position(center, ts);

    let left_rad = angle.perpendicular();
    let left_sin: i64 = -fsat(trig.sin);
    let left_cos: i64 = -fsat(trig.cos);

    let fx_neg: bool = match DirectionX::from_angle(&left_rad) {
        DirectionX::Left | DirectionX::Parallel => false,
        DirectionX::Right => true,
    };
    let fy_neg: bool = match DirectionY::from_angle(&left_rad) {
        DirectionY::Up | DirectionY::Parallel => angle.0 > THREE_HALF_PI_FX,
        DirectionY::Down => true,
    };

    let cw: u64 = ((width as u64) + ((SCALE as u64) - 1)) / (SCALE as u64);
    let fts: u64 = (ts as u64) / (SCALE as u64);
    let s: i64 = if fts == 0 {
        32767
    } else {
        let q: u64 = (cw + fts - 1) / fts;
        let m: u64 = if q < 1 {
            1
        } else {
            q
        };
        if m > 32767 {
            32767
        } else {
            m as i64
        }
    };
    let half_width: i64 = ((width as u64) / 2) as i64;
    let section_width: i64 = fdiv(half_width, s * SCALE);

    let ghost gcw = center_wc;
    let ghost gsw = section_width as int;
    let ghost gsin = left_sin as int;
    let ghost gcos = left_cos as int;
    let ghost gtan = trig.tan as int;

    let mut out: Vec<Ray> = Vec::new();
    let mut idx: i64 = -s;
    while idx <= s
        invariant
            grid.wf(),
            -s <= idx <= s + 1,
            1 <= s <= 32767,
            in_fx(gsw),
            center_wc == gcw,
            ts == grid.tile_size,
            center_wc.tile_size == grid.tile_size,
            section_width == gsw,
            left_sin == gsin,
            left_cos == gcos,
            trig.tan == gtan,
            forall|i: int| 0 <= i < out@.len() ==> (#[trigger] out@[i]).wf(),
            forall|i: int| 0 <= i < out@.len() ==> (#[trigger] out@[i]).grid == *grid,
            fan_rays_spec(gcw, *grid, gsw, gsin, gcos, fx_neg, fy_neg, *angle, gtan, -s as int,
                s as int) == out@ + fan_rays_spec(gcw, *grid, gsw, gsin, gcos, fx_neg, fy_neg,
                *angle, gtan, idx as int, s as int),
        decreases s + 1 - idx,
    {
        let ghost pre_out = out@;
        let len: i64 = smul_int(section_width, idx);
        let dx0: i64 = fmul(left_sin, len);
        let dx: i64 = if fx_neg {
            -dx0
        } else {
            dx0
        };
        let dy0: i64 = fmul(left_cos, len);
        let dy: i64 = if fy_neg {
            -dy0
        } else {
            dy0
        };
        let wc2 = center_wc.translated(dx, dy);
        match wc2.bounds_checked(grid) {
            Some(w2) => {
                proof {
                    lemma_div_in_grid(w2.x as int, ts as int, grid.cols as int);
                    lemma_div_in_grid(w2.y as int, ts as int, grid.rows as int);
                }
                let stp = w2.to_signed_tile_position();
                let (nx, rx) = Ray::normalize_comp(stp.x, stp.rel_x, ts, false);
                let (ny, ry) = Ray::normalize_comp(stp.y, stp.rel_y, ts, false);
                if 0 <= nx && nx < (grid.cols as i64) && 0 <= ny && ny < (grid.rows as i64) {
                    let origin = TilePosition {
                        x: nx as u32,
                        y: ny as u32,
                        rel_x: rx,
                        rel_y: ry,
                    };
                    let ray = Ray::new(*grid, origin, angle, trig.tan);
                    out.push(ray);
                }
            },
            None => {},
        }
        proof {
            let gi = idx as int;
            let suffix = fan_rays_spec(gcw, *grid, gsw, gsin, gcos, fx_neg, fy_neg, *angle,
                gtan, gi, s as int);
            let suffix1 = fan_rays_spec(gcw, *grid, gsw, gsin, gcos, fx_neg, fy_neg, *angle,
                gtan, gi + 1, s as int);
            match fan_origin_spec(gcw, *grid, gsw, gsin, gcos, fx_neg, fy_neg, gi) {
                Option::Some(tp) => {
                    assert(suffix == seq![ray_make(*grid, tp, *angle, gtan)] + suffix1);
                    assert(out@ =~= pre_out + seq![ray_make(*grid, tp, *angle, gtan)]);
                    assert(pre_out + suffix =~= out@ + suffix1);
                },
                Option::None => {
                    assert(suffix == suffix1);
                    assert(out@ == pre_out);
                },
            }
        }
        idx = idx + 1;
    }
    proof {
        assert(fan_rays_spec(gcw, *grid, gsw, gsin, gcos, fx_neg, fy_neg, *angle, gtan,
            idx as int, s as int) == Seq::<Ray>::empty());
        assert(out@ + Seq::<Ray>::empty() =~= out@);
        assert(fan_spec(*center, *grid, width as int, *angle, *trig) == fan_rays_spec(gcw,
            *grid, gsw, gsin, gcos, fx_neg, fy_neg, *angle, gtan, -s as int, s as int));
    }
    out
}

} // verus!
