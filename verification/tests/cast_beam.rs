use crisscross::util::round_tp;
use crisscross::{AngleRad, AngleTrig, BeamIntersect, Grid, TilePosition, TileRaycaster};

const SCALE_F: f64 = 100_000_000.0;

fn fx(v: f64) -> i64 {
    (v * SCALE_F).round() as i64
}

fn angle_rad(deg: f32) -> AngleRad {
    AngleRad((f64::from(deg.to_radians()) * SCALE_F).round() as i64)
}

fn trig_for(deg: f32) -> AngleTrig {
    let rad = deg.to_radians();
    let tau = std::f32::consts::TAU;
    let clamped = if rad >= tau {
        rad - tau
    } else if rad < 0.0 {
        rad + tau
    } else {
        rad
    };
    AngleTrig {
        tan: (f64::from(clamped.tan()) * SCALE_F).round() as i64,
        sin: (f64::from(clamped.sin()) * SCALE_F).round() as i64,
        cos: (f64::from(clamped.cos()) * SCALE_F).round() as i64,
    }
}

fn tp(x: u32, rel_x: f64, y: u32, rel_y: f64) -> TilePosition {
    TilePosition::new(x, y, fx(rel_x), fx(rel_y))
}

fn cast(grid: &Grid, center: &TilePosition, width: f64, deg: f32) -> Vec<BeamIntersect> {
    let tc = TileRaycaster::new(grid.clone());
    let angle = angle_rad(deg);
    let trig = trig_for(deg);
    let mut it = tc.cast_beam(center, fx(width), &angle, &trig);
    let mut out = Vec::new();
    while let Some(BeamIntersect(idx, p)) = it.next() {
        out.push(BeamIntersect(idx, round_tp(&p)));
    }
    out
}

#[test]
fn cast_beam_4x4grid() {
    let grid = Grid::new(4, 4, fx(1.0));
    let center = tp(1, 0.5, 1, 0.5);
    let width = 0.8;
    assert_eq!(
        cast(&grid, &center, width, 0.0),
        [
            BeamIntersect(0, tp(2, 0.000, 1, 0.900)),
            BeamIntersect(0, tp(3, 0.000, 1, 0.900))
        ],
    );

    let center = tp(0, 0.0, 0, 0.0);
    assert_eq!(
        cast(&grid, &center, width, 0.0),
        [
            BeamIntersect(0, tp(1, 0.000, 0, 0.400)),
            BeamIntersect(0, tp(2, 0.000, 0, 0.400)),
            BeamIntersect(0, tp(3, 0.000, 0, 0.400))
        ],
    );

    let center = tp(0, 0.3, 2, 0.3);
    let width = 2.2;
    assert_eq!(
        cast(&grid, &center, width, 320.0),
        [
            BeamIntersect(0, tp(0, 0.087, 1, 1.000)),
            BeamIntersect(4, tp(1, 0.177, 2, 1.000)),
            BeamIntersect(2, tp(1, 0.228, 1, 1.000)),
            BeamIntersect(4, tp(2, 0.000, 2, 0.309)),
            BeamIntersect(0, tp(1, 0.279, 0, 1.000)),
            BeamIntersect(3, tp(2, 0.000, 1, 0.831)),
            BeamIntersect(1, tp(2, 0.000, 0, 0.874)),
            BeamIntersect(4, tp(3, 0.000, 1, 0.470)),
            BeamIntersect(3, tp(3, 0.000, 0, 0.992))
        ],
    );

    let center = tp(3, 0.3, 3, 0.3);
    assert_eq!(
        cast(&grid, &center, width, 320.0),
        [
            BeamIntersect(2, tp(3, 0.087, 2, 1.000)),
            BeamIntersect(0, tp(3, 0.138, 1, 1.000))
        ],
    );

    let center = tp(3, 0.3, 1, 0.5);
    assert_eq!(
        cast(&grid, &center, width, 135.0),
        [
            BeamIntersect(1, tp(2, 0.763, 1, 0.000)),
            BeamIntersect(4, tp(3, 0.319, 2, 0.000)),
            BeamIntersect(3, tp(2, 0.800, 2, 0.000)),
            BeamIntersect(0, tp(1, 1.000, 1, 0.244)),
            BeamIntersect(5, tp(2, 0.837, 3, 0.000)),
            BeamIntersect(1, tp(1, 0.763, 2, 0.000)),
            BeamIntersect(3, tp(1, 0.800, 3, 0.000)),
            BeamIntersect(0, tp(0, 1.000, 2, 0.244)),
            BeamIntersect(1, tp(0, 0.763, 3, 0.000))
        ],
    );
}
