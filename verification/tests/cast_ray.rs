use crisscross::util::round_tp;
use crisscross::{AngleRad, AngleTrig, Grid, TilePosition, TileRaycaster};

const SCALE_F: f64 = 100_000_000.0;

fn fx(v: f64) -> i64 {
    (v * SCALE_F).round() as i64
}

fn angle_rad(deg: f32) -> AngleRad {
    AngleRad((f64::from(deg.to_radians()) * SCALE_F).round() as i64)
}

fn trig_for(deg: f32) -> AngleTrig {
    let rad = deg.to_radians();
    let tau = std::f32::consts::TAU;
    let clamped = if rad >= tau {
        rad - tau
    } else if rad < 0.0 {
        rad + tau
    } else {
        rad
    };
    AngleTrig {
        tan: (f64::from(clamped.tan()) * SCALE_F).round() as i64,
        sin: (f64::from(clamped.sin()) * SCALE_F).round() as i64,
        cos: (f64::from(clamped.cos()) * SCALE_F).round() as i64,
    }
}

fn tp(x: u32, rel_x: f64, y: u32, rel_y: f64) -> TilePosition {
    TilePosition::new(x, y, fx(rel_x), fx(rel_y))
}

fn collect_ray(tc: &TileRaycaster, origin: &TilePosition, deg: f32) -> Vec<TilePosition> {
    let angle = angle_rad(deg);
    let trig = trig_for(deg);
    let mut it = tc.cast_ray(origin, &angle, trig.tan);
    let mut out = Vec::new();
    while let Some(p) = it.next() {
        out.push(round_tp(&p));
    }
    out
}

#[test]
fn grid_4x4_0deg() {
    let tc = TileRaycaster::new(Grid::new(4, 4, fx(1.0)));
    assert_eq!(
        collect_ray(&tc, &tp(1, 0.5, 1, 0.5), 0.0),
        [tp(2, 0.000, 1, 0.500), tp(3, 0.000, 1, 0.500)],
    );

    assert_eq!(
        collect_ray(&tc, &tp(0, 0.0, 0, 0.0), 0.0),
        [
            tp(1, 0.000, 0, 0.000),
            tp(2, 0.000, 0, 0.000),
            tp(3, 0.000, 0, 0.000)
        ],
    );
}

#[test]
fn cast_ray_grid_4x4_30deg() {
    let tc = TileRaycaster::new(Grid::new(4, 4, fx(1.0)));
    assert_eq!(
        collect_ray(&tc, &tp(1, 0.5, 1, 0.5), 30.0),
        [
            tp(2, 0.000, 1, 0.789),
            tp(2, 0.366, 2, 0.000),
            tp(3, 0.000, 2, 0.366),
        ]
    );

    assert_eq!(
        collect_ray(&tc, &tp(0, 0.0, 0, 0.0), 30.0),
        [
            tp(1, 0.000, 0, 0.577),
            tp(1, 0.732, 1, 0.000),
            tp(2, 0.000, 1, 0.155),
            tp(3, 0.000, 1, 0.732),
            tp(3, 0.464, 2, 0.000)
        ],
    );
}

#[test]
fn grid_4x4_45deg() {
    let tc = TileRaycaster::new(Grid::new(4, 4, fx(1.0)));
    assert_eq!(
        collect_ray(&tc, &tp(1, 0.5, 1, 0.5), 45.0),
        [tp(2, 0.000, 2, 0.000), tp(3, 0.000, 3, 0.000)]
    );
}

#[test]
fn grid_4x4_60deg() {
    let tc = TileRaycaster::new(Grid::new(4, 4, fx(1.0)));
    assert_eq!(
        collect_ray(&tc, &tp(1, 0.5, 1, 0.5), 60.0),
        [
            tp(1, 0.789, 2, 0.000),
            tp(2, 0.000, 2, 0.366),
            tp(2, 0.366, 3, 0.000)
        ]
    );
}

#[test]
fn grid_4x4_90deg() {
    let tc = TileRaycaster::new(Grid::new(4, 4, fx(1.0)));
    assert_eq!(
        collect_ray(&tc, &tp(1, 0.5, 1, 0.5), 90.0),
        [tp(1, 0.500, 2, 0.000), tp(1, 0.500, 3, 0.000)]
    );
}

#[test]
fn grid_4x4_150deg() {
    let tc = TileRaycaster::new(Grid::new(4, 4, fx(1.0)));
    assert_eq!(
        collect_ray(&tc, &tp(1, 0.5, 1, 0.5), 150.0),
        [tp(0, 1.000, 1, 0.789), tp(0, 0.634, 2, 0.000)]
    );
}

#[test]
fn grid_4x4_210deg() {
    let tc = TileRaycaster::new(Grid::new(4, 4, fx(1.0)));
    assert_eq!(
        collect_ray(&tc, &tp(1, 0.5, 1, 0.5), 210.0),
        [tp(0, 1.000, 1, 0.211), tp(0, 0.634, 0, 1.000)]
    );
}

#[test]
fn grid_4x4_330deg() {
    let tc = TileRaycaster::new(Grid::new(4, 4, fx(1.0)));
    assert_eq!(
        collect_ray(&tc, &tp(1, 0.5, 1, 0.5), 330.0),
        [
            tp(2, 0.000, 1, 0.211),
            tp(2, 0.366, 0, 1.000),
            tp(3, 0.000, 0, 0.634)
        ]
    );

    assert_eq!(
        collect_ray(&tc, &tp(0, 0.25, 3, 0.25), 330.0),
        [
            tp(0, 0.683, 2, 1.000),
            tp(1, 0.000, 2, 0.817),
            tp(2, 0.000, 2, 0.240),
            tp(2, 0.415, 1, 1.000),
            tp(3, 0.000, 1, 0.662)
        ],
    );
}
