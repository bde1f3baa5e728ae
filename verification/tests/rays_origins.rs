use crisscross::rays_from;
use crisscross::util::round_tp;
use crisscross::{AngleRad, AngleTrig, Grid, TilePosition};

const SCALE_F: f64 = 100_000_000.0;

fn fx(v: f64) -> i64 {
    (v * SCALE_F).round() as i64
}

fn angle_rad(deg: f32) -> AngleRad {
    AngleRad((f64::from(deg.to_radians()) * SCALE_F).round() as i64)
}

fn trig_for(deg: f32) -> AngleTrig {
    let rad = deg.to_radians();
    let tau = std::f32::consts::TAU;
    let clamped = if rad >= tau {
        rad - tau
    } else if rad < 0.0 {
        rad + tau
    } else {
        rad
    };
    AngleTrig {
        tan: (f64::from(clamped.tan()) * SCALE_F).round() as i64,
        sin: (f64::from(clamped.sin()) * SCALE_F).round() as i64,
        cos: (f64::from(clamped.cos()) * SCALE_F).round() as i64,
    }
}

fn tp(x: u32, rel_x: f64, y: u32, rel_y: f64) -> TilePosition {
    TilePosition::new(x, y, fx(rel_x), fx(rel_y))
}

fn rays_for_angle(center: &TilePosition, grid: &Grid, width: i64, deg: f32)
    -> Vec<TilePosition> {
    let angle = angle_rad(deg);
    let trig = trig_for(deg);
    let rays = rays_from(center, grid, width, &angle, &trig);
    rays.iter().map(|ray| round_tp(&ray.tp)).collect()
}

#[test]
fn rays_from_width_smaller_than_tile_isolate() {
    let center = TilePosition::new(1, 1, fx(0.5), fx(0.5));
    let grid = Grid::new(4, 4, fx(1.0));
    let width = fx(0.8);

    // Right/Down at 315
    assert_eq!(
        rays_for_angle(&center, &grid, width, 315.0),
        [
            tp(1, 0.217, 1, 0.217),
            tp(1, 0.500, 1, 0.500),
            tp(1, 0.783, 1, 0.783)
        ]
    );
}

#[test]
fn rays_from_width_smaller_than_tile() {
    let center = TilePosition::new(1, 1, fx(0.5), fx(0.5));
    let grid = Grid::new(4, 4, fx(1.0));
    let width = fx(0.8);

    // To the right
    assert_eq!(
        rays_for_angle(&center, &grid, width, 0.0),
        [
            tp(1, 0.500, 1, 0.900),
            tp(1, 0.500, 1, 0.500),
            tp(1, 0.500, 1, 0.100),
        ],
    );

    // To the left
    assert_eq!(
        rays_for_angle(&center, &grid, width, 180.0),
        [
            tp(1, 0.500, 1, 0.100),
            tp(1, 0.500, 1, 0.500),
            tp(1, 0.500, 1, 0.900)
        ],
    );

    // Up
    assert_eq!(
        rays_for_angle(&center, &grid, width, 90.0),
        [
            tp(1, 0.100, 1, 0.500),
            tp(1, 0.500, 1, 0.500),
            tp(1, 0.900, 1, 0.500),
        ],
    );

    // Down
    assert_eq!(
        rays_for_angle(&center, &grid, width, 270.0),
        [
            tp(1, 0.900, 1, 0.500),
            tp(1, 0.500, 1, 0.500),
            tp(1, 0.100, 1, 0.500)
        ],
    );

    // Right/Up at 45
    assert_eq!(
        rays_for_angle(&center, &grid, width, 45.0),
        [
            tp(1, 0.217, 1, 0.783),
            tp(1, 0.500, 1, 0.500),
            tp(1, 0.783, 1, 0.217)
        ]
    );

    // Left/Up at 120
    assert_eq!(
        rays_for_angle(&center, &grid, width, 120.0),
        [
            tp(1, 0.154, 1, 0.300),
            tp(1, 0.500, 1, 0.500),
            tp(1, 0.846, 1, 0.700)
        ]
    );

    // Left/Down at 225
    assert_eq!(
        rays_for_angle(&center, &grid, width, 225.0),
        [
            tp(1, 0.783, 1, 0.217),
            tp(1, 0.500, 1, 0.500),
            tp(1, 0.217, 1, 0.783)
        ]
    );

    // Right/Down at 315
    assert_eq!(
        rays_for_angle(&center, &grid, width, 315.0),
        [
            tp(1, 0.217, 1, 0.217),
            tp(1, 0.500, 1, 0.500),
            tp(1, 0.783, 1, 0.783)
        ]
    );

    // Edge cases near the vertical and full-turn boundaries

    // Left/Down
    assert_eq!(
        rays_for_angle(&center, &grid, width, 269.0),
        [
            tp(1, 0.900, 1, 0.493),
            tp(1, 0.500, 1, 0.500),
            tp(1, 0.100, 1, 0.507)
        ]
    );

    assert_eq!(
        rays_for_angle(&center, &grid, width, 271.0),
        [
            tp(1, 0.100, 1, 0.493),
            tp(1, 0.500, 1, 0.500),
            tp(1, 0.900, 1, 0.507)
        ]
    );

    assert_eq!(
        rays_for_angle(&center, &grid, width, 359.0),
        [
            tp(1, 0.493, 1, 0.100),
            tp(1, 0.500, 1, 0.500),
            tp(1, 0.507, 1, 0.900)
        ]
    );

    assert_eq!(
        rays_for_angle(&center, &grid, width, 361.0),
        [
            tp(1, 0.507, 1, 0.100),
            tp(1, 0.500, 1, 0.500),
            tp(1, 0.493, 1, 0.900)
        ]
    );
}

#[test]
fn rays_from_width_same_as_tile() {
    let center = TilePosition::new(1, 1, fx(0.5), fx(0.5));
    let grid = Grid::new(4, 4, fx(1.0));
    let width = fx(1.0);

    assert_eq!(
        rays_for_angle(&center, &grid, width, 0.0),
        [
            tp(1, 0.500, 2, 0.000),
            tp(1, 0.500, 1, 0.500),
            tp(1, 0.500, 1, 0.000)
        ]
    );

    assert_eq!(
        rays_for_angle(&center, &grid, width, 120.0),
        [
            tp(1, 0.067, 1, 0.250),
            tp(1, 0.500, 1, 0.500),
            tp(1, 0.933, 1, 0.750)
        ]
    );
}

#[test]
fn rays_from_width_larger_than_tile() {
    let center = TilePosition::new(1, 1, fx(0.5), fx(0.5));
    let grid = Grid::new(4, 4, fx(1.0));
    let width = fx(2.0);

    assert_eq!(
        rays_for_angle(&center, &grid, width, 0.0),
        [
            tp(1, 0.500, 2, 0.500),
            tp(1, 0.500, 2, 0.000),
            tp(1, 0.500, 1, 0.500),
            tp(1, 0.500, 1, 0.000),
            tp(1, 0.500, 0, 0.500)
        ]
    );

    assert_eq!(
        rays_for_angle(&center, &grid, width, 120.0),
        [
            tp(0, 0.634, 1, 0.000),
            tp(1, 0.067, 1, 0.250),
            tp(1, 0.500, 1, 0.500),
            tp(1, 0.933, 1, 0.750),
            tp(2, 0.366, 2, 0.000)
        ]
    );
}

#[test]
fn rays_bounds() {
    let grid = Grid::new(4, 4, fx(1.0));

    let center = TilePosition::new(0, 0, 0, 0);
    let width = fx(0.8);
    assert_eq!(
        rays_for_angle(&center, &grid, width, 0.0),
        [tp(0, 0.000, 0, 0.400), tp(0, 0.000, 0, 0.000),]
    );

    let center = TilePosition::new(1, 1, fx(0.5), fx(0.5));
    let width = fx(10.0);
    assert_eq!(
        rays_for_angle(&center, &grid, width, 0.0),
        [
            tp(1, 0.500, 3, 0.500),
            tp(1, 0.500, 3, 0.000),
            tp(1, 0.500, 2, 0.500),
            tp(1, 0.500, 2, 0.000),
            tp(1, 0.500, 1, 0.500),
            tp(1, 0.500, 1, 0.000),
            tp(1, 0.500, 0, 0.500),
            tp(1, 0.500, 0, 0.000)
        ]
    );

    let center = TilePosition::new(2, 2, fx(0.5), fx(0.5));
    let width = fx(10.0);
    assert_eq!(
        rays_for_angle(&center, &grid, width, 90.0),
        [
            tp(0, 0.000, 2, 0.500),
            tp(0, 0.500, 2, 0.500),
            tp(1, 0.000, 2, 0.500),
            tp(1, 0.500, 2, 0.500),
            tp(2, 0.000, 2, 0.500),
            tp(2, 0.500, 2, 0.500),
            tp(3, 0.000, 2, 0.500),
            tp(3, 0.500, 2, 0.500)
        ]
    );

    let center = TilePosition::new(0, 2, fx(0.5), fx(0.5));
    let width = fx(10.0);
    assert_eq!(
        rays_for_angle(&center, &grid, width, 315.0),
        [
            tp(0, 0.146, 2, 0.146),
            tp(0, 0.500, 2, 0.500),
            tp(0, 0.854, 2, 0.854),
            tp(1, 0.207, 3, 0.207),
            tp(1, 0.561, 3, 0.561),
            tp(1, 0.914, 3, 0.914)
        ]
    );
}
