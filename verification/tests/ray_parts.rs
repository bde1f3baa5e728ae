use crisscross::util::{round_stp, round_tp};
use crisscross::{AngleRad, AngleTrig, DirectionX, DirectionY, Grid, Ray, SignedTilePosition,
    TilePosition};

const SCALE_F: f64 = 100_000_000.0;

fn fx(v: f64) -> i64 {
    (v * SCALE_F).round() as i64
}

fn angle_rad(deg: f32) -> AngleRad {
    AngleRad((f64::from(deg.to_radians()) * SCALE_F).round() as i64)
}

fn trig_for(deg: f32) -> AngleTrig {
    let rad = deg.to_radians();
    let tau = std::f32::consts::TAU;
    let clamped = if rad >= tau {
        rad - tau
    } else if rad < 0.0 {
        rad + tau
    } else {
        rad
    };
    AngleTrig {
        tan: (f64::from(clamped.tan()) * SCALE_F).round() as i64,
        sin: (f64::from(clamped.sin()) * SCALE_F).round() as i64,
        cos: (f64::from(clamped.cos()) * SCALE_F).round() as i64,
    }
}

fn tp(x: u32, rel_x: f64, y: u32, rel_y: f64) -> TilePosition {
    TilePosition::new(x, y, fx(rel_x), fx(rel_y))
}

fn stp(x: i64, rel_x: f64, y: i64, rel_y: f64) -> SignedTilePosition {
    SignedTilePosition::new(x, y, fx(rel_x), fx(rel_y))
}

fn init_centered_3x3(angle_deg: f32) -> Ray {
    let grid = Grid::new(3, 3, fx(1.0));
    let origin = TilePosition::new(1, 1, fx(0.5), fx(0.5));
    let angle = angle_rad(angle_deg);
    let trig = trig_for(angle_deg);
    Ray::new(grid, origin, &angle, trig.tan)
}

fn round_otp(v: Option<TilePosition>) -> Option<TilePosition> {
    v.map(|p| round_tp(&p))
}

fn round_ostp(v: Option<SignedTilePosition>) -> Option<SignedTilePosition> {
    v.map(|p| round_stp(&p))
}

#[test]
fn ray_angle_directions() {
    for (angle, dir_x, dir_y) in vec![
        (-80.0, DirectionX::Right, DirectionY::Down),
        (0.0, DirectionX::Right, DirectionY::Parallel),
        (30.0, DirectionX::Right, DirectionY::Up),
        (45.0, DirectionX::Right, DirectionY::Up),
        (80.0, DirectionX::Right, DirectionY::Up),
        (90.0, DirectionX::Parallel, DirectionY::Up),
        (120.0, DirectionX::Left, DirectionY::Up),
        (180.0, DirectionX::Left, DirectionY::Parallel),
        (210.0, DirectionX::Left, DirectionY::Down),
        (270.0, DirectionX::Parallel, DirectionY::Down),
        (290.0, DirectionX::Right, DirectionY::Down),
        (310.0, DirectionX::Right, DirectionY::Down),
        (360.0, DirectionX::Right, DirectionY::Parallel),
        (390.0, DirectionX::Right, DirectionY::Up),
        (405.0, DirectionX::Right, DirectionY::Up),
    ] {
        let Ray {
            direction_x,
            direction_y,
            ..
        } = init_centered_3x3(angle);
        assert_eq!((dir_x, dir_y), (direction_x, direction_y));
    }
}

#[test]
fn ray_starting_intersections() {
    let test_cases: Vec<(f32, Option<TilePosition>, Option<TilePosition>)> = vec![
        (0.0, Some(tp(2, 0.000, 1, 0.500)), None),
        (
            30.0,
            Some(tp(2, 0.000, 1, 0.789)),
            Some(tp(2, 0.366, 2, 0.000)),
        ),
        (
            45.0,
            Some(tp(2, 0.000, 2, 0.000)),
            Some(tp(2, 0.000, 2, 0.000)),
        ),
        (
            60.0,
            Some(tp(2, 0.000, 2, 0.366)),
            Some(tp(1, 0.789, 2, 0.000)),
        ),
        (90.0, None, Some(tp(1, 0.500, 2, 0.000))),
        (
            120.0,
            Some(tp(0, 1.000, 2, 0.366)),
            Some(tp(1, 0.211, 2, 0.000)),
        ),
        (
            135.0,
            Some(tp(0, 1.000, 2, 0.000)),
            Some(tp(0, 1.000, 2, 0.000)),
        ),
        (
            150.0,
            Some(tp(0, 1.0, 1, 0.789)),
            Some(tp(0, 0.634, 2, 0.000)),
        ),
        (180.0, Some(tp(0, 1.000, 1, 0.500)), None),
        (
            210.0,
            Some(tp(0, 1.000, 1, 0.211)),
            Some(tp(0, 0.634, 0, 1.000)),
        ),
        (
            225.0,
            Some(tp(0, 1.000, 0, 1.000)),
            Some(tp(0, 1.000, 0, 1.000)),
        ),
        (270.0, None, Some(tp(1, 0.500, 0, 1.000))),
        (
            330.0,
            Some(tp(2, 0.000, 1, 0.211)),
            Some(tp(2, 0.366, 0, 1.000)),
        ),
    ];
    for (angle, x, y) in test_cases {
        let ray = init_centered_3x3(angle);
        let Ray {
            intersect_x,
            intersect_y,
            ..
        } = ray;
        assert_eq!(round_otp(intersect_x), x, "angle {}", angle);
        assert_eq!(round_otp(intersect_y), y, "angle {}", angle);
    }
}

#[test]
fn ray_intersection_deltas() {
    let test_cases: Vec<(f32, Option<SignedTilePosition>, Option<SignedTilePosition>)> = vec![
        (0.0, Some(stp(1, 0.00, 0, 0.00)), None),
        (
            30.0,
            Some(stp(1, 0.00, 0, 0.577)),
            Some(stp(1, 0.732, 1, 0.00)),
        ),
        (
            45.0,
            Some(stp(1, 0.00, 1, 0.000)),
            Some(stp(1, 0.00, 1, 0.000)),
        ),
        (
            60.0,
            Some(stp(1, 0.00, 1, 0.732)),
            Some(stp(0, 0.577, 1, 0.00)),
        ),
        (90.0, None, Some(stp(0, 0.00, 1, 0.00))),
        (
            135.0,
            Some(stp(-1, 0.00, 1, 0.000)),
            Some(stp(-1, 0.00, 1, 0.000)),
        ),
        (
            150.0,
            Some(stp(-1, 0.00, 0, 0.577)),
            Some(stp(-1, -0.732, 1, 0.000)),
        ),
        (180.0, Some(stp(-1, 0.00, 0, 0.00)), None),
        (
            225.0,
            Some(stp(-1, 0.000, 0, -1.000)),
            Some(stp(-1, 0.000, -1, 0.000)),
        ),
        (
            210.0,
            Some(stp(-1, 0.00, 0, -0.577)),
            Some(stp(-1, -0.732, -1, 0.000)),
        ),
        (270.0, None, Some(stp(0, 0.00, -1, 0.00))),
        (
            315.0,
            Some(stp(1, 0.000, -1, 0.000)),
            Some(stp(0, 1.00, -1, 0.000)),
        ),
        (
            330.0,
            Some(stp(1, 0.00, 0, -0.577)),
            Some(stp(1, 0.732, -1, 0.000)),
        ),
    ];
    for (angle, dx, dy) in test_cases {
        let Ray {
            delta_x_axis_intersect,
            delta_y_axis_intersect,
            ..
        } = init_centered_3x3(angle);
        assert_eq!(round_ostp(delta_x_axis_intersect), dx, "angle {}", angle);
        assert_eq!(round_ostp(delta_y_axis_intersect), dy, "angle {}", angle);
    }
}
