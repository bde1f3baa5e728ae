use crisscross::util::{round, round_stp};
use crisscross::{SignedTilePosition, TilePosition, WorldCoords};

const SCALE_F: f64 = 100_000_000.0;

fn fx(v: f64) -> i64 {
    (v * SCALE_F).round() as i64
}

fn tp(x: u32, rel_x: f64, y: u32, rel_y: f64) -> TilePosition {
    TilePosition::new(x, y, fx(rel_x), fx(rel_y))
}

fn stp(x: i64, rel_x: f64, y: i64, rel_y: f64) -> SignedTilePosition {
    SignedTilePosition::new(x, y, fx(rel_x), fx(rel_y))
}

#[test]
fn subtract() {
    assert_eq!(
        TilePosition::new(2, 3, 0, 0).minus(&TilePosition::new(1, 4, 0, 0)),
        SignedTilePosition::new(1, -1, 0, 0)
    );

    assert_eq!(
        tp(1, 0.5, 1, 0.2).minus(&tp(1, 1.0, 4, 0.1)),
        stp(0, -0.5, -3, 0.1)
    );
}

#[test]
fn tile_position_distance() {
    let tp1 = tp(1, 0.0, 3, 0.3);
    let tp2 = tp(4, 0.1, 8, 0.8);
    assert_eq!(round(tp1.distance(&tp2, fx(1.0)), 3), fx(6.313));
}

#[test]
fn conversions() {
    let wc = WorldCoords::new(fx(-1.732), fx(1.0), fx(1.0));
    let v = wc.to_signed_tile_position();
    assert_eq!(round_stp(&v), stp(-1, -0.732, 1, 0.0));

    let wc = WorldCoords::new(fx(5.196), fx(3.0), fx(1.0));
    let v = wc.to_signed_tile_position();
    assert_eq!(round_stp(&v), stp(5, 0.196, 3, 0.0));
}

#[test]
fn world_coords_distance() {
    let tile_size = fx(1.0);
    let test_cases: Vec<((f64, f64), (f64, f64), f64)> = vec![
        ((0.0, 0.0), (1.0, 0.0), 1.000),
        ((0.0, 0.2), (4.0, 0.8), 4.045),
        ((1.0, 0.2), (-4.0, 0.8), 5.036),
        ((-1.0, 0.2), (4.0, 0.8), 5.036),
    ];
    for ((x1, y1), (x2, y2), distance) in test_cases {
        let wc1 = WorldCoords::new(fx(x1), fx(y1), tile_size);
        let wc2 = WorldCoords::new(fx(x2), fx(y2), tile_size);
        assert_eq!(round(wc1.distance(&wc2), 3), fx(distance));
    }
}
