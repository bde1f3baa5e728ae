use crisscross::util::round_tp;
use crisscross::{AngleRad, AngleTrig, Grid, TilePosition, TileRaycaster};

const SCALE_F: f64 = 100_000_000.0;

fn fx(v: f64) -> i64 {
    (v * SCALE_F).round() as i64
}

fn angle_rad(deg: f32) -> AngleRad {
    AngleRad((f64::from(deg.to_radians()) * SCALE_F).round() as i64)
}

fn trig_for(deg: f32) -> AngleTrig {
    let rad = deg.to_radians();
    let tau = std::f32::consts::TAU;
    let clamped = if rad >= tau {
        rad - tau
    } else if rad < 0.0 {
        rad + tau
    } else {
        rad
    };
    AngleTrig {
        tan: (f64::from(clamped.tan()) * SCALE_F).round() as i64,
        sin: (f64::from(clamped.sin()) * SCALE_F).round() as i64,
        cos: (f64::from(clamped.cos()) * SCALE_F).round() as i64,
    }
}

fn tp(x: u32, rel_x: f64, y: u32, rel_y: f64) -> TilePosition {
    TilePosition::new(x, y, fx(rel_x), fx(rel_y))
}

#[test]
fn last_grid_4x4_30deg() {
    let tc = TileRaycaster::new(Grid::new(4, 4, fx(1.0)));
    let angle = angle_rad(30.0);
    let trig = trig_for(30.0);
    assert_eq!(
        tc.last_valid(&tp(0, 0.0, 0, 0.0), &angle, trig.tan, |p| p.y < 2)
            .map(|p| round_tp(&p)),
        Some(tp(3, 0.000, 1, 0.732)),
    );
}
