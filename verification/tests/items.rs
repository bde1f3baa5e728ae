use crisscross::util::round_tp;
use crisscross::{AngleRad, AngleTrig, BeamIntersect, Crossing, Grid, TilePosition,
    TileRaycaster};

const SCALE_F: f64 = 100_000_000.0;

fn fx(v: f64) -> i64 {
    (v * SCALE_F).round() as i64
}

fn angle_rad(deg: f32) -> AngleRad {
    AngleRad((f64::from(deg.to_radians()) * SCALE_F).round() as i64)
}

fn trig_for(deg: f32) -> AngleTrig {
    let rad = deg.to_radians();
    let tau = std::f32::consts::TAU;
    let clamped = if rad >= tau {
        rad - tau
    } else if rad < 0.0 {
        rad + tau
    } else {
        rad
    };
    AngleTrig {
        tan: (f64::from(clamped.tan()) * SCALE_F).round() as i64,
        sin: (f64::from(clamped.sin()) * SCALE_F).round() as i64,
        cos: (f64::from(clamped.cos()) * SCALE_F).round() as i64,
    }
}

fn tp(x: u32, rel_x: f64, y: u32, rel_y: f64) -> TilePosition {
    TilePosition::new(x, y, fx(rel_x), fx(rel_y))
}

fn round_cutoff(c: Crossing) -> Crossing {
    Crossing {
        valid: c.valid.map(|p| round_tp(&p)),
        invalid: c.invalid.map(|p| round_tp(&p)),
    }
}

#[test]
fn last_valid() {
    let tc = TileRaycaster::new(Grid::new(4, 4, fx(1.0)));
    let angle = angle_rad(30.0);
    let trig = trig_for(30.0);

    assert_eq!(
        tc.last_valid(&tp(0, 0.0, 0, 0.0), &angle, trig.tan, |p| p.y < 2)
            .map(|p| round_tp(&p)),
        Some(tp(3, 0.000, 1, 0.732)),
    );
}

#[test]
fn first_invalid() {
    let tc = TileRaycaster::new(Grid::new(4, 4, fx(1.0)));
    let angle = angle_rad(45.0);
    let trig = trig_for(45.0);

    assert_eq!(
        tc.first_invalid(&tp(0, 0.0, 0, 0.0), &angle, trig.tan, |p| p.x < 2 && p.y < 2)
            .map(|p| round_tp(&p)),
        Some(tp(2, 0.000, 2, 0.000)),
    );

    assert_eq!(
        tc.first_invalid(&tp(0, 0.0, 0, 0.0), &angle, trig.tan, |p| p.x < 1 && p.y < 1)
            .map(|p| round_tp(&p)),
        Some(tp(1, 0.000, 1, 0.000)),
    );
}

#[test]
fn beam_last_valid() {
    let tc = TileRaycaster::new(Grid::new(4, 4, fx(1.0)));
    let beam_width = fx(2.0);
    let angle = angle_rad(30.0);
    let trig = trig_for(30.0);

    assert_eq!(
        tc.beam_last_valid(
            &tp(0, 0.0, 0, 0.0),
            beam_width,
            &angle,
            &trig,
            |BeamIntersect(_, p)| p.y < 2
        )
        .map(|BeamIntersect(i, p)| BeamIntersect(i, round_tp(&p))),
        Some(BeamIntersect(0, tp(3, 0.000, 1, 0.732)))
    );
}

#[test]
fn cutoff() {
    let tc = TileRaycaster::new(Grid::new(4, 4, fx(1.0)));
    let angle30 = angle_rad(30.0);
    let trig30 = trig_for(30.0);
    let cutoff = round_cutoff(tc.crossing(&tp(0, 0.0, 0, 0.0), &angle30, trig30.tan, |p| {
        p.y < 2
    }));

    assert_eq!(
        cutoff,
        Crossing {
            valid: Some(tp(3, 0.000, 1, 0.732)),
            invalid: Some(tp(3, 0.464, 2, 0.000)),
        }
    );

    let tp_0_0 = tp(0, 0.0, 0, 0.0);
    let angle0 = angle_rad(0.0);
    let trig0 = trig_for(0.0);
    assert_eq!(
        round_cutoff(tc.crossing(&tp_0_0, &angle0, trig0.tan, |p| p.x <= 0)),
        Crossing::default(),
    );
    assert_eq!(
        round_cutoff(tc.crossing(&tp_0_0, &angle0, trig0.tan, |p| p.x <= 1)),
        Crossing {
            valid: Some(tp(1, 0.000, 0, 0.000)),
            invalid: Some(tp(2, 0.000, 0, 0.000))
        }
    );
    assert_eq!(
        round_cutoff(tc.crossing(&tp_0_0, &angle0, trig0.tan, |p| p.x <= 2)),
        Crossing {
            valid: Some(tp(2, 0.000, 0, 0.000)),
            invalid: Some(tp(3, 0.000, 0, 0.000))
        }
    );
    assert_eq!(
        round_cutoff(tc.crossing(&tp_0_0, &angle0, trig0.tan, |p| p.x <= 3)),
        Crossing {
            valid: Some(tp(3, 0.000, 0, 0.000)),
            invalid: None,
        }
    );
    assert_eq!(
        round_cutoff(tc.crossing(&tp_0_0, &angle0, trig0.tan, |p| p.x <= 4)),
        Crossing {
            valid: Some(tp(3, 0.000, 0, 0.000)),
            invalid: None,
        }
    );
}
