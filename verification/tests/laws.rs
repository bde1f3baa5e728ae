use crisscross::{AngleRad, AngleTrig, BeamIntersect, Crossing, DirectionX, DirectionY, Grid,
    OffGridError, Ray, SignedTilePosition, TilePosition, TileRaycaster, WorldCoords};

const SCALE_F: f64 = 100_000_000.0;

fn fx(v: f64) -> i64 {
    (v * SCALE_F).round() as i64
}

fn angle_rad(deg: f32) -> AngleRad {
    AngleRad((f64::from(deg.to_radians()) * SCALE_F).round() as i64)
}

fn trig_for(deg: f32) -> AngleTrig {
    let rad = deg.to_radians();
    let tau = std::f32::consts::TAU;
    let clamped = if rad >= tau {
        rad - tau
    } else if rad < 0.0 {
        rad + tau
    } else {
        rad
    };
    AngleTrig {
        tan: (f64::from(clamped.tan()) * SCALE_F).round() as i64,
        sin: (f64::from(clamped.sin()) * SCALE_F).round() as i64,
        cos: (f64::from(clamped.cos()) * SCALE_F).round() as i64,
    }
}

fn world(p: &TilePosition, ts: i64) -> (i64, i64) {
    (ts * (p.x as i64) + p.rel_x, ts * (p.y as i64) + p.rel_y)
}

fn dsq(a: (i64, i64), b: (i64, i64)) -> i128 {
    let dx = (a.0 - b.0) as i128;
    let dy = (a.1 - b.1) as i128;
    dx * dx + dy * dy
}

fn collect_cells(tc: &TileRaycaster, origin: &TilePosition, deg: f32) -> Vec<TilePosition> {
    let angle = angle_rad(deg);
    let trig = trig_for(deg);
    let mut it = tc.cast_ray(origin, &angle, trig.tan);
    let mut out = Vec::new();
    while let Some(p) = it.next() {
        out.push(p);
    }
    out
}

/// Each emission of a ray lies strictly farther from the origin than the
/// one before it.
#[test]
fn monotonic_distance() {
    let ts = fx(1.0);
    let tc = TileRaycaster::new(Grid::new(7, 7, ts));
    let origin = TilePosition::new(1, 2, fx(0.25), fx(0.75));
    let ow = world(&origin, ts);
    for deg in (0..72).map(|k| (k * 5) as f32) {
        let cells = collect_cells(&tc, &origin, deg);
        let mut prev: Option<i128> = None;
        for p in &cells {
            let d = dsq(world(p, ts), ow);
            if let Some(q) = prev {
                assert!(d > q, "distance not increasing at {} deg", deg);
            }
            prev = Some(d);
        }
    }
}

/// No two consecutive emissions of a ray or a beam share a cell.
#[test]
fn no_immediate_duplicate() {
    let ts = fx(1.0);
    let tc = TileRaycaster::new(Grid::new(6, 6, ts));
    let origin = TilePosition::new(2, 2, fx(0.5), fx(0.5));
    for deg in (0..72).map(|k| (k * 5) as f32) {
        let cells = collect_cells(&tc, &origin, deg);
        for w in cells.windows(2) {
            assert!((w[0].x, w[0].y) != (w[1].x, w[1].y), "duplicate at {} deg", deg);
        }
    }

    let angle = angle_rad(320.0);
    let trig = trig_for(320.0);
    let mut it = tc.cast_beam(&origin, fx(2.2), &angle, &trig);
    let mut prev: Option<(u32, u32)> = None;
    while let Some(BeamIntersect(_, p)) = it.next() {
        assert!(Some((p.x, p.y)) != prev);
        prev = Some((p.x, p.y));
    }
}

/// Every emitted position lies inside the grid.
#[test]
fn bounds_containment() {
    let ts = fx(1.0);
    let cols = 5u32;
    let rows = 3u32;
    let tc = TileRaycaster::new(Grid::new(cols, rows, ts));
    let origin = TilePosition::new(4, 1, fx(0.9), fx(0.1));
    for deg in (0..360).step_by(11) {
        let cells = collect_cells(&tc, &origin, deg as f32);
        for p in &cells {
            assert!(p.x < cols && p.y < rows, "out of bounds at {} deg", deg);
        }
    }
}

/// Casting at an angle and at its half-turn opposite from the center of a
/// symmetric grid yields crossing sequences that mirror each other through
/// the origin.
#[test]
fn directional_symmetry() {
    let ts = fx(1.0);
    let tc = TileRaycaster::new(Grid::new(5, 5, ts));
    let origin = TilePosition::new(2, 2, fx(0.5), fx(0.5));
    let ow = world(&origin, ts);
    for deg in [30.0f32, 60.0, 120.0, 345.0] {
        let fwd = collect_cells(&tc, &origin, deg);
        let bwd = collect_cells(&tc, &origin, deg + 180.0);
        // At the grid's edge one side may squeeze in one extra boundary
        // crossing (a corner point whose fractional offset truncates into
        // the outermost cell); the sequences mirror up to that cell.
        let n = fwd.len().min(bwd.len());
        assert!(fwd.len() <= n + 1 && bwd.len() <= n + 1, "lengths at {} deg", deg);
        assert!(n >= 2, "too short at {} deg", deg);
        for (p, q) in fwd.iter().take(n).zip(bwd.iter().take(n)) {
            let pw = world(p, ts);
            let qw = world(q, ts);
            assert!((pw.0 + qw.0 - 2 * ow.0).abs() <= 1000, "x mirror at {} deg", deg);
            assert!((pw.1 + qw.1 - 2 * ow.1).abs() <= 1000, "y mirror at {} deg", deg);
        }
    }
}

/// At the four axis-parallel angles, exactly one axis ever holds a pending
/// crossing; the other stays empty through the whole traversal.
#[test]
fn axis_parallel_degeneracy() {
    let ts = fx(1.0);
    let grid = Grid::new(4, 4, ts);
    let origin = TilePosition::new(1, 1, fx(0.5), fx(0.5));
    for deg in [0.0f32, 90.0, 180.0, 270.0] {
        let angle = angle_rad(deg);
        let trig = trig_for(deg);
        let mut ray = Ray::new(grid.clone(), origin, &angle, trig.tan);
        let x_parallel = ray.direction_x == DirectionX::Parallel;
        let y_parallel = ray.direction_y == DirectionY::Parallel;
        assert!(x_parallel != y_parallel, "exactly one axis parallel at {} deg", deg);
        loop {
            if x_parallel {
                assert!(ray.intersect_x.is_none());
            } else {
                assert!(ray.intersect_y.is_none());
            }
            if ray.next_intersect().is_none() {
                break;
            }
        }
    }
}

/// The canonical 30-degree scenario.
#[test]
fn scenario_30deg() {
    let tc = TileRaycaster::new(Grid::new(4, 4, fx(1.0)));
    let origin = TilePosition::new(1, 1, fx(0.5), fx(0.5));
    let cells = collect_cells(&tc, &origin, 30.0);
    let rounded: Vec<TilePosition> =
        cells.iter().map(|p| crisscross::util::round_tp(p)).collect();
    assert_eq!(
        rounded,
        [
            TilePosition::new(2, 1, fx(0.0), fx(0.789)),
            TilePosition::new(2, 2, fx(0.366), fx(0.0)),
            TilePosition::new(3, 2, fx(0.0), fx(0.366)),
        ]
    );
}

/// A signed position with a negative index cannot become a tile position.
#[test]
fn off_grid_conversion() {
    assert_eq!(
        TilePosition::try_from_signed(SignedTilePosition::new(-1, 0, 0, 0)),
        Err(OffGridError)
    );
    assert_eq!(
        TilePosition::try_from_signed(SignedTilePosition::new(0, -2, fx(0.5), 0)),
        Err(OffGridError)
    );
    assert_eq!(
        TilePosition::try_from_signed(SignedTilePosition::new(3, 2, fx(0.25), fx(0.75))),
        Ok(TilePosition::new(3, 2, fx(0.25), fx(0.75)))
    );
}

/// A transition with an invalid cell always carries the valid cell before
/// it; a predicate that fails immediately yields the empty transition.
#[test]
fn crossing_structure() {
    let tc = TileRaycaster::new(Grid::new(4, 4, fx(1.0)));
    let origin = TilePosition::new(0, 0, 0, 0);
    let angle = angle_rad(30.0);
    let trig = trig_for(30.0);
    let c = tc.crossing(&origin, &angle, trig.tan, |_| false);
    assert_eq!(c, Crossing::default());

    let c = tc.crossing(&origin, &angle, trig.tan, |p| p.y < 1);
    assert!(c.invalid.is_none() || c.valid.is_some());
}

/// Exact arithmetic helpers: Euclidean distance of a 3-4-5 triangle, angle
/// clamping, the perpendicular turn, cell centers and edge moves.
#[test]
fn exact_values() {
    let a = TilePosition::new(0, 0, 0, 0);
    let b = TilePosition::new(3, 4, 0, 0);
    assert_eq!(a.distance(&b, fx(1.0)), fx(5.0));

    let turn = AngleRad(fx(7.0)).clamp();
    assert_eq!(turn.0, fx(7.0) - 628_318_548);
    let neg = AngleRad(fx(-1.0)).clamp();
    assert_eq!(neg.0, fx(-1.0) + 628_318_548);
    let two_turns = AngleRad(2 * 628_318_548 + fx(1.0)).clamp();
    assert_eq!(two_turns.0, fx(1.0));
    let far_neg = AngleRad(-3 * 628_318_548 - fx(0.5)).clamp();
    assert_eq!(far_neg.0, 628_318_548 - fx(0.5));
    assert_eq!(two_turns.clamp().0, two_turns.0);
    let perp = AngleRad(fx(1.0)).perpendicular();
    assert_eq!(perp.0, fx(1.0) - 314_159_274);

    let c = TilePosition::centered(2, 3, fx(1.0));
    assert_eq!(c, TilePosition::new(2, 3, fx(0.5), fx(0.5)));

    let m = c.move_to_edge(1, -1, fx(1.0));
    assert_eq!(m, TilePosition::new(3, 2, 0, fx(1.0)));

    let g = Grid::new(6, 2, fx(0.5));
    assert_eq!(g.width, fx(3.0));
    assert_eq!(g.height, fx(1.0));

    assert_eq!(crisscross::util::round(fx(1.2345678), 3), fx(1.235));
    assert_eq!(crisscross::util::round(fx(-1.2345678), 3), fx(-1.235));
}

/// Conversions between the coordinate forms agree with each other.
#[test]
fn signed_conversions() {
    let p = TilePosition::new(2, 1, fx(0.25), fx(0.75));
    let s = p.to_signed();
    assert_eq!(TilePosition::try_from_signed(s), Ok(p));

    let wc = WorldCoords::new(fx(2.25), fx(1.75), fx(1.0));
    assert_eq!(wc.to_tile_position(), Ok(p));

    let n = SignedTilePosition::new(1, 2, fx(1.5), fx(-0.25)).normalized(fx(1.0));
    assert_eq!(n, SignedTilePosition::new(2, 1, fx(0.5), fx(0.75)));

    let moved = TilePosition::new(1, 1, fx(0.5), 0).plus(&SignedTilePosition::new(
        2,
        -1,
        fx(0.25),
        0,
    ));
    assert_eq!(moved, SignedTilePosition::new(3, 0, fx(0.75), 0));
}
