//! Radian angles and their step-direction classification.
//!
//! An angle is a fixed-point radian value ([`crate::fixed::SCALE`] units per
//! radian). Angles reach this crate through single-precision radian
//! conversions, so the axis constants below are the fixed-point images of
//! the single-precision values of `pi/2`, `pi`, `3*pi/2` and `2*pi`, and the
//! classifiers share one tolerance, [`ANGLE_EPS`], the machine epsilon of
//! that float width: an angle within it of an axis is treated as exactly
//! axis-parallel.

use vstd::prelude::*;

use crate::fixed::{abs_int, fadd, sat_fx};

verus! {

/// pi / 2 in fixed-point radians, as single precision carries it.
pub const HALF_PI_FX: i64 = 157_079_637;

/// pi in fixed-point radians, as single precision carries it.
pub const PI_FX: i64 = 314_159_274;

/// 3 * pi / 2 in fixed-point radians, as single precision carries it.
pub const THREE_HALF_PI_FX: i64 = 471_238_899;

/// 2 * pi in fixed-point radians, as single precision carries it.
pub const TAU_FX: i64 = 628_318_548;

/// Shared tolerance of the axis classifiers, in fixed-point radians.
pub const ANGLE_EPS: i64 = 12;

/// An angle in fixed-point radians.
#[derive(Clone, Copy, Debug)]
pub struct AngleRad(pub i64);

/// Trigonometric values of an angle, supplied by the caller as fixed-point
/// inputs: this crate computes no trigonometry itself.
#[derive(Clone, Copy, Debug)]
pub struct AngleTrig {
    pub tan: i64,
    pub sin: i64,
    pub cos: i64,
}

/// Whether two fixed-point radian values lie within the classification
/// tolerance of each other.
pub open spec fn near_angle(a: int, b: int) -> bool {
    abs_int(a - b) < ANGLE_EPS
}

/// The value `clamp` maps an angle to: the representative of the same
/// direction in `[0, 2*pi)`, i.e. the angle reduced modulo one full turn.
pub open spec fn clamp_spec(a: int) -> int {
    a % (TAU_FX as int)
}

/// Clamping lands in `[0, 2*pi)`, is idempotent, and changes the angle by
/// a whole number of turns.
pub proof fn lemma_clamp_spec_props(a: int)
    ensures
        0 <= clamp_spec(a) < TAU_FX,
        clamp_spec(clamp_spec(a)) == clamp_spec(a),
        clamp_spec(a) == a - TAU_FX * (a / (TAU_FX as int)),
{
    vstd::arithmetic::div_mod::lemma_mod_bound(a, TAU_FX as int);
    vstd::arithmetic::div_mod::lemma_small_mod(clamp_spec(a) as nat, TAU_FX as nat);
    vstd::arithmetic::div_mod::lemma_fundamental_div_mod(a, TAU_FX as int);
}

impl AngleRad {
    /// Map the angle into `[0, 2*pi)` by removing whole turns, however many
    /// the value is out by; a value already in range is returned unchanged.
    pub fn clamp(&self) -> (r: Self)
        ensures
            r.0 == clamp_spec(self.0 as int),
            0 <= r.0 < TAU_FX,
    {
        let neg: bool = self.0 < 0;
        let m: u64 = if neg {
            (-(self.0 as i128)) as u64
        } else {
            self.0 as u64
        };
        let qm: u64 = m / (TAU_FX as u64);
        let rem: u64 = m % (TAU_FX as u64);
        proof {
            vstd::arithmetic::div_mod::lemma_fundamental_div_mod(m as int, TAU_FX as int);
            vstd::arithmetic::div_mod::lemma_mod_bound(m as int, TAU_FX as int);
            if neg {
                if rem == 0 {
                    assert(self.0 == (-(qm as int)) * TAU_FX + 0) by (nonlinear_arith)
                        requires
                            m == TAU_FX * qm + rem,
                            rem == 0,
                            self.0 == -(m as int),
                    ;
                    vstd::arithmetic::div_mod::lemma_fundamental_div_mod_converse(
                        self.0 as int,
                        TAU_FX as int,
                        -(qm as int),
                        0,
                    );
                } else {
                    assert(self.0 == (-(qm as int) - 1) * TAU_FX + (TAU_FX - rem))
                        by (nonlinear_arith)
                        requires
                            m == TAU_FX * qm + rem,
                            self.0 == -(m as int),
                    ;
                    vstd::arithmetic::div_mod::lemma_fundamental_div_mod_converse(
                        self.0 as int,
                        TAU_FX as int,
                        -(qm as int) - 1,
                        TAU_FX - rem,
                    );
                }
            } else {
                assert(self.0 == (qm as int) * TAU_FX + rem) by (nonlinear_arith)
                    requires
                        m == TAU_FX * qm + rem,
                        self.0 == m,
                ;
                vstd::arithmetic::div_mod::lemma_fundamental_div_mod_converse(
                    self.0 as int,
                    TAU_FX as int,
                    qm as int,
                    rem as int,
                );
            }
        }
        if neg {
            if rem == 0 {
                AngleRad(0)
            } else {
                AngleRad(TAU_FX - (rem as i64))
            }
        } else {
            AngleRad(rem as i64)
        }
    }

    /// The angle turned by half a turn (pi radians).
    pub fn perpendicular(&self) -> (r: Self)
        ensures
            r.0 == sat_fx(self.0 - PI_FX),
    {
        AngleRad(fadd(self.0, -PI_FX))
    }
}

/// Horizontal component of a ray's travel direction.
#[derive(Clone, Copy, Debug, PartialEq, Eq, Structural)]
pub enum DirectionX {
    Left,
    Right,
    Parallel,
}

/// Vertical component of a ray's travel direction.
#[derive(Clone, Copy, Debug, PartialEq, Eq, Structural)]
pub enum DirectionY {
    Up,
    Down,
    Parallel,
}

/// Horizontal direction of an angle: `Parallel` within the tolerance of
/// `pi/2` or `3*pi/2`, `Right` outside `[pi/2, 3*pi/2]`, `Left` inside.
pub open spec fn direction_x_spec(a: int) -> DirectionX {
    if near_angle(a, HALF_PI_FX as int) || near_angle(a, THREE_HALF_PI_FX as int) {
        DirectionX::Parallel
    } else if !(HALF_PI_FX <= a <= THREE_HALF_PI_FX) {
        DirectionX::Right
    } else {
        DirectionX::Left
    }
}

/// Vertical direction of an angle: `Parallel` within the tolerance of `0`
/// or `pi`, `Up` below `pi`, `Down` above.
pub open spec fn direction_y_spec(a: int) -> DirectionY {
    if near_angle(a, 0) || near_angle(a, PI_FX as int) {
        DirectionY::Parallel
    } else if a < PI_FX {
        DirectionY::Up
    } else {
        DirectionY::Down
    }
}

/// Whether two fixed-point values lie within the classification tolerance;
/// differences are taken widened so that no magnitude overflows.
fn near_angle_exec(a: i64, b: i64) -> (r: bool)
    ensures
        r == near_angle(a as int, b as int),
{
    let d: i128 = (a as i128) - (b as i128);
    -(ANGLE_EPS as i128) < d && d < (ANGLE_EPS as i128)
}

/// At each of the four axis angles exactly one classifier reports
/// `Parallel`: the horizontal one at `pi/2` and `3*pi/2`, the vertical one
/// at `0` and `pi`, so a ray fired straight along a grid axis crosses lines
/// of only one axis.
pub proof fn lemma_axis_angle_classification(a: int)
    ensures
        a == 0 || a == PI_FX ==> direction_y_spec(a) == DirectionY::Parallel
            && direction_x_spec(a) != DirectionX::Parallel,
        a == HALF_PI_FX || a == THREE_HALF_PI_FX ==> direction_x_spec(a) == DirectionX::Parallel
            && direction_y_spec(a) != DirectionY::Parallel,
{
}

impl DirectionX {
    /// Classify an angle's horizontal travel direction.
    pub fn from_angle(angle: &AngleRad) -> (d: Self)
        ensures
            d == direction_x_spec(angle.0 as int),
    {
        if near_angle_exec(angle.0, HALF_PI_FX) || near_angle_exec(angle.0, THREE_HALF_PI_FX) {
            DirectionX::Parallel
        } else if !(HALF_PI_FX <= angle.0 && angle.0 <= THREE_HALF_PI_FX) {
            DirectionX::Right
        } else {
            DirectionX::Left
        }
    }
}

impl DirectionY {
    /// Classify an angle's vertical travel direction.
    pub fn from_angle(angle: &AngleRad) -> (d: Self)
        ensures
            d == direction_y_spec(angle.0 as int),
    {
        if near_angle_exec(angle.0, 0) || near_angle_exec(angle.0, PI_FX) {
            DirectionY::Parallel
        } else if angle.0 < PI_FX {
            DirectionY::Up
        } else {
            DirectionY::Down
        }
    }
}

} // verus!
