//! Tile-grid raycasting on exact fixed-point coordinates.
//!
//! A ray cast from a fractional position inside a uniform tile grid crosses a
//! sequence of grid cells; this crate computes that sequence, ordered by
//! distance from the ray's origin, together with a multi-ray "beam" variant
//! that merges the crossings of a fan of parallel rays.
//!
//! All continuous quantities (world coordinates, sub-tile offsets, radian
//! angles, trigonometric ratios) are carried as fixed-point numbers: an `i64`
//! holding the value scaled by [`fixed::SCALE`]. Trigonometric values cannot
//! be computed here and enter through the public constructors as plain
//! fixed-point inputs.

pub mod angle;
pub mod beam;
pub mod beam_iter;
pub mod fixed;
pub mod grid;
pub mod position;
pub mod ray;
pub mod ray_iter;
pub mod rays;
pub mod tile_raycaster;
pub mod util;

pub use angle::{AngleRad, AngleTrig, DirectionX, DirectionY};
pub use beam::{Beam, BeamIntersect};
pub use beam_iter::BeamIter;
pub use fixed::SCALE;
pub use grid::Grid;
pub use position::{OffGridError, SignedTilePosition, TilePosition, WorldCoords};
pub use ray::Ray;
pub use ray_iter::RayIter;
pub use rays::rays_from;
pub use tile_raycaster::{Crossing, TileRaycaster};
