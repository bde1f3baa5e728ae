//! The uniform tile lattice.

use vstd::prelude::*;

verus! {

/// Smallest accepted tile edge length, in fixed-point units. A tile shorter
/// than this would drown in the coordinate snapping tolerance.
pub const TILE_SIZE_MIN: i64 = 1_000;

/// Largest accepted tile edge length, in fixed-point units.
pub const TILE_SIZE_MAX: i64 = 1_000_000_000_000;

/// Largest accepted world-space extent of a grid (columns or rows times the
/// tile size), in fixed-point units; keeps every in-grid coordinate well
/// inside the representable range.
pub const GRID_EXTENT_MAX: i64 = 1_000_000_000_000_000_000;

/// Immutable description of a uniform tile lattice: `cols x rows` tiles of
/// edge length `tile_size`, with origin `(0, 0)` at the bottom-left corner.
#[derive(Clone, Copy, Debug)]
pub struct Grid {
    pub cols: u32,
    pub rows: u32,
    pub tile_size: i64,
    pub width: i64,
    pub height: i64,
}

impl Grid {
    /// Well-formedness: a non-degenerate lattice whose extent stays in the
    /// representable coordinate range, with the redundant extent fields
    /// consistent.
    pub open spec fn wf(&self) -> bool {
        &&& 1 <= self.cols
        &&& 1 <= self.rows
        &&& TILE_SIZE_MIN <= self.tile_size <= TILE_SIZE_MAX
        &&& self.cols * self.tile_size <= GRID_EXTENT_MAX
        &&& self.rows * self.tile_size <= GRID_EXTENT_MAX
        &&& self.width == self.cols * self.tile_size
        &&& self.height == self.rows * self.tile_size
    }

    /// Build a grid description. A zero-sized grid, a degenerate tile size
    /// or an extent beyond the representable coordinate range is rejected
    /// by the precondition.
    pub fn new(cols: u32, rows: u32, tile_size: i64) -> (g: Self)
        requires
            1 <= cols,
            1 <= rows,
            TILE_SIZE_MIN <= tile_size <= TILE_SIZE_MAX,
            cols * tile_size <= GRID_EXTENT_MAX,
            rows * tile_size <= GRID_EXTENT_MAX,
        ensures
            g.wf(),
            g.cols == cols,
            g.rows == rows,
            g.tile_size == tile_size,
    {
        proof {
            crate::fixed::lemma_product_bound(cols as int, tile_size as int, 0x1_0000_0000, TILE_SIZE_MAX as int);
            crate::fixed::lemma_product_bound(rows as int, tile_size as int, 0x1_0000_0000, TILE_SIZE_MAX as int);
        }
        let width: i64 = (cols as i64) * tile_size;
        let height: i64 = (rows as i64) * tile_size;
        Grid { cols, rows, tile_size, width, height }
    }
}

} // verus!
