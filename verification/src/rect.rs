//! The active rectangle: the tile-space bounding box that must currently
//! have live drawables, derived each frame from the camera tile and a
//! padding margin, clamped to the grid.

use vstd::prelude::*;

verus! {

/// Clamp `v` into `[lo, hi]`.
pub open spec fn spec_clamp(v: int, lo: int, hi: int) -> int {
    if v < lo {
        lo
    } else if v > hi {
        hi
    } else {
        v
    }
}

/// Executable twin of `spec_clamp` for `i32`.
pub fn clamp_i32(v: i32, lo: i32, hi: i32) -> (r: i32)
    requires
        lo <= hi,
    ensures
        r == spec_clamp(v as int, lo as int, hi as int),
{
    if v < lo {
        lo
    } else if v > hi {
        hi
    } else {
        v
    }
}

/// An inclusive axis-aligned rectangle in tile coordinates.
#[derive(Clone, Copy, PartialEq, Eq, Structural, Debug)]
pub struct ActiveRect {
    pub min_x: i32,
    pub max_x: i32,
    pub min_y: i32,
    pub max_y: i32,
}

impl ActiveRect {
    /// Non-empty and inside a `w` by `h` grid.
    pub open spec fn wf(self, w: int, h: int) -> bool {
        &&& 0 <= self.min_x <= self.max_x < w
        &&& 0 <= self.min_y <= self.max_y < h
    }

    pub open spec fn contains(self, x: int, y: int) -> bool {
        self.min_x <= x <= self.max_x && self.min_y <= y <= self.max_y
    }

    /// Executable twin of `contains`.
    pub fn contains_tile(&self, x: i32, y: i32) -> (r: bool)
        ensures
            r == self.contains(x as int, y as int),
    {
        self.min_x <= x && x <= self.max_x && self.min_y <= y && y <= self.max_y
    }
}

/// The rectangle the given camera tile and padding ask for: the camera
/// tile extended by the padding on each axis, clamped to grid bounds.
pub open spec fn spec_active_rect(px: int, py: int, pad_x: int, pad_y: int, w: int, h: int)
    -> ActiveRect {
    ActiveRect {
        min_x: spec_clamp(px - pad_x, 0, w - 1) as i32,
        max_x: spec_clamp(px + pad_x, 0, w - 1) as i32,
        min_y: spec_clamp(py - pad_y, 0, h - 1) as i32,
        max_y: spec_clamp(py + pad_y, 0, h - 1) as i32,
    }
}

/// Compute the active rectangle for a camera at tile `(px, py)` with the
/// given half-extent padding, clamped into the `width` by `height` grid.
pub fn compute_active_rect(px: i32, py: i32, pad_x: i32, pad_y: i32, width: usize, height: usize)
    -> (r: ActiveRect)
    requires
        1 <= width <= 32768,
        1 <= height <= 32768,
        0 <= pad_x <= 100000,
        0 <= pad_y <= 100000,
        -1000000 <= px <= 1000000,
        -1000000 <= py <= 1000000,
    ensures
        r == spec_active_rect(
            px as int,
            py as int,
            pad_x as int,
            pad_y as int,
            width as int,
            height as int,
        ),
        r.wf(width as int, height as int),
{
    let w1 = width as i32 - 1;
    let h1 = height as i32 - 1;
    ActiveRect {
        min_x: clamp_i32(px - pad_x, 0, w1),
        max_x: clamp_i32(px + pad_x, 0, w1),
        min_y: clamp_i32(py - pad_y, 0, h1),
        max_y: clamp_i32(py + pad_y, 0, h1),
    }
}

} // verus!
