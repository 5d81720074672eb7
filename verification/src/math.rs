//! Fixed-point 2D geometry: positions, footprints and the axis-aligned
//! overlap test that stands for the collision volumes of the engine.
//!
//! Coordinates are plain signed integers in whatever sub-unit scale the
//! embedding chooses; the library never divides, so the scale cancels out.

use vstd::prelude::*;

verus! {

/// Largest magnitude a coordinate may have for the executable overlap test
/// to be free of overflow (`2 * |a - b|` with `|a|, |b| <= COORD_LIMIT`
/// stays within `i64`).
pub const COORD_LIMIT: i64 = 0x1000_0000_0000_0000;

/// A 2D extent: the width and height of a rectangular footprint.
#[derive(Clone, Copy, Debug, PartialEq, Eq, Structural)]
pub struct Extent2 {
    pub x: i64,
    pub y: i64,
}

/// A 3D translation; `z` only orders drawing and never enters the overlap test.
#[derive(Clone, Copy, Debug, PartialEq, Eq, Structural)]
pub struct Vec3i {
    pub x: i64,
    pub y: i64,
    pub z: i64,
}

/// The placement of an entity. Only the translation is modelled: the core
/// never reads orientation or scale, and leaves them untouched on a move.
#[derive(Clone, Copy, Debug, PartialEq, Eq, Structural)]
pub struct Placement {
    pub translation: Vec3i,
}

impl Placement {
    /// Placement at the given coordinates.
    pub fn from_xyz(x: i64, y: i64, z: i64) -> (p: Placement)
        ensures
            p == (Placement { translation: Vec3i { x, y, z } }),
    {
        Placement { translation: Vec3i { x, y, z } }
    }

    /// All coordinates small enough for executable overlap arithmetic.
    pub open spec fn bounded(self) -> bool {
        &&& -COORD_LIMIT <= self.translation.x <= COORD_LIMIT
        &&& -COORD_LIMIT <= self.translation.y <= COORD_LIMIT
    }
}

impl Extent2 {
    /// A footprint is a non-negative extent, small enough for executable
    /// overlap arithmetic.
    pub open spec fn valid_footprint(self) -> bool {
        &&& 0 <= self.x <= COORD_LIMIT
        &&& 0 <= self.y <= COORD_LIMIT
    }
}

/// Whether two axis-aligned rectangles, each given by its centre and its
/// full extent, overlap on a strictly positive region. Touching edges do
/// not count as overlap, which keeps the test deterministic at boundaries.
pub open spec fn rects_overlap(a_pos: Placement, a_size: Extent2, b_pos: Placement, b_size: Extent2) -> bool {
    let dx = if a_pos.translation.x >= b_pos.translation.x {
        a_pos.translation.x - b_pos.translation.x
    } else {
        b_pos.translation.x - a_pos.translation.x
    };
    let dy = if a_pos.translation.y >= b_pos.translation.y {
        a_pos.translation.y - b_pos.translation.y
    } else {
        b_pos.translation.y - a_pos.translation.y
    };
    2 * dx < a_size.x + b_size.x && 2 * dy < a_size.y + b_size.y
}

/// Executable form of `rects_overlap`: the modelled collision test between
/// two rectangular sensor footprints.
pub fn footprints_overlap(a_pos: &Placement, a_size: &Extent2, b_pos: &Placement, b_size: &Extent2) -> (r: bool)
    requires
        a_pos.bounded(),
        b_pos.bounded(),
        a_size.valid_footprint(),
        b_size.valid_footprint(),
    ensures
        r == rects_overlap(*a_pos, *a_size, *b_pos, *b_size),
{
    let dx = if a_pos.translation.x >= b_pos.translation.x {
        a_pos.translation.x - b_pos.translation.x
    } else {
        b_pos.translation.x - a_pos.translation.x
    };
    let dy = if a_pos.translation.y >= b_pos.translation.y {
        a_pos.translation.y - b_pos.translation.y
    } else {
        b_pos.translation.y - a_pos.translation.y
    };
    2 * dx < a_size.x + b_size.x && 2 * dy < a_size.y + b_size.y
}

} // verus!
