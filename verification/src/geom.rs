//! Plain coordinate value types: `Point` (a cell position) and `Size`
//! (grid dimensions). Both are compared and copied by value; whether a
//! point lies inside a given grid is a grid-level concern, not enforced
//! here.

use vstd::prelude::*;

verus! {

/// A zero-based cell coordinate: `x` is the column, `y` the row.
#[derive(Clone, Copy, Debug, PartialEq, Eq, Structural)]
pub struct Point {
    pub x: usize,
    pub y: usize,
}

/// Grid dimensions in cells.
#[derive(Clone, Copy, Debug, PartialEq, Eq, Structural)]
pub struct Size {
    pub width: usize,
    pub height: usize,
}

impl Point {
    /// Builds the point at column `x`, row `y`.
    pub fn of(x: usize, y: usize) -> (p: Point)
        ensures
            p.x == x,
            p.y == y,
    {
        Point { x, y }
    }
}

impl Size {
    /// Builds the size with the given width and height.
    pub fn of(width: usize, height: usize) -> (s: Size)
        ensures
            s.width == width,
            s.height == height,
    {
        Size { width, height }
    }
}

} // verus!
