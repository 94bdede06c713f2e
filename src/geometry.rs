//! Integer points and sizes.
use vstd::prelude::*;

verus! {

/// A point on the integer pixel grid.
#[derive(Debug, Clone, Copy, PartialEq, Eq, Structural)]
pub struct Point {
    /// Horizontal coordinate.
    pub x: i32,
    /// Vertical coordinate, growing downwards.
    pub y: i32,
}

impl Point {
    /// Creates a point from its two coordinates.
    pub fn new(x: i32, y: i32) -> (r: Point)
        ensures
            r.x == x,
            r.y == y,
    {
        Point { x, y }
    }
}

/// The extent of an axis-aligned box.
#[derive(Debug, Clone, Copy, PartialEq, Eq, Structural)]
pub struct Size {
    /// Horizontal extent.
    pub width: u32,
    /// Vertical extent.
    pub height: u32,
}

/// Distance between two coordinates on one axis.
pub open spec fn span(a: i32, b: i32) -> int {
    if a <= b { b - a } else { a - b }
}

impl Size {
    /// Creates a size from its two extents.
    pub fn new(width: u32, height: u32) -> (r: Size)
        ensures
            r.width == width,
            r.height == height,
    {
        Size { width, height }
    }

    /// The extent of the box spanned by two corner points.
    pub fn from_bounding_box(a: Point, b: Point) -> (r: Size)
        ensures
            r.width == span(a.x, b.x),
            r.height == span(a.y, b.y),
    {
        let w: i64 = if a.x <= b.x { b.x as i64 - a.x as i64 } else { a.x as i64 - b.x as i64 };
        let h: i64 = if a.y <= b.y { b.y as i64 - a.y as i64 } else { a.y as i64 - b.y as i64 };
        Size { width: w as u32, height: h as u32 }
    }
}

} // verus!
