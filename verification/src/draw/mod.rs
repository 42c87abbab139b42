pub mod fill;
pub mod icon;
pub mod png_writer;

use vstd::prelude::*;

verus! {

/// The width and height of a tile in pixels, as an index bound.
pub const TILE_PIXELS: usize = 256;

/// A pixel position relative to the top left corner of a tile; it may lie outside the tile.
#[derive(Clone, Copy, Debug, PartialEq, Eq, Structural, Hash)]
pub struct Point {
    pub x: i32,
    pub y: i32,
}

/// The pixels of a rendered tile, row after row, and the tile's width in pixels.
pub struct TileRenderedPixels {
    pub triples: Vec<(u8, u8, u8)>,
    pub dimension: usize,
}

/// Whether a coordinate lies within a tile.
pub open spec fn in_tile_coord(c: int) -> bool {
    0 <= c < TILE_PIXELS
}

/// The square of the distance between two points.
pub open spec fn dist_sq(a: Point, b: Point) -> int {
    (b.x - a.x) * (b.x - a.x) + (b.y - a.y) * (b.y - a.y)
}

/// Whether `c` lies between `c1` and `c2`, bounds included.
pub open spec fn coord_between(c: int, c1: int, c2: int) -> bool {
    (c1 <= c2 && c1 <= c <= c2) || (c2 < c1 && c2 <= c <= c1)
}

impl Point {
    /// Whether the point lies within the tile.
    pub fn is_in_tile(&self) -> (res: bool)
        ensures
            res == (in_tile_coord(self.x as int) && in_tile_coord(self.y as int)),
    {
        self.x >= 0 && self.x < 256 && self.y >= 0 && self.y < 256
    }

    /// The square of the distance to `other`, where it fits in an `i32`.
    pub fn dist_to(&self, other: &Point) -> (res: i32)
        requires
            dist_sq(*self, *other) <= i32::MAX,
        ensures
            res == dist_sq(*self, *other),
    {
        let dx = other.x as i64 - self.x as i64;
        let dy = other.y as i64 - self.y as i64;
        assert(dx * dx >= 0 && dy * dy >= 0) by (nonlinear_arith);
        assert(dx * dx + dy * dy == dist_sq(*self, *other));
        let d = dx * dx + dy * dy;
        d as i32
    }

    /// Whether the point lies within the box that `p1` and `p2` span.
    pub fn is_between(&self, p1: &Point, p2: &Point) -> (res: bool)
        ensures
            res == (coord_between(self.x as int, p1.x as int, p2.x as int) && coord_between(
                self.y as int,
                p1.y as int,
                p2.y as int,
            )),
    {
        let (x_lo, x_hi) = if p1.x <= p2.x {
            (p1.x, p2.x)
        } else {
            (p2.x, p1.x)
        };
        let (y_lo, y_hi) = if p1.y <= p2.y {
            (p1.y, p2.y)
        } else {
            (p2.y, p1.y)
        };
        self.x >= x_lo && self.x <= x_hi && self.y >= y_lo && self.y <= y_hi
    }
}

/// The pair in the order given, or swapped.
pub fn swap_x_y_if_needed<T>(a: T, b: T, should_swap: bool) -> (res: (T, T))
    ensures
        res == (if should_swap {
            (b, a)
        } else {
            (a, b)
        }),
{
    if should_swap {
        (b, a)
    } else {
        (a, b)
    }
}

/// The index of the pixel `(x, y)` of a tile, row after row.
pub fn to_idx(x: usize, y: usize) -> (res: usize)
    requires
        y * TILE_PIXELS + x <= usize::MAX,
    ensures
        res == y * TILE_PIXELS + x,
{
    y * TILE_PIXELS + x
}

} // verus!
