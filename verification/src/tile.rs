use vstd::prelude::*;

verus! {

/// The highest zoom level; entities are indexed by the tiles of this level.
pub const MAX_ZOOM: u8 = 18;

/// The width and height of a tile, in pixels.
pub const TILE_SIZE: u32 = 256;

/// A map tile at a zoom level.
#[derive(Clone, Copy, Debug, PartialEq, Eq, Structural)]
pub struct Tile {
    pub zoom: u8,
    pub x: u32,
    pub y: u32,
}

/// A rectangle of tiles at the highest zoom level, bounds included.
#[derive(Clone, Copy, Debug, PartialEq, Eq, Structural)]
pub struct TileRange {
    pub min_x: u32,
    pub max_x: u32,
    pub min_y: u32,
    pub max_y: u32,
}

pub open spec fn pow2(n: nat) -> nat
    decreases n,
{
    if n == 0 {
        1
    } else {
        2 * pow2((n - 1) as nat)
    }
}

/// `v` clamped to the range of `u32`.
pub open spec fn clamp_u32(v: int) -> u32 {
    if v > u32::MAX {
        u32::MAX
    } else {
        v as u32
    }
}

/// The tiles at the highest zoom level that lie within a tile: for a tile `(x, y)` at zoom
/// `z`, the columns `x * 2^(18 - z) ..= (x + 1) * 2^(18 - z) - 1` and the same rows, cut at
/// the largest `u32`.
pub open spec fn spec_max_zoom_tile_range(tile: Tile) -> TileRange {
    let f = pow2((MAX_ZOOM - tile.zoom) as nat);
    TileRange {
        min_x: clamp_u32(tile.x * f),
        max_x: clamp_u32((tile.x + 1) * f - 1),
        min_y: clamp_u32(tile.y * f),
        max_y: clamp_u32((tile.y + 1) * f - 1),
    }
}

proof fn lemma_pow2_bounds(n: nat)
    requires
        n <= 18,
    ensures
        1 <= pow2(n) <= pow2(18),
        pow2(18) == 0x40000,
    decreases n,
{
    reveal_with_fuel(pow2, 19);
    if n > 0 {
        lemma_pow2_bounds((n - 1) as nat);
    }
}

/// `v * f + d` (with `d` either 0 or -1), clamped to `u32`.
fn scale_clamped(v: u64, f: u64, last: bool) -> (res: u32)
    requires
        v < 0x1_0000_0000,
        1 <= f <= 0x40000,
    ensures
        res == clamp_u32(if last { (v + 1) * f - 1 } else { v * f }),
{
    assert((v + 1) * f <= 0x1_0000_0000 * 0x40000) by (nonlinear_arith)
        requires
            v < 0x1_0000_0000,
            f <= 0x40000,
    ;
    assert(v * f <= (v + 1) * f) by (nonlinear_arith);
    assert((v + 1) * f >= 1) by (nonlinear_arith)
        requires
            f >= 1,
    ;
    let p = if last {
        (v + 1) * f - 1
    } else {
        v * f
    };
    if p > 0xffff_ffff {
        u32::MAX
    } else {
        p as u32
    }
}

/// The range of highest-zoom tiles covered by `tile`.
pub fn tile_to_max_zoom_tile_range(tile: &Tile) -> (res: TileRange)
    requires
        tile.zoom <= MAX_ZOOM,
    ensures
        res == spec_max_zoom_tile_range(*tile),
{
    let zoom_diff: u8 = MAX_ZOOM - tile.zoom;
    let mut f: u64 = 1;
    let mut i: u8 = 0;
    proof {
        lemma_pow2_bounds(zoom_diff as nat);
    }
    while i < zoom_diff
        invariant
            i <= zoom_diff <= 18,
            f == pow2(i as nat),
            pow2(zoom_diff as nat) <= 0x40000,
        decreases zoom_diff - i,
    {
        proof {
            lemma_pow2_mono((i + 1) as nat, zoom_diff as nat);
        }
        f = f * 2;
        i = i + 1;
    }
    proof {
        lemma_pow2_bounds(zoom_diff as nat);
    }
    TileRange {
        min_x: scale_clamped(tile.x as u64, f, false),
        max_x: scale_clamped(tile.x as u64, f, true),
        min_y: scale_clamped(tile.y as u64, f, false),
        max_y: scale_clamped(tile.y as u64, f, true),
    }
}

proof fn lemma_pow2_mono(a: nat, b: nat)
    requires
        a <= b,
    ensures
        pow2(a) <= pow2(b),
    decreases b,
{
    if a < b {
        lemma_pow2_mono(a, (b - 1) as nat);
    }
}

/// The highest-zoom tile that holds the pixel `(x, y)` of the highest zoom level.
pub fn xy_to_max_zoom_tile(x: u32, y: u32) -> (res: Tile)
    ensures
        res == (Tile { zoom: MAX_ZOOM, x: x / TILE_SIZE, y: y / TILE_SIZE }),
{
    Tile { zoom: MAX_ZOOM, x: x / TILE_SIZE, y: y / TILE_SIZE }
}

/// The highest-zoom tiles of a tile, one by one. This version yields none.
pub struct TileIterator {}

impl TileIterator {
    /// The next tile: there is none.
    pub fn next(&mut self) -> (res: Option<Tile>)
        ensures
            res is None,
    {
        None
    }
}

/// The highest-zoom tiles of `tile`, as an iterator (which yields none).
pub fn tile_to_max_zoom_tiles(tile: &Tile) -> (res: TileIterator) {
    TileIterator {}
}

} // verus!
