use renderer::draw::{swap_x_y_if_needed, to_idx, Point};
use renderer::http_server::{extract_tile_from_path, RequestTile};
use renderer::tile::{tile_to_max_zoom_tile_range, tile_to_max_zoom_tiles, xy_to_max_zoom_tile, Tile};

fn req(zoom: u8, x: u32, y: u32, scale: usize) -> Option<RequestTile> {
    Some(RequestTile { tile: Tile { zoom, x, y }, scale })
}

#[test]
fn test_extract_tile_from_path() {
    assert_eq!(extract_tile_from_path("/15/19807/10243.png"), req(15, 19807, 10243, 1));
    assert_eq!(extract_tile_from_path("/tiles/18/158458/81948.png?key=1"), req(18, 158458, 81948, 1));
    assert_eq!(extract_tile_from_path("/15/19807/10243@2x.png"), req(15, 19807, 10243, 2));
    assert_eq!(extract_tile_from_path("/15/19807/10243@2xx"), req(15, 19807, 10243, 2));
    assert_eq!(extract_tile_from_path("15/1/2"), req(15, 1, 2, 1));
    assert_eq!(extract_tile_from_path("/+15/1/2.png.png"), req(15, 1, 2, 1));
    // A scale that does not parse leaves the row text as it is, which then fails.
    assert_eq!(extract_tile_from_path("/15/1/2@zx.png"), None);
    assert_eq!(extract_tile_from_path("/15/1/2@3@4x.png"), None);
    // Zoom above the highest level.
    assert_eq!(extract_tile_from_path("/19/1/2.png"), None);
    assert_eq!(extract_tile_from_path("/256/1/2.png"), None);
    // Too few parts.
    assert_eq!(extract_tile_from_path("/1/2.png"), None);
    assert_eq!(extract_tile_from_path(""), None);
    // Numbers out of range.
    assert_eq!(extract_tile_from_path("/10/4294967296/2.png"), None);
    assert_eq!(extract_tile_from_path("/10/-1/2.png"), None);
}

#[test]
fn test_tile_range() {
    let r = tile_to_max_zoom_tile_range(&Tile { zoom: 15, x: 0, y: 1 });
    assert_eq!((r.min_x, r.max_x, r.min_y, r.max_y), (0, 7, 8, 15));
    let r = tile_to_max_zoom_tile_range(&Tile { zoom: 18, x: 5, y: 6 });
    assert_eq!((r.min_x, r.max_x, r.min_y, r.max_y), (5, 5, 6, 6));
    let r = tile_to_max_zoom_tile_range(&Tile { zoom: 0, x: 0, y: 0 });
    assert_eq!((r.min_x, r.max_x, r.min_y, r.max_y), (0, 262143, 0, 262143));
}

#[test]
fn test_points() {
    let p = Point { x: 10, y: 300 };
    assert!(!p.is_in_tile());
    assert!(Point { x: 0, y: 255 }.is_in_tile());
    assert!(!Point { x: -1, y: 0 }.is_in_tile());
    assert_eq!(Point { x: 1, y: 2 }.dist_to(&Point { x: 4, y: 6 }), 25);
    assert!(Point { x: 3, y: 3 }.is_between(&Point { x: 5, y: 0 }, &Point { x: 0, y: 5 }));
    assert!(!Point { x: 6, y: 3 }.is_between(&Point { x: 5, y: 0 }, &Point { x: 0, y: 5 }));
    assert_eq!(swap_x_y_if_needed(1, 2, true), (2, 1));
    assert_eq!(swap_x_y_if_needed(1, 2, false), (1, 2));
    assert_eq!(to_idx(3, 2), 515);
}

#[test]
fn test_max_zoom_tiles() {
    assert_eq!(xy_to_max_zoom_tile(158333 * 256 + 17, 81957 * 256 + 255), Tile { zoom: 18, x: 158333, y: 81957 });
    let mut it = tile_to_max_zoom_tiles(&Tile { zoom: 10, x: 1, y: 2 });
    assert_eq!(it.next(), None);
}
