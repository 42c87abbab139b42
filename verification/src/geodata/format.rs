use crate::geodata::le::{spec_u32_le, spec_u64_le};
use vstd::prelude::*;

verus! {

/// The size of a reference to a run of integers: its offset and its length.
pub const INT_REF_SIZE: usize = 8;

/// The size of a node record: id, latitude and longitude bits, tags.
pub const NODE_SIZE: usize = 32;

/// The size of a way or multipolygon record: id, node or polygon references, tags.
pub const WAY_OR_MULTIPOLYGON_SIZE: usize = 24;

/// The size of a polygon record: node references.
pub const POLYGON_SIZE: usize = 8;

/// The size of a tile record: x, y, and references to its nodes, ways and multipolygons.
pub const TILE_RECORD_SIZE: usize = 32;

/// The size of one integer of the integer section.
pub const INT_SIZE: usize = 4;

/// A section of records of one size: they start at `start`, one after the other.
#[derive(Clone, Copy, Debug, PartialEq, Eq, Structural)]
pub struct Storage {
    pub start: usize,
    pub count: usize,
    pub size: usize,
}

/// Where the sections of a geodata file lie.
#[derive(Clone, Copy, Debug, PartialEq, Eq, Structural)]
pub struct Layout {
    pub nodes: Storage,
    pub ways: Storage,
    pub polygons: Storage,
    pub multipolygons: Storage,
    pub tiles: Storage,
    pub ints: Storage,
    pub strings_start: usize,
}

/// The position just after the records of a section.
pub open spec fn storage_end(s: Storage) -> int {
    s.start + s.size * s.count
}

/// The position of record `i` of a section.
pub open spec fn record_pos(s: Storage, i: int) -> int {
    s.start + s.size * i
}

/// The section that starts at `pos`: a count, then that many records of `size` bytes.
pub open spec fn storage_at(b: Seq<u8>, pos: int, size: int) -> Option<Storage> {
    if 0 <= pos && pos + 4 <= b.len() {
        let count = spec_u32_le(b, pos);
        if pos + 4 + size * count <= b.len() {
            Some(Storage { start: (pos + 4) as usize, count: count as usize, size: size as usize })
        } else {
            None
        }
    } else {
        None
    }
}

/// The layout of a geodata file: nodes, ways, polygons, multipolygons, tiles, integers, and
/// the strings after them; `None` where the sections do not fit in the bytes.
pub open spec fn layout_of(b: Seq<u8>) -> Option<Layout> {
    match storage_at(b, 0, NODE_SIZE as int) {
        None => None,
        Some(nodes) => match storage_at(b, storage_end(nodes), WAY_OR_MULTIPOLYGON_SIZE as int) {
            None => None,
            Some(ways) => match storage_at(b, storage_end(ways), POLYGON_SIZE as int) {
                None => None,
                Some(polygons) => match storage_at(b, storage_end(polygons), WAY_OR_MULTIPOLYGON_SIZE as int) {
                    None => None,
                    Some(multipolygons) => match storage_at(b, storage_end(multipolygons), TILE_RECORD_SIZE as int) {
                        None => None,
                        Some(tiles) => match storage_at(b, storage_end(tiles), INT_SIZE as int) {
                            None => None,
                            Some(ints) => Some(
                                Layout {
                                    nodes,
                                    ways,
                                    polygons,
                                    multipolygons,
                                    tiles,
                                    ints,
                                    strings_start: storage_end(ints) as usize,
                                },
                            ),
                        },
                    },
                },
            },
        },
    }
}

/// Integer `i` of the integer section.
pub open spec fn int_at(b: Seq<u8>, l: Layout, i: int) -> u32 {
    spec_u32_le(b, record_pos(l.ints, i))
}

/// The run of integers that the reference at `pos` designates, as (offset, length), where
/// it lies within the integer section.
pub open spec fn int_run_at(b: Seq<u8>, l: Layout, pos: int) -> Option<(nat, nat)> {
    let offset = spec_u32_le(b, pos);
    let length = spec_u32_le(b, pos + 4);
    if offset + length <= l.ints.count {
        Some((offset as nat, length as nat))
    } else {
        None
    }
}

/// The integers `offset..offset + length` of the integer section.
pub open spec fn ints_of(b: Seq<u8>, l: Layout, offset: nat, length: nat) -> Seq<u32> {
    Seq::new(length, |j: int| int_at(b, l, offset + j))
}

/// The integers designated by the reference at `pos`.
pub open spec fn int_list_at(b: Seq<u8>, l: Layout, pos: int) -> Option<Seq<u32>> {
    match int_run_at(b, l, pos) {
        Some((offset, length)) => Some(ints_of(b, l, offset, length)),
        None => None,
    }
}

/// The bytes `offset..offset + length` of the string section, where they lie in the file.
pub open spec fn string_bytes(b: Seq<u8>, l: Layout, offset: nat, length: nat) -> Option<Seq<u8>> {
    if l.strings_start + offset + length <= b.len() {
        Some(b.subrange(l.strings_start + offset, l.strings_start + offset + length))
    } else {
        None
    }
}

/// The column and row of tile record `i`.
pub open spec fn tile_xy_at(b: Seq<u8>, l: Layout, i: int) -> (u32, u32) {
    (spec_u32_le(b, record_pos(l.tiles, i)), spec_u32_le(b, record_pos(l.tiles, i) + 4))
}

/// The position of the reference to the local ids of kind `kind` (nodes, ways,
/// multipolygons) of tile record `i`.
pub open spec fn tile_ids_ref_pos(l: Layout, i: int, kind: int) -> int {
    record_pos(l.tiles, i) + 8 + 8 * kind
}

/// The 64-bit number at `pos` (an id, or the bits of a coordinate).
pub open spec fn u64_at(b: Seq<u8>, pos: int) -> u64 {
    spec_u64_le(b, pos)
}

} // verus!

verus! {

/// The sections of a layout follow one another within the file.
pub proof fn lemma_layout_bounds(b: Seq<u8>)
    requires
        layout_of(b) is Some,
        b.len() <= usize::MAX,
    ensures
        ({
            let l = layout_of(b).unwrap();
            &&& l.nodes.size == NODE_SIZE && l.ways.size == WAY_OR_MULTIPOLYGON_SIZE
            &&& l.polygons.size == POLYGON_SIZE && l.multipolygons.size == WAY_OR_MULTIPOLYGON_SIZE
            &&& l.tiles.size == TILE_RECORD_SIZE && l.ints.size == INT_SIZE
            &&& l.nodes.start == 4
            &&& l.ways.start == storage_end(l.nodes) + 4
            &&& l.polygons.start == storage_end(l.ways) + 4
            &&& l.multipolygons.start == storage_end(l.polygons) + 4
            &&& l.tiles.start == storage_end(l.multipolygons) + 4
            &&& l.ints.start == storage_end(l.tiles) + 4
            &&& l.strings_start == storage_end(l.ints)
            &&& storage_end(l.nodes) <= b.len()
            &&& storage_end(l.ways) <= b.len()
            &&& storage_end(l.polygons) <= b.len()
            &&& storage_end(l.multipolygons) <= b.len()
            &&& storage_end(l.tiles) <= b.len()
            &&& storage_end(l.ints) <= b.len()
            &&& l.nodes.start <= storage_end(l.nodes)
            &&& l.ways.start <= storage_end(l.ways)
            &&& l.polygons.start <= storage_end(l.polygons)
            &&& l.multipolygons.start <= storage_end(l.multipolygons)
            &&& l.tiles.start <= storage_end(l.tiles)
            &&& l.ints.start <= storage_end(l.ints)
        }),
{
    reveal(crate::geodata::le::spec_u32_le);
    let l = layout_of(b).unwrap();
    assert(l.nodes.size * l.nodes.count >= 0) by (nonlinear_arith)
        requires
            l.nodes.size >= 0,
            l.nodes.count >= 0,
    ;
    assert(l.ways.size * l.ways.count >= 0) by (nonlinear_arith)
        requires
            l.ways.size >= 0,
            l.ways.count >= 0,
    ;
    assert(l.polygons.size * l.polygons.count >= 0) by (nonlinear_arith)
        requires
            l.polygons.size >= 0,
            l.polygons.count >= 0,
    ;
    assert(l.multipolygons.size * l.multipolygons.count >= 0) by (nonlinear_arith)
        requires
            l.multipolygons.size >= 0,
            l.multipolygons.count >= 0,
    ;
    assert(l.tiles.size * l.tiles.count >= 0) by (nonlinear_arith)
        requires
            l.tiles.size >= 0,
            l.tiles.count >= 0,
    ;
    assert(l.ints.size * l.ints.count >= 0) by (nonlinear_arith)
        requires
            l.ints.size >= 0,
            l.ints.count >= 0,
    ;
}

} // verus!

verus! {

/// Whether the tile `a` comes before the tile `b`: by column, then by row.
pub open spec fn xy_lt(a: (u32, u32), b: (u32, u32)) -> bool {
    a.0 < b.0 || (a.0 == b.0 && a.1 < b.1)
}

/// Whether the tile records are sorted by column, then by row, without repetition (as
/// `save_to_internal_format` writes them).
pub open spec fn tiles_sorted(b: Seq<u8>, l: Layout) -> bool {
    forall|i: int, j: int| 0 <= i < j < l.tiles.count ==> xy_lt(#[trigger] tile_xy_at(b, l, i), #[trigger] tile_xy_at(b, l, j))
}

} // verus!
