use crate::geodata::format::{
    int_at, int_list_at, int_run_at, ints_of, layout_of, record_pos, storage_at, storage_end, string_bytes,
    tile_ids_ref_pos, tile_xy_at, tiles_sorted, u64_at, xy_lt, Layout, Storage, INT_SIZE, NODE_SIZE, POLYGON_SIZE,
    TILE_RECORD_SIZE, WAY_OR_MULTIPOLYGON_SIZE,
};
use crate::geodata::importer::{key_bytes, tags_sorted, EntityStorages, Multipolygon, Polygon, RawNode, RawWay};
use crate::geodata::le::spec_u32_le;
use crate::geodata::reader::{decoded, ids_in_range, in_range, int_checked, kv_entry, tile_ids, Tags};
use crate::geodata::bytes::bytes_lt;
use crate::tile::TileRange;
use crate::geodata::saver::{
    ids_of_kind, kind_saved, lemma_tile_saved_grow, tile_saved, tiles_written, xy_of,
    is_prefix, is_prefix_u32, lemma_node_saved_grow, lemma_record_saved_grow, lemma_refs_saved_grow, node_saved,
    polygon_saved, record_saved, refs_saved, refs_stored, stored_at, tags_saved, tags_stored, vals_stored,
};
use crate::geodata::ref_set::TileRef;
use crate::geodata::tile_refs::expected_ref;
use vstd::prelude::*;
use vstd::utf8::{decode_utf8, encode_utf8};

verus! {

/// Whether the file `b` with the layout `l` ends with the integers `ints` and the strings
/// `strings`.
pub open spec fn sections(b: Seq<u8>, l: Layout, ints: Seq<u32>, strings: Seq<u8>) -> bool {
    &&& l.ints.count == ints.len()
    &&& forall|i: int| 0 <= i < ints.len() ==> int_at(b, l, i) == #[trigger] ints[i]
    &&& l.strings_start + strings.len() == b.len()
    &&& b.subrange(l.strings_start as int, b.len() as int) == strings
}

/// Whether a tag entry read from a file is the key `k` and the value `v`.
pub open spec fn entry_is(e: Option<(Seq<u8>, Seq<u8>, nat, nat)>, k: Seq<char>, v: Seq<char>) -> bool {
    match e {
        Some((kb, vb, _, _)) => kb == encode_utf8(k) && vb == encode_utf8(v),
        None => false,
    }
}

/// Whether the tag reference at `pos` of the file designates the tags `tags`.
pub open spec fn tags_read_back(b: Seq<u8>, l: Layout, pos: int, tags: Seq<(Seq<char>, Seq<char>)>) -> bool {
    &&& spec_u32_le(b, pos + 4) == 4 * tags.len()
    &&& forall|j: int|
        0 <= j < tags.len() ==> entry_is(kv_entry(b, l, spec_u32_le(b, pos) as int, j), (#[trigger] tags[j]).0, tags[j].1)
}

/// The references as the file's integers.
pub open spec fn as_u32s(refs: Seq<usize>) -> Seq<u32> {
    refs.map_values(|x: usize| x as u32)
}

/// A string stored in the string section reads back.
proof fn lemma_string_read_back(b: Seq<u8>, l: Layout, ints: Seq<u32>, strings: Seq<u8>, o: nat, len: nat, bytes: Seq<u8>)
    requires
        sections(b, l, ints, strings),
        stored_at(strings, o as int, len as int, bytes),
    ensures
        string_bytes(b, l, o, len) == Some(bytes),
{
    let ss = l.strings_start as int;
    assert forall|t: int| 0 <= t < len implies #[trigger] b.subrange(ss + o, ss + o + len)[t] == bytes[t] by {
        assert(b.subrange(ss, b.len() as int)[o + t] == b[ss + o + t]);
        assert(strings.subrange(o as int, (o + len) as int)[t] == strings[o + t]);
    }
    assert(b.subrange(ss + o, ss + o + len) =~= bytes);
}

/// Saved tags read back.
pub proof fn lemma_tags_read_back(
    b: Seq<u8>,
    l: Layout,
    ints: Seq<u32>,
    strings: Seq<u8>,
    pos: int,
    tags: Seq<(Seq<char>, Seq<char>)>,
)
    requires
        sections(b, l, ints, strings),
        tags_saved(b, pos, ints, strings, tags),
    ensures
        tags_read_back(b, l, pos, tags),
{
    reveal(tags_stored);
    let off = spec_u32_le(b, pos) as int;
    assert forall|j: int| 0 <= j < tags.len() implies entry_is(
        kv_entry(b, l, off, j),
        (#[trigger] tags[j]).0,
        tags[j].1,
    ) by {
        let base = off + 4 * j;
        assert(int_checked(b, l, base) == Some(ints[base]));
        assert(int_checked(b, l, base + 1) == Some(ints[base + 1]));
        assert(int_checked(b, l, base + 2) == Some(ints[base + 2]));
        assert(int_checked(b, l, base + 3) == Some(ints[base + 3]));
        lemma_string_read_back(b, l, ints, strings, ints[base] as nat, ints[base + 1] as nat, encode_utf8(tags[j].0));
        lemma_string_read_back(b, l, ints, strings, ints[base + 2] as nat, ints[base + 3] as nat, encode_utf8(tags[j].1));
    }
}

/// Saved references read back.
pub proof fn lemma_refs_read_back(b: Seq<u8>, l: Layout, ints: Seq<u32>, strings: Seq<u8>, pos: int, refs: Seq<usize>)
    requires
        sections(b, l, ints, strings),
        refs_saved(b, pos, ints, refs),
    ensures
        int_list_at(b, l, pos) == Some(as_u32s(refs)),
{
    reveal(refs_stored);
    let off = spec_u32_le(b, pos) as nat;
    assert(int_run_at(b, l, pos) == Some((off, refs.len())));
    assert(ints_of(b, l, off, refs.len()) =~= as_u32s(refs));
}

/// Saved integers read back.
pub proof fn lemma_vals_read_back(b: Seq<u8>, l: Layout, ints: Seq<u32>, strings: Seq<u8>, pos: int, vals: Seq<u32>)
    requires
        sections(b, l, ints, strings),
        vals_stored(ints, spec_u32_le(b, pos) as int, vals),
        spec_u32_le(b, pos + 4) == vals.len(),
    ensures
        int_list_at(b, l, pos) == Some(vals),
{
    reveal(vals_stored);
    let off = spec_u32_le(b, pos) as nat;
    assert(int_run_at(b, l, pos) == Some((off, vals.len())));
    assert(ints_of(b, l, off, vals.len()) =~= vals);
}


/// The layout of a file whose sections hold `n` nodes, `w` ways, `p` polygons, `m`
/// multipolygons, `t` tile records and `ni` integers, one after the other from its start.
pub open spec fn saved_layout(n: nat, w: nat, p: nat, m: nat, t: nat, ni: nat) -> Layout {
    let s1 = 4 + 32 * n;
    let s2 = s1 + 4 + 24 * w;
    let s3 = s2 + 4 + 8 * p;
    let s4 = s3 + 4 + 24 * m;
    let s5 = s4 + 4 + 32 * t;
    Layout {
        nodes: Storage { start: 4, count: n as usize, size: 32 },
        ways: Storage { start: (s1 + 4) as usize, count: w as usize, size: 24 },
        polygons: Storage { start: (s2 + 4) as usize, count: p as usize, size: 8 },
        multipolygons: Storage { start: (s3 + 4) as usize, count: m as usize, size: 24 },
        tiles: Storage { start: (s4 + 4) as usize, count: t as usize, size: 32 },
        ints: Storage { start: (s5 + 4) as usize, count: ni as usize, size: 4 },
        strings_start: (s5 + 4 + 4 * ni) as usize,
    }
}

/// A file whose sections start with their counts and have the sizes that the counts give
/// has the layout `saved_layout`.
pub proof fn lemma_saved_layout(b: Seq<u8>, n: nat, w: nat, p: nat, m: nat, t: nat, ni: nat)
    requires
        b.len() <= usize::MAX,
        ({
            let s1: int = 4 + 32 * n as int;
            let s2: int = s1 + 4 + 24 * w;
            let s3: int = s2 + 4 + 8 * p;
            let s4: int = s3 + 4 + 24 * m;
            let s5: int = s4 + 4 + 32 * t;
            &&& s5 + 4 + 4 * ni <= b.len()
            &&& spec_u32_le(b, 0) == n
            &&& spec_u32_le(b, s1 as int) == w
            &&& spec_u32_le(b, s2 as int) == p
            &&& spec_u32_le(b, s3 as int) == m
            &&& spec_u32_le(b, s4 as int) == t
            &&& spec_u32_le(b, s5 as int) == ni
        }),
    ensures
        layout_of(b) == Some(saved_layout(n, w, p, m, t, ni)),
{
}

/// Whether node record `i` of the file reads as `node`.
pub open spec fn node_read_back(b: Seq<u8>, l: Layout, i: int, node: RawNode) -> bool {
    let p = record_pos(l.nodes, i);
    &&& u64_at(b, p) == node.global_id
    &&& u64_at(b, p + 8) == node.lat_bits
    &&& u64_at(b, p + 16) == node.lon_bits
    &&& tags_read_back(b, l, p + 24, node.tags@)
}

/// Whether the record at `p` of the file reads as the id `id`, the references `refs` and the
/// tags `tags` (a way or a multipolygon).
pub open spec fn record_read_back(
    b: Seq<u8>,
    l: Layout,
    p: int,
    id: u64,
    refs: Seq<usize>,
    tags: Seq<(Seq<char>, Seq<char>)>,
) -> bool {
    &&& u64_at(b, p) == id
    &&& int_list_at(b, l, p + 8) == Some(as_u32s(refs))
    &&& tags_read_back(b, l, p + 16, tags)
}

/// A node record written before the file's end reads back from the whole file.
pub proof fn lemma_node_read_back(
    out: Seq<u8>,
    b: Seq<u8>,
    ints0: Seq<u32>,
    strings0: Seq<u8>,
    ints: Seq<u32>,
    strings: Seq<u8>,
    l: Layout,
    i: int,
    node: RawNode,
)
    requires
        node_saved(out, record_pos(l.nodes, i), ints0, strings0, node),
        is_prefix(out, b),
        is_prefix_u32(ints0, ints),
        is_prefix(strings0, strings),
        sections(b, l, ints, strings),
    ensures
        node_read_back(b, l, i, node),
{
    let p = record_pos(l.nodes, i);
    lemma_node_saved_grow(out, b, p, ints0, strings0, ints, strings, node);
    reveal(node_saved);
    lemma_tags_read_back(b, l, ints, strings, p + 24, node.tags@);
}

/// A way or multipolygon record written before the file's end reads back from the whole file.
pub proof fn lemma_record_read_back(
    out: Seq<u8>,
    b: Seq<u8>,
    ints0: Seq<u32>,
    strings0: Seq<u8>,
    ints: Seq<u32>,
    strings: Seq<u8>,
    l: Layout,
    p: int,
    id: u64,
    refs: Seq<usize>,
    tags: Seq<(Seq<char>, Seq<char>)>,
)
    requires
        record_saved(out, p, ints0, strings0, id, refs, tags),
        is_prefix(out, b),
        is_prefix_u32(ints0, ints),
        is_prefix(strings0, strings),
        sections(b, l, ints, strings),
    ensures
        record_read_back(b, l, p, id, refs, tags),
{
    lemma_record_saved_grow(out, b, p, ints0, strings0, ints, strings, id, refs, tags);
    reveal(record_saved);
    lemma_refs_read_back(b, l, ints, strings, p + 8, refs);
    lemma_tags_read_back(b, l, ints, strings, p + 16, tags);
}

/// A polygon record written before the file's end reads back from the whole file.
pub proof fn lemma_polygon_read_back(
    out: Seq<u8>,
    b: Seq<u8>,
    ints0: Seq<u32>,
    ints: Seq<u32>,
    strings: Seq<u8>,
    l: Layout,
    p: int,
    polygon: Seq<usize>,
)
    requires
        polygon_saved(out, p, ints0, polygon),
        is_prefix(out, b),
        is_prefix_u32(ints0, ints),
        sections(b, l, ints, strings),
    ensures
        int_list_at(b, l, p) == Some(as_u32s(polygon)),
{
    lemma_refs_saved_grow(out, b, p, ints0, ints, polygon);
    lemma_refs_read_back(b, l, ints, strings, p, polygon);
}


/// Whether the tile records of the file index the references `refs`: the records are sorted by
/// tile, the ids of each kind of each record are increasing and are exactly the ids that
/// `refs` has for that tile and kind, and each tile that `refs` mentions has a record.
pub open spec fn tile_index_holds(b: Seq<u8>, l: Layout, refs: Set<TileRef>) -> bool {
    &&& tiles_sorted(b, l)
    &&& forall|a: int, kind: int|
        0 <= a < l.tiles.count && 0 <= kind < 3 ==> {
            let ids = #[trigger] tile_ids(b, l, a, kind);
            let xy = tile_xy_at(b, l, a);
            &&& forall|i: int, j: int| 0 <= i < j < ids.len() ==> ids[i] < ids[j]
            &&& forall|e: u32| ids.contains(e) <==> refs.contains((xy.0, xy.1, kind as u8, e))
        }
    &&& forall|x: TileRef|
        #[trigger] refs.contains(x) ==> exists|a: int| 0 <= a < l.tiles.count && tile_xy_at(b, l, a) == (x.0, x.1)
}

/// A run of tile ids written before the file's end reads back from the whole file.
proof fn lemma_kind_read_back(
    b: Seq<u8>,
    l: Layout,
    ints: Seq<u32>,
    strings: Seq<u8>,
    q: int,
    xy: (u32, u32),
    r: Seq<TileRef>,
    t: u8,
)
    requires
        kind_saved(b, q, ints, xy, r, t),
        sections(b, l, ints, strings),
    ensures
        int_list_at(b, l, q) is Some,
        ids_of_kind(int_list_at(b, l, q).unwrap(), xy, r, t),
{
    let vals = choose|vals: Seq<u32>|
        #[trigger] vals_stored(ints, spec_u32_le(b, q) as int, vals) && spec_u32_le(b, q + 4) == vals.len()
            && ids_of_kind(vals, xy, r, t);
    lemma_vals_read_back(b, l, ints, strings, q, vals);
}

/// A tile record written before the file's end reads back from the whole file.
proof fn lemma_tile_record_read_back(
    out: Seq<u8>,
    b: Seq<u8>,
    ints: Seq<u32>,
    strings: Seq<u8>,
    l: Layout,
    a: int,
    xy: (u32, u32),
    r: Seq<TileRef>,
)
    requires
        0 <= a,
        tile_saved(out, record_pos(l.tiles, a), ints, xy, r),
        is_prefix(out, b),
        sections(b, l, ints, strings),
    ensures
        tile_xy_at(b, l, a) == xy,
        forall|kind: int| 0 <= kind < 3 ==> ids_of_kind(#[trigger] tile_ids(b, l, a, kind), xy, r, kind as u8),
{
    let p = record_pos(l.tiles, a);
    assert(ints.take(ints.len() as int) =~= ints);
    lemma_tile_saved_grow(out, b, p, ints, ints, xy, r);
    reveal(tile_saved);
    lemma_kind_read_back(b, l, ints, strings, p + 8, xy, r, 0);
    lemma_kind_read_back(b, l, ints, strings, p + 16, xy, r, 1);
    lemma_kind_read_back(b, l, ints, strings, p + 24, xy, r, 2);
    assert(tile_ids_ref_pos(l, a, 0) == p + 8);
    assert(tile_ids_ref_pos(l, a, 1) == p + 16);
    assert(tile_ids_ref_pos(l, a, 2) == p + 24);
}

/// The tile records written from the sorted references `r` index the set of `r`.
pub proof fn lemma_tiles_read_back(
    out: Seq<u8>,
    b: Seq<u8>,
    ints: Seq<u32>,
    strings: Seq<u8>,
    l: Layout,
    start: int,
    r: Seq<TileRef>,
    k: int,
    starts: Seq<int>,
    refs: Set<TileRef>,
)
    requires
        tiles_written(out, start, ints, r, r.len() as int, k, starts),
        is_prefix(out, b),
        sections(b, l, ints, strings),
        l.tiles.start == start + 4,
        l.tiles.count == k,
        l.tiles.size == 32,
        forall|x: TileRef| refs.contains(x) <==> r.contains(x),
    ensures
        tile_index_holds(b, l, refs),
{
    reveal(tiles_written);
    assert forall|a: int| 0 <= a < k implies {
        &&& tile_xy_at(b, l, a) == xy_of(r[starts[a]])
        &&& forall|kind: int|
            0 <= kind < 3 ==> ids_of_kind(#[trigger] tile_ids(b, l, a, kind), xy_of(r[starts[a]]), r, kind as u8)
    } by {
        assert(tile_saved(out, start + 4 + 32 * a, ints, xy_of(r[starts[a]]), r));
        lemma_tile_record_read_back(out, b, ints, strings, l, a, xy_of(r[starts[a]]), r);
    }
    assert forall|i: int, j: int| 0 <= i < j < l.tiles.count implies xy_lt(
        #[trigger] tile_xy_at(b, l, i),
        #[trigger] tile_xy_at(b, l, j),
    ) by {
        assert(xy_lt(xy_of(r[starts[i]]), xy_of(r[starts[j]])));
    }
    assert forall|a: int, kind: int| 0 <= a < l.tiles.count && 0 <= kind < 3 implies {
        let ids = #[trigger] tile_ids(b, l, a, kind);
        let xy = tile_xy_at(b, l, a);
        &&& forall|i: int, j: int| 0 <= i < j < ids.len() ==> ids[i] < ids[j]
        &&& forall|e: u32| ids.contains(e) <==> refs.contains((xy.0, xy.1, kind as u8, e))
    } by {
        assert(ids_of_kind(tile_ids(b, l, a, kind), xy_of(r[starts[a]]), r, kind as u8));
    }
    assert forall|x: TileRef| #[trigger] refs.contains(x) implies exists|a: int|
        0 <= a < l.tiles.count && tile_xy_at(b, l, a) == (x.0, x.1) by {
        let m = choose|m: int| 0 <= m < r.len() && r[m] == x;
        let a = choose|a: int| 0 <= a < k && #[trigger] xy_of(r[m]) == xy_of(r[starts[a]]);
        assert(tile_xy_at(b, l, a) == xy_of(r[starts[a]]));
    }
}


/// Whether `b` is the geodata file of the entities of `storages`, with node `i` in the tile
/// `node_tiles[i]`: each node, way, polygon and multipolygon record reads back as the entity
/// with its local id, and the tile index holds the references that `expected_ref` describes.
pub open spec fn file_holds(b: Seq<u8>, storages: &EntityStorages, node_tiles: Seq<(u32, u32)>) -> bool {
    match layout_of(b) {
        None => false,
        Some(l) => {
            let nodes = storages.node_storage.entities();
            let ways = storages.way_storage.entities();
            let polygons = storages.polygon_storage@;
            let mps = storages.multipolygon_storage.entities();
            &&& l.nodes.count == nodes.len()
            &&& l.ways.count == ways.len()
            &&& l.polygons.count == polygons.len()
            &&& l.multipolygons.count == mps.len()
            &&& forall|i: int| 0 <= i < nodes.len() ==> node_read_back(b, l, i, #[trigger] nodes[i])
            &&& forall|i: int|
                0 <= i < ways.len() ==> record_read_back(
                    b,
                    l,
                    record_pos(l.ways, i),
                    (#[trigger] ways[i]).global_id,
                    ways[i].node_ids@,
                    ways[i].tags@,
                )
            &&& forall|i: int|
                0 <= i < polygons.len() ==> int_list_at(b, l, record_pos(l.polygons, i)) == Some(
                    as_u32s((#[trigger] polygons[i])@),
                )
            &&& forall|i: int|
                0 <= i < mps.len() ==> record_read_back(
                    b,
                    l,
                    record_pos(l.multipolygons, i),
                    (#[trigger] mps[i]).global_id,
                    mps[i].polygon_ids@,
                    mps[i].tags@,
                )
            &&& tile_index_holds(b, l, Set::new(|r: TileRef| expected_ref(storages, node_tiles, r)))
        },
    }
}


/// An id is among the ids of kind `kind` of the first `n` tile records in the range `r` exactly
/// when one of those records has it.
proof fn lemma_ids_in_range_contains(b: Seq<u8>, l: Layout, r: TileRange, kind: int, n: nat, e: u32)
    ensures
        ids_in_range(b, l, r, kind, n).contains(e) <==> exists|a: int|
            0 <= a < n && in_range(tile_xy_at(b, l, a), r) && #[trigger] tile_ids(b, l, a, kind).contains(e),
    decreases n,
{
    if n > 0 {
        let m = (n - 1) as nat;
        lemma_ids_in_range_contains(b, l, r, kind, m, e);
        let prev = ids_in_range(b, l, r, kind, m);
        let last = if in_range(tile_xy_at(b, l, m as int), r) {
            tile_ids(b, l, m as int, kind)
        } else {
            Seq::empty()
        };
        assert(ids_in_range(b, l, r, kind, n) == prev + last);
        if (prev + last).contains(e) {
            let i = choose|i: int| 0 <= i < (prev + last).len() && (prev + last)[i] == e;
            if i < prev.len() {
                assert(prev[i] == e);
                assert(prev.contains(e));
            } else {
                assert(last[i - prev.len()] == e);
                assert(tile_ids(b, l, m as int, kind).contains(e));
            }
        }
        if exists|a: int| 0 <= a < n && in_range(tile_xy_at(b, l, a), r) && #[trigger] tile_ids(b, l, a, kind).contains(e) {
            let a = choose|a: int|
                0 <= a < n && in_range(tile_xy_at(b, l, a), r) && #[trigger] tile_ids(b, l, a, kind).contains(e);
            if a < m {
                let i = choose|i: int| 0 <= i < prev.len() && prev[i] == e;
                assert((prev + last)[i] == e);
            } else {
                let i = choose|i: int| 0 <= i < last.len() && last[i] == e;
                assert((prev + last)[prev.len() + i] == e);
            }
        }
    }
}

/// Looking up the entities of a range of tiles in a saved file finds exactly the entities of
/// each kind that lie in a tile of the range.
pub proof fn lemma_saved_tile_lookup(
    b: Seq<u8>,
    storages: &EntityStorages,
    node_tiles: Seq<(u32, u32)>,
    r: TileRange,
    kind: int,
    e: u32,
)
    requires
        file_holds(b, storages, node_tiles),
        0 <= kind < 3,
    ensures
        ({
            let l = layout_of(b).unwrap();
            ids_in_range(b, l, r, kind, l.tiles.count as nat).contains(e) <==> exists|x: u32, y: u32|
                in_range((x, y), r) && #[trigger] expected_ref(storages, node_tiles, (x, y, kind as u8, e))
        }),
{
    let l = layout_of(b).unwrap();
    let refs = Set::new(|x: TileRef| expected_ref(storages, node_tiles, x));
    lemma_ids_in_range_contains(b, l, r, kind, l.tiles.count as nat, e);
    if ids_in_range(b, l, r, kind, l.tiles.count as nat).contains(e) {
        let a = choose|a: int|
            0 <= a < l.tiles.count && in_range(tile_xy_at(b, l, a), r) && #[trigger] tile_ids(b, l, a, kind).contains(e);
        let xy = tile_xy_at(b, l, a);
        assert(refs.contains((xy.0, xy.1, kind as u8, e)));
        assert(expected_ref(storages, node_tiles, (xy.0, xy.1, kind as u8, e)));
    }
    if exists|x: u32, y: u32| in_range((x, y), r) && #[trigger] expected_ref(storages, node_tiles, (x, y, kind as u8, e)) {
        let (x, y) = choose|x: u32, y: u32|
            in_range((x, y), r) && #[trigger] expected_ref(storages, node_tiles, (x, y, kind as u8, e));
        assert(refs.contains((x, y, kind as u8, e)));
        let a = choose|a: int| 0 <= a < l.tiles.count && tile_xy_at(b, l, a) == (x, y);
        assert(tile_ids(b, l, a, kind).contains(e));
    }
}


/// Saved tags, read through the file: there are as many as were saved, each reads as the key
/// and value that were saved, sorted by key, and no tag has a key that was not saved.
pub proof fn lemma_saved_tags_read<'a>(t: &Tags<'a>, pos: int, tags: Seq<(Seq<char>, Seq<char>)>)
    requires
        tags_sorted(tags),
        tags_read_back(t.data(), t.layout(), pos, tags),
        t.offset() == spec_u32_le(t.data(), pos),
        t.length() == spec_u32_le(t.data(), pos + 4),
    ensures
        t.kv_count() == tags.len(),
        t.sorted(),
        forall|j: int|
            0 <= j < tags.len() ==> t.has_key(j, encode_utf8((#[trigger] tags[j]).0)) && decoded(t.entry(j).unwrap().1)
                == Some(tags[j].1),
        forall|j: int, key: Seq<char>|
            0 <= j < tags.len() && #[trigger] t.has_key(j, encode_utf8(key)) ==> key == tags[j].0,
{
    broadcast use vstd::utf8::encode_utf8_valid_utf8, vstd::utf8::encode_utf8_decode_utf8;

    t.lemma_entry(0);
    assert(t.length() == 4 * tags.len());
    assert((4 * tags.len()) / 4 == tags.len()) by (nonlinear_arith);
    assert(t.kv_count() == tags.len());
    assert forall|j: int| 0 <= j < tags.len() implies t.has_key(j, encode_utf8((#[trigger] tags[j]).0)) && decoded(
        t.entry(j).unwrap().1,
    ) == Some(tags[j].1) by {
        t.lemma_entry(j);
    }
    assert forall|j: int| 0 <= j < t.kv_count() implies #[trigger] t.entry(j) is Some by {
        t.lemma_entry(j);
        assert(entry_is(kv_entry(t.data(), t.layout(), t.offset() as int, j), tags[j].0, tags[j].1));
    }
    assert forall|i: int, j: int| 0 <= i < j < t.kv_count() implies bytes_lt(
        (#[trigger] t.entry(i)).unwrap().0,
        (#[trigger] t.entry(j)).unwrap().0,
    ) by {
        t.lemma_entry(i);
        t.lemma_entry(j);
        assert(bytes_lt(key_bytes(tags[i].0), key_bytes(tags[j].0)));
    }
    assert forall|j: int, key: Seq<char>| 0 <= j < tags.len() && #[trigger] t.has_key(j, encode_utf8(key)) implies key
        == tags[j].0 by {
        t.lemma_entry(j);
        assert(encode_utf8(key) == encode_utf8(tags[j].0));
        assert(decode_utf8(encode_utf8(key)) == key);
        assert(decode_utf8(encode_utf8(tags[j].0)) == tags[j].0);
    }
}

/// Saved tags, looked up by key through the file: each saved key finds its saved value, and a
/// key that was not saved finds nothing.
pub proof fn lemma_saved_tags_lookup<'a>(t: &Tags<'a>, pos: int, tags: Seq<(Seq<char>, Seq<char>)>, key: Seq<char>)
    requires
        tags_sorted(tags),
        tags_read_back(t.data(), t.layout(), pos, tags),
        t.offset() == spec_u32_le(t.data(), pos),
        t.length() == spec_u32_le(t.data(), pos + 4),
    ensures
        forall|j: int| 0 <= j < tags.len() ==> t.value_of(encode_utf8((#[trigger] tags[j]).0)) == Some(tags[j].1),
        (forall|j: int| 0 <= j < tags.len() ==> (#[trigger] tags[j]).0 != key) ==> t.value_of(encode_utf8(key)) is None,
{
    lemma_saved_tags_read(t, pos, tags);
    assert forall|j: int| 0 <= j < tags.len() implies t.value_of(encode_utf8((#[trigger] tags[j]).0)) == Some(
        tags[j].1,
    ) by {
        t.lemma_value_of_sorted(encode_utf8(tags[j].0));
    }
    if forall|j: int| 0 <= j < tags.len() ==> (#[trigger] tags[j]).0 != key {
        t.lemma_value_of_sorted(encode_utf8(key));
        assert forall|j: int| 0 <= j < t.kv_count() implies !#[trigger] t.has_key(j, encode_utf8(key)) by {
            if t.has_key(j, encode_utf8(key)) {
                assert(key == tags[j].0);
            }
        }
    }
}

} // verus!
