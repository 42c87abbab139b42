use crate::geodata::importer::{polygons_view, EntityStorages};
use crate::geodata::saver::{to_u32_safe, SaveError};
use crate::geodata::ref_set::{insert_ref, new_ref_set, TileRef};
use std::collections::BTreeSet;
use vstd::prelude::*;

verus! {

/// The smallest and the largest columns and rows of some tiles, as (min_x, max_x, min_y, max_y).
pub open spec fn bounding_box(tiles: Seq<(u32, u32)>) -> (u32, u32, u32, u32)
    recommends
        tiles.len() > 0,
    decreases tiles.len(),
{
    if tiles.len() <= 1 {
        (tiles[0].0, tiles[0].0, tiles[0].1, tiles[0].1)
    } else {
        let b = bounding_box(tiles.drop_last());
        let t = tiles.last();
        (
            if t.0 < b.0 { t.0 } else { b.0 },
            if t.0 > b.1 { t.0 } else { b.1 },
            if t.1 < b.2 { t.1 } else { b.2 },
            if t.1 > b.3 { t.1 } else { b.3 },
        )
    }
}

/// Whether the reference `r` lies in the box `b` and refers to the entity `kind`, `id`.
pub open spec fn in_box(r: TileRef, b: (u32, u32, u32, u32), kind: u8, id: u32) -> bool {
    b.0 <= r.0 <= b.1 && b.2 <= r.1 <= b.3 && r.2 == kind && r.3 == id
}

/// The bounding box of some tiles.
pub fn tiles_bounding_box(tiles: &Vec<(u32, u32)>) -> (res: (u32, u32, u32, u32))
    requires
        tiles@.len() > 0,
    ensures
        res == bounding_box(tiles@),
{
    let mut b = (tiles[0].0, tiles[0].0, tiles[0].1, tiles[0].1);
    let mut i: usize = 1;
    while i < tiles.len()
        invariant
            1 <= i <= tiles@.len(),
            b == bounding_box(tiles@.take(i as int)),
        decreases tiles@.len() - i,
    {
        let t = tiles[i];
        assert(tiles@.take(i + 1).drop_last() == tiles@.take(i as int));
        b = (
            if t.0 < b.0 { t.0 } else { b.0 },
            if t.0 > b.1 { t.0 } else { b.1 },
            if t.1 < b.2 { t.1 } else { b.2 },
            if t.1 > b.3 { t.1 } else { b.3 },
        );
        i = i + 1;
    }
    assert(tiles@.take(tiles@.len() as int) == tiles@);
    b
}

/// Adds a reference from each tile of the box `b` to the entity `kind`, `id`.
pub fn insert_box(result: &mut BTreeSet<TileRef>, b: (u32, u32, u32, u32), kind: u8, id: u32)
    ensures
        forall|r: TileRef| final(result)@.contains(r) <==> old(result)@.contains(r) || in_box(r, b, kind, id),
{
    if b.0 > b.1 || b.2 > b.3 {
        return;
    }
    let mut x = b.0;
    loop
        invariant
            b.0 <= x <= b.1,
            b.2 <= b.3,
            forall|r: TileRef|
                result@.contains(r) <==> old(result)@.contains(r) || (in_box(r, b, kind, id) && r.0 < x),
        decreases b.1 - x,
    {
        let mut y = b.2;
        loop
            invariant_except_break
                b.0 <= x <= b.1,
                b.2 <= y <= b.3,
                forall|r: TileRef|
                    result@.contains(r) <==> old(result)@.contains(r) || (in_box(r, b, kind, id) && (r.0 < x || (
                    r.0 == x && r.1 < y))),
            ensures
                b.0 <= x <= b.1,
                forall|r: TileRef|
                    result@.contains(r) <==> old(result)@.contains(r) || (in_box(r, b, kind, id) && r.0 <= x),
            decreases b.3 - y,
        {
            insert_ref(result, (x, y, kind, id));
            if y == b.3 {
                break;
            }
            y = y + 1;
        }
        if x == b.1 {
            return;
        }
        x = x + 1;
    }
}

} // verus!

verus! {

/// The tiles of some nodes, by their local ids.
pub open spec fn tiles_of(ids: Seq<usize>, node_tiles: Seq<(u32, u32)>) -> Seq<(u32, u32)> {
    ids.map_values(|n: usize| node_tiles[n as int])
}

/// The tiles of the nodes of some polygons, polygon after polygon.
pub open spec fn polygons_tiles(pids: Seq<usize>, polygons: Seq<Seq<usize>>, node_tiles: Seq<(u32, u32)>) -> Seq<(u32, u32)>
    decreases pids.len(),
{
    if pids.len() == 0 {
        Seq::empty()
    } else {
        polygons_tiles(pids.drop_last(), polygons, node_tiles) + tiles_of(polygons[pids.last() as int], node_tiles)
    }
}

/// Whether `r` refers from a tile of the bounding box of `tiles` to the entity `kind`, `id`.
pub open spec fn box_ref(r: TileRef, tiles: Seq<(u32, u32)>, kind: u8, id: u32) -> bool {
    tiles.len() > 0 && in_box(r, bounding_box(tiles), kind, id)
}

/// The tiles of the nodes `ids`.
fn collect_tiles(ids: &Vec<usize>, node_tiles: &Vec<(u32, u32)>, tiles: &mut Vec<(u32, u32)>)
    requires
        forall|j: int| 0 <= j < ids@.len() ==> #[trigger] ids@[j] < node_tiles@.len(),
    ensures
        final(tiles)@ == old(tiles)@ + tiles_of(ids@, node_tiles@),
{
    let mut j: usize = 0;
    while j < ids.len()
        invariant
            j <= ids@.len(),
            forall|k: int| 0 <= k < ids@.len() ==> #[trigger] ids@[k] < node_tiles@.len(),
            tiles@ == old(tiles)@ + tiles_of(ids@.take(j as int), node_tiles@),
        decreases ids@.len() - j,
    {
        tiles.push(node_tiles[ids[j]]);
        j = j + 1;
        assert(tiles_of(ids@.take(j as int), node_tiles@) =~= tiles_of(ids@.take(j - 1), node_tiles@).push(
            node_tiles@[ids@[j - 1] as int],
        ));
        assert(tiles@ =~= old(tiles)@ + tiles_of(ids@.take(j as int), node_tiles@));
    }
    assert(ids@.take(ids@.len() as int) == ids@);
}

/// Adds references from the tiles of the bounding box of `tiles` to the entity `kind`, `id`.
pub fn insert_entity_id_to_tiles(result: &mut BTreeSet<TileRef>, tiles: &Vec<(u32, u32)>, kind: u8, id: usize) -> (res:
    Result<(), crate::geodata::saver::SaveError>)
    ensures
        res is Err <==> tiles@.len() > 0 && id > u32::MAX,
        res matches Err(crate::geodata::saver::SaveError::DoesNotFitIntoU32(v)) ==> v > u32::MAX,
        res matches Err(crate::geodata::saver::SaveError::DoesNotFitIntoU32(v)) ==> v == id,
        res is Ok ==> forall|r: TileRef|
            final(result)@.contains(r) <==> old(result)@.contains(r) || box_ref(r, tiles@, kind, id as u32),
{
    if tiles.len() == 0 {
        return Ok(());
    }
    let id32 = match crate::geodata::saver::to_u32_safe(id) {
        Ok(v) => v,
        Err(e) => return Err(e),
    };
    let b = tiles_bounding_box(tiles);
    insert_box(result, b, kind, id32);
    Ok(())
}

} // verus!

verus! {

/// Whether `r` is a reference that the tile index of `storages` holds: from the tile of a node
/// to the node, and from each tile of the bounding box of the nodes of a way or a
/// multipolygon to it.
pub open spec fn expected_ref(storages: &EntityStorages, node_tiles: Seq<(u32, u32)>, r: TileRef) -> bool {
    let ways = storages.way_storage.entities();
    let mps = storages.multipolygon_storage.entities();
    ||| r.2 == 0 && r.3 < node_tiles.len() && node_tiles[r.3 as int] == (r.0, r.1)
    ||| r.2 == 1 && r.3 < ways.len() && box_ref(r, tiles_of(ways[r.3 as int].node_ids@, node_tiles), 1, r.3)
    ||| r.2 == 2 && r.3 < mps.len() && box_ref(
        r,
        polygons_tiles(mps[r.3 as int].polygon_ids@, polygons_view(storages.polygon_storage@), node_tiles),
        2,
        r.3,
    )
}

/// Whether an entity that lies in some tile has an index that does not fit in 32 bits.
pub open spec fn tile_ids_overflow(storages: &EntityStorages, node_tiles: Seq<(u32, u32)>) -> bool {
    let ways = storages.way_storage.entities();
    let mps = storages.multipolygon_storage.entities();
    ||| storages.node_storage.entities().len() > u32::MAX + 1
    ||| exists|i: int| u32::MAX < i < ways.len() && #[trigger] tiles_of(ways[i].node_ids@, node_tiles).len() > 0
    ||| exists|i: int|
        u32::MAX < i < mps.len() && #[trigger] polygons_tiles(
            mps[i].polygon_ids@,
            polygons_view(storages.polygon_storage@),
            node_tiles,
        ).len() > 0
}

/// The references of the tile index: for each node, way and multipolygon, from the tiles that
/// it lies in. The tile of node `i` is `node_tiles[i]`. It fails exactly where an entity that
/// lies in some tile has an index that does not fit in 32 bits, and reports that index.
pub fn get_tile_references(storages: &EntityStorages, node_tiles: &Vec<(u32, u32)>) -> (res: Result<
    BTreeSet<TileRef>,
    SaveError,
>)
    requires
        storages.references_valid(),
        node_tiles@.len() == storages.node_storage.entities().len(),
    ensures
        res matches Err(SaveError::DoesNotFitIntoU32(v)) ==> v > u32::MAX,
        res is Err <==> tile_ids_overflow(storages, node_tiles@),
        res matches Err(SaveError::DoesNotFitIntoU32(v)) ==> v < storages.node_storage.entities().len() || v
            < storages.way_storage.entities().len() || v < storages.multipolygon_storage.entities().len(),
        res matches Ok(set) ==> forall|r: TileRef| set@.contains(r) <==> expected_ref(storages, node_tiles@, r),
{
    let mut result: BTreeSet<TileRef> = new_ref_set();
    let nodes = storages.node_storage.get_entities();
    let mut i: usize = 0;
    while i < nodes.len()
        invariant
            i <= nodes@.len(),
            nodes@.len() == node_tiles@.len(),
            forall|r: TileRef|
                result@.contains(r) <==> (r.2 == 0 && r.3 < i && node_tiles@[r.3 as int] == (r.0, r.1)),
            i <= u32::MAX + 1,
            nodes@ == storages.node_storage.entities(),
        decreases nodes@.len() - i,
    {
        let id32 = match to_u32_safe(i) {
            Ok(v) => v,
            Err(e) => return Err(e),
        };
        let t = node_tiles[i];
        insert_ref(&mut result, (t.0, t.1, 0, id32));
        i = i + 1;
    }
    let ways = storages.way_storage.get_entities();
    let mut i: usize = 0;
    while i < ways.len()
        invariant
            i <= ways@.len(),
            ways@ == storages.way_storage.entities(),
            storages.references_valid(),
            nodes@.len() == node_tiles@.len(),
            nodes@ == storages.node_storage.entities(),
            forall|r: TileRef|
                result@.contains(r) <==> (r.2 == 0 && r.3 < nodes@.len() && node_tiles@[r.3 as int] == (r.0, r.1))
                    || (r.2 == 1 && r.3 < i && box_ref(r, tiles_of(ways@[r.3 as int].node_ids@, node_tiles@), 1, r.3)),
            nodes@.len() <= u32::MAX + 1,
            forall|k: int| u32::MAX < k < i ==> #[trigger] tiles_of(ways@[k].node_ids@, node_tiles@).len() == 0,
        decreases ways@.len() - i,
    {
        let mut tiles: Vec<(u32, u32)> = Vec::new();
        assert forall|j: int| 0 <= j < ways@[i as int].node_ids@.len() implies #[trigger] ways@[i as int].node_ids@[j]
            < node_tiles@.len() by {
            assert(storages.way_storage.entities()[i as int].node_ids@[j] < nodes@.len());
        }
        collect_tiles(&ways[i].node_ids, node_tiles, &mut tiles);
        assert(tiles@ =~= tiles_of(ways@[i as int].node_ids@, node_tiles@));
        match insert_entity_id_to_tiles(&mut result, &tiles, 1, i) {
            Ok(()) => {},
            Err(e) => return Err(e),
        }
        i = i + 1;
    }
    let polygons = &storages.polygon_storage;
    let mps = storages.multipolygon_storage.get_entities();
    let mut i: usize = 0;
    while i < mps.len()
        invariant
            i <= mps@.len(),
            mps@ == storages.multipolygon_storage.entities(),
            polygons == &storages.polygon_storage,
            storages.references_valid(),
            nodes@.len() == node_tiles@.len(),
            nodes@ == storages.node_storage.entities(),
            ways@ == storages.way_storage.entities(),
            forall|r: TileRef|
                result@.contains(r) <==> (r.2 == 0 && r.3 < nodes@.len() && node_tiles@[r.3 as int] == (r.0, r.1))
                    || (r.2 == 1 && r.3 < ways@.len() && box_ref(
                    r,
                    tiles_of(ways@[r.3 as int].node_ids@, node_tiles@),
                    1,
                    r.3,
                )) || (r.2 == 2 && r.3 < i && box_ref(
                    r,
                    polygons_tiles(mps@[r.3 as int].polygon_ids@, polygons_view(polygons@), node_tiles@),
                    2,
                    r.3,
                )),
            nodes@.len() <= u32::MAX + 1,
            forall|k: int| u32::MAX < k < ways@.len() ==> #[trigger] tiles_of(ways@[k].node_ids@, node_tiles@).len() == 0,
            forall|k: int|
                u32::MAX < k < i ==> #[trigger] polygons_tiles(
                    mps@[k].polygon_ids@,
                    polygons_view(polygons@),
                    node_tiles@,
                ).len() == 0,
        decreases mps@.len() - i,
    {
        let pids = &mps[i].polygon_ids;
        let mut tiles: Vec<(u32, u32)> = Vec::new();
        let mut k: usize = 0;
        while k < pids.len()
            invariant
                k <= pids@.len(),
                i < mps@.len(),
                pids == &mps@[i as int].polygon_ids,
                mps@ == storages.multipolygon_storage.entities(),
                polygons == &storages.polygon_storage,
                storages.references_valid(),
                nodes@.len() == node_tiles@.len(),
                nodes@ == storages.node_storage.entities(),
                tiles@ == polygons_tiles(pids@.take(k as int), polygons_view(polygons@), node_tiles@),
            decreases pids@.len() - k,
        {
            let p = pids[k];
            assert(p < polygons@.len());
            assert forall|j: int| 0 <= j < polygons@[p as int]@.len() implies #[trigger] polygons@[p as int]@[j]
                < node_tiles@.len() by {
                assert(storages.polygon_storage@[p as int]@[j] < nodes@.len());
            }
            collect_tiles(&polygons[p], node_tiles, &mut tiles);
            k = k + 1;
            assert(pids@.take(k as int).drop_last() == pids@.take(k - 1));
            assert(polygons_view(polygons@)[p as int] == polygons@[p as int]@);
        }
        assert(pids@.take(pids@.len() as int) == pids@);
        match insert_entity_id_to_tiles(&mut result, &tiles, 2, i) {
            Ok(()) => {},
            Err(e) => return Err(e),
        }
        i = i + 1;
    }
    Ok(result)
}

} // verus!
