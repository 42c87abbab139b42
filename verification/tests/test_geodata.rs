use renderer::mapcss::number::Number;
use renderer::mapcss::parser::{BinaryNumericTestType, BinaryStringTestType, Test, UnaryTestType};
use renderer::mapcss::styler::matches_by_tags;
use renderer::geodata::importer::{EntityStorages, Multipolygon, OsmEntityStorage, RawNode, RawTags, RawWay};
use renderer::geodata::reader::{GeodataReader, OsmEntity, OsmEntityIds};
use renderer::geodata::saver::{save_to_internal_format, to_u32_safe, SaveError};
use renderer::tile::Tile;
use std::collections::BTreeSet;

fn synthetic_tiles() -> (Vec<(u32, u32)>, Vec<u32>) {
    let mut tile_ids = Vec::new();
    let mut good_node_ids = Vec::new();
    {
        let mut add_tile = |x, y, good| {
            let node_idx = tile_ids.len();
            tile_ids.push((x, y));
            if good {
                good_node_ids.push(node_idx as u32);
            }
        };

        // y = {8, 9, 13} are in the range for x = 1
        add_tile(1, 7, false);
        add_tile(1, 8, true);
        add_tile(1, 9, true);
        add_tile(1, 13, true);
        // y = {10, 11, 15} is in the range for x = 2
        add_tile(2, 10, true);
        add_tile(2, 11, true);
        add_tile(2, 15, true);
        add_tile(2, 16, false);
        add_tile(2, 17, false);
        // nothing is in the range for x = 4
        add_tile(4, 1, false);
        add_tile(4, 4, false);
        // nothing is in the range for x = 5
        add_tile(5, 20, false);
        add_tile(5, 23, false);
        add_tile(5, 200, false);
        // y = {11, 12, 14} are in the range for x = 7
        add_tile(7, 6, false);
        add_tile(7, 11, true);
        add_tile(7, 12, true);
        add_tile(7, 14, true);
        add_tile(7, 16, false);
        add_tile(7, 17, false);
    }
    (tile_ids, good_node_ids)
}

fn empty_storages() -> EntityStorages {
    EntityStorages {
        node_storage: OsmEntityStorage::new(),
        way_storage: OsmEntityStorage::new(),
        polygon_storage: Vec::new(),
        multipolygon_storage: OsmEntityStorage::new(),
    }
}

fn synthetic_file() -> (Vec<u8>, Vec<u32>) {
    let (tile_ids, good_node_ids) = synthetic_tiles();
    let mut storages = empty_storages();
    for idx in 0..tile_ids.len() {
        storages.node_storage.add(
            idx as u64,
            RawNode { global_id: idx as u64, lat_bits: 1.0f64.to_bits(), lon_bits: 1.0f64.to_bits(), tags: RawTags::new() },
        );
    }
    let bytes = save_to_internal_format(&storages, &tile_ids).unwrap();
    (bytes, good_node_ids)
}

#[test]
fn saver_test_synthetic_data() {
    let (bytes, good_node_ids) = synthetic_file();
    let reader = GeodataReader::from_bytes(bytes).unwrap();
    let tile = Tile { zoom: 15, x: 0, y: 1 };
    let mut local_ids = OsmEntityIds::default();
    reader.get_entities_in_tile(&tile, &mut local_ids);
    assert_eq!(good_node_ids, local_ids.nodes);
}

#[test]
fn test_geodata_reader_test_synthetic_data() {
    let (bytes, good_node_ids) = synthetic_file();
    let good_node_ids = good_node_ids.iter().map(|x| *x as u64).collect::<BTreeSet<_>>();
    let reader = GeodataReader::from_bytes(bytes).unwrap();
    let tile = Tile { zoom: 15, x: 0, y: 1 };
    let mut local_ids = OsmEntityIds::default();
    reader.get_entities_in_tile(&tile, &mut local_ids);
    let node_ids = local_ids.nodes.iter().map(|x| reader.get_node(*x as usize).global_id()).collect::<BTreeSet<_>>();
    assert_eq!(good_node_ids, node_ids);
}

fn tags(pairs: &[(&str, &str)]) -> RawTags {
    let mut t = RawTags::new();
    for (k, v) in pairs {
        t.insert(k.to_string(), v.to_string());
    }
    t
}

#[test]
fn test_saved_entities_read_back() {
    let mut storages = empty_storages();
    storages.node_storage.add(
        100,
        RawNode { global_id: 100, lat_bits: 55.75f64.to_bits(), lon_bits: 37.62f64.to_bits(), tags: tags(&[("amenity", "cafe"), ("name", "Кофе")]) },
    );
    storages.node_storage.add(101, RawNode { global_id: 101, lat_bits: 1, lon_bits: 2, tags: RawTags::new() });
    storages.node_storage.add(102, RawNode { global_id: 102, lat_bits: 3, lon_bits: 4, tags: RawTags::new() });
    storages.way_storage.add(
        200,
        RawWay { global_id: 200, node_ids: vec![0, 1, 2], tags: tags(&[("highway", "primary"), ("name", "Main")]) },
    );
    storages.polygon_storage.push(vec![0, 1, 2, 0]);
    storages.multipolygon_storage.add(
        300,
        Multipolygon { global_id: 300, polygon_ids: vec![0], tags: tags(&[("building", "yes")]) },
    );
    let node_tiles = vec![(10, 20), (11, 20), (11, 21)];
    let bytes = save_to_internal_format(&storages, &node_tiles).unwrap();
    let reader = GeodataReader::from_bytes(bytes).unwrap();
    assert_eq!(reader.node_count(), 3);
    assert_eq!(reader.way_count(), 1);
    assert_eq!(reader.polygon_count(), 1);
    assert_eq!(reader.multipolygon_count(), 1);

    let node = reader.get_node(0);
    assert_eq!(node.global_id(), 100);
    assert_eq!(node.lat_bits(), 55.75f64.to_bits());
    assert_eq!(node.lon_bits(), 37.62f64.to_bits());
    let node_tags = node.tags();
    assert_eq!(node_tags.get_kv_count(), 2);
    assert_eq!(node_tags.get_by_key("name"), Some("Кофе".to_string()));
    assert_eq!(node_tags.get_by_key("amenity"), Some("cafe".to_string()));
    assert_eq!(node_tags.get_by_key("shop"), None);

    let way = reader.get_way(0).unwrap();
    assert_eq!(way.global_id(), 200);
    assert_eq!(way.node_count(), 3);
    assert_eq!(way.get_node(2).unwrap().global_id(), 102);
    assert_eq!(way.tags().get_by_key("highway"), Some("primary".to_string()));

    let mp = reader.get_multipolygon(0).unwrap();
    assert_eq!(mp.global_id(), 300);
    assert_eq!(mp.tags().get_by_key("building"), Some("yes".to_string()));
    let polygon = mp.get_polygon(0).unwrap();
    assert_eq!(polygon.node_count(), 4);

    // The way and the multipolygon span the tiles of their nodes: columns 10..=11, rows 20..=21.
    assert_eq!(reader.tile_count(), 4);
    let mut ids = OsmEntityIds::default();
    reader.get_entities_in_tile(&Tile { zoom: 18, x: 10, y: 21 }, &mut ids);
    assert_eq!(ids.nodes, Vec::<u32>::new());
    assert_eq!(ids.ways, vec![0]);
    assert_eq!(ids.multipolygons, vec![0]);
    let mut ids = OsmEntityIds::default();
    reader.get_entities_in_tile(&Tile { zoom: 18, x: 11, y: 20 }, &mut ids);
    assert_eq!(ids.nodes, vec![1]);
}

#[test]
fn test_to_u32_safe() {
    assert_eq!(to_u32_safe(7), Ok(7));
    assert_eq!(to_u32_safe(0xffff_ffff), Ok(0xffff_ffff));
    assert_eq!(to_u32_safe(0x1_0000_0000), Err(SaveError::DoesNotFitIntoU32(0x1_0000_0000)));
}

#[test]
fn test_raw_tags_insert_keeps_order_and_replaces() {
    let mut t = RawTags::new();
    t.insert("name".to_string(), "A".to_string());
    t.insert("amenity".to_string(), "cafe".to_string());
    t.insert("name".to_string(), "B".to_string());
    assert_eq!(t.len(), 2);
    let entries = t.entries();
    assert_eq!(entries[0], ("amenity".to_string(), "cafe".to_string()));
    assert_eq!(entries[1], ("name".to_string(), "B".to_string()));
}

#[test]
fn test_broken_file_is_refused() {
    assert!(GeodataReader::from_bytes(vec![1, 0, 0, 0]).is_none());
    assert!(GeodataReader::from_bytes(vec![]).is_none());
}

#[test]
fn test_matches_by_tags_on_saved_tags() {
    let mut storages = empty_storages();
    storages.node_storage.add(
        1,
        RawNode { global_id: 1, lat_bits: 0, lon_bits: 0, tags: tags(&[("bridge", "yes"), ("highway", "path"), ("layer", "2")]) },
    );
    let bytes = save_to_internal_format(&storages, &vec![(0, 0)]).unwrap();
    let reader = GeodataReader::from_bytes(bytes).unwrap();
    let node_tags = reader.get_node(0).tags();
    let unary = |name: &str, test_type| Test::Unary { tag_name: name.to_string(), test_type };
    assert_eq!(matches_by_tags(&node_tags, &unary("bridge", UnaryTestType::True)), Some(true));
    assert_eq!(matches_by_tags(&node_tags, &unary("highway", UnaryTestType::True)), Some(false));
    assert_eq!(matches_by_tags(&node_tags, &unary("highway", UnaryTestType::False)), Some(true));
    assert_eq!(matches_by_tags(&node_tags, &unary("tunnel", UnaryTestType::Exists)), Some(false));
    assert_eq!(matches_by_tags(&node_tags, &unary("tunnel", UnaryTestType::NotExists)), Some(true));
    let text = |value: &str, test_type| Test::BinaryStringCompare {
        tag_name: "highway".to_string(),
        value: value.to_string(),
        test_type,
    };
    assert_eq!(matches_by_tags(&node_tags, &text("path", BinaryStringTestType::Equal)), Some(true));
    assert_eq!(matches_by_tags(&node_tags, &text("road", BinaryStringTestType::NotEqual)), Some(true));
    let numeric = Test::BinaryNumericCompare {
        tag_name: "layer".to_string(),
        value: Number { negative: false, mantissa: 1, scale: 0, exponent: 0 },
        test_type: BinaryNumericTestType::Greater,
    };
    assert_eq!(matches_by_tags(&node_tags, &numeric), None);
}
