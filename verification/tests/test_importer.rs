use renderer::geodata::importer::{postprocess_node_refs, ImportError, Importer, Step};

fn attrs(pairs: &[(&str, &str)]) -> Vec<(String, String)> {
    pairs.iter().map(|(k, v)| (k.to_string(), v.to_string())).collect()
}

fn add_node(importer: &mut Importer, id: &str, lat: f64, lon: f64) {
    let lat_text = lat.to_string();
    let lon_text = lon.to_string();
    let step = importer
        .start_element("node", &attrs(&[("id", id), ("lat", &lat_text), ("lon", &lon_text)]))
        .unwrap();
    match step {
        Step::ParseCoordinates { lat, lon } => {
            assert_eq!(lat, lat_text);
            assert_eq!(lon, Some(lon_text.clone()));
        }
        _ => panic!("expected a request for coordinates"),
    }
    importer.node_coordinates(Some(lat.to_bits()), Some(lon.to_bits())).unwrap();
    importer.start_element("tag", &attrs(&[("k", "name"), ("v", id)])).unwrap();
    importer.end_element("tag");
    importer.end_element("node");
}

#[test]
fn test_import_nodes_ways_relations() {
    let mut importer = Importer::new();
    add_node(&mut importer, "1", 55.75, 37.62);
    add_node(&mut importer, "2", 55.76, 37.63);

    importer.start_element("way", &attrs(&[("id", "10")])).unwrap();
    importer.start_element("nd", &attrs(&[("ref", "1")])).unwrap();
    importer.start_element("nd", &attrs(&[("ref", "2")])).unwrap();
    importer.start_element("nd", &attrs(&[("ref", "1")])).unwrap();
    // A node that was not imported is left out.
    importer.start_element("nd", &attrs(&[("ref", "99")])).unwrap();
    importer.start_element("tag", &attrs(&[("k", "highway"), ("v", "path")])).unwrap();
    importer.end_element("way");

    importer.start_element("relation", &attrs(&[("id", "20")])).unwrap();
    importer.start_element("member", &attrs(&[("type", "way"), ("ref", "10"), ("role", "outer")])).unwrap();
    importer.start_element("member", &attrs(&[("type", "node"), ("ref", "1")])).unwrap();
    importer.start_element("tag", &attrs(&[("k", "type"), ("v", "multipolygon")])).unwrap();
    match importer.end_element("relation") {
        Step::RelationRefused { relation_id, rings, unmatched } => {
            assert_eq!(relation_id, 20);
            assert_eq!(rings, 0);
            assert_eq!(unmatched, 1);
        }
        _ => panic!("a multipolygon relation with segments is refused"),
    }
    assert!(matches!(importer.end_document(), Step::Continue));

    let storages = importer.into_storages();
    let nodes = storages.node_storage.get_entities();
    assert_eq!(nodes.len(), 2);
    assert_eq!(nodes[1].global_id, 2);
    assert_eq!(nodes[1].lat_bits, 55.76f64.to_bits());
    assert_eq!(nodes[0].tags.entries()[0], ("name".to_string(), "1".to_string()));
    let ways = storages.way_storage.get_entities();
    assert_eq!(ways.len(), 1);
    // The segment 2 -> 1 repeats 1 -> 2 and is dropped.
    assert_eq!(ways[0].node_ids, vec![0, 1]);
    assert_eq!(ways[0].tags.len(), 1);
    assert_eq!(storages.way_storage.translate_id(10), Some(0));
    assert_eq!(storages.node_storage.translate_id(2), Some(1));
    assert_eq!(storages.node_storage.translate_id(3), None);
    assert_eq!(storages.multipolygon_storage.get_entities().len(), 0);
}

#[test]
fn test_open_entity_is_added_at_document_end() {
    let mut importer = Importer::new();
    importer.start_element("way", &attrs(&[("id", "5")])).unwrap();
    assert!(matches!(importer.end_document(), Step::Continue));
    let storages = importer.into_storages();
    assert_eq!(storages.way_storage.get_entities().len(), 1);
}

#[test]
fn test_import_errors() {
    let mut importer = Importer::new();
    match importer.start_element("node", &attrs(&[("lat", "1"), ("lon", "2")])) {
        Err(ImportError::MissingAttribute { element, attribute }) => {
            assert_eq!(element, "node");
            assert_eq!(attribute, "id");
        }
        _ => panic!("expected a missing id"),
    }
    match importer.start_element("way", &attrs(&[("id", "x1")])) {
        Err(ImportError::BadValue { element, attribute, value }) => {
            assert_eq!(element, "way");
            assert_eq!(attribute, "id");
            assert_eq!(value, "x1");
        }
        _ => panic!("expected a bad id"),
    }
    match importer.start_element("node", &attrs(&[("id", "+7"), ("lat", "1")])) {
        Ok(Step::ParseCoordinates { lon, .. }) => assert_eq!(lon, None),
        _ => panic!("expected a request for coordinates"),
    }
    match importer.node_coordinates(Some(1.0f64.to_bits()), None) {
        Err(ImportError::MissingAttribute { attribute, .. }) => assert_eq!(attribute, "lon"),
        _ => panic!("expected a missing longitude"),
    }
    match importer.node_coordinates(None, None) {
        Err(ImportError::BadValue { attribute, value, .. }) => {
            assert_eq!(attribute, "lat");
            assert_eq!(value, "1");
        }
        _ => panic!("expected a bad latitude"),
    }
}

#[test]
fn test_tag_without_value_is_an_error() {
    let mut importer = Importer::new();
    importer.start_element("way", &attrs(&[("id", "1")])).unwrap();
    match importer.start_element("tag", &attrs(&[("k", "name")])) {
        Err(ImportError::MissingAttribute { element, attribute }) => {
            assert_eq!(element, "tag");
            assert_eq!(attribute, "v");
        }
        _ => panic!("expected a missing value"),
    }
}

#[test]
fn test_postprocess_node_refs() {
    let mut refs = vec![1, 2, 3, 2, 1, 4];
    postprocess_node_refs(&mut refs);
    assert_eq!(refs, vec![1, 2, 3, 4]);
    let mut refs: Vec<usize> = vec![];
    postprocess_node_refs(&mut refs);
    assert_eq!(refs, Vec::<usize>::new());
    let mut refs = vec![7];
    postprocess_node_refs(&mut refs);
    assert_eq!(refs, vec![7]);
}
