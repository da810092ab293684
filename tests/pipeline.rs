use street_extract::extract::{extract, extract_fragments, NodeData, WayData};
use street_extract::geo::Coord;
use street_extract::merge::{merge_city_key, merge_cluster, merge_entries, pick_mode, StreetEntry};
use street_extract::tags::Tag;

const DEG: f64 = 10_000_000.0;

fn tags(pairs: &[(&str, &str)]) -> Vec<Tag> {
    pairs.iter().map(|(k, v)| Tag::new(k.to_string(), v.to_string())).collect()
}

fn node(id: i64, lat: f64, lon: f64, t: &[(&str, &str)]) -> NodeData {
    NodeData { id, coord: Coord::new((lon * DEG).round() as i64, (lat * DEG).round() as i64), tags: tags(t) }
}

fn way(id: i64, refs: &[i64], t: &[(&str, &str)]) -> WayData {
    WayData { id, node_refs: refs.to_vec(), tags: tags(t) }
}

fn row(e: &StreetEntry) -> Vec<String> {
    vec![
        e.name.clone(),
        e.center_lon.to_string(),
        e.center_lat.to_string(),
        e.city_place_node.clone(),
        e.city_place_type.clone(),
        e.city_place_city.clone(),
        e.city_resolved.clone(),
    ]
}

fn sample() -> (Vec<NodeData>, Vec<WayData>) {
    let nodes = vec![
        node(1, 0.0, 0.0, &[]),
        node(2, 0.0, 1.0, &[]),
        node(3, 1.0, 1.0, &[]),
        node(4, 1.0, 0.0, &[]),
        node(5, 2.0, 0.0, &[]),
        node(6, 2.0, 1.0, &[]),
        node(7, 0.5, 0.5, &[("place", "town"), ("name", "Placetown")]),
        node(100, -1.0, -1.0, &[]),
        node(101, -1.0, 3.0, &[]),
        node(102, 3.0, 3.0, &[]),
        node(103, 3.0, -1.0, &[]),
        node(200, -5.0, -5.0, &[]),
        node(201, -5.0, 5.0, &[]),
        node(202, 5.0, 5.0, &[]),
        node(203, 5.0, -5.0, &[]),
    ];
    let ways = vec![
        way(10, &[1, 2, 3, 4, 1], &[("highway", "residential"), ("name", "Main Street"), ("alt_name", "Old Main"), ("is_in", "Placetown, Testland")]),
        way(11, &[4, 5, 6], &[("highway", "residential"), ("name", "Open Way")]),
        way(300, &[100, 101, 102, 103, 100], &[("boundary", "administrative"), ("admin_level", "8"), ("name", "Testville")]),
        way(301, &[200, 201, 202, 203, 200], &[("boundary", "administrative"), ("admin_level", "2"), ("name", "Testland")]),
    ];
    (nodes, ways)
}

#[test]
fn extract_to_csv_from_osm() {
    let (nodes, ways) = sample();
    let rows: Vec<Vec<String>> = extract(&nodes, &ways).unwrap().iter().map(row).collect();
    let names: Vec<&str> = rows.iter().map(|r| r[0].as_str()).collect();
    assert_eq!(names, vec!["Main Street", "Old Main", "Open Way"]);

    let open_row = rows.iter().find(|r| r[0] == "Open Way").unwrap();
    assert_eq!(open_row[1], "0");
    assert_eq!(open_row[2], "20000000");
    assert_eq!(open_row[3], "");
    assert_eq!(open_row[4], "");
    assert_eq!(open_row[5], "");
    assert_eq!(open_row[6], "");

    let main_row = rows.iter().find(|r| r[0] == "Main Street").unwrap();
    assert_eq!(main_row[3], "Placetown");
    assert_eq!(main_row[4], "town");
    assert_eq!(main_row[5], "Placetown");
    assert_eq!(main_row[6], "Placetown");
}

#[test]
fn ring_near_town_resolves_all_locality_fields() {
    let nodes = vec![
        node(1, 0.0, 0.0, &[]),
        node(2, 0.0, 1.0, &[]),
        node(3, 1.0, 1.0, &[]),
        node(4, 1.0, 0.0, &[]),
        node(7, 0.7, 0.7, &[("place", "town"), ("name", "Placetown")]),
    ];
    let ways = vec![way(10, &[1, 2, 3, 4, 1], &[("highway", "residential"), ("name", "Main Street"), ("alt_name", "Old Main")])];
    let rows: Vec<Vec<String>> = extract(&nodes, &ways).unwrap().iter().map(row).collect();
    assert_eq!(rows.len(), 2);
    assert_eq!(rows[0][0], "Main Street");
    assert_eq!(rows[1][0], "Old Main");
    for r in &rows {
        assert_eq!(r[1], "5000000");
        assert_eq!(r[2], "5000000");
        assert_eq!(r[3], "Placetown");
        assert_eq!(r[4], "town");
        assert_eq!(r[5], "Placetown");
        assert_eq!(r[6], "Placetown");
    }
}

#[test]
fn extract_to_csv_splits_multi_names() {
    let nodes = vec![node(1, 0.0, 0.0, &[]), node(2, 0.0, 2.0, &[]), node(3, 2.0, 2.0, &[]), node(4, 2.0, 0.0, &[])];
    let ways = vec![way(20, &[1, 2, 3, 4, 1], &[("highway", "primary"), ("name", "First;Second"), ("name:de", "Erste Straße")])];
    let rows = extract(&nodes, &ways).unwrap();
    let names: Vec<&str> = rows.iter().map(|r| r.name.as_str()).collect();
    assert_eq!(names, vec!["First", "Second", "Erste Straße"]);
}

#[test]
fn extract_to_csv_promotes_town_or_city() {
    let nodes = vec![
        node(1, 0.0, 0.0, &[]),
        node(2, 0.0, 0.2, &[]),
        node(10, 0.0, 0.1, &[("place", "hamlet"), ("name", "Tinyham")]),
        node(11, 0.0, 0.5, &[("place", "town"), ("name", "Bigtown")]),
    ];
    let ways = vec![way(20, &[1, 2], &[("highway", "residential"), ("name", "Hamlet Road")])];
    let rows: Vec<Vec<String>> = extract(&nodes, &ways).unwrap().iter().map(row).collect();
    let hamlet_row = rows.iter().find(|r| r[0] == "Hamlet Road").unwrap();
    assert_eq!(hamlet_row[3], "Tinyham");
    assert_eq!(hamlet_row[4], "hamlet");
    assert_eq!(hamlet_row[5], "Bigtown");
    assert_eq!(hamlet_row[6], "Bigtown");
}

#[test]
fn extract_to_csv_merges_nearby_segments() {
    let nodes = vec![node(1, 0.0, 0.0, &[]), node(2, 0.001, 0.0, &[]), node(3, 0.002, 0.0, &[])];
    let ways = vec![
        way(40, &[1, 2], &[("highway", "residential"), ("name", "Dave Burns Drive")]),
        way(41, &[2, 3], &[("highway", "residential"), ("name", "Dave Burns Drive")]),
    ];
    let rows = extract(&nodes, &ways).unwrap();
    assert_eq!(rows.len(), 1);
    assert_eq!(rows[0].name, "Dave Burns Drive");
    let lat = rows[0].center_lat as f64 / DEG;
    assert!((lat - 0.001).abs() < 1e-9);
    assert_eq!(rows[0].length, 19_998);
}

#[test]
fn extract_to_csv_includes_poi_and_filters_minor_sights() {
    let nodes = vec![
        node(1, 48.8584, 2.2945, &[("name", "Eiffel Tower"), ("tourism", "attraction"), ("wikipedia", "en:Eiffel_Tower")]),
        node(2, 48.0, 2.0, &[("name", "Local Statue"), ("tourism", "attraction")]),
        node(3, 40.0, -73.0, &[("name", "Central Station"), ("railway", "station")]),
        node(4, 41.0, -74.0, &[("name", "Main Bus Stop"), ("highway", "bus_stop")]),
        node(5, 42.0, -75.0, &[("name", "City Airport"), ("aeroway", "aerodrome")]),
    ];
    let mut names: Vec<String> = extract(&nodes, &Vec::new()).unwrap().iter().map(|r| r.name.clone()).collect();
    names.sort();
    assert_eq!(names, vec!["Central Station", "City Airport", "Eiffel Tower", "Main Bus Stop"]);
}

#[test]
fn station_point_is_a_row_of_no_length() {
    let nodes = vec![node(3, 40.0, -73.0, &[("name", "Central Station"), ("railway", "station")])];
    let rows = extract(&nodes, &Vec::new()).unwrap();
    assert_eq!(rows.len(), 1);
    assert_eq!(rows[0].name, "Central Station");
    assert_eq!(rows[0].length, 0);
    assert_eq!(rows[0].center_lon, -730_000_000);
    assert_eq!(rows[0].center_lat, 400_000_000);
}

#[test]
fn paths_with_unknown_points_or_too_few_points_are_dropped() {
    let nodes = vec![node(1, 0.0, 0.0, &[]), node(2, 0.0, 0.1, &[]), node(3, 0.1, 0.1, &[])];
    let ways = vec![
        way(1, &[1, 2, 99], &[("highway", "residential"), ("name", "Missing")]),
        way(2, &[1, 2, 1], &[("highway", "residential"), ("name", "Short Ring")]),
        way(3, &[1], &[("highway", "residential"), ("name", "Lonely")]),
        way(4, &[1, 2, 3], &[("building", "yes"), ("name", "Not A Road")]),
        way(5, &[1, 2], &[("highway", "residential"), ("name", "Kept")]),
    ];
    let rows = extract(&nodes, &ways).unwrap();
    let names: Vec<&str> = rows.iter().map(|r| r.name.as_str()).collect();
    assert_eq!(names, vec!["Kept"]);
}

#[test]
fn extraction_is_repeatable() {
    let (nodes, ways) = sample();
    let first: Vec<Vec<String>> = extract(&nodes, &ways).unwrap().iter().map(row).collect();
    let second: Vec<Vec<String>> = extract(&nodes, &ways).unwrap().iter().map(row).collect();
    assert_eq!(first, second);
    let f1: Vec<Vec<String>> = extract_fragments(&nodes, &ways).iter().map(row).collect();
    let f2: Vec<Vec<String>> = extract_fragments(&nodes, &ways).iter().map(row).collect();
    assert_eq!(f1, f2);
}

fn entry(name: &str, lon: i64, lat: i64, length: u64, node: &str, city: &str) -> StreetEntry {
    StreetEntry {
        name: name.to_string(),
        center_lon: lon,
        center_lat: lat,
        length,
        city_place_node: node.to_string(),
        city_place_type: String::new(),
        city_place_city: city.to_string(),
        city_resolved: String::new(),
    }
}

#[test]
fn close_pair_merges_into_one_row() {
    let a = entry("Road", 0, 0, 3_000, "", "");
    let b = entry("Road", 0, 10_000, 1_000, "", "");
    let rows = merge_entries(vec![a, b]);
    assert_eq!(rows.len(), 1);
    assert_eq!(rows[0].length, 4_000);
    assert_eq!(rows[0].center_lon, 0);
    assert_eq!(rows[0].center_lat, 2_500);
}

#[test]
fn far_or_differently_placed_fragments_stay_apart() {
    let a = entry("Road", 0, 0, 0, "", "");
    let b = entry("Road", 0, 100_000, 0, "", "");
    let c = entry("Road", 0, 5_000, 0, "", "Elsewhere");
    let d = entry("Road", 0, 15_000, 0, "", "");
    let rows = merge_entries(vec![a, b, c, d]);
    let lats: Vec<i64> = rows.iter().map(|r| r.center_lat).collect();
    assert_eq!(lats, vec![7_500, 100_000, 5_000]);
}

#[test]
fn chains_of_near_fragments_merge() {
    let a = entry("Road", 0, 0, 0, "", "");
    let b = entry("Road", 0, 15_000, 0, "", "");
    let c = entry("Road", 0, 30_000, 0, "", "");
    let rows = merge_entries(vec![c, a, b]);
    assert_eq!(rows.len(), 1);
    assert_eq!(rows[0].center_lat, 15_000);
}

#[test]
fn merge_votes_on_locality_fields() {
    let es = vec![
        entry("Road", 0, 0, 0, "B", ""),
        entry("Road", 0, 0, 0, "A", ""),
        entry("Road", 0, 0, 0, "A", ""),
        entry("Road", 0, 0, 0, "", ""),
    ];
    let merged = merge_cluster(&es, &vec![0, 1, 2, 3]);
    assert_eq!(merged.city_place_node, "A");
    let tie = merge_cluster(&es, &vec![0, 1]);
    assert_eq!(tie.city_place_node, "B");
    assert_eq!(tie.length, 0);
    let vals: Vec<String> = vec!["".to_string(), "x".to_string(), "y".to_string(), "y".to_string()];
    assert_eq!(pick_mode(&vals), "y");
    assert_eq!(pick_mode(&vec!["".to_string()]), "");
}

#[test]
fn city_key_falls_back_in_order() {
    let mut e = entry("Road", 0, 0, 0, "Node", "City");
    assert_eq!(merge_city_key(&e), "City");
    e.city_resolved = "Resolved".to_string();
    assert_eq!(merge_city_key(&e), "Resolved");
    let e = entry("Road", 0, 0, 0, "Node", "");
    assert_eq!(merge_city_key(&e), "Node");
    let e = entry("Road", 0, 0, 0, "", "");
    assert_eq!(merge_city_key(&e), "");
}

#[test]
fn merge_radius_is_two_hundred_metres_of_arc() {
    let a = entry("Road", 0, 0, 0, "", "");
    let b = entry("Road", 0, 17_986, 0, "", "");
    assert_eq!(merge_entries(vec![a.clone(), b]).len(), 1);
    let c = entry("Road", 0, 17_987, 0, "", "");
    assert_eq!(merge_entries(vec![a, c]).len(), 2);
}
