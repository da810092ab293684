use street_extract::geo::Coord;
use street_extract::locality::resolve_city_fields;
use street_extract::places::{place_node_from_tags, PlaceFilter, PlaceIndex, PlaceNode};
use street_extract::tags::Tag;

const DEG: i64 = 10_000_000;

#[test]
fn place_index_picks_nearest_and_filters() {
    let places = vec![
        PlaceNode::new("Near".to_string(), "town".to_string(), Coord::new(0, 0)),
        PlaceNode::new("Far".to_string(), "hamlet".to_string(), Coord::new(5 * DEG, 5 * DEG)),
    ];
    let index = PlaceIndex::new(places);

    let nearest = index.nearest(Coord::new(DEG / 10, DEG / 10), PlaceFilter::Any).unwrap();
    assert_eq!(nearest.name, "Near");

    let filtered = index
        .nearest(Coord::new(DEG / 10, DEG / 10), PlaceFilter::CityTown)
        .map(|place| place.name.clone());
    assert_eq!(filtered.as_deref(), Some("Near"));
}

#[test]
fn city_filter_with_only_a_hamlet_in_range_finds_none() {
    let places = vec![PlaceNode::new("Tinyham".to_string(), "hamlet".to_string(), Coord::new(0, 0))];
    let index = PlaceIndex::new(places);
    let q = Coord::new(DEG / 10, 0);
    assert_eq!(index.nearest(q, PlaceFilter::Any).unwrap().name, "Tinyham");
    assert!(index.nearest(q, PlaceFilter::CityTown).is_none());
}

#[test]
fn markers_beyond_the_radius_are_ignored() {
    let places = vec![PlaceNode::new("Away".to_string(), "city".to_string(), Coord::new(DEG, 0))];
    let index = PlaceIndex::new(places);
    assert!(index.nearest(Coord::new(0, 0), PlaceFilter::Any).is_none());
    assert_eq!(index.nearest(Coord::new(4 * DEG / 10, 0), PlaceFilter::Any).unwrap().name, "Away");
}

#[test]
fn equal_distances_keep_the_first_marker_met() {
    let places = vec![
        PlaceNode::new("East".to_string(), "town".to_string(), Coord::new(DEG / 10, 0)),
        PlaceNode::new("West".to_string(), "town".to_string(), Coord::new(-DEG / 10, 0)),
        PlaceNode::new("East2".to_string(), "town".to_string(), Coord::new(DEG / 10, 0)),
    ];
    let index = PlaceIndex::new(places);
    assert_eq!(index.nearest(Coord::new(0, 0), PlaceFilter::Any).unwrap().name, "West");
    assert_eq!(index.nearest_index(Coord::new(DEG / 5, 0), PlaceFilter::Any), Some(0));
}

#[test]
fn markers_come_from_settlement_tags() {
    let tags = vec![Tag::new("place".to_string(), "town".to_string()), Tag::new("name".to_string(), "Placetown".to_string())];
    let p = place_node_from_tags(&tags, Coord::new(1, 2)).unwrap();
    assert_eq!(p.name, "Placetown");
    assert_eq!(p.place_type, "town");
    assert!(p.is_city_town);
    let tags = vec![Tag::new("place".to_string(), "farm".to_string()), Tag::new("name".to_string(), "X".to_string())];
    assert!(place_node_from_tags(&tags, Coord::new(1, 2)).is_none());
}

#[test]
fn locality_falls_back_from_address_to_places() {
    let places = vec![
        PlaceNode::new("Tinyham".to_string(), "hamlet".to_string(), Coord::new(DEG / 10, 0)),
        PlaceNode::new("Bigtown".to_string(), "town".to_string(), Coord::new(DEG / 2, 0)),
    ];
    let index = PlaceIndex::new(places);
    let center = Coord::new(DEG / 10, 0);
    let f = resolve_city_fields(&Vec::new(), center, &index);
    assert_eq!(f.place_node, "Tinyham");
    assert_eq!(f.place_type, "hamlet");
    assert_eq!(f.place_city, "Bigtown");
    assert_eq!(f.resolved, "Bigtown");
    let tags = vec![Tag::new("addr:city".to_string(), "".to_string()), Tag::new("addr:place".to_string(), "Hamletshire".to_string())];
    let f = resolve_city_fields(&tags, center, &index);
    assert_eq!(f.resolved, "Hamletshire");
    assert_eq!(f.place_city, "Bigtown");
    let far = resolve_city_fields(&Vec::new(), Coord::new(50 * DEG, 0), &index);
    assert_eq!(far.place_node, "");
    assert_eq!(far.resolved, "");
}
