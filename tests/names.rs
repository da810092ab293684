use street_extract::classify::{is_airport, is_bus_stop, is_city_or_town, is_major_sight, is_place_node, is_poi, is_train_station};
use street_extract::locality::{is_in_city, resolve_first_non_empty};
use street_extract::names::{add_names, collect_names, has_name_tags, is_name_key, split_names};
use street_extract::tags::{has_unique_keys, Tag};

fn tags(pairs: &[(&str, &str)]) -> Vec<Tag> {
    pairs.iter().map(|(k, v)| Tag::new(k.to_string(), v.to_string())).collect()
}

#[test]
fn split_and_collect_names() {
    let tags = tags(&[("name", "Main St;Second St"), ("alt_name", "Alt"), ("foo", "bar")]);
    let names = collect_names(&tags);
    assert_eq!(names, vec!["Main St", "Second St", "Alt"]);
}

#[test]
fn split_names_trims_and_drops_empty_pieces() {
    assert_eq!(split_names("  a ; ;b;"), vec!["a", "b"]);
    assert_eq!(split_names(""), Vec::<String>::new());
    assert_eq!(split_names("\u{a0}Erste Straße\t"), vec!["Erste Straße"]);
}

#[test]
fn add_names_skips_names_already_held() {
    let mut names = vec!["A".to_string()];
    add_names("B;A;B;C", &mut names);
    assert_eq!(names, vec!["A", "B", "C"]);
}

#[test]
fn variant_names_follow_primary_names_in_tag_order() {
    let tags = tags(&[
        ("alt_name:fr", "Rue"),
        ("name", "Street"),
        ("name:de", "Straße;Street"),
        ("old_name", "Old"),
        ("name_suffix", "x"),
    ]);
    assert_eq!(collect_names(&tags), vec!["Street", "Old", "Rue", "Straße"]);
}

#[test]
fn name_keys_and_variants() {
    assert!(is_name_key("name"));
    assert!(is_name_key("short_name"));
    assert!(is_name_key("official_name:en"));
    assert!(!is_name_key("names"));
    assert!(!is_name_key("highway"));
    assert!(has_name_tags(&tags(&[("loc_name:de", "X")])));
    assert!(!has_name_tags(&tags(&[("name", ""), ("ref", "A1")])));
}

#[test]
fn classifies_points_of_interest() {
    let station = tags(&[("name", "Central Station"), ("railway", "station")]);
    assert!(is_train_station(&station));
    assert!(is_poi(&station));
    let stop = tags(&[("name", "Main Bus Stop"), ("highway", "bus_stop")]);
    assert!(is_bus_stop(&stop));
    assert!(is_poi(&stop));
    let airport = tags(&[("aeroway", "aerodrome"), ("name", "City Airport")]);
    assert!(is_airport(&airport));
    let tower = tags(&[("name", "Eiffel Tower"), ("tourism", "attraction"), ("wikipedia", "en:Eiffel_Tower")]);
    assert!(is_major_sight(&tower));
    let statue = tags(&[("name", "Local Statue"), ("tourism", "attraction")]);
    assert!(!is_major_sight(&statue));
    assert!(!is_poi(&statue));
    let unnamed = tags(&[("railway", "station")]);
    assert!(!is_poi(&unnamed));
}

#[test]
fn classifies_settlements() {
    assert!(is_place_node(&tags(&[("name", "Tinyham"), ("place", "hamlet")])));
    assert!(!is_place_node(&tags(&[("name", "Farm"), ("place", "farm")])));
    assert!(!is_place_node(&tags(&[("name", ""), ("place", "town")])));
    assert!(is_city_or_town("city"));
    assert!(is_city_or_town("town"));
    assert!(!is_city_or_town("village"));
}

#[test]
fn is_in_prefers_specific_keys_then_first_field() {
    let t = tags(&[("is_in", "Elsewhere, Land"), ("is_in:town", "Townsville")]);
    assert_eq!(is_in_city(&t), Some("Townsville".to_string()));
    let t = tags(&[("is_in", " Placetown , Testland")]);
    assert_eq!(is_in_city(&t), Some("Placetown".to_string()));
    let t = tags(&[("is_in", ", Testland")]);
    assert_eq!(is_in_city(&t), Some("Testland".to_string()));
    let t = tags(&[("is_in", " , ;")]);
    assert_eq!(is_in_city(&t), Some(";".to_string()));
    let t = tags(&[("is_in", " , ")]);
    assert_eq!(is_in_city(&t), None);
    let t = tags(&[("is_in:city", "")]);
    assert_eq!(is_in_city(&t), None);
}

#[test]
fn first_non_empty_value_wins() {
    assert_eq!(resolve_first_non_empty(&[None, Some(""), Some("b"), Some("c")]), Some("b".to_string()));
    assert_eq!(resolve_first_non_empty(&[None, Some("")]), None);
}

#[test]
fn repeated_keys_are_detected() {
    assert!(has_unique_keys(&tags(&[("name", "A"), ("alt_name", "B")])));
    assert!(!has_unique_keys(&tags(&[("name", "A"), ("ref", "1"), ("name", "B")])));
    assert!(has_unique_keys(&Vec::new()));
}
