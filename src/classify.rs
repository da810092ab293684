//! Which features are settlements, points of interest or named routes.

use vstd::prelude::*;
use crate::names::{has_name_tags, has_name_tags_spec};
use crate::tags::{Tag, contains_key, has_tag, has_tag_value, has_value, tag_value, texts, value_in};
use crate::text::text_eq;

verus! {

/// The settlement classes of a place marker.
pub open spec fn settlement_classes() -> Seq<Seq<char>> {
    seq!["city"@, "town"@, "village"@, "hamlet"@, "suburb"@, "locality"@]
}

/// A named settlement marker.
pub open spec fn is_place_spec(tags: Seq<Tag>) -> bool {
    has_value(tags, "name"@) && value_in(tags, "place"@, settlement_classes())
}

/// The class is a city or a town.
pub open spec fn is_city_or_town_spec(class: Seq<char>) -> bool {
    class == "city"@ || class == "town"@
}

pub open spec fn is_airport_spec(tags: Seq<Tag>) -> bool {
    value_in(tags, "aeroway"@, seq!["aerodrome"@, "airport"@, "terminal"@])
}

pub open spec fn is_station_spec(tags: Seq<Tag>) -> bool {
    value_in(tags, "railway"@, seq!["station"@, "halt"@]) || value_in(
        tags,
        "public_transport"@,
        seq!["station"@],
    )
}

pub open spec fn is_stop_spec(tags: Seq<Tag>) -> bool {
    value_in(tags, "highway"@, seq!["bus_stop"@]) || value_in(
        tags,
        "public_transport"@,
        seq!["platform"@, "stop_position"@],
    )
}

/// A named sight with an encyclopedia reference and a sight-like tag.
pub open spec fn is_landmark_spec(tags: Seq<Tag>) -> bool {
    has_name_tags_spec(tags) && (tag_value(tags, "wikipedia"@) is Some || tag_value(
        tags,
        "wikidata"@,
    ) is Some) && (has_value(tags, "tourism"@) || has_value(tags, "historic"@) || has_value(
        tags,
        "man_made"@,
    ) || has_value(tags, "landmark"@) || has_value(tags, "tower:type"@))
}

/// A named airport, station, stop or landmark.
pub open spec fn is_poi_spec(tags: Seq<Tag>) -> bool {
    has_name_tags_spec(tags) && (is_airport_spec(tags) || is_station_spec(tags) || is_stop_spec(
        tags,
    ) || is_landmark_spec(tags))
}

/// A named road or path.
pub open spec fn is_route_spec(tags: Seq<Tag>) -> bool {
    tag_value(tags, "highway"@) is Some && has_name_tags_spec(tags)
}

/// Whether the class is a city or a town.
pub fn is_city_or_town(place_type: &str) -> (r: bool)
    ensures
        r == is_city_or_town_spec(place_type@),
{
    text_eq(place_type, "city") || text_eq(place_type, "town")
}

/// Whether the tags mark a named settlement.
pub fn is_place_node(tags: &Vec<Tag>) -> (r: bool)
    ensures
        r == is_place_spec(tags@),
{
    let classes = ["city", "town", "village", "hamlet", "suburb", "locality"];
    assert(texts(classes@) =~= settlement_classes());
    has_tag(tags, "name") && has_tag_value(tags, "place", &classes)
}

pub fn is_airport(tags: &Vec<Tag>) -> (r: bool)
    ensures
        r == is_airport_spec(tags@),
{
    let values = ["aerodrome", "airport", "terminal"];
    assert(texts(values@) =~= seq!["aerodrome"@, "airport"@, "terminal"@]);
    has_tag_value(tags, "aeroway", &values)
}

pub fn is_train_station(tags: &Vec<Tag>) -> (r: bool)
    ensures
        r == is_station_spec(tags@),
{
    let rail = ["station", "halt"];
    let transport = ["station"];
    assert(texts(rail@) =~= seq!["station"@, "halt"@]);
    assert(texts(transport@) =~= seq!["station"@]);
    has_tag_value(tags, "railway", &rail) || has_tag_value(tags, "public_transport", &transport)
}

pub fn is_bus_stop(tags: &Vec<Tag>) -> (r: bool)
    ensures
        r == is_stop_spec(tags@),
{
    let road = ["bus_stop"];
    let transport = ["platform", "stop_position"];
    assert(texts(road@) =~= seq!["bus_stop"@]);
    assert(texts(transport@) =~= seq!["platform"@, "stop_position"@]);
    has_tag_value(tags, "highway", &road) || has_tag_value(tags, "public_transport", &transport)
}

pub fn is_major_sight(tags: &Vec<Tag>) -> (r: bool)
    ensures
        r == is_landmark_spec(tags@),
{
    if !has_name_tags(tags) {
        return false;
    }
    let has_wiki = contains_key(tags, "wikipedia") || contains_key(tags, "wikidata");
    if !has_wiki {
        return false;
    }
    has_tag(tags, "tourism") || has_tag(tags, "historic") || has_tag(tags, "man_made") || has_tag(
        tags,
        "landmark",
    ) || has_tag(tags, "tower:type")
}

/// Whether the feature is a point of interest.
pub fn is_poi(tags: &Vec<Tag>) -> (r: bool)
    ensures
        r == is_poi_spec(tags@),
{
    if !has_name_tags(tags) {
        return false;
    }
    is_airport(tags) || is_train_station(tags) || is_bus_stop(tags) || is_major_sight(tags)
}

/// Whether the feature is a named route.
pub fn is_named_route(tags: &Vec<Tag>) -> (r: bool)
    ensures
        r == is_route_spec(tags@),
{
    contains_key(tags, "highway") && has_name_tags(tags)
}

} // verus!
