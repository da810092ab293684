//! The locality fields of a feature: its nearest settlement, the nearest
//! city or town, and the locality finally resolved.

use vstd::prelude::*;
use vstd::string::StrSliceExecFns;
use crate::geo::Coord;
use crate::places::{PlaceFilter, PlaceIndex, nearest_spec};
use crate::tags::{Tag, find_tag, tag_value};
use crate::names::{keep_names, split_trimmed};
use crate::text::split_on;

verus! {

/// The first present, non-empty value from index `i` on.
pub open spec fn first_filled_from(vals: Seq<Option<Seq<char>>>, i: int) -> Option<Seq<char>>
    decreases vals.len() - i,
{
    if i < 0 || i >= vals.len() {
        None
    } else {
        match vals[i] {
            Some(v) => if v.len() > 0 {
                Some(v)
            } else {
                first_filled_from(vals, i + 1)
            },
            None => first_filled_from(vals, i + 1),
        }
    }
}

/// The first present, non-empty value.
pub open spec fn first_filled(vals: Seq<Option<Seq<char>>>) -> Option<Seq<char>> {
    first_filled_from(vals, 0)
}

pub open spec fn opt_text(o: Option<&str>) -> Option<Seq<char>> {
    match o {
        Some(t) => Some(t@),
        None => None,
    }
}

pub open spec fn opt_view(o: Option<String>) -> Option<Seq<char>> {
    match o {
        Some(t) => Some(t@),
        None => None,
    }
}

pub open spec fn opt_texts(vals: Seq<Option<&str>>) -> Seq<Option<Seq<char>>> {
    vals.map_values(|o: Option<&str>| opt_text(o))
}

/// The first of `values` that is present and not empty.
pub fn resolve_first_non_empty(values: &[Option<&str>]) -> (r: Option<String>)
    ensures
        opt_view(r) == first_filled(opt_texts(values@)),
{
    let ghost vals = opt_texts(values@);
    let mut i: usize = 0;
    while i < values.len()
        invariant
            0 <= i <= values@.len(),
            vals == opt_texts(values@),
            first_filled_from(vals, i as int) == first_filled(vals),
        decreases values@.len() - i,
    {
        match values[i] {
            Some(t) => {
                if t.unicode_len() > 0 {
                    return Some(t.to_string());
                }
            },
            None => {},
        }
        i = i + 1;
    }
    None
}

/// The keys that name the enclosing locality, in order of preference.
pub open spec fn is_in_keys() -> Seq<Seq<char>> {
    seq!["is_in:city"@, "is_in:town"@, "is_in:municipality"@, "is_in:locality"@]
}

/// The enclosing locality that the tags name: the first non-empty of the
/// specific keys, else the first non-empty comma-separated field of `is_in`.
pub open spec fn is_in_spec(tags: Seq<Tag>) -> Option<Seq<char>> {
    let keyed = first_filled(is_in_keys().map_values(|k: Seq<char>| tag_value(tags, k)));
    match keyed {
        Some(v) => Some(v),
        None => match tag_value(tags, "is_in"@) {
            Some(v) => {
                let fields = keep_names(split_on(v, ','));
                if fields.len() > 0 {
                    Some(fields[0])
                } else {
                    None
                }
            },
            None => None,
        },
    }
}

fn is_in_key_at(i: usize) -> (r: &'static str)
    requires
        i < 4,
    ensures
        r@ == is_in_keys()[i as int],
{
    match i {
        0 => "is_in:city",
        1 => "is_in:town",
        2 => "is_in:municipality",
        _ => "is_in:locality",
    }
}

/// The enclosing locality named by the tags.
pub fn is_in_city(tags: &Vec<Tag>) -> (r: Option<String>)
    ensures
        opt_view(r) == is_in_spec(tags@),
{
    let ghost vals = is_in_keys().map_values(|k: Seq<char>| tag_value(tags@, k));
    let mut i: usize = 0;
    while i < 4
        invariant
            0 <= i <= 4,
            vals == is_in_keys().map_values(|k: Seq<char>| tag_value(tags@, k)),
            vals.len() == 4,
            first_filled_from(vals, i as int) == first_filled(vals),
        decreases 4 - i,
    {
        match find_tag(tags, is_in_key_at(i)) {
            Some(j) => {
                if tags[j].value.as_str().unicode_len() > 0 {
                    return Some(tags[j].value.clone());
                }
            },
            None => {},
        }
        i = i + 1;
    }
    match find_tag(tags, "is_in") {
        Some(j) => {
            let fields = split_trimmed(tags[j].value.as_str(), ',');
            if fields.len() > 0 {
                Some(fields[0].clone())
            } else {
                None
            }
        },
        None => None,
    }
}


/// The four locality fields of a feature; each is empty when unresolved.
#[derive(Clone, Debug)]
pub struct CityFields {
    /// Name of the nearest settlement.
    pub place_node: String,
    /// Class of the nearest settlement.
    pub place_type: String,
    /// Name of the nearest city or town.
    pub place_city: String,
    /// The locality finally resolved.
    pub resolved: String,
}

pub open spec fn or_empty(o: Option<Seq<char>>) -> Seq<char> {
    match o {
        Some(v) => v,
        None => Seq::<char>::empty(),
    }
}

pub open spec fn place_name(index: PlaceIndex, o: Option<int>) -> Option<Seq<char>> {
    match o {
        Some(i) => Some(index.places@[i].name@),
        None => None,
    }
}

pub open spec fn place_class(index: PlaceIndex, o: Option<int>) -> Option<Seq<char>> {
    match o {
        Some(i) => Some(index.places@[i].place_type@),
        None => None,
    }
}

/// The nearest city or town: the nearest settlement when it is one, else
/// the answer of a query restricted to cities and towns.
pub open spec fn city_choice(index: PlaceIndex, q: Coord) -> Option<int> {
    match nearest_spec(index, q, PlaceFilter::Any) {
        Some(i) => if index.places@[i].is_city_town {
            Some(i)
        } else {
            nearest_spec(index, q, PlaceFilter::CityTown)
        },
        None => None,
    }
}

/// The locality given by the address tags.
pub open spec fn address_spec(tags: Seq<Tag>) -> Option<Seq<char>> {
    first_filled(seq![tag_value(tags, "addr:city"@), tag_value(tags, "addr:place"@)])
}

/// The resolved locality: address, then enclosing locality, then nearest
/// city or town, then nearest settlement.
pub open spec fn resolved_spec(tags: Seq<Tag>, index: PlaceIndex, q: Coord) -> Option<Seq<char>> {
    first_filled(
        seq![
            address_spec(tags),
            is_in_spec(tags),
            place_name(index, city_choice(index, q)),
            place_name(index, nearest_spec(index, q, PlaceFilter::Any)),
        ],
    )
}

fn view_of(o: &Option<String>) -> (r: Option<&str>)
    ensures
        opt_text(r) == opt_view(*o),
{
    match o {
        Some(s) => Some(s.as_str()),
        None => None,
    }
}

fn value_of<'a>(tags: &'a Vec<Tag>, key: &str) -> (r: Option<&'a str>)
    ensures
        opt_text(r) == tag_value(tags@, key@),
{
    match find_tag(tags, key) {
        Some(i) => Some(tags[i].value.as_str()),
        None => None,
    }
}

fn name_at(index: &PlaceIndex, o: Option<usize>) -> (r: Option<&str>)
    requires
        o matches Some(i) ==> i < index.places@.len(),
    ensures
        opt_text(r) == place_name(*index, match o { Some(i) => Some(i as int), None => None }),
{
    match o {
        Some(i) => Some(index.places[i].name.as_str()),
        None => None,
    }
}

/// The locality fields of a feature at `center` with the given tags.
pub fn resolve_city_fields(tags: &Vec<Tag>, center: Coord, index: &PlaceIndex) -> (r: CityFields)
    requires
        index.wf(),
        center.wf(),
    ensures
        r.place_node@ == or_empty(place_name(*index, nearest_spec(*index, center, PlaceFilter::Any))),
        r.place_type@ == or_empty(place_class(*index, nearest_spec(*index, center, PlaceFilter::Any))),
        r.place_city@ == or_empty(place_name(*index, city_choice(*index, center))),
        r.resolved@ == or_empty(resolved_spec(tags@, *index, center)),
{
    let any = index.find_nearest(center, PlaceFilter::Any);
    let city = match any {
        Some(i) => if index.places[i].is_city_town {
            Some(i)
        } else {
            index.find_nearest(center, PlaceFilter::CityTown)
        },
        None => None,
    };
    let addr = [value_of(tags, "addr:city"), value_of(tags, "addr:place")];
    assert(opt_texts(addr@) =~= seq![tag_value(tags@, "addr:city"@), tag_value(tags@, "addr:place"@)]);
    let address = resolve_first_non_empty(&addr);
    let inherited = is_in_city(tags);
    let chain = [view_of(&address), view_of(&inherited), name_at(index, city), name_at(index, any)];
    assert(opt_texts(chain@) =~= seq![
        address_spec(tags@),
        is_in_spec(tags@),
        place_name(*index, city_choice(*index, center)),
        place_name(*index, nearest_spec(*index, center, PlaceFilter::Any)),
    ]);
    let resolved = match resolve_first_non_empty(&chain) {
        Some(s) => s,
        None => String::new(),
    };
    let (place_node, place_type) = match any {
        Some(i) => (index.places[i].name.clone(), index.places[i].place_type.clone()),
        None => (String::new(), String::new()),
    };
    let place_city = match city {
        Some(i) => index.places[i].name.clone(),
        None => String::new(),
    };
    CityFields { place_node, place_type, place_city, resolved }
}

} // verus!
