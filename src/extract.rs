//! The extraction pipeline: from points and paths with tags to merged rows.

use vstd::prelude::*;
use std::collections::HashMap;
use crate::geo::{Coord, coords_wf};
use crate::geometry::{
    centroid_spec, line_midpoint, midpoint_spec, path_length, path_length_spec,
    point_outcome, polygon_centroid,
};
use crate::tags::{Tag, keys_unique, tag_value};
use crate::classify::{is_named_route, is_poi, is_poi_spec, is_route_spec};
use crate::locality::{
    CityFields, city_choice, or_empty, place_class, place_name, resolve_city_fields, resolved_spec,
};
use crate::merge::{MAX_FRAGMENTS, RowView, StreetEntry, entry_view, entry_views, merge_entries, merged_rows};
use crate::names::{collect_names, collect_names_spec, views};
use crate::places::{PlaceFilter, PlaceIndex, PlaceNode, nearest_spec, place_node_from_tags};

verus! {

broadcast use vstd::std_specs::hash::group_hash_axioms;

/// A point entity: its id, position and tags.
#[derive(Clone, Debug)]
pub struct NodeData {
    pub id: i64,
    pub coord: Coord,
    pub tags: Vec<Tag>,
}

/// A path entity: its id, the ids of its points in order, and its tags.
#[derive(Clone, Debug)]
pub struct WayData {
    pub id: i64,
    pub node_refs: Vec<i64>,
    pub tags: Vec<Tag>,
}

pub open spec fn nodes_wf(nodes: Seq<NodeData>) -> bool {
    forall|i: int| 0 <= i < nodes.len() ==> (#[trigger] nodes[i]).coord.wf()
}

/// Every point and path carries each tag key at most once.
pub open spec fn tags_wf(nodes: Seq<NodeData>, ways: Seq<WayData>) -> bool {
    &&& forall|i: int| 0 <= i < nodes.len() ==> keys_unique((#[trigger] nodes[i]).tags@)
    &&& forall|i: int| 0 <= i < ways.len() ==> keys_unique((#[trigger] ways[i]).tags@)
}

/// Position of each point id; a later point with the same id wins.
pub open spec fn node_map(nodes: Seq<NodeData>) -> Map<i64, Coord>
    decreases nodes.len(),
{
    if nodes.len() == 0 {
        Map::empty()
    } else {
        node_map(nodes.drop_last()).insert(nodes.last().id, nodes.last().coord)
    }
}

pub proof fn lemma_node_map_wf(nodes: Seq<NodeData>, id: i64)
    requires
        nodes_wf(nodes),
        node_map(nodes).contains_key(id),
    ensures
        node_map(nodes)[id].wf(),
    decreases nodes.len(),
{
    if nodes.len() > 0 {
        let prev = nodes.drop_last();
        assert(nodes_wf(prev));
        if nodes.last().id != id {
            lemma_node_map_wf(prev, id);
        }
    }
}

/// The positions of all points by id.
pub fn node_positions(nodes: &Vec<NodeData>) -> (r: HashMap<i64, Coord>)
    ensures
        r@ == node_map(nodes@),
{
    let mut m: HashMap<i64, Coord> = HashMap::new();
    let mut i: usize = 0;
    while i < nodes.len()
        invariant
            0 <= i <= nodes@.len(),
            m@ == node_map(nodes@.subrange(0, i as int)),
        decreases nodes@.len() - i,
    {
        assert(nodes@.subrange(0, i + 1).drop_last() == nodes@.subrange(0, i as int));
        m.insert(nodes[i].id, nodes[i].coord);
        i = i + 1;
    }
    assert(nodes@.subrange(0, i as int) == nodes@);
    m
}

/// The positions of a path's points, if every id is known.
pub open spec fn path_coords(refs: Seq<i64>, map: Map<i64, Coord>) -> Option<Seq<Coord>> {
    if forall|k: int| 0 <= k < refs.len() ==> map.contains_key(#[trigger] refs[k]) {
        Some(Seq::new(refs.len(), |k: int| map[refs[k]]))
    } else {
        None
    }
}

/// The positions of a path's points; `None` when one is unknown.
pub fn resolve_path(refs: &Vec<i64>, map: &HashMap<i64, Coord>) -> (r: Option<Vec<Coord>>)
    ensures
        match r {
            Some(v) => path_coords(refs@, map@) == Some(v@),
            None => path_coords(refs@, map@) is None,
        },
{
    let mut out: Vec<Coord> = Vec::new();
    let mut k: usize = 0;
    while k < refs.len()
        invariant
            0 <= k <= refs@.len(),
            out@.len() == k,
            forall|q: int| 0 <= q < k ==> map@.contains_key(#[trigger] refs@[q]) && out@[q] == map@[refs@[q]],
        decreases refs@.len() - k,
    {
        match map.get(&refs[k]) {
            Some(c) => {
                out.push(*c);
            },
            None => {
                return None;
            },
        }
        k = k + 1;
    }
    assert(out@ =~= Seq::new(refs@.len(), |q: int| map@[refs@[q]]));
    Some(out)
}

/// The path is a ring: at least two ids, the last equal to the first.
pub open spec fn refs_closed(refs: Seq<i64>) -> bool {
    refs.len() >= 2 && refs[0] == refs[refs.len() - 1]
}

/// Representative point of a path with positions `coords`: the centroid of
/// a ring of at least four points, the midpoint of an open path of at least
/// two; none otherwise.
pub open spec fn path_center(refs: Seq<i64>, coords: Seq<Coord>) -> Option<Coord> {
    if refs_closed(refs) {
        if coords.len() < 4 {
            None
        } else {
            match point_outcome(coords.len() as int, 3, centroid_spec(coords)) {
                Ok(c) => Some(c),
                Err(_) => None,
            }
        }
    } else if coords.len() < 2 {
        None
    } else {
        match point_outcome(coords.len() as int, 2, midpoint_spec(coords)) {
            Ok(c) => Some(c),
            Err(_) => None,
        }
    }
}

pub fn center_of_path(refs: &Vec<i64>, coords: &Vec<Coord>) -> (r: Option<Coord>)
    requires
        coords_wf(coords@),
    ensures
        r == path_center(refs@, coords@),
        r matches Some(c) ==> c.wf(),
{
    let closed = refs.len() >= 2 && refs[0] == refs[refs.len() - 1];
    if closed {
        if coords.len() < 4 {
            return None;
        }
        match polygon_centroid(coords) {
            Ok(c) => Some(c),
            Err(_) => None,
        }
    } else {
        if coords.len() < 2 {
            return None;
        }
        match line_midpoint(coords) {
            Ok(c) => Some(c),
            Err(_) => None,
        }
    }
}


/// The four locality fields of a feature at `q`.
pub open spec fn fields_spec(tags: Seq<Tag>, index: PlaceIndex, q: Coord) -> (Seq<char>, Seq<char>, Seq<char>, Seq<char>) {
    (
        or_empty(place_name(index, nearest_spec(index, q, PlaceFilter::Any))),
        or_empty(place_class(index, nearest_spec(index, q, PlaceFilter::Any))),
        or_empty(place_name(index, city_choice(index, q))),
        or_empty(resolved_spec(tags, index, q)),
    )
}

/// One row per name of a feature, all at `q` with the same length and fields.
pub open spec fn feature_rows(
    names: Seq<Seq<char>>,
    q: Coord,
    length: int,
    f: (Seq<char>, Seq<char>, Seq<char>, Seq<char>),
) -> Seq<RowView> {
    Seq::new(names.len(), |k: int| (names[k], q.lon as int, q.lat as int, length, f.0, f.1, f.2, f.3))
}

/// Rows of the points of interest among the first `j` points.
pub open spec fn poi_rows(nodes: Seq<NodeData>, index: PlaceIndex, j: int) -> Seq<RowView>
    decreases j,
{
    if j <= 0 {
        Seq::empty()
    } else {
        let n = nodes[j - 1];
        poi_rows(nodes, index, j - 1) + if is_poi_spec(n.tags@) {
            feature_rows(collect_names_spec(n.tags@), n.coord, 0, fields_spec(n.tags@, index, n.coord))
        } else {
            Seq::empty()
        }
    }
}

/// Rows of one path: for a named route or a point of interest whose points
/// are all known and whose outline gives a point.
pub open spec fn way_feature(w: WayData, map: Map<i64, Coord>, index: PlaceIndex) -> Seq<RowView> {
    let tags = w.tags@;
    if !(is_route_spec(tags) || is_poi_spec(tags)) {
        Seq::empty()
    } else {
        match path_coords(w.node_refs@, map) {
            None => Seq::empty(),
            Some(cs) => match path_center(w.node_refs@, cs) {
                None => Seq::empty(),
                Some(c) => feature_rows(
                    collect_names_spec(tags),
                    c,
                    if is_route_spec(tags) {
                        path_length_spec(cs)
                    } else {
                        0
                    },
                    fields_spec(tags, index, c),
                ),
            },
        }
    }
}

/// Rows of the first `j` paths.
pub open spec fn way_rows(ways: Seq<WayData>, map: Map<i64, Coord>, index: PlaceIndex, j: int) -> Seq<RowView>
    decreases j,
{
    if j <= 0 {
        Seq::empty()
    } else {
        way_rows(ways, map, index, j - 1) + way_feature(ways[j - 1], map, index)
    }
}

/// Name, class and position of a settlement marker.
pub open spec fn place_view(p: PlaceNode) -> (Seq<char>, Seq<char>, Coord) {
    (p.name@, p.place_type@, p.coord)
}

/// The settlement markers among the first `j` points, in order.
pub open spec fn places_spec(nodes: Seq<NodeData>, j: int) -> Seq<(Seq<char>, Seq<char>, Coord)>
    decreases j,
{
    if j <= 0 {
        Seq::empty()
    } else {
        let n = nodes[j - 1];
        let prev = places_spec(nodes, j - 1);
        if crate::classify::is_place_spec(n.tags@) {
            match (tag_value(n.tags@, "name"@), tag_value(n.tags@, "place"@)) {
                (Some(name), Some(class)) => prev.push((name, class, n.coord)),
                _ => prev,
            }
        } else {
            prev
        }
    }
}

/// The fragments extracted from the points and paths, with the place index
/// they were resolved against.
pub open spec fn fragments_of(nodes: Seq<NodeData>, ways: Seq<WayData>, index: PlaceIndex) -> Seq<RowView> {
    poi_rows(nodes, index, nodes.len() as int) + way_rows(ways, node_map(nodes), index, ways.len() as int)
}

/// Append one row per name, all with the same position, length and fields.
fn push_rows(out: &mut Vec<StreetEntry>, names: &Vec<String>, center: Coord, length: u64, f: &CityFields)
    requires
        center.wf(),
        forall|i: int| 0 <= i < old(out)@.len() ==> (#[trigger] old(out)@[i]).wf(),
    ensures
        entry_views(final(out)@) == entry_views(old(out)@) + feature_rows(
            views(names@),
            center,
            length as int,
            (f.place_node@, f.place_type@, f.place_city@, f.resolved@),
        ),
        forall|i: int| 0 <= i < final(out)@.len() ==> (#[trigger] final(out)@[i]).wf(),
{
    let ghost start = out@;
    let mut k: usize = 0;
    while k < names.len()
        invariant
            0 <= k <= names@.len(),
            center.wf(),
            forall|i: int| 0 <= i < out@.len() ==> (#[trigger] out@[i]).wf(),
            entry_views(out@) == entry_views(start) + feature_rows(
                views(names@),
                center,
                length as int,
                (f.place_node@, f.place_type@, f.place_city@, f.resolved@),
            ).subrange(0, k as int),
        decreases names@.len() - k,
    {
        let e = StreetEntry {
            name: names[k].clone(),
            center_lon: center.lon,
            center_lat: center.lat,
            length,
            city_place_node: f.place_node.clone(),
            city_place_type: f.place_type.clone(),
            city_place_city: f.place_city.clone(),
            city_resolved: f.resolved.clone(),
        };
        let ghost before = out@;
        out.push(e);
        let ghost rows = feature_rows(
            views(names@),
            center,
            length as int,
            (f.place_node@, f.place_type@, f.place_city@, f.resolved@),
        );
        assert(entry_views(out@) =~= entry_views(before).push(entry_view(e)));
        assert(rows.subrange(0, k + 1) =~= rows.subrange(0, k as int).push(rows[k as int]));
        k = k + 1;
    }
    let ghost rows = feature_rows(
        views(names@),
        center,
        length as int,
        (f.place_node@, f.place_type@, f.place_city@, f.resolved@),
    );
    assert(rows.subrange(0, k as int) =~= rows);
}


/// The settlement markers among the points, in order.
pub fn collect_place_nodes(nodes: &Vec<NodeData>) -> (r: Vec<PlaceNode>)
    requires
        nodes_wf(nodes@),
    ensures
        r@.map_values(|p: PlaceNode| place_view(p)) == places_spec(nodes@, nodes@.len() as int),
        forall|i: int| 0 <= i < r@.len() ==> (#[trigger] r@[i]).wf(),
{
    let mut out: Vec<PlaceNode> = Vec::new();
    let mut i: usize = 0;
    while i < nodes.len()
        invariant
            0 <= i <= nodes@.len(),
            nodes_wf(nodes@),
            out@.map_values(|p: PlaceNode| place_view(p)) == places_spec(nodes@, i as int),
            forall|q: int| 0 <= q < out@.len() ==> (#[trigger] out@[q]).wf(),
        decreases nodes@.len() - i,
    {
        assert(nodes@[i as int].coord.wf());
        match place_node_from_tags(&nodes[i].tags, nodes[i].coord) {
            Some(p) => {
                let ghost before = out@;
                out.push(p);
                assert(out@.map_values(|p: PlaceNode| place_view(p)) =~= before.map_values(
                    |p: PlaceNode| place_view(p),
                ).push(place_view(p)));
            },
            None => {},
        }
        i = i + 1;
    }
    out
}

/// One fragment per name of each point of interest and of each named route
/// or point-of-interest path, resolved against the settlement markers.
pub fn extract_fragments(nodes: &Vec<NodeData>, ways: &Vec<WayData>) -> (r: Vec<StreetEntry>)
    requires
        nodes_wf(nodes@),
        tags_wf(nodes@, ways@),
    ensures
        forall|i: int| 0 <= i < r@.len() ==> (#[trigger] r@[i]).wf(),
        exists|index: PlaceIndex|
            {
                &&& index.wf()
                &&& index.places@.map_values(|p: PlaceNode| place_view(p)) == places_spec(
                    nodes@,
                    nodes@.len() as int,
                )
                &&& entry_views(r@) == fragments_of(nodes@, ways@, index)
            },
{
    let places = collect_place_nodes(nodes);
    let index = PlaceIndex::new(places);
    let mut out: Vec<StreetEntry> = Vec::new();
    assert(entry_views(out@) =~= Seq::<RowView>::empty());
    let mut i: usize = 0;
    while i < nodes.len()
        invariant
            0 <= i <= nodes@.len(),
            nodes_wf(nodes@),
            index.wf(),
            forall|q: int| 0 <= q < out@.len() ==> (#[trigger] out@[q]).wf(),
            entry_views(out@) == poi_rows(nodes@, index, i as int),
        decreases nodes@.len() - i,
    {
        let node = &nodes[i];
        assert(node.coord.wf());
        if is_poi(&node.tags) {
            let names = collect_names(&node.tags);
            let fields = resolve_city_fields(&node.tags, node.coord, &index);
            push_rows(&mut out, &names, node.coord, 0, &fields);
        } else {
            assert(entry_views(out@) =~= poi_rows(nodes@, index, i as int) + Seq::<RowView>::empty());
        }
        i = i + 1;
    }
    let map = node_positions(nodes);
    let ghost pois = entry_views(out@);
    assert(pois =~= pois + way_rows(ways@, node_map(nodes@), index, 0));
    let mut j: usize = 0;
    while j < ways.len()
        invariant
            0 <= j <= ways@.len(),
            nodes_wf(nodes@),
            index.wf(),
            map@ == node_map(nodes@),
            pois == poi_rows(nodes@, index, nodes@.len() as int),
            forall|q: int| 0 <= q < out@.len() ==> (#[trigger] out@[q]).wf(),
            entry_views(out@) == pois + way_rows(ways@, node_map(nodes@), index, j as int),
        decreases ways@.len() - j,
    {
        let way = &ways[j];
        let ghost before = entry_views(out@);
        let ghost prev_rows = way_rows(ways@, node_map(nodes@), index, j as int);
        let is_street = is_named_route(&way.tags);
        if is_street || is_poi(&way.tags) {
            match resolve_path(&way.node_refs, &map) {
                Some(coords) => {
                    proof {
                        assert forall|k: int| 0 <= k < coords@.len() implies #[trigger] coords@[k].wf() by {
                            lemma_node_map_wf(nodes@, way.node_refs@[k]);
                        }
                    }
                    match center_of_path(&way.node_refs, &coords) {
                        Some(center) => {
                            let names = collect_names(&way.tags);
                            let fields = resolve_city_fields(&way.tags, center, &index);
                            let length: u64 = if is_street { path_length(&coords) } else { 0 };
                            push_rows(&mut out, &names, center, length, &fields);
                            assert(entry_views(out@) =~= pois + (prev_rows + way_feature(ways@[j as int], node_map(nodes@), index)));
                        },
                        None => {
                            assert(entry_views(out@) =~= pois + (prev_rows + way_feature(ways@[j as int], node_map(nodes@), index)));
                        },
                    }
                },
                None => {
                    assert(entry_views(out@) =~= pois + (prev_rows + way_feature(ways@[j as int], node_map(nodes@), index)));
                },
            }
        } else {
            assert(entry_views(out@) =~= pois + (prev_rows + way_feature(ways@[j as int], node_map(nodes@), index)));
        }
        j = j + 1;
    }
    out
}

/// Why extraction stopped.
#[derive(Clone, Copy, Debug, PartialEq, Eq, Structural)]
pub enum ExtractError {
    /// More fragments than the merge is sized for.
    TooManyFragments,
}

/// What extraction gives for the points and paths: the fragments, resolved
/// against the settlement markers, and either an error when they are too
/// many to merge or the rows merged from them.
pub open spec fn extract_outcome(
    nodes: Seq<NodeData>,
    ways: Seq<WayData>,
    r: Result<Seq<StreetEntry>, ExtractError>,
) -> bool {
    exists|frags: Seq<StreetEntry>, index: PlaceIndex|
        {
            &&& index.wf()
            &&& index.places@.map_values(|p: PlaceNode| place_view(p)) == places_spec(nodes, nodes.len() as int)
            &&& entry_views(frags) == fragments_of(nodes, ways, index)
            &&& (frags.len() > MAX_FRAGMENTS <==> r is Err)
            &&& (r matches Ok(rows) ==> merged_rows(frags, rows))
        }
}

pub open spec fn result_view(r: Result<Vec<StreetEntry>, ExtractError>) -> Result<Seq<StreetEntry>, ExtractError> {
    match r {
        Ok(v) => Ok(v@),
        Err(e) => Err(e),
    }
}

/// The merged rows of the points and paths: the fragments of
/// `extract_fragments`, merged by `merge_entries`.
pub fn extract(nodes: &Vec<NodeData>, ways: &Vec<WayData>) -> (r: Result<Vec<StreetEntry>, ExtractError>)
    requires
        nodes_wf(nodes@),
        tags_wf(nodes@, ways@),
    ensures
        r is Err ==> r == Err::<Vec<StreetEntry>, ExtractError>(ExtractError::TooManyFragments),
        extract_outcome(nodes@, ways@, result_view(r)),
{
    let frags = extract_fragments(nodes, ways);
    if frags.len() > MAX_FRAGMENTS {
        return Err(ExtractError::TooManyFragments);
    }
    let ghost fs = frags@;
    let rows = merge_entries(frags);
    assert(merged_rows(fs, rows@));
    Ok(rows)
}

/// Two indexes over markers of the same values answer every query alike.
proof fn lemma_same_places(i1: PlaceIndex, i2: PlaceIndex, q: Coord, f: PlaceFilter)
    requires
        i1.wf(),
        i2.wf(),
        i1.places@.map_values(|p: PlaceNode| place_view(p)) == i2.places@.map_values(|p: PlaceNode| place_view(p)),
    ensures
        nearest_spec(i1, q, f) == nearest_spec(i2, q, f),
        forall|j: int| 0 <= j < i1.places@.len() ==> (#[trigger] i1.places@[j]).name@ == i2.places@[j].name@
            && i1.places@[j].place_type@ == i2.places@[j].place_type@ && i1.places@[j].is_city_town
            == i2.places@[j].is_city_town,
        i1.places@.len() == i2.places@.len(),
{
    let v1 = i1.places@.map_values(|p: PlaceNode| place_view(p));
    let v2 = i2.places@.map_values(|p: PlaceNode| place_view(p));
    assert(v1.len() == i1.places@.len() && v2.len() == i2.places@.len());
    assert forall|j: int| 0 <= j < i1.places@.len() implies {
        &&& (#[trigger] i1.places@[j]).name@ == i2.places@[j].name@
        &&& i1.places@[j].place_type@ == i2.places@[j].place_type@
        &&& i1.places@[j].coord == i2.places@[j].coord
        &&& i1.places@[j].cos_lat == i2.places@[j].cos_lat
        &&& i1.places@[j].is_city_town == i2.places@[j].is_city_town
    } by {
        assert(v1[j] == v2[j]);
        assert(i1.places@[j].wf() && i2.places@[j].wf());
    }
    assert forall|j: int| i1.is_nearest(q, f, j) <==> #[trigger] i2.is_nearest(q, f, j) by {
        assert forall|k: int| i1.is_candidate(q, f, k) <==> #[trigger] i2.is_candidate(q, f, k) by {
            if 0 <= k < i1.places@.len() {
                assert(i1.places@[k].coord == i2.places@[k].coord);
            }
        }
        if 0 <= j < i1.places@.len() {
            assert forall|k: int| #[trigger] i2.is_candidate(q, f, k) implies (i1.better(q, k, j) <==> i2.better(q, k, j)) by {
                assert(i1.places@[k].coord == i2.places@[k].coord);
                assert(i1.places@[j].coord == i2.places@[j].coord);
                assert(i1.places@[k].cos_lat == i2.places@[k].cos_lat);
                assert(i1.places@[j].cos_lat == i2.places@[j].cos_lat);
                assert(i1.dist(q, k) == i2.dist(q, k));
                assert(i1.dist(q, j) == i2.dist(q, j));
            }
            if i1.is_nearest(q, f, j) {
                assert forall|k: int| #[trigger] i2.is_candidate(q, f, k) implies !i2.better(q, k, j) by {
                    assert(i1.is_candidate(q, f, k));
                }
            }
            if i2.is_nearest(q, f, j) {
                assert forall|k: int| #[trigger] i1.is_candidate(q, f, k) implies !i1.better(q, k, j) by {
                    assert(i2.is_candidate(q, f, k));
                }
            }
        }
    }
    if nearest_spec(i1, q, f) is Some {
        let a = choose|i: int| i1.is_nearest(q, f, i);
        assert(i2.is_nearest(q, f, a));
        let b = choose|i: int| i2.is_nearest(q, f, i);
        crate::places::lemma_nearest_unique(i2, q, f, a, b);
    } else if nearest_spec(i2, q, f) is Some {
        let b = choose|i: int| i2.is_nearest(q, f, i);
        assert(i1.is_nearest(q, f, b));
    }
}

proof fn lemma_same_fields(i1: PlaceIndex, i2: PlaceIndex, tags: Seq<Tag>, q: Coord)
    requires
        i1.wf(),
        i2.wf(),
        i1.places@.map_values(|p: PlaceNode| place_view(p)) == i2.places@.map_values(|p: PlaceNode| place_view(p)),
    ensures
        fields_spec(tags, i1, q) == fields_spec(tags, i2, q),
{
    lemma_same_places(i1, i2, q, PlaceFilter::Any);
    lemma_same_places(i1, i2, q, PlaceFilter::CityTown);
    let a = nearest_spec(i1, q, PlaceFilter::Any);
    if let Some(i) = a {
        assert(0 <= i < i1.places@.len()) by {
            assert(i1.is_nearest(q, PlaceFilter::Any, choose|i: int| i1.is_nearest(q, PlaceFilter::Any, i)));
        }
        assert(i1.places@[i].name@ == i2.places@[i].name@);
    }
    let c = city_choice(i1, q);
    if let Some(i) = c {
        let cf = if a matches Some(k) && i1.places@[k].is_city_town { PlaceFilter::Any } else { PlaceFilter::CityTown };
        assert(i1.is_nearest(q, cf, choose|i: int| i1.is_nearest(q, cf, i)));
        assert(i1.places@[i].name@ == i2.places@[i].name@);
    }
}

proof fn lemma_same_poi_rows(nodes: Seq<NodeData>, i1: PlaceIndex, i2: PlaceIndex, j: int)
    requires
        i1.wf(),
        i2.wf(),
        i1.places@.map_values(|p: PlaceNode| place_view(p)) == i2.places@.map_values(|p: PlaceNode| place_view(p)),
    ensures
        poi_rows(nodes, i1, j) == poi_rows(nodes, i2, j),
    decreases j,
{
    if j > 0 {
        lemma_same_poi_rows(nodes, i1, i2, j - 1);
        lemma_same_fields(i1, i2, nodes[j - 1].tags@, nodes[j - 1].coord);
    }
}

proof fn lemma_same_way_rows(ways: Seq<WayData>, map: Map<i64, Coord>, i1: PlaceIndex, i2: PlaceIndex, j: int)
    requires
        i1.wf(),
        i2.wf(),
        i1.places@.map_values(|p: PlaceNode| place_view(p)) == i2.places@.map_values(|p: PlaceNode| place_view(p)),
    ensures
        way_rows(ways, map, i1, j) == way_rows(ways, map, i2, j),
    decreases j,
{
    if j > 0 {
        lemma_same_way_rows(ways, map, i1, i2, j - 1);
        let w = ways[j - 1];
        if let Some(cs) = path_coords(w.node_refs@, map) {
            if let Some(c) = path_center(w.node_refs@, cs) {
                lemma_same_fields(i1, i2, w.tags@, c);
            }
        }
    }
}

/// Extraction is repeatable: two runs on the same points and paths both
/// succeed or both fail, and give rows of the same values in the same
/// order.
pub proof fn lemma_extract_repeatable(
    nodes: Seq<NodeData>,
    ways: Seq<WayData>,
    r1: Result<Seq<StreetEntry>, ExtractError>,
    r2: Result<Seq<StreetEntry>, ExtractError>,
)
    requires
        extract_outcome(nodes, ways, r1),
        extract_outcome(nodes, ways, r2),
    ensures
        r1 is Ok <==> r2 is Ok,
        r1 matches Ok(a) ==> (r2 matches Ok(b) && entry_views(a) == entry_views(b)),
{
    let (f1, i1) = choose|frags: Seq<StreetEntry>, index: PlaceIndex|
        {
            &&& index.wf()
            &&& index.places@.map_values(|p: PlaceNode| place_view(p)) == places_spec(nodes, nodes.len() as int)
            &&& entry_views(frags) == fragments_of(nodes, ways, index)
            &&& (frags.len() > MAX_FRAGMENTS <==> r1 is Err)
            &&& (r1 matches Ok(rows) ==> merged_rows(frags, rows))
        };
    let (f2, i2) = choose|frags: Seq<StreetEntry>, index: PlaceIndex|
        {
            &&& index.wf()
            &&& index.places@.map_values(|p: PlaceNode| place_view(p)) == places_spec(nodes, nodes.len() as int)
            &&& entry_views(frags) == fragments_of(nodes, ways, index)
            &&& (frags.len() > MAX_FRAGMENTS <==> r2 is Err)
            &&& (r2 matches Ok(rows) ==> merged_rows(frags, rows))
        };
    lemma_same_poi_rows(nodes, i1, i2, nodes.len() as int);
    lemma_same_way_rows(ways, node_map(nodes), i1, i2, ways.len() as int);
    assert(entry_views(f1) == entry_views(f2));
    assert(entry_views(f1).len() == f1.len() && entry_views(f2).len() == f2.len());
    if let Ok(a) = r1 {
        if let Ok(b) = r2 {
            crate::merge_laws::lemma_merge_repeatable_views(f1, f2, a, b);
        }
    }
}

} // verus!
