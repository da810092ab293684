//! Merging of the fragments of one feature: fragments that share a name and
//! a locality and lie close together become one row.

use vstd::prelude::*;
use vstd::string::StrSliceExecFns;
use std::collections::HashMap;
use crate::geo::{Coord, div_floor, floor_div};
use crate::haversine::{abs_diff, cos_fx, hav_fixed, hav_spec, rad_fx, sin_fx};

verus! {

broadcast use vstd::std_specs::hash::group_hash_axioms;

/// One output row: a name, its representative point, its length in units of
/// arc (1e-7 degree of a great circle), and its four locality fields.
#[derive(Clone, Debug)]
pub struct StreetEntry {
    pub name: String,
    pub center_lon: i64,
    pub center_lat: i64,
    pub length: u64,
    pub city_place_node: String,
    pub city_place_type: String,
    pub city_place_city: String,
    pub city_resolved: String,
}

impl StreetEntry {
    pub open spec fn center(&self) -> Coord {
        Coord { lon: self.center_lon, lat: self.center_lat }
    }

    pub open spec fn wf(&self) -> bool {
        self.center().wf()
    }
}

/// A row as plain values: name, longitude, latitude, length and the four
/// locality fields.
pub type RowView = (Seq<char>, int, int, int, Seq<char>, Seq<char>, Seq<char>, Seq<char>);

pub open spec fn entry_view(e: StreetEntry) -> RowView {
    (
        e.name@,
        e.center_lon as int,
        e.center_lat as int,
        e.length as int,
        e.city_place_node@,
        e.city_place_type@,
        e.city_place_city@,
        e.city_resolved@,
    )
}

pub open spec fn entry_views(es: Seq<StreetEntry>) -> Seq<RowView> {
    es.map_values(|e: StreetEntry| entry_view(e))
}

/// The locality a fragment is grouped by: the first non-empty of the
/// resolved locality, the nearest city or town and the nearest settlement.
pub open spec fn city_key_spec(e: StreetEntry) -> Seq<char> {
    if e.city_resolved@.len() > 0 {
        e.city_resolved@
    } else if e.city_place_city@.len() > 0 {
        e.city_place_city@
    } else {
        e.city_place_node@
    }
}

/// The locality key that fragments are grouped by.
pub fn merge_city_key(entry: &StreetEntry) -> (r: String)
    ensures
        r@ == city_key_spec(*entry),
{
    if entry.city_resolved.as_str().unicode_len() > 0 {
        return entry.city_resolved.clone();
    }
    if entry.city_place_city.as_str().unicode_len() > 0 {
        return entry.city_place_city.clone();
    }
    if entry.city_place_node.as_str().unicode_len() > 0 {
        return entry.city_place_node.clone();
    }
    String::new()
}

/// Occurrences of `v` among the first `n` values.
pub open spec fn count_of(vals: Seq<Seq<char>>, v: Seq<char>, n: int) -> int
    decreases n,
{
    if n <= 0 {
        0
    } else {
        count_of(vals, v, n - 1) + if vals[n - 1] == v {
            1int
        } else {
            0int
        }
    }
}

/// Position `p` holds the most frequent non-empty value, and no earlier
/// position holds a value as frequent.
pub open spec fn is_mode_at(vals: Seq<Seq<char>>, p: int) -> bool {
    &&& 0 <= p < vals.len()
    &&& vals[p].len() > 0
    &&& forall|q: int|
        0 <= q < vals.len() && (#[trigger] vals[q]).len() > 0 ==> count_of(vals, vals[q], vals.len() as int)
            < count_of(vals, vals[p], vals.len() as int) || (count_of(vals, vals[q], vals.len() as int)
            == count_of(vals, vals[p], vals.len() as int) && p <= q)
}

/// The majority value: the most frequent non-empty value, the first met
/// among equally frequent ones; empty when every value is.
pub open spec fn mode_spec(vals: Seq<Seq<char>>) -> Seq<char> {
    if exists|p: int| is_mode_at(vals, p) {
        vals[choose|p: int| is_mode_at(vals, p)]
    } else {
        Seq::<char>::empty()
    }
}

pub proof fn lemma_mode_unique(vals: Seq<Seq<char>>, p: int, q: int)
    requires
        is_mode_at(vals, p),
        is_mode_at(vals, q),
    ensures
        p == q,
{
    assert(vals[q].len() > 0);
    assert(vals[p].len() > 0);
}

fn count_value(vals: &Vec<String>, v: &String) -> (r: usize)
    ensures
        r == count_of(super::names::views(vals@), v@, vals@.len() as int),
{
    let ghost vs = super::names::views(vals@);
    let mut c: usize = 0;
    let mut i: usize = 0;
    while i < vals.len()
        invariant
            0 <= i <= vals@.len(),
            vs == super::names::views(vals@),
            c == count_of(vs, v@, i as int),
            c <= i,
        decreases vals@.len() - i,
    {
        if vals[i] == *v {
            c = c + 1;
        }
        i = i + 1;
    }
    c
}

/// The most frequent non-empty value, the first met among equally frequent
/// ones; empty when there is none.
pub fn pick_mode(vals: &Vec<String>) -> (r: String)
    ensures
        r@ == mode_spec(super::names::views(vals@)),
{
    let ghost vs = super::names::views(vals@);
    let n = vals.len();
    let mut best: Option<usize> = None;
    let mut best_c: usize = 0;
    let mut p: usize = 0;
    while p < n
        invariant
            n == vals@.len(),
            vs == super::names::views(vals@),
            0 <= p <= n,
            best matches Some(b) ==> b < p && vs[b as int].len() > 0 && best_c == count_of(vs, vs[b as int], n as int),
            forall|q: int|
                0 <= q < p && (#[trigger] vs[q]).len() > 0 ==> (best matches Some(b) && (count_of(vs, vs[q], n as int)
                    < best_c || (count_of(vs, vs[q], n as int) == best_c && b <= q))),
        decreases n - p,
    {
        if vals[p].as_str().unicode_len() > 0 {
            let c = count_value(vals, &vals[p]);
            let better = match best {
                None => true,
                Some(_) => c > best_c,
            };
            if better {
                best = Some(p);
                best_c = c;
            }
        }
        p = p + 1;
    }
    match best {
        Some(b) => {
            proof {
                assert(is_mode_at(vs, b as int));
                let q = choose|q: int| is_mode_at(vs, q);
                lemma_mode_unique(vs, b as int, q);
            }
            vals[b].clone()
        },
        None => {
            proof {
                if exists|q: int| is_mode_at(vs, q) {
                    let q = choose|q: int| is_mode_at(vs, q);
                    assert(vs[q].len() > 0);
                }
            }
            String::new()
        },
    }
}


/// Weight of a fragment without length: that of one kilometre of route.
pub const POINT_WEIGHT: u64 = 89_932;

/// Most fragments a merge takes at once.
pub const MAX_FRAGMENTS: usize = 0x7FFF_FFFF;

/// Weight of a fragment in the merged position: its length, or that of a
/// kilometre when it has none.
pub open spec fn weight(e: StreetEntry) -> int {
    if e.length > 0 {
        e.length as int
    } else {
        POINT_WEIGHT as int
    }
}

pub open spec fn weight_sum(es: Seq<StreetEntry>, m: Seq<usize>, n: int) -> int
    decreases n,
{
    if n <= 0 {
        0
    } else {
        weight_sum(es, m, n - 1) + weight(es[m[n - 1] as int])
    }
}

pub open spec fn lon_moment(es: Seq<StreetEntry>, m: Seq<usize>, n: int) -> int
    decreases n,
{
    if n <= 0 {
        0
    } else {
        lon_moment(es, m, n - 1) + es[m[n - 1] as int].center_lon * weight(es[m[n - 1] as int])
    }
}

pub open spec fn lat_moment(es: Seq<StreetEntry>, m: Seq<usize>, n: int) -> int
    decreases n,
{
    if n <= 0 {
        0
    } else {
        lat_moment(es, m, n - 1) + es[m[n - 1] as int].center_lat * weight(es[m[n - 1] as int])
    }
}

pub open spec fn length_sum(es: Seq<StreetEntry>, m: Seq<usize>, n: int) -> int
    decreases n,
{
    if n <= 0 {
        0
    } else {
        length_sum(es, m, n - 1) + es[m[n - 1] as int].length
    }
}

/// Which locality field a vote is taken on.
#[derive(Clone, Copy, Debug, PartialEq, Eq, Structural)]
pub enum LocalityField {
    PlaceNode,
    PlaceType,
    PlaceCity,
    Resolved,
}

pub open spec fn field_text(e: StreetEntry, f: LocalityField) -> Seq<char> {
    match f {
        LocalityField::PlaceNode => e.city_place_node@,
        LocalityField::PlaceType => e.city_place_type@,
        LocalityField::PlaceCity => e.city_place_city@,
        LocalityField::Resolved => e.city_resolved@,
    }
}

/// The field `f` of each member, in member order.
pub open spec fn field_vals(es: Seq<StreetEntry>, m: Seq<usize>, f: LocalityField) -> Seq<Seq<char>> {
    Seq::new(m.len(), |k: int| field_text(es[m[k] as int], f))
}

/// `r` is the merge of the members `m` of `es`: the first member's name,
/// the weighted mean position rounded down, the summed length saturated at
/// `u64::MAX`, and the majority of each locality field.
pub open spec fn is_merge_of(r: StreetEntry, es: Seq<StreetEntry>, m: Seq<usize>) -> bool {
    let n = m.len() as int;
    &&& r.name@ == es[m[0] as int].name@
    &&& r.center_lon == floor_div(lon_moment(es, m, n), weight_sum(es, m, n))
    &&& r.center_lat == floor_div(lat_moment(es, m, n), weight_sum(es, m, n))
    &&& r.length == (if length_sum(es, m, n) > u64::MAX { u64::MAX as int } else { length_sum(es, m, n) })
    &&& r.city_place_node@ == mode_spec(field_vals(es, m, LocalityField::PlaceNode))
    &&& r.city_place_type@ == mode_spec(field_vals(es, m, LocalityField::PlaceType))
    &&& r.city_place_city@ == mode_spec(field_vals(es, m, LocalityField::PlaceCity))
    &&& r.city_resolved@ == mode_spec(field_vals(es, m, LocalityField::Resolved))
}

fn field_ref(e: &StreetEntry, f: LocalityField) -> (r: &String)
    ensures
        r@ == field_text(*e, f),
{
    match f {
        LocalityField::PlaceNode => &e.city_place_node,
        LocalityField::PlaceType => &e.city_place_type,
        LocalityField::PlaceCity => &e.city_place_city,
        LocalityField::Resolved => &e.city_resolved,
    }
}

/// Majority vote on one locality field over the members.
fn vote(entries: &Vec<StreetEntry>, members: &Vec<usize>, f: LocalityField) -> (r: String)
    requires
        forall|k: int| 0 <= k < members@.len() ==> members@[k] < entries@.len(),
    ensures
        r@ == mode_spec(field_vals(entries@, members@, f)),
{
    let mut vals: Vec<String> = Vec::new();
    let mut k: usize = 0;
    while k < members.len()
        invariant
            0 <= k <= members@.len(),
            forall|q: int| 0 <= q < members@.len() ==> members@[q] < entries@.len(),
            super::names::views(vals@) =~= field_vals(entries@, members@, f).subrange(0, k as int),
        decreases members@.len() - k,
    {
        let v = field_ref(&entries[members[k]], f).clone();
        let ghost before = vals@;
        vals.push(v);
        assert(super::names::views(vals@) =~= super::names::views(before).push(v@));
        assert(field_vals(entries@, members@, f).subrange(0, k + 1) =~= field_vals(entries@, members@, f).subrange(0, k as int).push(v@));
        k = k + 1;
    }
    assert(field_vals(entries@, members@, f).subrange(0, k as int) =~= field_vals(entries@, members@, f));
    pick_mode(&vals)
}

/// One row from the cluster of fragments `members`.
pub fn merge_cluster(entries: &Vec<StreetEntry>, members: &Vec<usize>) -> (r: StreetEntry)
    requires
        0 < members@.len() <= MAX_FRAGMENTS,
        forall|k: int| 0 <= k < members@.len() ==> members@[k] < entries@.len(),
        forall|i: int| 0 <= i < entries@.len() ==> (#[trigger] entries@[i]).wf(),
    ensures
        is_merge_of(r, entries@, members@),
{
    let ghost es = entries@;
    let ghost m = members@;
    let mut wl: i128 = 0;
    let mut wt: i128 = 0;
    let mut ws: i128 = 0;
    let mut total: u64 = 0;
    let mut saturated = false;
    let mut k: usize = 0;
    while k < members.len()
        invariant
            es == entries@,
            m == members@,
            0 <= k <= m.len() <= MAX_FRAGMENTS,
            forall|q: int| 0 <= q < m.len() ==> m[q] < es.len(),
            forall|i: int| 0 <= i < es.len() ==> (#[trigger] es[i]).wf(),
            wl == lon_moment(es, m, k as int),
            wt == lat_moment(es, m, k as int),
            ws == weight_sum(es, m, k as int),
            -(k * 0x1_0000_0000_0000_0000 * 1_800_000_000) <= wl <= k * 0x1_0000_0000_0000_0000 * 1_800_000_000,
            -(k * 0x1_0000_0000_0000_0000 * 900_000_000) <= wt <= k * 0x1_0000_0000_0000_0000 * 900_000_000,
            k <= ws <= k * 0x1_0000_0000_0000_0000,
            -(1_800_000_000 * ws) <= wl <= 1_800_000_000 * ws,
            -(900_000_000 * ws) <= wt <= 900_000_000 * ws,
            length_sum(es, m, k as int) >= 0,
            saturated <==> length_sum(es, m, k as int) > u64::MAX,
            !saturated ==> total == length_sum(es, m, k as int),
        decreases m.len() - k,
    {
        let e = &entries[members[k]];
        assert(es[m[k as int] as int].wf());
        let w: u64 = if e.length > 0 { e.length } else { POINT_WEIGHT };
        proof {
            crate::geo::lemma_mul_bound(e.center_lon as int, w as int, 1_800_000_000, 0x1_0000_0000_0000_0000);
            crate::geo::lemma_mul_bound(e.center_lat as int, w as int, 900_000_000, 0x1_0000_0000_0000_0000);
            crate::geo::lemma_mul_bound(e.center_lon as int, w as int, 1_800_000_000, w as int);
            crate::geo::lemma_mul_bound(e.center_lat as int, w as int, 900_000_000, w as int);
        }
        wl = wl + e.center_lon as i128 * w as i128;
        wt = wt + e.center_lat as i128 * w as i128;
        ws = ws + w as i128;
        if !saturated {
            if total > u64::MAX - e.length {
                saturated = true;
            } else {
                total = total + e.length;
            }
        }
        k = k + 1;
    }
    let center_lon = div_floor(wl, ws);
    let center_lat = div_floor(wt, ws);
    proof {
        let n = m.len() as int;
        crate::geo::lemma_quot_bound(wl as int, ws as int, 1_800_000_000);
        crate::geo::lemma_quot_bound(wt as int, ws as int, 900_000_000);
    }
    let name = entries[members[0]].name.clone();
    let city_place_node = vote(entries, members, LocalityField::PlaceNode);
    let city_place_type = vote(entries, members, LocalityField::PlaceType);
    let city_place_city = vote(entries, members, LocalityField::PlaceCity);
    let city_resolved = vote(entries, members, LocalityField::Resolved);
    StreetEntry {
        name,
        center_lon: center_lon as i64,
        center_lat: center_lat as i64,
        length: if saturated { u64::MAX } else { total },
        city_place_node,
        city_place_type,
        city_place_city,
        city_resolved,
    }
}


/// Fragments closer than 0.2 km merge: the haversine of that distance on a
/// sphere of radius 6371 km, `sin^2(0.2 / (2 * 6371))`, scaled as by
/// `hav_spec`.
pub const MERGE_HAV: i128 = 246_368_279_019_239_750_000_000_000;

/// Fragments `a` and `b` share a name and a locality key.
pub open spec fn same_group(es: Seq<StreetEntry>, a: int, b: int) -> bool {
    es[a].name@ == es[b].name@ && city_key_spec(es[a]) == city_key_spec(es[b])
}

/// The fragments' points lie within 0.2 km of each other by the haversine
/// formula.
pub open spec fn near_spec(a: StreetEntry, b: StreetEntry) -> bool {
    hav_spec(a.center(), b.center()) <= MERGE_HAV
}

pub open spec fn near(es: Seq<StreetEntry>, a: int, b: int) -> bool {
    near_spec(es[a], es[b])
}

/// First index from `j` on, up to `a`, of a fragment in the group of `a`.
pub open spec fn leader_from(es: Seq<StreetEntry>, a: int, j: int) -> int
    decreases a - j,
{
    if j >= a || j < 0 {
        a
    } else if same_group(es, j, a) {
        j
    } else {
        leader_from(es, a, j + 1)
    }
}

/// The first fragment of the group of `a`.
pub open spec fn leader(es: Seq<StreetEntry>, a: int) -> int {
    leader_from(es, a, 0)
}

pub proof fn lemma_leader_from(es: Seq<StreetEntry>, a: int, j: int)
    requires
        0 <= j <= a,
        forall|q: int| 0 <= q < j ==> !same_group(es, q, a),
    ensures
        0 <= leader_from(es, a, j) <= a,
        same_group(es, leader_from(es, a, j), a),
        forall|q: int| 0 <= q < leader_from(es, a, j) ==> !same_group(es, q, a),
    decreases a - j,
{
    if j < a && !same_group(es, j, a) {
        lemma_leader_from(es, a, j + 1);
    }
}

pub proof fn lemma_leader(es: Seq<StreetEntry>, a: int)
    requires
        0 <= a,
    ensures
        0 <= leader(es, a) <= a,
        same_group(es, leader(es, a), a),
        forall|q: int| 0 <= q < leader(es, a) ==> !same_group(es, q, a),
{
    lemma_leader_from(es, a, 0);
}

/// Two fragments share a group exactly when they share a leader.
pub proof fn lemma_leader_group(es: Seq<StreetEntry>, a: int, b: int)
    requires
        0 <= a,
        0 <= b,
    ensures
        same_group(es, a, b) <==> leader(es, a) == leader(es, b),
{
    lemma_leader(es, a);
    lemma_leader(es, b);
    if same_group(es, a, b) {
        let la = leader(es, a);
        let lb = leader(es, b);
        if la < lb {
            assert(same_group(es, la, b));
        } else if lb < la {
            assert(same_group(es, lb, a));
        }
    }
}

/// Nearness does not depend on the order of the two fragments.
pub proof fn lemma_near_symmetric(a: StreetEntry, b: StreetEntry)
    ensures
        near_spec(a, b) == near_spec(b, a),
{
    let ca = cos_fx(a.center_lat as int);
    let cb = cos_fx(b.center_lat as int);
    let so = sin_fx(rad_fx(abs_diff(a.center_lon as int, b.center_lon as int)) / 2);
    assert(abs_diff(a.center_lon as int, b.center_lon as int) == abs_diff(b.center_lon as int, a.center_lon as int));
    assert(abs_diff(a.center_lat as int, b.center_lat as int) == abs_diff(b.center_lat as int, a.center_lat as int));
    assert(ca * cb * (so * so) == cb * ca * (so * so)) by (nonlinear_arith);
}

/// A sequence of distinct indices below `n` has at most `n` elements.
pub proof fn lemma_distinct_bound(s: Seq<usize>, n: int)
    requires
        0 <= n,
        forall|k: int| 0 <= k < s.len() ==> s[k] < n,
        forall|k1: int, k2: int| 0 <= k1 < s.len() && 0 <= k2 < s.len() && k1 != k2 ==> s[k1] != s[k2],
    ensures
        s.len() <= n,
{
    let t = s.map_values(|x: usize| x as int);
    assert(t.no_duplicates());
    t.unique_seq_to_set();
    vstd::set_lib::lemma_int_range(0, n);
    assert(t.to_set().subset_of(vstd::set_lib::set_int_range(0, n)));
    vstd::set_lib::lemma_len_subset(t.to_set(), vstd::set_lib::set_int_range(0, n));
}

/// Some cluster holds index `j`.
pub open spec fn in_cluster(cl: Seq<Seq<usize>>, j: int) -> bool {
    exists|c: int, k: int| 0 <= c < cl.len() && 0 <= k < cl[c].len() && #[trigger] cl[c][k] == j
}

/// `cl` splits the fragments of `es` into clusters, each listed in the
/// order it was grown: each cluster lies in one group, is closed under
/// nearness within it and connected by it (each member after the first is
/// near an earlier one), starts with its lowest index; clusters come by
/// their group's first fragment, then by first member.
pub open spec fn is_grown_clustering(es: Seq<StreetEntry>, cl: Seq<Seq<usize>>) -> bool {
    let n = es.len() as int;
    &&& forall|c: int| 0 <= c < cl.len() ==> (#[trigger] cl[c]).len() > 0
    &&& forall|c: int, k: int| 0 <= c < cl.len() && 0 <= k < cl[c].len() ==> (#[trigger] cl[c][k]) < n
    &&& forall|j: int| 0 <= j < n ==> #[trigger] in_cluster(cl, j)
    &&& forall|c1: int, k1: int, c2: int, k2: int|
        0 <= c1 < cl.len() && 0 <= k1 < cl[c1].len() && 0 <= c2 < cl.len() && 0 <= k2 < cl[c2].len()
            && #[trigger] cl[c1][k1] == #[trigger] cl[c2][k2] ==> c1 == c2 && k1 == k2
    &&& forall|c: int, k: int| 0 <= c < cl.len() && 0 <= k < cl[c].len() ==> same_group(es, cl[c][0] as int, #[trigger] cl[c][k] as int)
    &&& forall|c: int, k: int, j: int|
        0 <= c < cl.len() && 0 <= k < cl[c].len() && 0 <= j < n && same_group(es, cl[c][k] as int, j)
            && #[trigger] near(es, cl[c][k] as int, j) ==> exists|k2: int| 0 <= k2 < cl[c].len() && #[trigger] cl[c][k2] == j
    &&& forall|c: int| 0 <= c < cl.len() ==> #[trigger] chained(es, cl[c])
    &&& forall|c: int, k: int| 0 <= c < cl.len() && 0 <= k < cl[c].len() ==> cl[c][0] <= #[trigger] cl[c][k]
    &&& forall|c1: int, c2: int|
        0 <= c1 < c2 < cl.len() ==> leader(es, (#[trigger] cl[c1])[0] as int) < leader(es, (#[trigger] cl[c2])[0] as int) || (
        leader(es, cl[c1][0] as int) == leader(es, cl[c2][0] as int) && cl[c1][0] < cl[c2][0])
}


/// Member `k` of `b` is near an earlier member.
pub open spec fn near_earlier(es: Seq<StreetEntry>, b: Seq<usize>, k: int) -> bool {
    exists|k2: int| 0 <= k2 < k && near(es, #[trigger] b[k2] as int, b[k] as int)
}

/// Each member of `b` after the first is near an earlier one.
pub open spec fn chained(es: Seq<StreetEntry>, b: Seq<usize>) -> bool {
    forall|k: int| 0 < k < b.len() ==> #[trigger] near_earlier(es, b, k)
}

/// The members of `m` can be listed so that each after the first is near
/// an earlier one.
pub open spec fn linked(es: Seq<StreetEntry>, m: Seq<usize>) -> bool {
    exists|b: Seq<usize>| b.len() == m.len() && b.to_set() == m.to_set() && #[trigger] chained(es, b)
}

/// `cl` splits the fragments of `es` into clusters: each cluster lies in one
/// group, is closed under nearness within it and linked by it, and lists
/// its members in increasing order; clusters come by their group's first
/// fragment, then by first member.
pub open spec fn is_clustering(es: Seq<StreetEntry>, cl: Seq<Seq<usize>>) -> bool {
    let n = es.len() as int;
    &&& forall|c: int| 0 <= c < cl.len() ==> (#[trigger] cl[c]).len() > 0
    &&& forall|c: int, k: int| 0 <= c < cl.len() && 0 <= k < cl[c].len() ==> (#[trigger] cl[c][k]) < n
    &&& forall|j: int| 0 <= j < n ==> #[trigger] in_cluster(cl, j)
    &&& forall|c1: int, k1: int, c2: int, k2: int|
        0 <= c1 < cl.len() && 0 <= k1 < cl[c1].len() && 0 <= c2 < cl.len() && 0 <= k2 < cl[c2].len()
            && #[trigger] cl[c1][k1] == #[trigger] cl[c2][k2] ==> c1 == c2 && k1 == k2
    &&& forall|c: int, k: int| 0 <= c < cl.len() && 0 <= k < cl[c].len() ==> same_group(es, cl[c][0] as int, #[trigger] cl[c][k] as int)
    &&& forall|c: int, k: int, j: int|
        0 <= c < cl.len() && 0 <= k < cl[c].len() && 0 <= j < n && same_group(es, cl[c][k] as int, j)
            && #[trigger] near(es, cl[c][k] as int, j) ==> exists|k2: int| 0 <= k2 < cl[c].len() && #[trigger] cl[c][k2] == j
    &&& forall|c: int| 0 <= c < cl.len() ==> #[trigger] linked(es, cl[c])
    &&& forall|c: int, k1: int, k2: int| 0 <= c < cl.len() && 0 <= k1 < k2 < cl[c].len() ==> #[trigger] cl[c][k1] < #[trigger] cl[c][k2]
    &&& forall|c1: int, c2: int|
        0 <= c1 < c2 < cl.len() ==> leader(es, (#[trigger] cl[c1])[0] as int) < leader(es, (#[trigger] cl[c2])[0] as int) || (
        leader(es, cl[c1][0] as int) == leader(es, cl[c2][0] as int) && cl[c1][0] < cl[c2][0])
}

/// Each cluster of `sl` holds the members of the same cluster of `cl`, in
/// increasing order.
pub open spec fn sorted_like(cl: Seq<Seq<usize>>, sl: Seq<Seq<usize>>) -> bool {
    &&& sl.len() == cl.len()
    &&& forall|c: int| 0 <= c < cl.len() ==> {
        &&& (#[trigger] sl[c]).to_set() == cl[c].to_set()
        &&& sl[c].len() == cl[c].len()
        &&& (cl[c].len() > 0 ==> sl[c][0] == cl[c][0])
    }
    &&& forall|c: int, k1: int, k2: int| 0 <= c < sl.len() && 0 <= k1 < k2 < sl[c].len() ==> #[trigger] sl[c][k1] < #[trigger] sl[c][k2]
}

/// Sorting the members of each cluster of a grown clustering gives a
/// clustering.
pub proof fn lemma_sorted_clustering(es: Seq<StreetEntry>, cl: Seq<Seq<usize>>, sl: Seq<Seq<usize>>)
    requires
        is_grown_clustering(es, cl),
        sorted_like(cl, sl),
    ensures
        is_clustering(es, sl),
{
    let n = es.len() as int;
    assert forall|c: int, k: int| 0 <= c < sl.len() && 0 <= k < sl[c].len() implies exists|w: int| 0 <= w < cl[c].len() && cl[c][w] == #[trigger] sl[c][k] by {
        assert(sl[c].to_set().contains(sl[c][k]));
        assert(cl[c].to_set().contains(sl[c][k]));
    }
    assert forall|c: int, k: int| 0 <= c < sl.len() && 0 <= k < sl[c].len() implies (#[trigger] sl[c][k]) < n by {
        let w = choose|w: int| 0 <= w < cl[c].len() && cl[c][w] == sl[c][k];
        assert(cl[c][w] < n);
    }
    assert forall|j: int| 0 <= j < n implies #[trigger] in_cluster(sl, j) by {
        assert(in_cluster(cl, j));
        let (c, k) = choose|c: int, k: int| 0 <= c < cl.len() && 0 <= k < cl[c].len() && #[trigger] cl[c][k] == j;
        assert(cl[c].to_set().contains(cl[c][k]));
        assert(sl[c].to_set().contains(cl[c][k]));
        let w = choose|w: int| 0 <= w < sl[c].len() && sl[c][w] == cl[c][k];
        assert(sl[c][w] == j);
    }
    assert forall|c1: int, k1: int, c2: int, k2: int|
        0 <= c1 < sl.len() && 0 <= k1 < sl[c1].len() && 0 <= c2 < sl.len() && 0 <= k2 < sl[c2].len()
            && #[trigger] sl[c1][k1] == #[trigger] sl[c2][k2] implies c1 == c2 && k1 == k2 by {
        let w1 = choose|w: int| 0 <= w < cl[c1].len() && cl[c1][w] == sl[c1][k1];
        let w2 = choose|w: int| 0 <= w < cl[c2].len() && cl[c2][w] == sl[c2][k2];
        assert(cl[c1][w1] == cl[c2][w2]);
        if k1 < k2 {
            assert(sl[c1][k1] < sl[c1][k2]);
        } else if k2 < k1 {
            assert(sl[c1][k2] < sl[c1][k1]);
        }
    }
    assert forall|c: int, k: int| 0 <= c < sl.len() && 0 <= k < sl[c].len() implies same_group(es, sl[c][0] as int, #[trigger] sl[c][k] as int) by {
        let w = choose|w: int| 0 <= w < cl[c].len() && cl[c][w] == sl[c][k];
        assert(same_group(es, cl[c][0] as int, cl[c][w] as int));
    }
    assert forall|c: int, k: int, j: int|
        0 <= c < sl.len() && 0 <= k < sl[c].len() && 0 <= j < n && same_group(es, sl[c][k] as int, j)
            && #[trigger] near(es, sl[c][k] as int, j) implies exists|k2: int| 0 <= k2 < sl[c].len() && #[trigger] sl[c][k2] == j by {
        let w = choose|w: int| 0 <= w < cl[c].len() && cl[c][w] == sl[c][k];
        assert(near(es, cl[c][w] as int, j));
        let k2 = choose|k2: int| 0 <= k2 < cl[c].len() && #[trigger] cl[c][k2] == j;
        assert(cl[c].to_set().contains(cl[c][k2]));
        assert(sl[c].to_set().contains(cl[c][k2]));
    }
    assert forall|c: int| 0 <= c < sl.len() implies #[trigger] linked(es, sl[c]) by {
        assert(chained(es, cl[c]));
    }
    assert forall|c1: int, c2: int| 0 <= c1 < c2 < sl.len() implies leader(es, (#[trigger] sl[c1])[0] as int) < leader(es, (#[trigger] sl[c2])[0] as int) || (
        leader(es, sl[c1][0] as int) == leader(es, sl[c2][0] as int) && sl[c1][0] < sl[c2][0]) by {
        assert(cl[c1].len() > 0 && cl[c2].len() > 0);
        assert(sl[c1][0] == cl[c1][0] && sl[c2][0] == cl[c2][0]);
    }
    assert forall|c: int| 0 <= c < sl.len() implies (#[trigger] sl[c]).len() > 0 by {
        assert(cl[c].len() > 0);
    }
}

/// Whether two fragments lie within the merge radius.
pub fn is_near(a: &StreetEntry, b: &StreetEntry) -> (r: bool)
    requires
        a.wf(),
        b.wf(),
    ensures
        r == near_spec(*a, *b),
{
    let h = hav_fixed(Coord { lon: a.center_lon, lat: a.center_lat }, Coord { lon: b.center_lon, lat: b.center_lat });
    h <= MERGE_HAV
}

/// Whether fragments `a` and `b` share a name and a locality key.
fn same_group_exec(a: &StreetEntry, ka: &String, b: &StreetEntry, kb: &String) -> (r: bool)
    requires
        ka@ == city_key_spec(*a),
        kb@ == city_key_spec(*b),
    ensures
        r == (a.name@ == b.name@ && city_key_spec(*a) == city_key_spec(*b)),
{
    a.name == b.name && *ka == *kb
}

/// Seed of the group hash (64-bit FNV-1a).
pub const HASH_START: u64 = 0xcbf2_9ce4_8422_2325;

/// Multiplier of the group hash (64-bit FNV-1a).
pub const HASH_PRIME: u64 = 0x100_0000_01b3;

/// One step of the hash: mix in the code `c`.
pub open spec fn hash_step(h: u64, c: u64) -> u64 {
    (((h ^ c) as int * HASH_PRIME as int) % 0x1_0000_0000_0000_0000) as u64
}

/// Hash of the first `n` characters of `s`, continued from `h`.
pub open spec fn hash_chars(s: Seq<char>, n: int, h: u64) -> u64
    decreases n,
{
    if n <= 0 {
        h
    } else {
        hash_step(hash_chars(s, n - 1, h), s[n - 1] as u32 as u64)
    }
}

/// Hash of a fragment's name and locality key; a code beyond every
/// character separates the two.
pub open spec fn group_hash(e: StreetEntry) -> u64 {
    let h = hash_step(hash_chars(e.name@, e.name@.len() as int, HASH_START), 0x11_0000);
    hash_chars(city_key_spec(e), city_key_spec(e).len() as int, h)
}

fn hash_mix(h: u64, c: u64) -> (r: u64)
    ensures
        r == hash_step(h, c),
{
    let x: u64 = h ^ c;
    let p: u128 = x as u128 * HASH_PRIME as u128;
    (p % 0x1_0000_0000_0000_0000) as u64
}

fn hash_text(s: &str, h: u64) -> (r: u64)
    ensures
        r == hash_chars(s@, s@.len() as int, h),
{
    let n = s.unicode_len();
    let mut acc = h;
    let mut i: usize = 0;
    while i < n
        invariant
            n == s@.len(),
            0 <= i <= n,
            acc == hash_chars(s@, i as int, h),
        decreases n - i,
    {
        let c = s.get_char(i);
        acc = hash_mix(acc, c as u32 as u64);
        i = i + 1;
    }
    acc
}

/// For each fragment, the index of the first fragment of its group; groups
/// are found through buckets of equal hash.
fn group_leaders(entries: &Vec<StreetEntry>) -> (r: Vec<usize>)
    ensures
        r@.len() == entries@.len(),
        forall|a: int| 0 <= a < entries@.len() ==> r@[a] == leader(entries@, a),
{
    let n = entries.len();
    let ghost es = entries@;
    let mut keys: Vec<String> = Vec::new();
    let mut hashes: Vec<u64> = Vec::new();
    let mut k: usize = 0;
    while k < n
        invariant
            n == es.len(),
            es == entries@,
            0 <= k <= n,
            keys@.len() == k,
            hashes@.len() == k,
            forall|q: int| 0 <= q < k ==> (#[trigger] keys@[q])@ == city_key_spec(es[q]),
            forall|q: int| 0 <= q < k ==> #[trigger] hashes@[q] == group_hash(es[q]),
        decreases n - k,
    {
        let key = merge_city_key(&entries[k]);
        let h1 = hash_text(entries[k].name.as_str(), HASH_START);
        let h2 = hash_text(key.as_str(), hash_mix(h1, 0x11_0000));
        keys.push(key);
        hashes.push(h2);
        k = k + 1;
    }
    let mut buckets: HashMap<u64, Vec<usize>> = HashMap::new();
    let mut lead: Vec<usize> = Vec::new();
    let mut a: usize = 0;
    while a < n
        invariant
            n == es.len(),
            es == entries@,
            keys@.len() == n,
            hashes@.len() == n,
            forall|q: int| 0 <= q < n ==> (#[trigger] keys@[q])@ == city_key_spec(es[q]),
            forall|q: int| 0 <= q < n ==> #[trigger] hashes@[q] == group_hash(es[q]),
            0 <= a <= n,
            lead@.len() == a,
            forall|q: int| 0 <= q < a ==> #[trigger] lead@[q] == leader(es, q),
            forall|h: u64, m: int| buckets@.contains_key(h) && 0 <= m < buckets@[h]@.len() ==> {
                &&& #[trigger] buckets@[h]@[m] < a
                &&& leader(es, buckets@[h]@[m] as int) == buckets@[h]@[m]
                &&& group_hash(es[buckets@[h]@[m] as int]) == h
            },
            forall|l: int| 0 <= l < a && #[trigger] leader(es, l) == l ==> buckets@.contains_key(group_hash(es[l]))
                && buckets@[group_hash(es[l])]@.contains(l as usize),
        decreases n - a,
    {
        let h = hashes[a];
        let mut found: Option<usize> = None;
        match buckets.get(&h) {
            Some(list) => {
                let mut m: usize = 0;
                while m < list.len()
                    invariant
                        n == es.len(),
                        es == entries@,
                        keys@.len() == n,
                        forall|q: int| 0 <= q < n ==> (#[trigger] keys@[q])@ == city_key_spec(es[q]),
                        a < n,
                        buckets@.contains_key(h),
                        list@ == buckets@[h]@,
                        forall|hh: u64, mm: int| buckets@.contains_key(hh) && 0 <= mm < buckets@[hh]@.len() ==> {
                            &&& #[trigger] buckets@[hh]@[mm] < a
                            &&& leader(es, buckets@[hh]@[mm] as int) == buckets@[hh]@[mm]
                            &&& group_hash(es[buckets@[hh]@[mm] as int]) == hh
                        },
                        0 <= m <= list@.len(),
                        found is None ==> forall|q: int| 0 <= q < m ==> !same_group(es, #[trigger] list@[q] as int, a as int),
                        found matches Some(l) ==> l < a && leader(es, l as int) == l && same_group(es, l as int, a as int),
                    decreases list@.len() - m,
                {
                    if found.is_none() {
                        let l = list[m];
                        assert(buckets@[h]@[m as int] == l);
                        if same_group_exec(&entries[l], &keys[l], &entries[a], &keys[a]) {
                            found = Some(l);
                        }
                    }
                    m = m + 1;
                }
            },
            None => {},
        }
        proof {
            lemma_leader(es, a as int);
        }
        match found {
            Some(l) => {
                proof {
                    lemma_leader_group(es, l as int, a as int);
                }
                lead.push(l);
            },
            None => {
                proof {
                    let ll = leader(es, a as int);
                    if ll < a {
                        lemma_leader_group(es, ll, a as int);
                        lemma_leader(es, ll);
                        assert(leader(es, ll) == ll);
                        assert(group_hash(es[ll]) == group_hash(es[a as int]));
                        assert(buckets@[h]@.contains(ll as usize));
                        let q = choose|q: int| 0 <= q < buckets@[h]@.len() && buckets@[h]@[q] == ll as usize;
                        assert(!same_group(es, buckets@[h]@[q] as int, a as int));
                    }
                }
                let ghost old_buckets = buckets@;
                let mut list = match buckets.remove(&h) {
                    Some(v) => v,
                    None => Vec::new(),
                };
                let ghost before = list@;
                assert(old_buckets.contains_key(h) ==> before == old_buckets[h]@);
                list.push(a);
                buckets.insert(h, list);
                proof {
                    assert(buckets@[h]@ == before.push(a));
                    assert forall|l: int| 0 <= l < a + 1 && #[trigger] leader(es, l) == l implies buckets@.contains_key(group_hash(es[l]))
                        && buckets@[group_hash(es[l])]@.contains(l as usize) by {
                        if l == a {
                            assert(buckets@[h]@[before.len() as int] == a);
                        } else {
                            let hl = group_hash(es[l]);
                            assert(old_buckets.contains_key(hl) && old_buckets[hl]@.contains(l as usize));
                            let q = choose|q: int| 0 <= q < old_buckets[hl]@.len() && old_buckets[hl]@[q] == l as usize;
                            if hl == h {
                                assert(buckets@[h]@[q] == l as usize);
                            } else {
                                assert(buckets@[hl] == old_buckets[hl]);
                            }
                        }
                    }
                }
                lead.push(a);
            },
        }
        a = a + 1;
    }
    lead
}

/// For each index `l`, the fragments whose leader is `l`, in increasing
/// order.
fn group_members(lead: &Vec<usize>) -> (r: Vec<Vec<usize>>)
    requires
        forall|a: int| 0 <= a < lead@.len() ==> #[trigger] lead@[a] < lead@.len(),
    ensures
        r@.len() == lead@.len(),
        forall|l: int, k: int|
            0 <= l < r@.len() && 0 <= k < r@[l]@.len() ==> #[trigger] r@[l]@[k] < lead@.len() && lead@[
                r@[l]@[k] as int] == l,
        forall|l: int, k1: int, k2: int|
            0 <= l < r@.len() && 0 <= k1 < k2 < r@[l]@.len() ==> #[trigger] r@[l]@[k1] < #[trigger] r@[l]@[k2],
        forall|a: int| 0 <= a < lead@.len() ==> r@[#[trigger] lead@[a] as int]@.contains(a as usize),
{
    let n = lead.len();
    let mut r: Vec<Vec<usize>> = Vec::new();
    while r.len() < n
        invariant
            r@.len() <= n,
            forall|l: int| 0 <= l < r@.len() ==> (#[trigger] r@[l])@.len() == 0,
        decreases n - r@.len(),
    {
        r.push(Vec::new());
    }
    let mut a: usize = 0;
    while a < n
        invariant
            n == lead@.len(),
            forall|q: int| 0 <= q < lead@.len() ==> #[trigger] lead@[q] < lead@.len(),
            r@.len() == n,
            0 <= a <= n,
            forall|l: int, k: int|
                0 <= l < n && 0 <= k < r@[l]@.len() ==> #[trigger] r@[l]@[k] < a && lead@[r@[l]@[k] as int] == l,
            forall|l: int, k1: int, k2: int|
                0 <= l < n && 0 <= k1 < k2 < r@[l]@.len() ==> #[trigger] r@[l]@[k1] < #[trigger] r@[l]@[k2],
            forall|q: int| 0 <= q < a ==> r@[#[trigger] lead@[q] as int]@.contains(q as usize),
        decreases n - a,
    {
        let l = lead[a];
        let ghost old_r = r@;
        r[l].push(a);
        proof {
            assert(r@[l as int]@ == old_r[l as int]@.push(a));
            assert forall|q: int| 0 <= q < a + 1 implies r@[#[trigger] lead@[q] as int]@.contains(q as usize) by {
                if q < a {
                    let lq = lead@[q] as int;
                    assert(old_r[lq]@.contains(q as usize));
                    let m = choose|m: int| 0 <= m < old_r[lq]@.len() && old_r[lq]@[m] == q as usize;
                    assert(r@[lq]@[m] == q as usize);
                } else {
                    assert(r@[l as int]@[old_r[l as int]@.len() as int] == a);
                }
            }
        }
        a = a + 1;
    }
    r
}

/// The finished clusters `cl` are well formed, and `owner` and `pos` give
/// the cluster and position of each of their members.
pub open spec fn finished_ok(
    es: Seq<StreetEntry>,
    cl: Seq<Seq<usize>>,
    owner: Seq<int>,
    pos: Seq<int>,
    assigned: Seq<bool>,
) -> bool {
    let n = es.len() as int;
    &&& forall|c: int| 0 <= c < cl.len() ==> (#[trigger] cl[c]).len() > 0
    &&& forall|c: int, k: int|
        0 <= c < cl.len() && 0 <= k < cl[c].len() ==> {
            &&& #[trigger] cl[c][k] < n
            &&& owner[cl[c][k] as int] == c
            &&& pos[cl[c][k] as int] == k
            &&& assigned[cl[c][k] as int]
            &&& same_group(es, cl[c][0] as int, cl[c][k] as int)
            &&& cl[c][0] <= cl[c][k]
        }
    &&& forall|c: int, k: int, j: int|
        0 <= c < cl.len() && 0 <= k < cl[c].len() && 0 <= j < n && same_group(es, cl[c][k] as int, j)
            && #[trigger] near(es, cl[c][k] as int, j) ==> owner[j] == c && assigned[j]
    &&& forall|c: int| 0 <= c < cl.len() ==> #[trigger] chained(es, cl[c])
    &&& forall|c1: int, c2: int|
        0 <= c1 < c2 < cl.len() ==> leader(es, (#[trigger] cl[c1])[0] as int) < leader(es, (#[trigger] cl[c2])[0] as int) || (
        leader(es, cl[c1][0] as int) == leader(es, cl[c2][0] as int) && cl[c1][0] < cl[c2][0])
}

/// Every assigned fragment is found where `owner` and `pos` say: in a
/// finished cluster, or at position `pos` of `cur` when its owner is the
/// cluster being grown.
pub open spec fn placed(cl: Seq<Seq<usize>>, cur: Seq<usize>, owner: Seq<int>, pos: Seq<int>, assigned: Seq<bool>) -> bool {
    forall|j: int| 0 <= j < assigned.len() && #[trigger] assigned[j] ==> {
        ||| (0 <= owner[j] < cl.len() && 0 <= pos[j] < cl[owner[j]].len() && cl[owner[j]][pos[j]] == j)
        ||| (owner[j] == cl.len() && 0 <= pos[j] < cur.len() && cur[pos[j]] == j)
    }
}

/// The distinct members `v` in increasing order.
fn sort_members(v: &Vec<usize>) -> (r: Vec<usize>)
    requires
        forall|k1: int, k2: int| 0 <= k1 < v@.len() && 0 <= k2 < v@.len() && k1 != k2 ==> v@[k1] != v@[k2],
    ensures
        r@.to_set() == v@.to_set(),
        r@.len() == v@.len(),
        forall|k1: int, k2: int| 0 <= k1 < k2 < r@.len() ==> r@[k1] < r@[k2],
{
    let mut r: Vec<usize> = Vec::new();
    let mut i: usize = 0;
    assert(v@.subrange(0, 0).to_set() =~= Set::<usize>::empty());
    assert(r@.to_set() =~= Set::<usize>::empty());
    while i < v.len()
        invariant
            0 <= i <= v@.len(),
            forall|k1: int, k2: int| 0 <= k1 < v@.len() && 0 <= k2 < v@.len() && k1 != k2 ==> v@[k1] != v@[k2],
            r@.to_set() == v@.subrange(0, i as int).to_set(),
            r@.len() == i,
            forall|k1: int, k2: int| 0 <= k1 < k2 < r@.len() ==> r@[k1] < r@[k2],
        decreases v@.len() - i,
    {
        let x = v[i];
        let mut p: usize = 0;
        while p < r.len() && r[p] < x
            invariant
                0 <= p <= r@.len(),
                forall|q: int| 0 <= q < p ==> r@[q] < x,
            decreases r@.len() - p,
        {
            p = p + 1;
        }
        proof {
            assert forall|q: int| 0 <= q < r@.len() implies r@[q] != x by {
                assert(r@.to_set().contains(r@[q]));
                assert(v@.subrange(0, i as int).to_set().contains(r@[q]));
                let w = choose|w: int| 0 <= w < i && v@.subrange(0, i as int)[w] == r@[q];
                assert(v@[w] == r@[q]);
            }
        }
        let ghost old_r = r@;
        r.insert(p, x);
        proof {
            assert forall|k1: int, k2: int| 0 <= k1 < k2 < r@.len() implies r@[k1] < r@[k2] by {
                if k2 < p {
                } else if k2 == p {
                    assert(r@[k1] == old_r[k1]);
                } else if k1 < p {
                    assert(r@[k2] == old_r[k2 - 1]);
                    if p < old_r.len() {
                        assert(old_r[p as int] > x);
                        assert(old_r[p as int] <= old_r[k2 - 1]);
                    }
                } else if k1 == p {
                    assert(old_r[p as int] > x);
                    assert(old_r[p as int] <= old_r[k2 - 1]);
                } else {
                    assert(r@[k1] == old_r[k1 - 1]);
                    assert(r@[k2] == old_r[k2 - 1]);
                }
            }
            assert(v@.subrange(0, i + 1) =~= v@.subrange(0, i as int).push(x));
            assert forall|y: usize| r@.to_set().contains(y) <==> v@.subrange(0, i + 1).to_set().contains(y) by {
                if r@.to_set().contains(y) {
                    let w = choose|w: int| 0 <= w < r@.len() && r@[w] == y;
                    if w < p {
                        assert(old_r[w] == y);
                        assert(old_r.to_set().contains(y));
                    } else if w > p {
                        assert(old_r[w - 1] == y);
                        assert(old_r.to_set().contains(y));
                    }
                    assert(v@.subrange(0, i + 1)[i as int] == x);
                }
                if v@.subrange(0, i + 1).to_set().contains(y) {
                    if y == x {
                        assert(r@[p as int] == x);
                    } else {
                        assert(v@.subrange(0, i as int).push(x).to_set().contains(y));
                        let w = choose|w: int| 0 <= w < i + 1 && v@.subrange(0, i as int).push(x)[w] == y;
                        assert(v@.subrange(0, i as int)[w] == y);
                        assert(old_r.to_set().contains(y));
                        let u = choose|u: int| 0 <= u < old_r.len() && old_r[u] == y;
                        if u < p {
                            assert(r@[u] == y);
                        } else {
                            assert(r@[u + 1] == y);
                        }
                    }
                }
            }
            assert(r@.to_set() =~= v@.subrange(0, i + 1).to_set());
        }
        i = i + 1;
    }
    assert(v@.subrange(0, i as int) =~= v@);
    r
}

/// `rows` are the merges of the clusters of some clustering of `es`.
pub open spec fn merged_rows(es: Seq<StreetEntry>, rows: Seq<StreetEntry>) -> bool {
    exists|cl: Seq<Seq<usize>>|
        is_clustering(es, cl) && rows.len() == cl.len() && forall|c: int|
            0 <= c < cl.len() ==> is_merge_of(#[trigger] rows[c], es, cl[c])
}

/// The rows of the merged fragments: fragments are grouped by name and
/// locality key, each group is split into clusters of fragments linked by
/// nearness, and each cluster gives one row.
pub fn merge_entries(entries: Vec<StreetEntry>) -> (r: Vec<StreetEntry>)
    requires
        entries@.len() <= MAX_FRAGMENTS,
        forall|i: int| 0 <= i < entries@.len() ==> (#[trigger] entries@[i]).wf(),
    ensures
        merged_rows(entries@, r@),
{
    let n = entries.len();
    let ghost es = entries@;
    let lead = group_leaders(&entries);
    proof {
        assert forall|a: int| 0 <= a < n implies #[trigger] lead@[a] < n by {
            lemma_leader(es, a);
        }
    }
    let members = group_members(&lead);
    let mut assigned: Vec<bool> = Vec::new();
    while assigned.len() < n
        invariant
            assigned@.len() <= n,
            forall|j: int| 0 <= j < assigned@.len() ==> !(#[trigger] assigned@[j]),
        decreases n - assigned@.len(),
    {
        assigned.push(false);
    }
    let mut out: Vec<StreetEntry> = Vec::new();
    let ghost mut cl: Seq<Seq<usize>> = Seq::empty();
    let ghost mut sl: Seq<Seq<usize>> = Seq::empty();
    let ghost mut owner: Seq<int> = Seq::new(n as nat, |j: int| -1);
    let ghost mut pos: Seq<int> = Seq::new(n as nat, |j: int| 0);
    let mut i: usize = 0;
    while i < n
        invariant
            n == es.len(),
            es == entries@,
            n <= MAX_FRAGMENTS,
            forall|q: int| 0 <= q < n ==> (#[trigger] es[q]).wf(),
            lead@.len() == n,
            forall|a: int| 0 <= a < n ==> #[trigger] lead@[a] == leader(es, a),
            assigned@.len() == n,
            owner.len() == n,
            pos.len() == n,
            0 <= i <= n,
            out@.len() == cl.len(),
            sorted_like(cl, sl),
            forall|c: int| 0 <= c < cl.len() ==> is_merge_of(#[trigger] out@[c], es, sl[c]),
            finished_ok(es, cl, owner, pos, assigned@),
            placed(cl, Seq::empty(), owner, pos, assigned@),
            forall|j: int| 0 <= j < n && leader(es, j) < i ==> #[trigger] assigned@[j],
            forall|c: int| 0 <= c < cl.len() ==> leader(es, (#[trigger] cl[c])[0] as int) < i,
            members@.len() == n,
            forall|l: int, k: int|
                0 <= l < n && 0 <= k < members@[l]@.len() ==> #[trigger] members@[l]@[k] < n && lead@[
                    members@[l]@[k] as int] == l,
            forall|l: int, k1: int, k2: int|
                0 <= l < n && 0 <= k1 < k2 < members@[l]@.len() ==> #[trigger] members@[l]@[k1] < #[trigger] members@[l]@[k2],
            forall|a: int| 0 <= a < n ==> members@[#[trigger] lead@[a] as int]@.contains(a as usize),
        decreases n - i,
    {
        proof {
            lemma_leader(es, i as int);
        }
        if lead[i] == i {
            let group = &members[i];
            proof {
                assert forall|j: int| 0 <= j < n && leader(es, j) == i implies group@.contains(j as usize) by {
                    assert(lead@[j] == i);
                }
            }
            let mut t: usize = 0;
            while t < group.len()
                invariant
                    n == es.len(),
                    es == entries@,
                    n <= MAX_FRAGMENTS,
                    forall|q: int| 0 <= q < n ==> (#[trigger] es[q]).wf(),
                    lead@.len() == n,
                    forall|a: int| 0 <= a < n ==> #[trigger] lead@[a] == leader(es, a),
                    assigned@.len() == n,
                    owner.len() == n,
                    pos.len() == n,
                    0 <= i < n,
                    forall|u: int| 0 <= u < group@.len() ==> #[trigger] group@[u] < n && leader(es, group@[u] as int) == i,
                    forall|u1: int, u2: int| 0 <= u1 < u2 < group@.len() ==> #[trigger] group@[u1] < #[trigger] group@[u2],
                    forall|j: int| 0 <= j < n && leader(es, j) == i ==> group@.contains(j as usize),
                    0 <= t <= group@.len(),
                    out@.len() == cl.len(),
                    sorted_like(cl, sl),
                    forall|c: int| 0 <= c < cl.len() ==> is_merge_of(#[trigger] out@[c], es, sl[c]),
                    finished_ok(es, cl, owner, pos, assigned@),
                    placed(cl, Seq::empty(), owner, pos, assigned@),
                    forall|j: int| 0 <= j < n && leader(es, j) < i ==> #[trigger] assigned@[j],
                    forall|u: int| 0 <= u < t ==> assigned@[#[trigger] group@[u] as int],
                    forall|c: int| 0 <= c < cl.len() ==> leader(es, (#[trigger] cl[c])[0] as int) < i || (leader(es, cl[c][0] as int) == i
                        && (t < group@.len() ==> cl[c][0] < group@[t as int])),
                decreases group@.len() - t,
            {
                let s = group[t];
                proof {
                    lemma_leader(es, s as int);
                    assert forall|j: int| 0 <= j < n && (leader(es, j) < i || (leader(es, j) == i && j < s)) implies #[trigger] assigned@[j] by {
                        if leader(es, j) == i && j < s {
                            assert(group@.contains(j as usize));
                            let u = choose|u: int| 0 <= u < group@.len() && group@[u] == j as usize;
                            if u >= t {
                                if u > t {
                                    assert(group@[t as int] < group@[u]);
                                }
                            }
                        }
                    }
                }
                if !assigned[s] {
                    let mut cur: Vec<usize> = Vec::new();
                    cur.push(s);
                    assigned.set(s, true);
                    proof {
                        owner = owner.update(s as int, cl.len() as int);
                        pos = pos.update(s as int, 0);
                    }
                    let mut h: usize = 0;
                    while h < cur.len()
                        invariant
                            forall|u: int| 0 <= u < group@.len() ==> #[trigger] group@[u] < n && leader(es, group@[u] as int) == i,
                            forall|j: int| 0 <= j < n && leader(es, j) == i ==> group@.contains(j as usize),
                            n == es.len(),
                            es == entries@,
                            n <= MAX_FRAGMENTS,
                            forall|q: int| 0 <= q < n ==> (#[trigger] es[q]).wf(),
                            lead@.len() == n,
                            forall|a: int| 0 <= a < n ==> #[trigger] lead@[a] == leader(es, a),
                            assigned@.len() == n,
                            owner.len() == n,
                            pos.len() == n,
                            0 <= i <= s < n,
                            leader(es, s as int) == i,
                            out@.len() == cl.len(),
                            sorted_like(cl, sl),
                            forall|c: int| 0 <= c < cl.len() ==> is_merge_of(#[trigger] out@[c], es, sl[c]),
                            finished_ok(es, cl, owner, pos, assigned@),
                            placed(cl, cur@, owner, pos, assigned@),
                            forall|j: int| 0 <= j < n && (leader(es, j) < i || (leader(es, j) == i && j < s)) ==> #[trigger] assigned@[j],
                            forall|c: int| 0 <= c < cl.len() ==> leader(es, (#[trigger] cl[c])[0] as int) < i || (leader(es, cl[c][0] as int) == i && cl[c][0] < s),
                            cur@.len() >= 1,
                            cur@[0] == s,
                            0 <= h <= cur@.len(),
                            forall|k: int| 0 <= k < cur@.len() ==> {
                                &&& #[trigger] cur@[k] < n
                                &&& leader(es, cur@[k] as int) == i
                                &&& cur@[k] >= s
                                &&& assigned@[cur@[k] as int]
                                &&& owner[cur@[k] as int] == cl.len()
                                &&& pos[cur@[k] as int] == k
                            },
                            forall|k: int, j: int| 0 <= k < h && 0 <= j < n && same_group(es, cur@[k] as int, j)
                                && #[trigger] near(es, cur@[k] as int, j) ==> assigned@[j],
                            forall|k: int| 0 < k < cur@.len() ==> exists|k2: int|
                                0 <= k2 < k && near(es, #[trigger] cur@[k2] as int, #[trigger] cur@[k] as int),
                        decreases n + 1 - h,
                    {
                        proof {
                            lemma_distinct_bound(cur@, n as int);
                        }
                        let p = cur[h];
                        let mut u: usize = 0;
                        while u < group.len()
                            invariant
                                forall|u: int| 0 <= u < group@.len() ==> #[trigger] group@[u] < n && leader(es, group@[u] as int) == i,
                                forall|j: int| 0 <= j < n && leader(es, j) == i ==> group@.contains(j as usize),
                                n == es.len(),
                                es == entries@,
                                n <= MAX_FRAGMENTS,
                                forall|q: int| 0 <= q < n ==> (#[trigger] es[q]).wf(),
                                lead@.len() == n,
                                forall|a: int| 0 <= a < n ==> #[trigger] lead@[a] == leader(es, a),
                                assigned@.len() == n,
                                owner.len() == n,
                                pos.len() == n,
                                0 <= i <= s < n,
                                leader(es, s as int) == i,
                                out@.len() == cl.len(),
                                sorted_like(cl, sl),
                                forall|c: int| 0 <= c < cl.len() ==> is_merge_of(#[trigger] out@[c], es, sl[c]),
                                finished_ok(es, cl, owner, pos, assigned@),
                                placed(cl, cur@, owner, pos, assigned@),
                                forall|j: int| 0 <= j < n && (leader(es, j) < i || (leader(es, j) == i && j < s)) ==> #[trigger] assigned@[j],
                                forall|c: int| 0 <= c < cl.len() ==> leader(es, (#[trigger] cl[c])[0] as int) < i || (leader(es, cl[c][0] as int) == i && cl[c][0] < s),
                                cur@.len() >= 1,
                                cur@[0] == s,
                                0 <= h < cur@.len(),
                                p == cur@[h as int],
                                0 <= u <= group@.len(),
                                forall|k: int| 0 <= k < cur@.len() ==> {
                                    &&& #[trigger] cur@[k] < n
                                    &&& leader(es, cur@[k] as int) == i
                                    &&& cur@[k] >= s
                                    &&& assigned@[cur@[k] as int]
                                    &&& owner[cur@[k] as int] == cl.len()
                                    &&& pos[cur@[k] as int] == k
                                },
                                forall|k: int, j: int| 0 <= k < h && 0 <= j < n && same_group(es, cur@[k] as int, j)
                                    && #[trigger] near(es, cur@[k] as int, j) ==> assigned@[j],
                                forall|q: int| 0 <= q < u && same_group(es, p as int, group@[q] as int) && #[trigger] near(es, p as int, group@[q] as int) ==> assigned@[group@[q] as int],
                                forall|k: int| 0 < k < cur@.len() ==> exists|k2: int|
                                    0 <= k2 < k && near(es, #[trigger] cur@[k2] as int, #[trigger] cur@[k] as int),
                            decreases group@.len() - u,
                        {
                            let j = group[u];
                            proof {
                                lemma_leader_group(es, p as int, j as int);
                            }
                            if !assigned[j] && is_near(&entries[p], &entries[j]) {
                                let ghost old_cur = cur@;
                                proof {
                                    owner = owner.update(j as int, cl.len() as int);
                                    pos = pos.update(j as int, cur@.len() as int);
                                }
                                cur.push(j);
                                assigned.set(j, true);
                                proof {
                                    assert(cur@[h as int] == p);
                                    assert forall|k: int| 0 < k < cur@.len() implies exists|k2: int|
                                        0 <= k2 < k && near(es, #[trigger] cur@[k2] as int, #[trigger] cur@[k] as int) by {
                                        if k < old_cur.len() {
                                            assert(cur@[k] == old_cur[k]);
                                            let k2 = choose|k2: int| 0 <= k2 < k && near(es, old_cur[k2] as int, old_cur[k] as int);
                                            assert(cur@[k2] == old_cur[k2]);
                                        } else {
                                            assert(near(es, cur@[h as int] as int, cur@[k] as int));
                                        }
                                    }
                                }
                            }
                            u = u + 1;
                        }
                        proof {
                            assert forall|q: int| 0 <= q < n && same_group(es, p as int, q) && #[trigger] near(es, p as int, q) implies assigned@[q] by {
                                lemma_leader_group(es, p as int, q);
                                assert(group@.contains(q as usize));
                                let w = choose|w: int| 0 <= w < group@.len() && group@[w] == q as usize;
                                assert(near(es, p as int, group@[w] as int));
                            }
                        }
                        h = h + 1;
                    }
                    proof {
                        lemma_distinct_bound(cur@, n as int);
                        assert forall|k: int, j: int| 0 <= k < cur@.len() && 0 <= j < n && same_group(es, cur@[k] as int, j)
                            && #[trigger] near(es, cur@[k] as int, j) implies owner[j] == cl.len() && assigned@[j] by {
                            assert(assigned@[j]);
                            if owner[j] != cl.len() {
                                let c = owner[j];
                                let kk = pos[j];
                                assert(cl[c][kk] == j);
                                lemma_near_symmetric(es[cur@[k] as int], es[j]);
                                assert(near(es, cl[c][kk] as int, cur@[k] as int));
                                assert(owner[cur@[k] as int] == c);
                            }
                        }
                        assert forall|k: int| 0 <= k < cur@.len() implies same_group(es, cur@[0] as int, #[trigger] cur@[k] as int) by {
                            lemma_leader_group(es, cur@[0] as int, cur@[k] as int);
                        }
                    }
                    let sorted = sort_members(&cur);
                    proof {
                        assert(cur@.to_set().contains(cur@[0]));
                        assert(sorted@.to_set().contains(s));
                        let q = choose|q: int| 0 <= q < sorted@.len() && sorted@[q] == s;
                        assert(sorted@.to_set().contains(sorted@[0]));
                        assert(cur@.to_set().contains(sorted@[0]));
                        let w = choose|w: int| 0 <= w < cur@.len() && cur@[w] == sorted@[0];
                        if q > 0 {
                            assert(sorted@[0] < sorted@[q]);
                        }
                        assert(sorted@[0] == s);
                        assert forall|k: int| 0 <= k < sorted@.len() implies #[trigger] sorted@[k] < entries@.len() by {
                            assert(sorted@.to_set().contains(sorted@[k]));
                            assert(cur@.to_set().contains(sorted@[k]));
                        }
                    }
                    let row = merge_cluster(&entries, &sorted);
                    let ghost old_out = out@;
                    out.push(row);
                    proof {
                        let old_cl = cl;
                        let old_sl = sl;
                        cl = cl.push(cur@);
                        sl = sl.push(sorted@);
                        assert(cl[old_cl.len() as int] == cur@);
                        assert(sl[old_sl.len() as int] == sorted@);
                        assert forall|c: int| 0 <= c < cl.len() implies is_merge_of(#[trigger] out@[c], es, sl[c]) by {
                            if c < old_cl.len() {
                                assert(out@[c] == old_out[c]);
                                assert(sl[c] == old_sl[c]);
                            }
                        }
                        assert forall|c: int| 0 <= c < cl.len() implies #[trigger] chained(es, cl[c]) by {
                            if c < old_cl.len() {
                                assert(cl[c] == old_cl[c]);
                            }
                        }
                        assert forall|c: int, k1: int, k2: int| 0 <= c < sl.len() && 0 <= k1 < k2 < sl[c].len() implies #[trigger] sl[c][k1] < #[trigger] sl[c][k2] by {
                            if c < old_sl.len() {
                                assert(sl[c] == old_sl[c]);
                            }
                        }
                        assert forall|c: int| 0 <= c < cl.len() implies {
                            &&& (#[trigger] sl[c]).to_set() == cl[c].to_set()
                            &&& sl[c].len() == cl[c].len()
                            &&& (cl[c].len() > 0 ==> sl[c][0] == cl[c][0])
                        } by {
                            if c < old_cl.len() {
                                assert(sl[c] == old_sl[c]);
                                assert(cl[c] == old_cl[c]);
                            }
                        }
                    }
                }
                proof {
                    assert(assigned@[s as int]);
                    assert forall|c: int| 0 <= c < cl.len() implies leader(es, (#[trigger] cl[c])[0] as int) < i || (leader(es, cl[c][0] as int) == i
                        && (t + 1 < group@.len() ==> cl[c][0] < group@[t + 1])) by {
                        if t + 1 < group@.len() {
                            assert(group@[t as int] < group@[t + 1]);
                        }
                    }
                }
                t = t + 1;
            }
            proof {
                assert forall|j: int| 0 <= j < n && leader(es, j) < i + 1 implies #[trigger] assigned@[j] by {
                    if leader(es, j) == i {
                        assert(group@.contains(j as usize));
                        let u = choose|u: int| 0 <= u < group@.len() && group@[u] == j as usize;
                        assert(assigned@[group@[u] as int]);
                    }
                }
            }
        } else {
            proof {
                assert forall|j: int| 0 <= j < n && leader(es, j) == i implies false by {
                    lemma_leader(es, j);
                    lemma_leader_group(es, i as int, j);
                }
            }
        }
        i = i + 1;
    }
    proof {
        assert forall|j: int| 0 <= j < n implies #[trigger] in_cluster(cl, j) by {
            lemma_leader(es, j);
            assert(assigned@[j]);
            assert(cl[owner[j]][pos[j]] == j);
        }
        assert forall|c: int, k: int, j: int|
            0 <= c < cl.len() && 0 <= k < cl[c].len() && 0 <= j < n && same_group(es, cl[c][k] as int, j)
                && #[trigger] near(es, cl[c][k] as int, j) implies exists|k2: int| 0 <= k2 < cl[c].len() && #[trigger] cl[c][k2] == j by {
            assert(cl[owner[j]][pos[j]] == j);
        }
        assert forall|c1: int, k1: int, c2: int, k2: int|
            0 <= c1 < cl.len() && 0 <= k1 < cl[c1].len() && 0 <= c2 < cl.len() && 0 <= k2 < cl[c2].len()
                && #[trigger] cl[c1][k1] == #[trigger] cl[c2][k2] implies c1 == c2 && k1 == k2 by {
            assert(owner[cl[c1][k1] as int] == c1);
            assert(owner[cl[c2][k2] as int] == c2);
        }
        assert(is_grown_clustering(es, cl));
        lemma_sorted_clustering(es, cl, sl);
        assert(is_clustering(es, sl));
    }
    out
}


} // verus!
