//! Laws of merging: a close pair becomes one row, the clustering of a set
//! of fragments is unique, and merging fragments of equal values gives rows
//! of equal values.

use vstd::prelude::*;
use crate::geo::lemma_quot_between;
use crate::merge::{
    LocalityField, StreetEntry, chained, entry_view, entry_views, field_vals, in_cluster,
    is_clustering, is_merge_of, lat_moment, leader, leader_from, lemma_distinct_bound, lemma_leader,
    length_sum, linked, lon_moment, merged_rows, near, near_earlier, same_group,
    weight, weight_sum,
};

verus! {

/// In a clustering of two fragments where cluster `c0` holds both, every
/// cluster is `c0`.
proof fn lemma_only_cluster(es: Seq<StreetEntry>, cl: Seq<Seq<usize>>, c: int, c0: int, k0: int, k1: int)
    requires
        es.len() == 2,
        is_clustering(es, cl),
        0 <= c < cl.len(),
        0 <= c0 < cl.len(),
        0 <= k0 < cl[c0].len(),
        0 <= k1 < cl[c0].len(),
        cl[c0][k0] == 0,
        cl[c0][k1] == 1,
    ensures
        c == c0,
{
    assert(cl[c].len() > 0);
    let v = cl[c][0];
    assert(v < 2);
    if v == 0 {
        assert(cl[c][0] == cl[c0][k0]);
    } else {
        assert(cl[c][0] == cl[c0][k1]);
    }
}

/// Two fragments that share a name and a locality key and lie within the
/// merge radius of each other become exactly one row. Its length is the sum
/// of their lengths, and its point is their weighted mean, which lies
/// between the two points.
pub proof fn lemma_close_pair_merges(es: Seq<StreetEntry>, rows: Seq<StreetEntry>)
    requires
        es.len() == 2,
        es[0].wf(),
        es[1].wf(),
        same_group(es, 0, 1),
        near(es, 0, 1),
        es[0].length + es[1].length <= u64::MAX,
        merged_rows(es, rows),
    ensures
        rows.len() == 1,
        rows[0].length == es[0].length + es[1].length,
        rows[0].center_lon == (es[0].center_lon * weight(es[0]) + es[1].center_lon * weight(es[1])) / (
        weight(es[0]) + weight(es[1])),
        rows[0].center_lat == (es[0].center_lat * weight(es[0]) + es[1].center_lat * weight(es[1])) / (
        weight(es[0]) + weight(es[1])),
        es[0].center_lon <= rows[0].center_lon <= es[1].center_lon || es[1].center_lon
            <= rows[0].center_lon <= es[0].center_lon,
        es[0].center_lat <= rows[0].center_lat <= es[1].center_lat || es[1].center_lat
            <= rows[0].center_lat <= es[0].center_lat,
{
    let cl = choose|cl: Seq<Seq<usize>>|
        is_clustering(es, cl) && rows.len() == cl.len() && forall|c: int|
            0 <= c < cl.len() ==> is_merge_of(#[trigger] rows[c], es, cl[c]);
    assert(in_cluster(cl, 0));
    let (c0, k0) = choose|c: int, k: int| 0 <= c < cl.len() && 0 <= k < cl[c].len() && #[trigger] cl[c][k] == 0;
    assert(near(es, cl[c0][k0] as int, 1));
    let k1 = choose|k2: int| 0 <= k2 < cl[c0].len() && #[trigger] cl[c0][k2] == 1;
    let m = cl[c0];
    lemma_distinct_bound(m, 2);
    assert(m.len() == 2);
    if cl.len() > 1 {
        lemma_only_cluster(es, cl, 0, c0, k0, k1);
        lemma_only_cluster(es, cl, 1, c0, k0, k1);
    }
    assert(cl.len() == 1);
    assert(c0 == 0);
    assert(m[0] <= m[k0]);
    assert(m[0] == 0 && m[1] == 1);
    assert(is_merge_of(rows[0], es, m));
    let w0 = weight(es[0]);
    let w1 = weight(es[1]);
    assert(weight_sum(es, m, 0) == 0 && lon_moment(es, m, 0) == 0 && lat_moment(es, m, 0) == 0
        && length_sum(es, m, 0) == 0);
    assert(weight_sum(es, m, 1) == w0);
    assert(lon_moment(es, m, 1) == es[0].center_lon * w0);
    assert(lat_moment(es, m, 1) == es[0].center_lat * w0);
    assert(length_sum(es, m, 1) == es[0].length);
    assert(weight_sum(es, m, 2) == w0 + w1);
    assert(lon_moment(es, m, 2) == es[0].center_lon * w0 + es[1].center_lon * w1);
    assert(lat_moment(es, m, 2) == es[0].center_lat * w0 + es[1].center_lat * w1);
    assert(length_sum(es, m, 2) == es[0].length + es[1].length);
    let a = es[0].center_lon as int;
    let b = es[1].center_lon as int;
    if a <= b {
        assert(a * (w0 + w1) <= a * w0 + b * w1 <= b * (w0 + w1)) by (nonlinear_arith)
            requires
                a <= b,
                w0 > 0,
                w1 > 0,
        ;
        lemma_quot_between(a * w0 + b * w1, w0 + w1, a, b);
    } else {
        assert(b * (w0 + w1) <= a * w0 + b * w1 <= a * (w0 + w1)) by (nonlinear_arith)
            requires
                b <= a,
                w0 > 0,
                w1 > 0,
        ;
        lemma_quot_between(a * w0 + b * w1, w0 + w1, b, a);
    }
    let p = es[0].center_lat as int;
    let q = es[1].center_lat as int;
    if p <= q {
        assert(p * (w0 + w1) <= p * w0 + q * w1 <= q * (w0 + w1)) by (nonlinear_arith)
            requires
                p <= q,
                w0 > 0,
                w1 > 0,
        ;
        lemma_quot_between(p * w0 + q * w1, w0 + w1, p, q);
    } else {
        assert(q * (w0 + w1) <= p * w0 + q * w1 <= p * (w0 + w1)) by (nonlinear_arith)
            requires
                q <= p,
                w0 > 0,
                w1 > 0,
        ;
        lemma_quot_between(p * w0 + q * w1, w0 + w1, q, p);
    }
}


pub open spec fn increasing(a: Seq<int>) -> bool {
    forall|i: int, j: int| 0 <= i < j < a.len() ==> #[trigger] a[i] < #[trigger] a[j]
}

/// Two increasing sequences with the same elements are equal.
pub proof fn lemma_increasing_same_set(a: Seq<int>, b: Seq<int>)
    requires
        increasing(a),
        increasing(b),
        a.to_set() == b.to_set(),
    ensures
        a == b,
    decreases a.len(),
{
    if a.len() == 0 {
        if b.len() > 0 {
            assert(b.to_set().contains(b[0]));
        }
        assert(a =~= b);
    } else {
        assert(a.to_set().contains(a[0]));
        assert(b.len() > 0);
        assert(b.to_set().contains(b[0]));
        let i = choose|i: int| 0 <= i < a.len() && a[i] == b[0];
        let j = choose|j: int| 0 <= j < b.len() && b[j] == a[0];
        if i > 0 {
            assert(a[0] < a[i]);
        }
        if j > 0 {
            assert(b[0] < b[j]);
        }
        assert(a[0] == b[0]);
        let a1 = a.drop_first();
        let b1 = b.drop_first();
        assert forall|x: int| a1.to_set().contains(x) <==> b1.to_set().contains(x) by {
            if a1.to_set().contains(x) {
                let p = choose|p: int| 0 <= p < a1.len() && a1[p] == x;
                assert(a[p + 1] == x);
                assert(a[0] < a[p + 1]);
                assert(a.to_set().contains(x));
                assert(b.to_set().contains(x));
                let q = choose|q: int| 0 <= q < b.len() && b[q] == x;
                assert(q != 0);
                assert(b1[q - 1] == x);
            }
            if b1.to_set().contains(x) {
                let p = choose|p: int| 0 <= p < b1.len() && b1[p] == x;
                assert(b[p + 1] == x);
                assert(b[0] < b[p + 1]);
                assert(b.to_set().contains(x));
                assert(a.to_set().contains(x));
                let q = choose|q: int| 0 <= q < a.len() && a[q] == x;
                assert(q != 0);
                assert(a1[q - 1] == x);
            }
        }
        assert(a1.to_set() =~= b1.to_set());
        assert(increasing(a1));
        assert(increasing(b1));
        lemma_increasing_same_set(a1, b1);
        assert(a.len() == b.len());
        assert forall|k: int| 0 <= k < a.len() implies a[k] == b[k] by {
            if k > 0 {
                assert(a[k] == a1[k - 1]);
                assert(b[k] == b1[k - 1]);
            }
        }
        assert(a =~= b);
    }
}

pub open spec fn as_ints(m: Seq<usize>) -> Seq<int> {
    m.map_values(|x: usize| x as int)
}

/// Two clusters listed in increasing order with the same members are equal.
pub proof fn lemma_sorted_members_equal(a: Seq<usize>, b: Seq<usize>)
    requires
        forall|i: int, j: int| 0 <= i < j < a.len() ==> #[trigger] a[i] < #[trigger] a[j],
        forall|i: int, j: int| 0 <= i < j < b.len() ==> #[trigger] b[i] < #[trigger] b[j],
        a.to_set() == b.to_set(),
    ensures
        a == b,
{
    let ai = as_ints(a);
    let bi = as_ints(b);
    assert(increasing(ai));
    assert(increasing(bi));
    assert forall|x: int| ai.to_set().contains(x) <==> bi.to_set().contains(x) by {
        if ai.to_set().contains(x) {
            let p = choose|p: int| 0 <= p < ai.len() && ai[p] == x;
            assert(a.to_set().contains(a[p]));
            assert(b.to_set().contains(a[p]));
            let q = choose|q: int| 0 <= q < b.len() && b[q] == a[p];
            assert(bi[q] == x);
        }
        if bi.to_set().contains(x) {
            let p = choose|p: int| 0 <= p < bi.len() && bi[p] == x;
            assert(b.to_set().contains(b[p]));
            assert(a.to_set().contains(b[p]));
            let q = choose|q: int| 0 <= q < a.len() && a[q] == b[p];
            assert(ai[q] == x);
        }
    }
    assert(ai.to_set() =~= bi.to_set());
    lemma_increasing_same_set(ai, bi);
    assert(ai.len() == a.len() && bi.len() == b.len());
    assert forall|k: int| 0 <= k < a.len() implies a[k] == b[k] by {
        assert(ai[k] == bi[k]);
        assert(ai[k] == a[k] as int);
        assert(bi[k] == b[k] as int);
    }
    assert(a =~= b);
}


/// A chain whose first member lies in cluster `d` lies in it whole.
proof fn lemma_chain_inside(es: Seq<StreetEntry>, cl: Seq<Seq<usize>>, d: int, b: Seq<usize>, m: int)
    requires
        is_clustering(es, cl),
        0 <= d < cl.len(),
        chained(es, b),
        0 < b.len(),
        cl[d].to_set().contains(b[0]),
        forall|k: int| 0 <= k < b.len() ==> #[trigger] b[k] < es.len(),
        forall|k: int| 0 <= k < b.len() ==> same_group(es, b[0] as int, #[trigger] b[k] as int),
        0 <= m <= b.len(),
    ensures
        forall|k: int| 0 <= k < m ==> cl[d].to_set().contains(#[trigger] b[k]),
    decreases m,
{
    if m > 0 {
        lemma_chain_inside(es, cl, d, b, m - 1);
        let k = m - 1;
        if k > 0 {
            assert(near_earlier(es, b, k));
            let k2 = choose|k2: int| 0 <= k2 < k && near(es, #[trigger] b[k2] as int, b[k] as int);
            assert(cl[d].to_set().contains(b[k2]));
            let x = choose|x: int| 0 <= x < cl[d].len() && cl[d][x] == b[k2];
            assert(same_group(es, b[0] as int, b[k2] as int));
            assert(same_group(es, cl[d][x] as int, b[k] as int));
            assert(near(es, cl[d][x] as int, b[k] as int));
            let k3 = choose|k3: int| 0 <= k3 < cl[d].len() && #[trigger] cl[d][k3] == b[k];
            assert(cl[d].to_set().contains(cl[d][k3]));
        }
    }
}

/// Every cluster of one clustering lies inside a cluster of another.
proof fn lemma_cluster_within(es: Seq<StreetEntry>, cl1: Seq<Seq<usize>>, cl2: Seq<Seq<usize>>, c: int) -> (d: int)
    requires
        is_clustering(es, cl1),
        is_clustering(es, cl2),
        0 <= c < cl1.len(),
    ensures
        0 <= d < cl2.len(),
        cl1[c].to_set().subset_of(cl2[d].to_set()),
{
    assert(linked(es, cl1[c]));
    let b = choose|b: Seq<usize>| b.len() == cl1[c].len() && b.to_set() == cl1[c].to_set() && #[trigger] chained(es, b);
    assert(cl1[c].len() > 0);
    assert forall|k: int| 0 <= k < b.len() implies exists|w: int| 0 <= w < cl1[c].len() && cl1[c][w] == #[trigger] b[k] by {
        assert(b.to_set().contains(b[k]));
        assert(cl1[c].to_set().contains(b[k]));
    }
    assert forall|k: int| 0 <= k < b.len() implies #[trigger] b[k] < es.len() by {
        let w = choose|w: int| 0 <= w < cl1[c].len() && cl1[c][w] == b[k];
        assert(cl1[c][w] < es.len());
    }
    assert forall|k: int| 0 <= k < b.len() implies same_group(es, b[0] as int, #[trigger] b[k] as int) by {
        let w = choose|w: int| 0 <= w < cl1[c].len() && cl1[c][w] == b[k];
        let w0 = choose|w: int| 0 <= w < cl1[c].len() && cl1[c][w] == b[0];
        assert(same_group(es, cl1[c][0] as int, cl1[c][w] as int));
        assert(same_group(es, cl1[c][0] as int, cl1[c][w0] as int));
    }
    let x = b[0] as int;
    assert(in_cluster(cl2, x));
    let (d, k) = choose|d: int, k: int| 0 <= d < cl2.len() && 0 <= k < cl2[d].len() && #[trigger] cl2[d][k] == x;
    assert(cl2[d].to_set().contains(cl2[d][k]));
    lemma_chain_inside(es, cl2, d, b, b.len() as int);
    assert forall|y: usize| cl1[c].to_set().contains(y) implies cl2[d].to_set().contains(y) by {
        assert(b.to_set().contains(y));
        let k = choose|k: int| 0 <= k < b.len() && b[k] == y;
    }
    d
}

/// Key that orders clusters: group first, then first member.
pub open spec fn cluster_key(es: Seq<StreetEntry>, x: int) -> int {
    leader(es, x) * (es.len() as int) + x
}

proof fn lemma_cluster_key(es: Seq<StreetEntry>, x: int, y: int)
    requires
        0 <= x < es.len(),
        0 <= y < es.len(),
        leader(es, x) < leader(es, y) || (leader(es, x) == leader(es, y) && x < y),
    ensures
        cluster_key(es, x) < cluster_key(es, y),
{
    let n = es.len() as int;
    let lx = leader(es, x);
    let ly = leader(es, y);
    assert(lx * n + x < ly * n + y) by (nonlinear_arith)
        requires
            0 <= x < n,
            0 <= y < n,
            lx < ly || (lx == ly && x < y),
    ;
}

proof fn lemma_cluster_key_injective(es: Seq<StreetEntry>, x: int, y: int)
    requires
        0 <= x < es.len(),
        0 <= y < es.len(),
        cluster_key(es, x) == cluster_key(es, y),
    ensures
        x == y,
{
    lemma_leader(es, x);
    lemma_leader(es, y);
    if leader(es, x) < leader(es, y) || (leader(es, x) == leader(es, y) && x < y) {
        lemma_cluster_key(es, x, y);
    } else if leader(es, y) < leader(es, x) || (leader(es, x) == leader(es, y) && y < x) {
        lemma_cluster_key(es, y, x);
    }
}

/// Some cluster of `cl` is `m`.
pub open spec fn listed(cl: Seq<Seq<usize>>, m: Seq<usize>) -> bool {
    exists|d: int| 0 <= d < cl.len() && #[trigger] cl[d] == m
}

/// A clustering of the fragments is unique.
pub proof fn lemma_clustering_unique(es: Seq<StreetEntry>, cl1: Seq<Seq<usize>>, cl2: Seq<Seq<usize>>)
    requires
        is_clustering(es, cl1),
        is_clustering(es, cl2),
    ensures
        cl1 == cl2,
{
    assert forall|c: int| 0 <= c < cl1.len() implies #[trigger] listed(cl2, cl1[c]) by {
        let d = lemma_cluster_within(es, cl1, cl2, c);
        let c2 = lemma_cluster_within(es, cl2, cl1, d);
        assert(cl1[c].len() > 0);
        assert(cl1[c].to_set().contains(cl1[c][0]));
        assert(cl1[c2].to_set().contains(cl1[c][0]));
        let w = choose|w: int| 0 <= w < cl1[c2].len() && cl1[c2][w] == cl1[c][0];
        assert(cl1[c2][w] == cl1[c][0]);
        assert(c2 == c);
        assert(cl1[c].to_set() =~= cl2[d].to_set());
        lemma_sorted_members_equal(cl1[c], cl2[d]);
    }
    assert forall|d: int| 0 <= d < cl2.len() implies #[trigger] listed(cl1, cl2[d]) by {
        let c = lemma_cluster_within(es, cl2, cl1, d);
        let d2 = lemma_cluster_within(es, cl1, cl2, c);
        assert(cl2[d].len() > 0);
        assert(cl2[d].to_set().contains(cl2[d][0]));
        assert(cl2[d2].to_set().contains(cl2[d][0]));
        let w = choose|w: int| 0 <= w < cl2[d2].len() && cl2[d2][w] == cl2[d][0];
        assert(cl2[d2][w] == cl2[d][0]);
        assert(d2 == d);
        assert(cl2[d].to_set() =~= cl1[c].to_set());
        lemma_sorted_members_equal(cl2[d], cl1[c]);
    }
    let k1 = Seq::new(cl1.len(), |c: int| cluster_key(es, cl1[c][0] as int));
    let k2 = Seq::new(cl2.len(), |d: int| cluster_key(es, cl2[d][0] as int));
    assert forall|i: int, j: int| 0 <= i < j < k1.len() implies #[trigger] k1[i] < #[trigger] k1[j] by {
        assert(cl1[i].len() > 0 && cl1[j].len() > 0);
        lemma_cluster_key(es, cl1[i][0] as int, cl1[j][0] as int);
    }
    assert forall|i: int, j: int| 0 <= i < j < k2.len() implies #[trigger] k2[i] < #[trigger] k2[j] by {
        assert(cl2[i].len() > 0 && cl2[j].len() > 0);
        lemma_cluster_key(es, cl2[i][0] as int, cl2[j][0] as int);
    }
    assert forall|x: int| k1.to_set().contains(x) <==> k2.to_set().contains(x) by {
        if k1.to_set().contains(x) {
            let c = choose|c: int| 0 <= c < k1.len() && k1[c] == x;
            assert(listed(cl2, cl1[c]));
            let d = choose|d: int| 0 <= d < cl2.len() && #[trigger] cl2[d] == cl1[c];
            assert(k2[d] == x);
        }
        if k2.to_set().contains(x) {
            let d = choose|d: int| 0 <= d < k2.len() && k2[d] == x;
            assert(listed(cl1, cl2[d]));
            let c = choose|c: int| 0 <= c < cl1.len() && #[trigger] cl1[c] == cl2[d];
            assert(k1[c] == x);
        }
    }
    assert(k1.to_set() =~= k2.to_set());
    lemma_increasing_same_set(k1, k2);
    assert forall|c: int| 0 <= c < cl1.len() implies cl1[c] == cl2[c] by {
        assert(k1[c] == k2[c]);
        assert(cl1[c].len() > 0 && cl2[c].len() > 0);
        lemma_cluster_key_injective(es, cl1[c][0] as int, cl2[c][0] as int);
        assert(listed(cl2, cl1[c]));
        let d = choose|d: int| 0 <= d < cl2.len() && #[trigger] cl2[d] == cl1[c];
        assert(cl2[d][0] == cl2[c][0]);
    }
    assert(cl1 =~= cl2);
}


proof fn lemma_views_pointwise(f1: Seq<StreetEntry>, f2: Seq<StreetEntry>)
    requires
        entry_views(f1) == entry_views(f2),
    ensures
        f1.len() == f2.len(),
        forall|i: int| 0 <= i < f1.len() ==> entry_view(#[trigger] f1[i]) == entry_view(f2[i]),
{
    assert(entry_views(f1).len() == f1.len());
    assert(entry_views(f2).len() == f2.len());
    assert forall|i: int| 0 <= i < f1.len() implies entry_view(#[trigger] f1[i]) == entry_view(f2[i]) by {
        assert(entry_views(f1)[i] == entry_views(f2)[i]);
    }
}

proof fn lemma_leader_from_views(f1: Seq<StreetEntry>, f2: Seq<StreetEntry>, a: int, j: int)
    requires
        f1.len() == f2.len(),
        forall|i: int| 0 <= i < f1.len() ==> entry_view(#[trigger] f1[i]) == entry_view(f2[i]),
        0 <= a < f1.len(),
    ensures
        leader_from(f1, a, j) == leader_from(f2, a, j),
    decreases a - j,
{
    if 0 <= j < a {
        assert(entry_view(f1[j]) == entry_view(f2[j]));
        assert(entry_view(f1[a]) == entry_view(f2[a]));
        lemma_leader_from_views(f1, f2, a, j + 1);
    }
}

proof fn lemma_chained_views(f1: Seq<StreetEntry>, f2: Seq<StreetEntry>, b: Seq<usize>)
    requires
        chained(f1, b),
        forall|k: int| 0 <= k < b.len() ==> #[trigger] b[k] < f1.len(),
        forall|x: int, y: int| 0 <= x < f1.len() && 0 <= y < f1.len() ==> near(f1, x, y) == #[trigger] near(f2, x, y),
    ensures
        chained(f2, b),
{
    assert forall|k: int| 0 < k < b.len() implies #[trigger] near_earlier(f2, b, k) by {
        assert(near_earlier(f1, b, k));
        let k2 = choose|k2: int| 0 <= k2 < k && near(f1, #[trigger] b[k2] as int, b[k] as int);
        assert(b[k2] < f1.len() && b[k] < f1.len());
        assert(near(f2, b[k2] as int, b[k] as int));
    }
}

/// Clustering depends on the fragments' values alone.
proof fn lemma_clustering_views(f1: Seq<StreetEntry>, f2: Seq<StreetEntry>, cl: Seq<Seq<usize>>)
    requires
        entry_views(f1) == entry_views(f2),
        is_clustering(f1, cl),
    ensures
        is_clustering(f2, cl),
{
    lemma_views_pointwise(f1, f2);
    let n = f1.len() as int;
    assert forall|a: int, b: int| 0 <= a < n && 0 <= b < n implies same_group(f1, a, b) == #[trigger] same_group(f2, a, b) && near(f1, a, b) == #[trigger] near(f2, a, b) by {
        assert(entry_view(f1[a]) == entry_view(f2[a]));
        assert(entry_view(f1[b]) == entry_view(f2[b]));
        assert(f1[a].center_lon == f2[a].center_lon && f1[a].center_lat == f2[a].center_lat);
        assert(f1[b].center_lon == f2[b].center_lon && f1[b].center_lat == f2[b].center_lat);
    }
    assert forall|a: int| 0 <= a < n implies leader(f1, a) == #[trigger] leader(f2, a) by {
        lemma_leader_from_views(f1, f2, a, 0);
    }
    assert forall|c: int| 0 <= c < cl.len() implies #[trigger] linked(f2, cl[c]) by {
        assert(linked(f1, cl[c]));
        let b = choose|b: Seq<usize>| b.len() == cl[c].len() && b.to_set() == cl[c].to_set() && #[trigger] chained(f1, b);
        assert forall|k: int| 0 <= k < b.len() implies #[trigger] b[k] < n by {
            assert(b.to_set().contains(b[k]));
            assert(cl[c].to_set().contains(b[k]));
            let w = choose|w: int| 0 <= w < cl[c].len() && cl[c][w] == b[k];
        }
        lemma_chained_views(f1, f2, b);
    }
    assert forall|c: int, k: int, j: int|
        0 <= c < cl.len() && 0 <= k < cl[c].len() && 0 <= j < n && same_group(f2, cl[c][k] as int, j)
            && #[trigger] near(f2, cl[c][k] as int, j) implies exists|k2: int| 0 <= k2 < cl[c].len() && #[trigger] cl[c][k2] == j by {
        assert(near(f1, cl[c][k] as int, j));
    }
    assert forall|c: int, k: int| 0 <= c < cl.len() && 0 <= k < cl[c].len() implies same_group(f2, cl[c][0] as int, #[trigger] cl[c][k] as int) by {
        assert(cl[c].len() > 0);
        assert(same_group(f1, cl[c][0] as int, cl[c][k] as int));
        assert(cl[c][0] < n);
        assert(cl[c][k] < n);
    }
    assert forall|c1: int, c2: int|
        0 <= c1 < c2 < cl.len() implies leader(f2, (#[trigger] cl[c1])[0] as int) < leader(f2, (#[trigger] cl[c2])[0] as int) || (
        leader(f2, cl[c1][0] as int) == leader(f2, cl[c2][0] as int) && cl[c1][0] < cl[c2][0]) by {
        assert(cl[c1].len() > 0 && cl[c2].len() > 0);
        assert(cl[c1][0] < n && cl[c2][0] < n);
        assert(leader(f1, cl[c1][0] as int) == leader(f2, cl[c1][0] as int));
        assert(leader(f1, cl[c2][0] as int) == leader(f2, cl[c2][0] as int));
    }
}

proof fn lemma_sums_views(f1: Seq<StreetEntry>, f2: Seq<StreetEntry>, m: Seq<usize>, k: int)
    requires
        f1.len() == f2.len(),
        forall|i: int| 0 <= i < f1.len() ==> entry_view(#[trigger] f1[i]) == entry_view(f2[i]),
        forall|q: int| 0 <= q < m.len() ==> #[trigger] m[q] < f1.len(),
        0 <= k <= m.len(),
    ensures
        weight_sum(f1, m, k) == weight_sum(f2, m, k),
        lon_moment(f1, m, k) == lon_moment(f2, m, k),
        lat_moment(f1, m, k) == lat_moment(f2, m, k),
        length_sum(f1, m, k) == length_sum(f2, m, k),
    decreases k,
{
    if k > 0 {
        lemma_sums_views(f1, f2, m, k - 1);
        let i = m[k - 1] as int;
        assert(entry_view(f1[i]) == entry_view(f2[i]));
    }
}

/// Merging depends on the fragments' values alone.
proof fn lemma_merge_views(f1: Seq<StreetEntry>, f2: Seq<StreetEntry>, m: Seq<usize>, r1: StreetEntry, r2: StreetEntry)
    requires
        entry_views(f1) == entry_views(f2),
        m.len() > 0,
        forall|q: int| 0 <= q < m.len() ==> #[trigger] m[q] < f1.len(),
        is_merge_of(r1, f1, m),
        is_merge_of(r2, f2, m),
    ensures
        entry_view(r1) == entry_view(r2),
{
    lemma_views_pointwise(f1, f2);
    lemma_sums_views(f1, f2, m, m.len() as int);
    assert(entry_view(f1[m[0] as int]) == entry_view(f2[m[0] as int]));
    assert forall|f: LocalityField| field_vals(f1, m, f) == field_vals(f2, m, f) by {
        assert forall|q: int| 0 <= q < m.len() implies field_vals(f1, m, f)[q] == field_vals(f2, m, f)[q] by {
            assert(entry_view(f1[m[q] as int]) == entry_view(f2[m[q] as int]));
        }
        assert(field_vals(f1, m, f) =~= field_vals(f2, m, f));
    }
    assert(field_vals(f1, m, LocalityField::PlaceNode) == field_vals(f2, m, LocalityField::PlaceNode));
    assert(field_vals(f1, m, LocalityField::PlaceType) == field_vals(f2, m, LocalityField::PlaceType));
    assert(field_vals(f1, m, LocalityField::PlaceCity) == field_vals(f2, m, LocalityField::PlaceCity));
    assert(field_vals(f1, m, LocalityField::Resolved) == field_vals(f2, m, LocalityField::Resolved));
}

/// Merging fragments of equal values gives rows of equal values.
pub proof fn lemma_merge_repeatable_views(f1: Seq<StreetEntry>, f2: Seq<StreetEntry>, r1: Seq<StreetEntry>, r2: Seq<StreetEntry>)
    requires
        entry_views(f1) == entry_views(f2),
        merged_rows(f1, r1),
        merged_rows(f2, r2),
    ensures
        entry_views(r1) == entry_views(r2),
{
    let cl1 = choose|cl: Seq<Seq<usize>>|
        is_clustering(f1, cl) && r1.len() == cl.len() && forall|c: int|
            0 <= c < cl.len() ==> is_merge_of(#[trigger] r1[c], f1, cl[c]);
    let cl2 = choose|cl: Seq<Seq<usize>>|
        is_clustering(f2, cl) && r2.len() == cl.len() && forall|c: int|
            0 <= c < cl.len() ==> is_merge_of(#[trigger] r2[c], f2, cl[c]);
    lemma_clustering_views(f1, f2, cl1);
    lemma_clustering_unique(f2, cl1, cl2);
    assert forall|c: int| 0 <= c < r1.len() implies entry_view(r1[c]) == entry_view(r2[c]) by {
        assert(is_merge_of(r1[c], f1, cl1[c]));
        assert(is_merge_of(r2[c], f2, cl1[c]));
        assert(cl1[c].len() > 0);
        assert forall|q: int| 0 <= q < cl1[c].len() implies #[trigger] cl1[c][q] < f1.len() by {
            assert(cl1[c][q] < f1.len());
        }
        lemma_merge_views(f1, f2, cl1[c], r1[c], r2[c]);
    }
    assert(entry_views(r1) =~= entry_views(r2));
}

} // verus!
