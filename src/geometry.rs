//! Representative points and lengths of feature outlines.

use vstd::prelude::*;
use crate::haversine::{arc_from_hav, arc_units, hav_fixed, hav_spec};
use crate::geo::{Coord, coords_wf, div_floor, floor_div, isqrt, isqrt_spec, lemma_mul_bound, MAX_LAT, MAX_LON};

verus! {

/// Why no representative point could be computed.
#[derive(Clone, Copy, Debug, PartialEq, Eq, Structural)]
pub enum GeometryError {
    /// Fewer points than the shape needs.
    TooFewPoints,
    /// More points than the fixed-point sums are sized for.
    TooManyPoints,
}

/// Most points an outline may have.
pub const MAX_POINTS: usize = 0xFFFF_FFFF;

/// Length of the arc from `a` to `b`, in coordinate units (1e-7 degree of
/// a great circle), by the haversine formula in fixed point.
pub open spec fn arc_len(a: Coord, b: Coord) -> int {
    arc_from_hav(hav_spec(a, b))
}

/// Sum of the first `n` arc lengths along `s`.
pub open spec fn path_sum(s: Seq<Coord>, n: int) -> int
    decreases n,
{
    if n <= 0 {
        0
    } else {
        path_sum(s, n - 1) + arc_len(s[n - 1], s[n])
    }
}

/// Length of the path through `s`, saturated at `u64::MAX`.
pub open spec fn path_length_spec(s: Seq<Coord>) -> int {
    if s.len() < 2 {
        0
    } else if path_sum(s, s.len() - 1) > u64::MAX {
        u64::MAX as int
    } else {
        path_sum(s, s.len() - 1)
    }
}

pub fn segment_length(a: Coord, b: Coord) -> (r: u64)
    requires
        a.wf(),
        b.wf(),
    ensures
        r == arc_len(a, b),
{
    arc_units(hav_fixed(a, b))
}

/// Length of the path through `coords`, in coordinate units of arc.
pub fn path_length(coords: &Vec<Coord>) -> (r: u64)
    requires
        coords_wf(coords@),
    ensures
        r == path_length_spec(coords@),
{
    let n = coords.len();
    if n < 2 {
        return 0;
    }
    let mut total: u64 = 0;
    let mut saturated = false;
    let mut i: usize = 0;
    while i < n - 1
        invariant
            n == coords@.len(),
            n >= 2,
            0 <= i <= n - 1,
            coords_wf(coords@),
            path_sum(coords@, i as int) >= 0,
            saturated <==> path_sum(coords@, i as int) > u64::MAX,
            !saturated ==> total == path_sum(coords@, i as int),
        decreases n - 1 - i,
    {
        assert(coords@[i as int].wf() && coords@[i + 1].wf());
        let seg = segment_length(coords[i], coords[i + 1]);
        if !saturated {
            if total > u64::MAX - seg {
                saturated = true;
            } else {
                total = total + seg;
            }
        }
        i = i + 1;
    }
    if saturated {
        u64::MAX
    } else {
        total
    }
}


/// A ring: at least four points, the last equal to the first.
pub open spec fn is_closed(s: Seq<Coord>) -> bool {
    s.len() >= 4 && s[0] == s[s.len() - 1]
}

/// The outline as a closed ring: the first point appended when it is open.
pub open spec fn ring_of(s: Seq<Coord>) -> Seq<Coord> {
    if is_closed(s) {
        s
    } else {
        s.push(s[0])
    }
}

/// Cross product of two points as vectors from the origin.
pub open spec fn cross(a: Coord, b: Coord) -> int {
    a.lon * b.lat - b.lon * a.lat
}

/// Twice the signed area of the first `n` edges of ring `r` (shoelace).
pub open spec fn area2_sum(r: Seq<Coord>, n: int) -> int
    decreases n,
{
    if n <= 0 {
        0
    } else {
        area2_sum(r, n - 1) + cross(r[n - 1], r[n])
    }
}

/// Shoelace moment in longitude of the first `n` edges of ring `r`.
pub open spec fn moment_lon(r: Seq<Coord>, n: int) -> int
    decreases n,
{
    if n <= 0 {
        0
    } else {
        moment_lon(r, n - 1) + (r[n - 1].lon + r[n].lon) * cross(r[n - 1], r[n])
    }
}

/// Shoelace moment in latitude of the first `n` edges of ring `r`.
pub open spec fn moment_lat(r: Seq<Coord>, n: int) -> int
    decreases n,
{
    if n <= 0 {
        0
    } else {
        moment_lat(r, n - 1) + (r[n - 1].lat + r[n].lat) * cross(r[n - 1], r[n])
    }
}

/// Sum of the longitudes of the first `n` points.
pub open spec fn sum_lon(s: Seq<Coord>, n: int) -> int
    decreases n,
{
    if n <= 0 {
        0
    } else {
        sum_lon(s, n - 1) + s[n - 1].lon
    }
}

/// Sum of the latitudes of the first `n` points.
pub open spec fn sum_lat(s: Seq<Coord>, n: int) -> int
    decreases n,
{
    if n <= 0 {
        0
    } else {
        sum_lat(s, n - 1) + s[n - 1].lat
    }
}

/// Mean of the first `n` points, rounded down.
pub open spec fn mean_of(s: Seq<Coord>, n: int) -> (int, int) {
    (floor_div(sum_lon(s, n), n), floor_div(sum_lat(s, n), n))
}

/// Number of distinct vertices: a closed ring repeats its first point.
pub open spec fn vertex_count(s: Seq<Coord>) -> int {
    if is_closed(s) {
        s.len() - 1
    } else {
        s.len() as int
    }
}

/// Twice the smallest area a ring needs for its area centroid: 1e-12
/// square degree is 100 square units.
pub const MIN_AREA2: i128 = 200;

/// Area centroid of the ring through `s`, rounded down. The mean of its
/// distinct vertices where the area is below 1e-12 square degree, and where
/// a twisted ring of little net area puts its area centroid off the globe.
pub open spec fn centroid_spec(s: Seq<Coord>) -> (int, int) {
    let r = ring_of(s);
    let e = r.len() - 1;
    let a2 = area2_sum(r, e);
    let p = (floor_div(moment_lon(r, e), 3 * a2), floor_div(moment_lat(r, e), 3 * a2));
    if -MIN_AREA2 < a2 < MIN_AREA2 || !on_globe(p) {
        mean_of(s, vertex_count(s))
    } else {
        p
    }
}

/// The pair is a longitude and latitude on the globe.
pub open spec fn on_globe(p: (int, int)) -> bool {
    -MAX_LON <= p.0 <= MAX_LON && -MAX_LAT <= p.1 <= MAX_LAT
}

pub open spec fn coord_of(p: (int, int)) -> Coord {
    Coord { lon: p.0 as i64, lat: p.1 as i64 }
}

/// Outcome of computing a representative point `p` for `n` points, of which
/// the shape needs at least `min`.
pub open spec fn point_outcome(n: int, min: int, p: (int, int)) -> Result<Coord, GeometryError> {
    if n < min {
        Err(GeometryError::TooFewPoints)
    } else if n > MAX_POINTS {
        Err(GeometryError::TooManyPoints)
    } else {
        Ok(coord_of(p))
    }
}

pub const CROSS_BOUND: i128 = 3_240_000_000_000_000_000;

pub const MOMENT_BOUND: i128 = 11_664_000_000_000_000_000_000_000_000;

fn edge_terms(a: Coord, b: Coord) -> (r: (i128, i128, i128))
    requires
        a.wf(),
        b.wf(),
    ensures
        r.0 == cross(a, b),
        r.1 == (a.lon + b.lon) * cross(a, b),
        r.2 == (a.lat + b.lat) * cross(a, b),
        -CROSS_BOUND <= r.0 <= CROSS_BOUND,
        -MOMENT_BOUND <= r.1 <= MOMENT_BOUND,
        -MOMENT_BOUND <= r.2 <= MOMENT_BOUND,
{
    proof {
        lemma_mul_bound(a.lon as int, b.lat as int, MAX_LON as int, MAX_LAT as int);
        lemma_mul_bound(b.lon as int, a.lat as int, MAX_LON as int, MAX_LAT as int);
    }
    let c: i128 = a.lon as i128 * b.lat as i128 - b.lon as i128 * a.lat as i128;
    proof {
        lemma_mul_bound(a.lon + b.lon, c as int, 3_600_000_000, CROSS_BOUND as int);
        lemma_mul_bound(a.lat + b.lat, c as int, 3_600_000_000, CROSS_BOUND as int);
    }
    (c, (a.lon as i128 + b.lon as i128) * c, (a.lat as i128 + b.lat as i128) * c)
}

/// Mean of the first `k` points, rounded down.
fn mean_point(coords: &Vec<Coord>, k: usize) -> (r: (i128, i128))
    requires
        0 < k <= coords@.len(),
        k <= MAX_POINTS,
        coords_wf(coords@),
    ensures
        (r.0 as int, r.1 as int) == mean_of(coords@, k as int),
        on_globe((r.0 as int, r.1 as int)),
{
    let mut sx: i128 = 0;
    let mut sy: i128 = 0;
    let mut i: usize = 0;
    while i < k
        invariant
            0 <= i <= k <= coords@.len(),
            k <= MAX_POINTS,
            coords_wf(coords@),
            sx == sum_lon(coords@, i as int),
            sy == sum_lat(coords@, i as int),
            -(i * MAX_LON) <= sx <= i * MAX_LON,
            -(i * MAX_LAT) <= sy <= i * MAX_LAT,
        decreases k - i,
    {
        assert(coords@[i as int].wf());
        sx = sx + coords[i].lon as i128;
        sy = sy + coords[i].lat as i128;
        i = i + 1;
    }
    proof {
        crate::geo::lemma_quot_bound(sx as int, k as int, MAX_LON as int);
        crate::geo::lemma_quot_bound(sy as int, k as int, MAX_LAT as int);
    }
    (div_floor(sx, k as i128), div_floor(sy, k as i128))
}

fn on_globe_exec(p: (i128, i128)) -> (r: bool)
    ensures
        r == on_globe((p.0 as int, p.1 as int)),
{
    -(MAX_LON as i128) <= p.0 && p.0 <= MAX_LON as i128 && -(MAX_LAT as i128) <= p.1 && p.1
        <= MAX_LAT as i128
}

fn to_coord(p: (i128, i128)) -> (r: Coord)
    requires
        on_globe((p.0 as int, p.1 as int)),
    ensures
        r == coord_of((p.0 as int, p.1 as int)),
        r.wf(),
{
    Coord { lon: p.0 as i64, lat: p.1 as i64 }
}

/// Area centroid of the polygon through `coords` (closed if it is not).
pub fn polygon_centroid(coords: &Vec<Coord>) -> (r: Result<Coord, GeometryError>)
    requires
        coords_wf(coords@),
    ensures
        r == point_outcome(coords@.len() as int, 3, centroid_spec(coords@)),
        r matches Ok(c) ==> c.wf(),
{
    let n = coords.len();
    if n < 3 {
        return Err(GeometryError::TooFewPoints);
    }
    if n > MAX_POINTS {
        return Err(GeometryError::TooManyPoints);
    }
    let closed = n >= 4 && coords[0] == coords[n - 1];
    let ghost s = coords@;
    let ghost ring = ring_of(s);
    assert(closed == is_closed(s));
    let mut area: i128 = 0;
    let mut mx: i128 = 0;
    let mut my: i128 = 0;
    let mut i: usize = 0;
    while i < n - 1
        invariant
            n == s.len(),
            s == coords@,
            ring == ring_of(s),
            3 <= n <= MAX_POINTS,
            0 <= i <= n - 1,
            coords_wf(s),
            area == area2_sum(ring, i as int),
            mx == moment_lon(ring, i as int),
            my == moment_lat(ring, i as int),
            -(i * CROSS_BOUND) <= area <= i * CROSS_BOUND,
            -(i * MOMENT_BOUND) <= mx <= i * MOMENT_BOUND,
            -(i * MOMENT_BOUND) <= my <= i * MOMENT_BOUND,
        decreases n - 1 - i,
    {
        assert(s[i as int].wf() && s[i + 1].wf());
        assert(ring[i as int] == s[i as int] && ring[i + 1] == s[i + 1]);
        let t = edge_terms(coords[i], coords[i + 1]);
        area = area + t.0;
        mx = mx + t.1;
        my = my + t.2;
        i = i + 1;
    }
    if !closed {
        assert(s[n - 1].wf() && s[0].wf());
        assert(ring[n - 1] == s[n - 1] && ring[n as int] == s[0]);
        let t = edge_terms(coords[n - 1], coords[0]);
        area = area + t.0;
        mx = mx + t.1;
        my = my + t.2;
    }
    let k: usize = if closed { n - 1 } else { n };
    if -MIN_AREA2 < area && area < MIN_AREA2 {
        return Ok(to_coord(mean_point(coords, k)));
    }
    let p = (div_floor(mx, 3 * area), div_floor(my, 3 * area));
    if on_globe_exec(p) {
        Ok(to_coord(p))
    } else {
        Ok(to_coord(mean_point(coords, k)))
    }
}


/// Planar length of the segment from `a` to `b` in raw coordinate units,
/// rounded down.
pub open spec fn plane_len(a: Coord, b: Coord) -> int {
    isqrt_spec(
        (b.lon - a.lon) * (b.lon - a.lon) + (b.lat - a.lat) * (b.lat - a.lat),
    )
}

/// Sum of the first `n` planar segment lengths along `s`.
pub open spec fn plane_sum(s: Seq<Coord>, n: int) -> int
    decreases n,
{
    if n <= 0 {
        0
    } else {
        plane_sum(s, n - 1) + plane_len(s[n - 1], s[n])
    }
}

/// The point `num / den` of the way from `a` to `b`, rounded down.
pub open spec fn interp(a: Coord, b: Coord, num: int, den: int) -> (int, int) {
    (a.lon + floor_div((b.lon - a.lon) * num, den), a.lat + floor_div((b.lat - a.lat) * num, den))
}

/// Walk the segments from index `i` on, with `acc` the length already
/// covered, to the point at half of `total`; the last point when rounding
/// leaves it unreached.
pub open spec fn walk(s: Seq<Coord>, i: int, acc: int, total: int) -> (int, int)
    decreases s.len() - 1 - i,
{
    if i < 0 || i >= s.len() - 1 {
        (s[s.len() - 1].lon as int, s[s.len() - 1].lat as int)
    } else {
        let l = plane_len(s[i], s[i + 1]);
        if 2 * (acc + l) >= total {
            interp(s[i], s[i + 1], total - 2 * acc, 2 * l)
        } else {
            walk(s, i + 1, acc + l, total)
        }
    }
}

/// Point halfway along the path through `s`; the mean of its points when
/// the path has no length.
pub open spec fn midpoint_spec(s: Seq<Coord>) -> (int, int) {
    let total = plane_sum(s, s.len() - 1);
    if total == 0 {
        mean_of(s, s.len() as int)
    } else {
        walk(s, 0, 0, total)
    }
}

pub const PLANE_BOUND: u64 = 4_100_000_000;

fn plane_length(a: Coord, b: Coord) -> (r: u64)
    requires
        a.wf(),
        b.wf(),
    ensures
        r == plane_len(a, b),
        r <= PLANE_BOUND,
{
    let dx: i128 = b.lon as i128 - a.lon as i128;
    let dy: i128 = b.lat as i128 - a.lat as i128;
    proof {
        lemma_mul_bound(dx as int, dx as int, 3_600_000_000, 3_600_000_000);
        lemma_mul_bound(dy as int, dy as int, 1_800_000_000, 1_800_000_000);
        assert(0 <= dx * dx && 0 <= dy * dy) by (nonlinear_arith);
    }
    let d2: i128 = dx * dx + dy * dy;
    let r = isqrt(d2 as u128);
    proof {
        let q = isqrt_spec(d2 as int);
        assert(q == r);
        if q > PLANE_BOUND {
            assert(q * q > 16_200_000_000_000_000_000) by (nonlinear_arith)
                requires
                    q > PLANE_BOUND,
            ;
        }
    }
    r
}

/// Point halfway along the path through `coords`.
pub fn line_midpoint(coords: &Vec<Coord>) -> (r: Result<Coord, GeometryError>)
    requires
        coords_wf(coords@),
    ensures
        r == point_outcome(coords@.len() as int, 2, midpoint_spec(coords@)),
        r matches Ok(c) ==> c.wf(),
{
    let n = coords.len();
    if n < 2 {
        return Err(GeometryError::TooFewPoints);
    }
    if n > MAX_POINTS {
        return Err(GeometryError::TooManyPoints);
    }
    let ghost s = coords@;
    let mut total: u64 = 0;
    let mut i: usize = 0;
    while i < n - 1
        invariant
            n == s.len(),
            s == coords@,
            2 <= n <= MAX_POINTS,
            0 <= i <= n - 1,
            coords_wf(s),
            total == plane_sum(s, i as int),
            total <= i * PLANE_BOUND,
        decreases n - 1 - i,
    {
        assert(s[i as int].wf() && s[i + 1].wf());
        let l = plane_length(coords[i], coords[i + 1]);
        total = total + l;
        i = i + 1;
    }
    if total == 0 {
        return Ok(to_coord(mean_point(coords, n)));
    }
    let mut acc: u64 = 0;
    let mut j: usize = 0;
    while j < n - 1
        invariant
            n == s.len(),
            s == coords@,
            2 <= n <= MAX_POINTS,
            0 <= j <= n - 1,
            coords_wf(s),
            total == plane_sum(s, n - 1),
            total > 0,
            acc == plane_sum(s, j as int),
            acc <= j * PLANE_BOUND,
            2 * acc < total,
            walk(s, j as int, acc as int, total as int) == walk(s, 0, 0, total as int),
        decreases n - 1 - j,
    {
        let a = coords[j];
        let b = coords[j + 1];
        assert(a.wf() && b.wf());
        let l = plane_length(a, b);
        if 2 * (acc as u128 + l as u128) >= total as u128 {
            let num: i128 = total as i128 - 2 * acc as i128;
            let den: i128 = 2 * l as i128;
            proof {
                lemma_mul_bound(b.lon - a.lon, num as int, 3_600_000_000, 0x1_0000_0000_0000_0000);
                lemma_mul_bound(b.lat - a.lat, num as int, 1_800_000_000, 0x1_0000_0000_0000_0000);
                lemma_mul_bound(b.lon - a.lon, num as int, 3_600_000_000, den as int);
                lemma_mul_bound(b.lat - a.lat, num as int, 1_800_000_000, den as int);
                crate::geo::lemma_quot_bound((b.lon - a.lon) * num, den as int, 3_600_000_000);
                crate::geo::lemma_quot_bound((b.lat - a.lat) * num, den as int, 1_800_000_000);
                crate::geo::lemma_part_of_gap(b.lon - a.lon, num as int, den as int);
                crate::geo::lemma_part_of_gap(b.lat - a.lat, num as int, den as int);
            }
            let px: i128 = a.lon as i128 + div_floor((b.lon as i128 - a.lon as i128) * num, den);
            let py: i128 = a.lat as i128 + div_floor((b.lat as i128 - a.lat as i128) * num, den);
            return Ok(to_coord((px, py)));
        }
        acc = acc + l;
        j = j + 1;
    }
    let last = coords[n - 1];
    assert(s[n - 1].wf());
    Ok(last)
}

} // verus!
