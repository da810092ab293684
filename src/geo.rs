//! Fixed-point coordinates and the geometry on them.

use vstd::prelude::*;

verus! {

/// One degree in coordinate units.
pub const UNITS_PER_DEGREE: i64 = 10_000_000;

/// Largest magnitude of a longitude, in units.
pub const MAX_LON: i64 = 1_800_000_000;

/// Largest magnitude of a latitude, in units.
pub const MAX_LAT: i64 = 900_000_000;

/// Fixed-point scale of a cosine: `COS_SCALE` stands for 1.
pub const COS_SCALE: i64 = 1_000_000;

/// `32400` square degrees in square units: the constant of the rational
/// cosine approximation `(32400 - 4 d^2) / (32400 + d^2)` for `d` in degrees.
pub const COS_K: i128 = 3_240_000_000_000_000_000;

/// A point: longitude and latitude in units of 1e-7 degree.
#[derive(Clone, Copy, Debug, PartialEq, Eq, Structural)]
pub struct Coord {
    pub lon: i64,
    pub lat: i64,
}

impl Coord {
    /// Longitude and latitude lie on the globe.
    pub open spec fn wf(self) -> bool {
        -MAX_LON <= self.lon <= MAX_LON && -MAX_LAT <= self.lat <= MAX_LAT
    }

    pub fn new(lon: i64, lat: i64) -> (r: Coord)
        ensures
            r.lon == lon,
            r.lat == lat,
    {
        Coord { lon, lat }
    }
}

pub open spec fn coords_wf(s: Seq<Coord>) -> bool {
    forall|i: int| 0 <= i < s.len() ==> #[trigger] s[i].wf()
}

/// Quotient rounded toward negative infinity, for a divisor of either sign.
pub open spec fn floor_div(n: int, d: int) -> int {
    if d > 0 {
        n / d
    } else {
        (-n) / (-d)
    }
}

pub open spec fn i126(n: int) -> bool {
    -0x4000_0000_0000_0000_0000_0000_0000_0000 < n < 0x4000_0000_0000_0000_0000_0000_0000_0000
}

/// Division rounded toward negative infinity.
pub fn div_floor(n: i128, d: i128) -> (r: i128)
    requires
        d != 0,
        i126(n as int),
        i126(d as int),
    ensures
        r == floor_div(n as int, d as int),
{
    let nn: i128 = if d > 0 { n } else { -n };
    let dd: i128 = if d > 0 { d } else { -d };
    if nn >= 0 {
        nn / dd
    } else {
        let m: i128 = -nn - 1;
        let q: i128 = m / dd;
        proof {
            let rr = m % dd;
            vstd::arithmetic::div_mod::lemma_fundamental_div_mod(m as int, dd as int);
            assert(0 <= rr < dd);
            assert(nn == (-q - 1) * dd + (dd - 1 - rr)) by (nonlinear_arith)
                requires
                    m == dd * q + rr,
                    m == -nn - 1,
            ;
            vstd::arithmetic::div_mod::lemma_fundamental_div_mod_converse_div(
                nn as int,
                dd as int,
                -q - 1,
                dd - 1 - rr,
            );
        }
        -q - 1
    }
}

/// Cosine of a latitude, scaled by `COS_SCALE`, by the rational
/// approximation `(32400 - 4 d^2) / (32400 + d^2)` (absolute error below
/// 0.002 on the whole range).
pub open spec fn cos_spec(lat: int) -> int {
    (COS_SCALE * (COS_K - 4 * (lat * lat))) / (COS_K + lat * lat)
}

pub fn cos_lat(lat: i64) -> (r: i64)
    requires
        -MAX_LAT <= lat <= MAX_LAT,
    ensures
        r == cos_spec(lat as int),
        0 <= r <= COS_SCALE,
{
    let l: i128 = lat as i128;
    proof {
        assert(0 <= l * l <= 810_000_000_000_000_000) by (nonlinear_arith)
            requires
                -MAX_LAT <= l <= MAX_LAT,
        ;
    }
    let num: i128 = COS_K - 4 * (l * l);
    let den: i128 = COS_K + l * l;
    proof {
        assert(0 <= COS_SCALE * num <= COS_SCALE * den) by (nonlinear_arith)
            requires
                0 <= num <= den,
        ;
        vstd::arithmetic::div_mod::lemma_div_is_ordered(
            (COS_SCALE * num) as int,
            (COS_SCALE * den) as int,
            den as int,
        );
        vstd::arithmetic::div_mod::lemma_div_by_multiple(COS_SCALE as int, den as int);
        vstd::arithmetic::div_mod::lemma_div_pos_is_pos((COS_SCALE * num) as int, den as int);
    }
    let r: i128 = (COS_SCALE as i128 * num) / den;
    r as i64
}


/// `|x * y| <= bx * by` when `|x| <= bx` and `|y| <= by`.
pub proof fn lemma_mul_bound(x: int, y: int, bx: int, by: int)
    requires
        -bx <= x <= bx,
        -by <= y <= by,
    ensures
        -(bx * by) <= x * y <= bx * by,
{
    assert(-(bx * by) <= x * y <= bx * by) by (nonlinear_arith)
        requires
            -bx <= x <= bx,
            -by <= y <= by,
    ;
}

/// Square of the equirectangular distance between `a` and `b`, whose
/// latitudes have cosines `ca` and `cb`, in units of `1 / (2 * COS_SCALE)`
/// coordinate unit: the longitude gap is scaled by the mean cosine.
pub open spec fn span2(a: Coord, ca: int, b: Coord, cb: int) -> int {
    let x = (b.lon - a.lon) * (ca + cb);
    let y = 2 * COS_SCALE * (b.lat - a.lat);
    x * x + y * y
}

/// `a` and `b` lie within `radius` units of each other by the
/// equirectangular approximation.
pub open spec fn within(a: Coord, ca: int, b: Coord, cb: int, radius: int) -> bool {
    span2(a, ca, b, cb) <= (2 * COS_SCALE * radius) * (2 * COS_SCALE * radius)
}

/// Bound of `span2` over the globe.
pub const SPAN2_MAX: u128 = 64_800_000_000_000_000_000_000_000_000_000;

pub fn scaled_span2(a: Coord, ca: i64, b: Coord, cb: i64) -> (r: u128)
    requires
        a.wf(),
        b.wf(),
        0 <= ca <= COS_SCALE,
        0 <= cb <= COS_SCALE,
    ensures
        r == span2(a, ca as int, b, cb as int),
        r <= SPAN2_MAX,
{
    let dlon: i128 = b.lon as i128 - a.lon as i128;
    let dlat: i128 = b.lat as i128 - a.lat as i128;
    let c: i128 = ca as i128 + cb as i128;
    proof {
        lemma_mul_bound(dlon as int, c as int, 3_600_000_000, 2_000_000);
    }
    let x: i128 = dlon * c;
    let y: i128 = dlat * 2_000_000;
    proof {
        lemma_mul_bound(x as int, x as int, 7_200_000_000_000_000, 7_200_000_000_000_000);
        lemma_mul_bound(y as int, y as int, 3_600_000_000_000_000, 3_600_000_000_000_000);
        assert(0 <= x * x) by (nonlinear_arith);
        assert(0 <= y * y) by (nonlinear_arith);
    }
    (x * x + y * y) as u128
}

/// `r` is the integer square root of `n`.
pub open spec fn is_isqrt(n: int, r: int) -> bool {
    0 <= r && r * r <= n < (r + 1) * (r + 1)
}

/// The integer square root of a non-negative `n`.
pub open spec fn isqrt_spec(n: int) -> int {
    choose|r: int| is_isqrt(n, r)
}

pub proof fn lemma_isqrt_unique(n: int, r: int)
    requires
        is_isqrt(n, r),
    ensures
        isqrt_spec(n) == r,
{
    let q = isqrt_spec(n);
    assert(is_isqrt(n, q));
    if q < r {
        assert((q + 1) * (q + 1) <= r * r) by (nonlinear_arith)
            requires
                0 <= q < r,
        ;
    } else if r < q {
        assert((r + 1) * (r + 1) <= q * q) by (nonlinear_arith)
            requires
                0 <= r < q,
        ;
    }
}

/// Integer square root by bisection.
pub fn isqrt(n: u128) -> (r: u64)
    requires
        n < 0x400_0000_0000_0000_0000_0000_0000,
    ensures
        r == isqrt_spec(n as int),
        is_isqrt(n as int, r as int),
{
    let mut lo: u128 = 0;
    let mut hi: u128 = 0x20_0000_0000_0000;
    assert(hi * hi == 0x400_0000_0000_0000_0000_0000_0000) by (nonlinear_arith)
        requires
            hi == 0x20_0000_0000_0000,
    ;
    while hi - lo > 1
        invariant
            lo < hi <= 0x20_0000_0000_0000,
            lo * lo <= n,
            n < hi * hi,
        decreases hi - lo,
    {
        let mid: u128 = lo + (hi - lo) / 2;
        proof {
            lemma_mul_bound(mid as int, mid as int, 0x20_0000_0000_0000, 0x20_0000_0000_0000);
        }
        if mid * mid <= n {
            lo = mid;
        } else {
            hi = mid;
        }
    }
    proof {
        assert(hi == lo + 1);
        lemma_isqrt_unique(n as int, lo as int);
    }
    lo as u64
}


/// A quotient by a positive divisor keeps the bound of the dividend per
/// divisor unit.
pub proof fn lemma_quot_bound(x: int, d: int, b: int)
    requires
        d > 0,
        b >= 0,
        -(b * d) <= x <= b * d,
    ensures
        -b <= x / d <= b,
{
    vstd::arithmetic::div_mod::lemma_div_is_ordered(x, b * d, d);
    vstd::arithmetic::div_mod::lemma_div_is_ordered(-(b * d), x, d);
    vstd::arithmetic::div_mod::lemma_div_by_multiple(b, d);
    assert(-(b * d) == (-b) * d + 0) by (nonlinear_arith);
    vstd::arithmetic::div_mod::lemma_fundamental_div_mod_converse_div(-(b * d), d, -b, 0);
}


/// `lo <= x / d <= hi` when `lo * d <= x <= hi * d` and `d > 0`.
pub proof fn lemma_quot_between(x: int, d: int, lo: int, hi: int)
    requires
        d > 0,
        lo * d <= x <= hi * d,
    ensures
        lo <= x / d <= hi,
{
    vstd::arithmetic::div_mod::lemma_div_is_ordered(lo * d, x, d);
    vstd::arithmetic::div_mod::lemma_div_is_ordered(x, hi * d, d);
    vstd::arithmetic::div_mod::lemma_fundamental_div_mod_converse_div(lo * d, d, lo, 0);
    vstd::arithmetic::div_mod::lemma_fundamental_div_mod_converse_div(hi * d, d, hi, 0);
}

/// The fraction `num / den` (at most one) of a gap `g` lies between 0 and
/// `g`.
pub proof fn lemma_part_of_gap(g: int, num: int, den: int)
    requires
        0 <= num <= den,
        den > 0,
    ensures
        g >= 0 ==> 0 <= (g * num) / den <= g,
        g < 0 ==> g <= (g * num) / den <= 0,
{
    if g >= 0 {
        assert(0 * den <= g * num <= g * den) by (nonlinear_arith)
            requires
                g >= 0,
                0 <= num <= den,
        ;
        lemma_quot_between(g * num, den, 0, g);
    } else {
        assert(g * den <= g * num <= 0 * den) by (nonlinear_arith)
            requires
                g < 0,
                0 <= num <= den,
        ;
        lemma_quot_between(g * num, den, g, 0);
    }
}

} // verus!
