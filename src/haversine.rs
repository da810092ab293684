//! The haversine great-circle distance in fixed point.
//!
//! Angles and trigonometric values are scaled by `FX` (1e12). The sine is
//! its Taylor series to the ninth power on a quarter turn (error below
//! 4e-6), and the cosine of a latitude is the sine of its co-latitude; the
//! arc sine is its series to the ninth power after one half-angle
//! step, which keeps arcs up to a quarter of a great circle within 2e-6 of
//! their length and the longest within 0.11%. The Earth is a sphere of radius 6371 km, so one unit of
//! arc is 1e-7 degree of a great circle.

use vstd::prelude::*;
use crate::geo::{Coord, isqrt, isqrt_spec, is_isqrt, lemma_mul_bound, COS_SCALE, MAX_LAT};

verus! {

/// Fixed-point scale of angles in radians and of their sines.
pub const FX: i128 = 1_000_000_000_000;

/// Pi, scaled by `FX`.
pub const PI_FX: i128 = 3_141_592_653_590;

/// Half of pi, scaled by `FX`.
pub const HALF_PI_FX: i128 = 1_570_796_326_795;

/// Coordinate units in half a turn (180 degrees).
pub const UNITS_PER_PI: i128 = 1_800_000_000;

/// `0 <= a * b / d <= bound / d` for non-negative factors within bounds.
pub proof fn lemma_prod_quot(a: int, b: int, ba: int, bb: int, d: int)
    requires
        0 <= a <= ba,
        0 <= b <= bb,
        d > 0,
    ensures
        0 <= a * b / d <= (ba * bb) / d,
        0 <= a * b <= ba * bb,
{
    lemma_mul_bound(a, b, ba, bb);
    assert(0 <= a * b) by (nonlinear_arith)
        requires
            0 <= a,
            0 <= b,
    ;
    vstd::arithmetic::div_mod::lemma_div_is_ordered(a * b, ba * bb, d);
    vstd::arithmetic::div_mod::lemma_div_pos_is_pos(a * b, d);
}

/// `0 <= x / d <= x` for `x >= 0` and `d >= 1`.
pub proof fn lemma_div_small(x: int, d: int)
    requires
        x >= 0,
        d >= 1,
    ensures
        0 <= x / d <= x,
{
    vstd::arithmetic::div_mod::lemma_div_is_ordered_by_denominator(x, 1, d);
    vstd::arithmetic::div_mod::lemma_div_pos_is_pos(x, d);
}

/// Radians, scaled by `FX`, of an angle of `u` coordinate units.
pub open spec fn rad_fx(u: int) -> int {
    u * (PI_FX as int) / (UNITS_PER_PI as int)
}

/// Taylor series of the sine to the ninth power, at `y / (FX as int)` radians.
pub open spec fn sin_series(y: int) -> int {
    let y2 = y * y / (FX as int);
    let t3 = y * y2 / (FX as int) / 6;
    let t5 = t3 * y2 / (FX as int) / 20;
    let t7 = t5 * y2 / (FX as int) / 42;
    let t9 = t7 * y2 / (FX as int) / 72;
    y - t3 + t5 - t7 + t9
}

/// Sine, scaled by `FX`, of `r / (FX as int)` radians for `0 <= r <= PI_FX`: the
/// series on the nearer quarter turn, kept within `0..=FX`.
pub open spec fn sin_fx(r: int) -> int {
    let y = if r > HALF_PI_FX as int { PI_FX as int - r } else { r };
    let v = sin_series(y);
    if v < 0 {
        0
    } else if v > FX as int {
        FX as int
    } else {
        v
    }
}

pub fn sin_fixed(r: i128) -> (s: i128)
    requires
        0 <= r <= PI_FX,
    ensures
        s == sin_fx(r as int),
        0 <= s <= FX,
{
    let y: i128 = if r > HALF_PI_FX { PI_FX - r } else { r };
    proof {
        lemma_prod_quot(y as int, y as int, 1_600_000_000_000, 1_600_000_000_000, FX as int);
    }
    let y2: i128 = y * y / FX;
    proof {
        lemma_prod_quot(y as int, y2 as int, 1_600_000_000_000, 2_560_000_000_000, FX as int);
    }
    let t3: i128 = y * y2 / FX / 6;
    proof {
        lemma_div_small(y as int * y2 as int / (FX as int), 6);
        lemma_prod_quot(t3 as int, y2 as int, 4_096_000_000_000, 2_560_000_000_000, FX as int);
    }
    let t5: i128 = t3 * y2 / FX / 20;
    proof {
        lemma_div_small(t3 as int * y2 as int / (FX as int), 20);
        lemma_prod_quot(t5 as int, y2 as int, 10_485_760_000_000, 2_560_000_000_000, FX as int);
    }
    let t7: i128 = t5 * y2 / FX / 42;
    proof {
        lemma_div_small(t5 as int * y2 as int / (FX as int), 42);
        lemma_prod_quot(t7 as int, y2 as int, 26_843_545_600_000, 2_560_000_000_000, FX as int);
    }
    let t9: i128 = t7 * y2 / FX / 72;
    proof {
        lemma_div_small(t7 as int * y2 as int / (FX as int), 72);
    }
    let v: i128 = y - t3 + t5 - t7 + t9;
    if v < 0 {
        0
    } else if v > FX {
        FX
    } else {
        v
    }
}


/// Cosine of a latitude of `lat` units, scaled by `COS_SCALE`: the sine of
/// the co-latitude.
pub open spec fn cos_fx(lat: int) -> int {
    sin_fx(rad_fx(MAX_LAT as int - abs_diff(lat, 0))) / 1_000_000
}

pub fn cos_fixed(lat: i64) -> (c: i128)
    requires
        -MAX_LAT <= lat <= MAX_LAT,
    ensures
        c == cos_fx(lat as int),
        0 <= c <= COS_SCALE,
{
    let a: i128 = if lat >= 0 { lat as i128 } else { -(lat as i128) };
    let co: i128 = MAX_LAT as i128 - a;
    proof {
        lemma_prod_quot(co as int, PI_FX as int, MAX_LAT as int, PI_FX as int, UNITS_PER_PI as int);
    }
    let s = sin_fixed(co * PI_FX / UNITS_PER_PI);
    proof {
        vstd::arithmetic::div_mod::lemma_div_is_ordered(s as int, FX as int, 1_000_000);
        vstd::arithmetic::div_mod::lemma_div_pos_is_pos(s as int, 1_000_000);
    }
    s / 1_000_000
}

pub open spec fn abs_diff(x: int, y: int) -> int {
    if x >= y {
        x - y
    } else {
        y - x
    }
}

/// Haversine of the central angle between `a` and `b`,
/// `sin^2(dlat / 2) + cos(lat_a) cos(lat_b) sin^2(dlon / 2)`, scaled by
/// `FX^2 * COS_SCALE^2` (1e36).
pub open spec fn hav_spec(a: Coord, b: Coord) -> int {
    let sa = sin_fx(rad_fx(abs_diff(a.lat as int, b.lat as int)) / 2);
    let so = sin_fx(rad_fx(abs_diff(a.lon as int, b.lon as int)) / 2);
    sa * sa * (COS_SCALE * COS_SCALE) + cos_fx(a.lat as int) * cos_fx(b.lat as int) * (so * so)
}

pub const HAV_BOUND: i128 = 2_000_000_000_000_000_000_000_000_000_000_000_000;

fn half_angle(d: i128, max: i128) -> (r: i128)
    requires
        0 <= d <= max,
        max == 3_600_000_000,
    ensures
        r == rad_fx(d as int) / 2,
        0 <= r <= PI_FX,
{
    proof {
        lemma_prod_quot(d as int, PI_FX as int, 3_600_000_000, PI_FX as int, UNITS_PER_PI as int);
    }
    d * PI_FX / UNITS_PER_PI / 2
}

/// The haversine of the central angle between two points.
pub fn hav_fixed(a: Coord, b: Coord) -> (h: i128)
    requires
        a.wf(),
        b.wf(),
    ensures
        h == hav_spec(a, b),
        0 <= h <= HAV_BOUND,
{
    let dlat: i128 = if a.lat >= b.lat { a.lat as i128 - b.lat as i128 } else { b.lat as i128 - a.lat as i128 };
    let dlon: i128 = if a.lon >= b.lon { a.lon as i128 - b.lon as i128 } else { b.lon as i128 - a.lon as i128 };
    let sa = sin_fixed(half_angle(dlat, 3_600_000_000));
    let so = sin_fixed(half_angle(dlon, 3_600_000_000));
    let ca = cos_fixed(a.lat);
    let cb = cos_fixed(b.lat);
    proof {
        lemma_prod_quot(sa as int, sa as int, FX as int, FX as int, 1);
        lemma_prod_quot(so as int, so as int, FX as int, FX as int, 1);
        lemma_prod_quot(ca as int, cb as int, COS_SCALE as int, COS_SCALE as int, 1);
        lemma_prod_quot((sa * sa) as int, (COS_SCALE * COS_SCALE) as int, (FX * FX) as int, (COS_SCALE * COS_SCALE) as int, 1);
        lemma_prod_quot((ca * cb) as int, (so * so) as int, (COS_SCALE * COS_SCALE) as int, (FX * FX) as int, 1);
    }
    sa * sa * (COS_SCALE as i128 * COS_SCALE as i128) + ca * cb * (so * so)
}

/// Taylor series of the arc sine to the ninth power, at `t / FX`.
pub open spec fn asin_series(t: int) -> int {
    let u2 = t * t / (FX as int);
    let p3 = t * u2 / (FX as int);
    let p5 = p3 * u2 / (FX as int);
    let p7 = p5 * u2 / (FX as int);
    let p9 = p7 * u2 / (FX as int);
    t + p3 / 6 + 3 * p5 / 40 + 5 * p7 / 112 + 35 * p9 / 1152
}

/// Great-circle distance, in coordinate units of arc, for a haversine `h`
/// scaled as by `hav_spec`: with `s` the square root of `h`, the central
/// angle is `2 asin(s) = 4 asin(t)` for `t = s / sqrt(2 (1 + sqrt(1 - s^2)))`.
pub open spec fn arc_from_hav(h: int) -> int {
    let s0 = isqrt_spec(h / 1_000_000_000_000);
    let s = if s0 > FX as int { FX as int } else { s0 };
    let c = isqrt_spec((FX as int) * (FX as int) - s * s);
    let den = isqrt_spec(2 * (FX as int) * ((FX as int) + c));
    let t = s * (FX as int) / den;
    4 * asin_series(t) * (UNITS_PER_PI as int) / (PI_FX as int)
}

proof fn lemma_root_bound(n: int, r: int, lo: int, hi: int)
    requires
        is_isqrt(n, r),
        lo >= 0,
        hi >= 0,
        lo * lo <= n <= hi * hi,
    ensures
        lo <= r <= hi,
{
    if r < lo {
        assert((r + 1) * (r + 1) <= lo * lo) by (nonlinear_arith)
            requires
                0 <= r < lo,
        ;
    }
    if r > hi {
        assert(r * r > hi * hi) by (nonlinear_arith)
            requires
                r > hi >= 0,
        ;
    }
}

/// The great-circle distance, in coordinate units of arc, of a haversine.
pub fn arc_units(h: i128) -> (r: u64)
    requires
        0 <= h <= HAV_BOUND,
    ensures
        r == arc_from_hav(h as int),
{
    let q: i128 = h / 1_000_000_000_000;
    proof {
        vstd::arithmetic::div_mod::lemma_div_is_ordered(h as int, HAV_BOUND as int, 1_000_000_000_000);
        vstd::arithmetic::div_mod::lemma_div_pos_is_pos(h as int, 1_000_000_000_000);
    }
    let s0 = isqrt(q as u128) as i128;
    let s: i128 = if s0 > FX { FX } else { s0 };
    proof {
        lemma_prod_quot(s as int, s as int, FX as int, FX as int, 1);
    }
    let c0 = isqrt((FX * FX - s * s) as u128) as i128;
    proof {
        lemma_root_bound((FX * FX - s * s) as int, c0 as int, 0, FX as int);
    }
    let n2: i128 = 2 * FX * (FX + c0);
    proof {
        assert(FX * FX <= n2 <= 2 * FX * 2 * FX) by (nonlinear_arith)
            requires
                0 <= c0 <= FX,
                n2 == 2 * FX * (FX + c0),
        ;
    }
    let den = isqrt(n2 as u128) as i128;
    proof {
        lemma_root_bound(n2 as int, den as int, FX as int, 2 * FX as int);
        lemma_prod_quot(s as int, FX as int, FX as int, FX as int, den as int);
        vstd::arithmetic::div_mod::lemma_div_is_ordered_by_denominator((s * FX) as int, FX as int, den as int);
        vstd::arithmetic::div_mod::lemma_fundamental_div_mod_converse_div((s * FX) as int, FX as int, s as int, 0);
    }
    let t: i128 = s * FX / den;
    proof {
        lemma_prod_quot(t as int, t as int, FX as int, FX as int, FX as int);
        vstd::arithmetic::div_mod::lemma_fundamental_div_mod_converse_div((FX * FX) as int, FX as int, FX as int, 0);
    }
    let u2: i128 = t * t / FX;
    proof {
        lemma_prod_quot(t as int, u2 as int, FX as int, FX as int, FX as int);
    }
    let p3: i128 = t * u2 / FX;
    proof {
        lemma_prod_quot(p3 as int, u2 as int, FX as int, FX as int, FX as int);
    }
    let p5: i128 = p3 * u2 / FX;
    proof {
        lemma_prod_quot(p5 as int, u2 as int, FX as int, FX as int, FX as int);
    }
    let p7: i128 = p5 * u2 / FX;
    proof {
        lemma_prod_quot(p7 as int, u2 as int, FX as int, FX as int, FX as int);
    }
    let p9: i128 = p7 * u2 / FX;
    proof {
        lemma_div_small(p3 as int, 6);
        lemma_div_small(3 * p5 as int, 40);
        lemma_div_small(5 * p7 as int, 112);
        lemma_div_small(35 * p9 as int, 1152);
    }
    let a: i128 = t + p3 / 6 + 3 * p5 / 40 + 5 * p7 / 112 + 35 * p9 / 1152;
    proof {
        lemma_prod_quot(4 * a as int, UNITS_PER_PI as int, 180 * FX as int, UNITS_PER_PI as int, PI_FX as int);
    }
    (4 * a * UNITS_PER_PI / PI_FX) as u64
}

} // verus!
