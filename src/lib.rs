//! Extraction of named map features into one flat row per name, with a
//! representative location, a length and a best-effort locality.
//!
//! Coordinates are fixed-point: one unit is 1e-7 degree, the resolution of
//! the usual map exchange formats. All geometry is done in integers:
//! - the cosine of a latitude is the rational approximation
//!   `(32400 - 4 d^2) / (32400 + d^2)` for `d` in degrees (`geo`);
//! - path lengths and the merge radius use the haversine great-circle
//!   distance in fixed point (`haversine`); lengths are in units of arc
//!   (1e-7 degree of a great circle, about 1.1 cm), rounded down per segment;
//! - the settlement search uses the equirectangular approximation, the
//!   longitude gap scaled by the mean cosine of the two latitudes, compared
//!   squared so that no root is taken.
//!
//! The modules, leaves first: `geo` (points, cosine, distance), `haversine`
//! (great-circle distance), `geometry`
//! (centroid, midpoint, length), `text` and `tags` (tag lists), `names`
//! (display names), `classify` (settlements, points of interest, routes),
//! `places` (the grid index of settlements), `locality` (the four locality
//! fields), `merge` (grouping and clustering of fragments into rows), `merge_laws`
//! (what merging guarantees),
//! `extract` (the whole pipeline) and `input` (choice of a default input
//! file).

pub mod geo;
pub mod haversine;
pub mod geometry;
pub mod text;
pub mod tags;
pub mod names;
pub mod classify;
pub mod places;
pub mod locality;
pub mod merge;
pub mod merge_laws;
pub mod extract;
pub mod input;
