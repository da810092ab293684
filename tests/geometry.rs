use street_extract::geo::{cos_lat, isqrt, Coord, COS_SCALE};
use street_extract::haversine::cos_fixed;
use street_extract::geometry::{line_midpoint, path_length, polygon_centroid, segment_length, GeometryError};

const DEG: i64 = 10_000_000;

fn pts(v: &[(i64, i64)]) -> Vec<Coord> {
    v.iter().map(|&(x, y)| Coord::new(x, y)).collect()
}

#[test]
fn polygon_centroid_square() {
    let coords = pts(&[(0, 0), (2 * DEG, 0), (2 * DEG, 2 * DEG), (0, 2 * DEG), (0, 0)]);
    let c = polygon_centroid(&coords).unwrap();
    assert_eq!(c, Coord::new(DEG, DEG));
}

#[test]
fn polygon_centroid_closes_an_open_ring() {
    let coords = pts(&[(0, 0), (0, 2 * DEG), (2 * DEG, 2 * DEG), (2 * DEG, 0)]);
    assert_eq!(polygon_centroid(&coords).unwrap(), Coord::new(DEG, DEG));
}

#[test]
fn polygon_centroid_of_flat_ring_is_vertex_mean() {
    let coords = pts(&[(0, 0), (3, 0), (6, 0), (0, 0)]);
    assert_eq!(polygon_centroid(&coords).unwrap(), Coord::new(3, 0));
}

#[test]
fn polygon_centroid_errors() {
    assert_eq!(polygon_centroid(&pts(&[(0, 0), (1, 1)])), Err(GeometryError::TooFewPoints));
    let b = 800_000_000;
    let bowtie = pts(&[(0, 0), (b, b), (b, 0), (0, b + 1), (0, 0)]);
    assert_eq!(polygon_centroid(&bowtie), Ok(Coord::new(b / 2, b / 2)));
}

#[test]
fn polygon_centroid_of_tiny_ring_is_vertex_mean() {
    let tiny = pts(&[(0, 0), (99, 0), (1, 1), (0, 1), (0, 0)]);
    assert_eq!(polygon_centroid(&tiny).unwrap(), Coord::new(25, 0));
    let small = pts(&[(0, 0), (20, 0), (20, 20), (0, 20), (0, 0)]);
    assert_eq!(polygon_centroid(&small).unwrap(), Coord::new(10, 10));
}

#[test]
fn line_midpoint_basic() {
    let coords = pts(&[(0, 0), (4 * DEG, 0)]);
    let m = line_midpoint(&coords).unwrap();
    assert_eq!(m, Coord::new(2 * DEG, 0));
}

#[test]
fn line_midpoint_walks_segments() {
    let coords = pts(&[(0, DEG), (0, 2 * DEG), (DEG, 2 * DEG)]);
    assert_eq!(line_midpoint(&coords).unwrap(), Coord::new(0, 2 * DEG));
    let coords = pts(&[(0, 0), (0, 10), (30, 10)]);
    assert_eq!(line_midpoint(&coords).unwrap(), Coord::new(10, 10));
}

#[test]
fn line_midpoint_of_point_path_is_mean() {
    let coords = pts(&[(5, 7), (5, 7), (5, 7)]);
    assert_eq!(line_midpoint(&coords).unwrap(), Coord::new(5, 7));
    assert_eq!(line_midpoint(&pts(&[(1, 1)])), Err(GeometryError::TooFewPoints));
}

#[test]
fn lengths_follow_the_arc() {
    assert_eq!(cos_lat(0), COS_SCALE);
    assert_eq!(cos_fixed(0), COS_SCALE as i128);
    assert_eq!(cos_fixed(300_000_000), 866_025);
    assert_eq!(cos_fixed(-900_000_000), 0);
    assert_eq!(cos_lat(900_000_000), 0);
    assert_eq!(cos_lat(600_000_000), COS_SCALE / 2);
    assert_eq!(cos_lat(-600_000_000), COS_SCALE / 2);
    assert_eq!(isqrt(0), 0);
    assert_eq!(isqrt(24), 4);
    assert_eq!(isqrt(25), 5);
    assert_eq!(segment_length(Coord::new(0, 0), Coord::new(0, 10_000)), 9_999);
    assert_eq!(path_length(&pts(&[(0, 0)])), 0);
    let path = pts(&[(0, 0), (0, 10_000), (0, 20_000)]);
    assert_eq!(path_length(&path), 19_998);
    let east = segment_length(Coord::new(0, 0), Coord::new(10_000, 0));
    assert_eq!(east, 9_999);
    let north_east = segment_length(Coord::new(0, 600_000_000), Coord::new(10_000, 600_000_000));
    assert!(north_east < 5_100 && north_east > 4_900);
}

#[test]
fn long_arcs_follow_the_great_circle() {
    let quarter = segment_length(Coord::new(0, 0), Coord::new(900_000_000, 0));
    assert_eq!(quarter, 899_998_510);
    assert_eq!(segment_length(Coord::new(0, 0), Coord::new(0, 900_000_000)), 899_998_510);
    let half = segment_length(Coord::new(0, 0), Coord::new(1_800_000_000, 0));
    assert!(half > 1_796_000_000 && half <= 1_800_000_000);
    assert_eq!(segment_length(Coord::new(5, 5), Coord::new(5, 5)), 0);
    let east_at_30 = segment_length(Coord::new(0, 300_000_000), Coord::new(1_000_000, 300_000_000));
    assert_eq!(east_at_30, 866_024);
}
