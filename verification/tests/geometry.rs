//! Geometry in integer tile coordinates.

use geotiles::error::{EncodeStep, Error};
use geotiles::geometry::{
    avoid_shared_endpoints, checked_area2, dedupe, quantize, quantize_lines, quantize_polygons,
    quantize_ring, Clipped, GeomKind, RawPolygon,
};

fn area2(pts: &[(i64, i64)]) -> i64 {
    let mut area2 = 0i64;
    for i in 0..pts.len() {
        let (x0, y0) = pts[i];
        let (x1, y1) = pts[(i + 1) % pts.len()];
        area2 += x0 * y1 - x1 * y0;
    }
    area2
}

#[test]
fn shared_endpoint_lines_are_separated() {
    // Two line parts that touch at a quantized point: the encoder would
    // otherwise merge them into invalid command runs.
    let mut parts = vec![vec![(0i64, 0i64), (10, 0)], vec![(10, 0), (10, 10)]];
    avoid_shared_endpoints(&mut parts, false);
    assert_ne!(parts[1][0], parts[0][parts[0].len() - 1]);
}

#[test]
fn shared_endpoint_rings_are_rotated() {
    let mut parts = vec![
        vec![(0i64, 0i64), (10, 0), (10, 10), (5, 5)],
        vec![(5, 5), (2, 2), (3, 1)],
    ];
    avoid_shared_endpoints(&mut parts, true);
    assert_ne!(parts[1][0], parts[0][parts[0].len() - 1]);
    // Ring rotation preserves the vertex set.
    assert_eq!(parts[1].len(), 3);
}

#[test]
fn winding_normalization() {
    // Counter-clockwise ring in tile coords (y down) must be reversed for an
    // exterior.
    let ring = [(0.0, 0.0), (0.0, 10.0), (10.0, 10.0), (10.0, 0.0), (0.0, 0.0)];
    let points: Vec<(i64, i64)> = ring.iter().map(|c: &(f64, f64)| (c.0 as i64, c.1 as i64)).collect();
    let pts = quantize_ring(&points, true).unwrap();
    assert!(area2(&pts) > 0, "exterior must end up clockwise (positive area)");
}

#[test]
fn degenerate_ring_is_dropped() {
    let ring = [(0.0, 0.0), (0.2, 0.2), (0.4, 0.4), (0.0, 0.0)];
    let points: Vec<(i64, i64)> =
        ring.iter().map(|c: &(f64, f64)| (c.0.round() as i64, c.1.round() as i64)).collect();
    // Quantizes to collinear/duplicate points -> dropped.
    assert!(quantize_ring(&points, true).is_none());
}

#[test]
fn lines_are_turned_and_rings_begun_elsewhere() {
    let mut lines = vec![vec![(0, 0), (10, 0)], vec![(10, 0), (10, 10)], vec![(3, 3), (4, 4)]];
    avoid_shared_endpoints(&mut lines, false);
    assert_eq!(lines, vec![vec![(0, 0), (10, 0)], vec![(10, 10), (10, 0)], vec![(3, 3), (4, 4)]]);
    let mut rings = vec![vec![(0, 0), (9, 0), (5, 5)], vec![(5, 5), (5, 5), (2, 2), (3, 1)]];
    avoid_shared_endpoints(&mut rings, true);
    assert_eq!(rings[1], vec![(2, 2), (3, 1), (5, 5), (5, 5)]);
    assert_eq!(area2(&rings[1]), area2(&[(5, 5), (5, 5), (2, 2), (3, 1)]));
}

#[test]
fn a_part_that_is_only_the_shared_point_is_dropped() {
    let mut rings = vec![vec![(0, 0), (1, 0), (1, 1)], vec![(1, 1), (1, 1)], vec![(7, 7), (8, 8)]];
    avoid_shared_endpoints(&mut rings, true);
    assert_eq!(rings, vec![vec![(0, 0), (1, 0), (1, 1)], vec![(7, 7), (8, 8)]]);
    let mut lines = vec![vec![(0, 0), (1, 1)], vec![(1, 1), (2, 2), (1, 1)]];
    avoid_shared_endpoints(&mut lines, false);
    assert_eq!(lines.len(), 1);
    let mut none: Vec<Vec<(i64, i64)>> = vec![];
    avoid_shared_endpoints(&mut none, true);
    assert!(none.is_empty());
}

#[test]
fn runs_are_reduced_once_and_for_all() {
    let pts = [(1, 1), (1, 1), (2, 2), (1, 1), (1, 1)];
    let once = dedupe(&pts);
    assert_eq!(once, vec![(1, 1), (2, 2), (1, 1)]);
    assert_eq!(dedupe(&once), once);
    assert!(dedupe(&[]).is_empty());
}

#[test]
fn areas_turn_with_the_ring() {
    let square = [(0, 0), (10, 0), (10, 10), (0, 10)];
    assert_eq!(checked_area2(&square), Some(200));
    let rotated = [(10, 10), (0, 10), (0, 0), (10, 0)];
    assert_eq!(checked_area2(&rotated), Some(200));
    let mut back = square.to_vec();
    back.reverse();
    assert_eq!(checked_area2(&back), Some(-200));
    assert_eq!(checked_area2(&[]), Some(0));
    assert_eq!(checked_area2(&[(i64::MAX, 0), (0, i64::MAX), (1, 1)]), None);
}

#[test]
fn rings_take_the_winding_of_their_role() {
    let square = [(0, 0), (10, 0), (10, 10), (0, 10), (0, 0)];
    let ext = quantize_ring(&square, true).unwrap();
    let hole = quantize_ring(&square, false).unwrap();
    assert_eq!(ext, vec![(0, 0), (10, 0), (10, 10), (0, 10)]);
    assert_eq!(hole, vec![(0, 10), (10, 10), (10, 0), (0, 0)]);
    assert!(area2(&ext) > 0 && area2(&hole) < 0);
}

#[test]
fn lines_need_two_points() {
    let geom = quantize_lines(&vec![vec![(1, 1), (1, 1)], vec![(0, 0), (0, 0), (5, 5)]]).unwrap();
    assert_eq!(geom.kind, GeomKind::Linestring);
    assert_eq!(geom.parts, vec![vec![(0, 0), (5, 5)]]);
    assert!(quantize_lines(&vec![vec![(1, 1)]]).is_none());
}

#[test]
fn a_polygon_falls_with_its_exterior() {
    let square = vec![(0, 0), (10, 0), (10, 10), (0, 10), (0, 0)];
    let hole = vec![(2, 2), (4, 2), (4, 4), (2, 4), (2, 2)];
    let flat = vec![(0, 0), (5, 0), (9, 0), (0, 0)];
    let geom = quantize_polygons(&vec![
        RawPolygon { exterior: flat.clone(), interiors: vec![hole.clone()] },
        RawPolygon { exterior: square.clone(), interiors: vec![hole.clone(), flat] },
    ])
    .unwrap()
    .unwrap();
    assert_eq!(geom.kind, GeomKind::Polygon);
    assert_eq!(geom.parts.len(), 2);
    assert!(area2(&geom.parts[0]) > 0);
    assert!(area2(&geom.parts[1]) < 0);
}

#[test]
fn areas_past_64_bits_are_an_error() {
    let far = i64::MAX;
    let got = quantize(Clipped::Polygons(vec![RawPolygon {
        exterior: vec![(far, 0), (0, far), (1, 1), (far, 0)],
        interiors: vec![],
    }]));
    assert_eq!(got.err(), Some(Error::Encode(EncodeStep::RingArea)));
}

#[test]
fn points_stay_as_they_are() {
    let geom = quantize(Clipped::Points(vec![(3, 4), (3, 4)])).unwrap().unwrap();
    assert_eq!(geom.kind, GeomKind::Point);
    assert_eq!(geom.parts, vec![vec![(3, 4), (3, 4)]]);
    assert!(quantize(Clipped::Points(vec![])).unwrap().is_none());
    assert!(quantize(Clipped::Lines(vec![])).unwrap().is_none());
}
