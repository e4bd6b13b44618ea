//! Tile addresses.

use geotiles::mercator::{zoom_for_resolution, TileCoord, TileRange};
use geotiles::pyramid::{count_tiles, list_tiles};
use std::f64::consts::PI;

const EARTH_RADIUS_M: f64 = 6_378_137.0;
const ORIGIN_SHIFT_M: f64 = PI * EARTH_RADIUS_M;

fn lonlat_to_meters(lon: f64, lat: f64) -> (f64, f64) {
    let mx = lon.to_radians() * EARTH_RADIUS_M;
    let my = ((PI / 4.0 + lat.to_radians() / 2.0).tan()).ln() * EARTH_RADIUS_M;
    (mx, my)
}

fn resolution(zoom: u8, tile_size: u32) -> f64 {
    2.0 * ORIGIN_SHIFT_M / (tile_size as f64 * (1u64 << zoom) as f64)
}

fn for_bounds(b: (f64, f64, f64, f64), z: u8) -> TileRange {
    let span = 2.0 * ORIGIN_SHIFT_M / TileCoord::tiles_per_axis(z) as f64;
    let eps = span * 1e-9;
    let col = |x: f64| ((x + ORIGIN_SHIFT_M) / span).floor() as i64;
    let row = |y: f64| ((ORIGIN_SHIFT_M - y) / span).floor() as i64;
    TileRange::for_bounds(col(b.0), row(b.1 + eps), col(b.2 - eps), row(b.3), z)
}

#[test]
fn tms_flip() {
    let t = TileCoord { z: 3, x: 1, y: 0 };
    assert_eq!(t.tms_row(), 7);
    let t = TileCoord { z: 3, x: 1, y: 7 };
    assert_eq!(t.tms_row(), 0);
}

#[test]
fn tms_flip_twice_is_the_row_itself() {
    for y in 0..16u32 {
        let t = TileCoord { z: 4, x: 0, y };
        let flipped = TileCoord { z: 4, x: 0, y: t.tms_row() };
        assert_eq!(flipped.tms_row(), y);
    }
    assert_eq!(TileCoord { z: 31, x: 0, y: 0 }.tms_row(), 0x7fff_ffff);
}

#[test]
fn resolution_halves_per_zoom() {
    assert!((resolution(0, 256) - 156_543.033_928_041).abs() < 1e-6);
    assert!((resolution(1, 256) - resolution(0, 256) / 2.0).abs() < 1e-9);
    assert_eq!(zoom_for_resolution(|z| resolution(z, 256) <= 156_543.04), 0);
    assert_eq!(zoom_for_resolution(|z| resolution(z, 256) <= 30.0), 13);
}

#[test]
fn no_zoom_is_fine_enough_for_nothing() {
    assert_eq!(zoom_for_resolution(|_| false), 30);
    assert_eq!(zoom_for_resolution(|z| z >= 7), 7);
}

#[test]
fn tile_range_for_quadrant() {
    // NE quadrant of the world at z1 must be exactly tile (1, 0).
    let r = for_bounds((0.0, 0.0, ORIGIN_SHIFT_M, ORIGIN_SHIFT_M), 1);
    assert_eq!((r.x_min, r.x_max, r.y_min, r.y_max), (1, 1, 0, 0));
    assert_eq!(r.count(), 1);
}

#[test]
fn tile_range_clamps_to_world() {
    let huge = (-1e9, -1e9, 1e9, 1e9);
    let r = for_bounds(huge, 2);
    assert_eq!((r.x_min, r.x_max, r.y_min, r.y_max), (0, 3, 0, 3));
    assert_eq!(r.count(), 16);
    assert_eq!(r.iter().len(), 16);
}

#[test]
fn santiago_tile_z10() {
    // Santiago de Chile (-70.65, -33.45) is in tile (311, 613) at z10.
    let (mx, my) = lonlat_to_meters(-70.65, -33.45);
    let r = for_bounds((mx, my, mx, my), 10);
    assert_eq!((r.x_min, r.y_min), (311, 613));
}

#[test]
fn ranges_list_each_tile_once_row_by_row() {
    let r = TileRange { z: 5, x_min: 3, x_max: 5, y_min: 7, y_max: 8 };
    let tiles = r.iter();
    let xy: Vec<(u32, u32)> = tiles.iter().map(|t| (t.x, t.y)).collect();
    assert_eq!(xy, vec![(3, 7), (4, 7), (5, 7), (3, 8), (4, 8), (5, 8)]);
    assert_eq!(r.count(), 6);
    assert!(tiles.iter().all(|t| t.z == 5));
    let none = TileRange { z: 5, x_min: 5, x_max: 3, y_min: 7, y_max: 8 };
    assert!(none.iter().is_empty());
}

#[test]
fn counting_and_listing_agree() {
    let edges = |z: u8| {
        let n = 1i64 << z;
        (n / 4, n / 2, n / 2, n / 4)
    };
    let tiles = list_tiles(0, 6, &edges);
    assert_eq!(count_tiles(0, 6, &edges), tiles.len() as u64);
    assert_eq!(tiles[0], TileCoord { z: 0, x: 0, y: 0 });
    assert!(tiles.iter().all(|t| t.x < TileCoord::tiles_per_axis(t.z)));
}

#[test]
fn a_covering_range_is_never_empty() {
    // A point on a tile corner: its far edges fall before its near ones.
    let r = TileRange::for_bounds(1, 0, 0, 1, 1);
    assert_eq!((r.x_min, r.x_max, r.y_min, r.y_max), (1, 1, 1, 1));
    assert_eq!((r.count(), r.iter().len()), (1, 1));
    let r = for_bounds((0.0, 0.0, 0.0, 0.0), 1);
    assert_eq!(r.count(), 1);
    // Far outside the world it is the nearest tile.
    let r = TileRange::for_bounds(-9, 50, -5, 40, 3);
    assert_eq!((r.x_min, r.x_max, r.y_min, r.y_max), (0, 0, 7, 7));
}
