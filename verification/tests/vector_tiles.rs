//! Vector sources and the tiles made of them.

use flate2::read::GzDecoder;
use geo::{BooleanOps, BoundingRect, MapCoords, Simplify};
use geo_types::{
    Coord, Geometry, LineString, MultiLineString, MultiPolygon, Point, Polygon, Rect,
};
use geotiles::error::{EncodeStep, Error, Invalid};
use geotiles::geometry::{Clipped, GeomKind, QuantizedGeom, RawPolygon};
use geotiles::layer_json::vector_layers_json;
use geotiles::mercator::TileCoord;
use geotiles::pyramid::{Edges, PyramidMetadata, PyramidStats, TileSink};
use geotiles::source::SourceCrs;
use geotiles::text::{comes_before, same_text, sort_by_key};
use geotiles::vector::{parse_number, RawFeature, VectorFeature, VectorLayer, VectorSource};
use geotiles::vector_pyramid::{check_options, generate_mvt};
use geotiles::vector_tile::{encode_features, encode_geometry, pack_tile, InTile, MvtOptions};
use std::collections::HashMap;
use std::f64::consts::PI;
use std::io::Read;
use surtgis_core::vector::AttributeValue;

const EARTH_RADIUS_M: f64 = 6_378_137.0;
const ORIGIN_SHIFT_M: f64 = PI * EARTH_RADIUS_M;

type Shape = (Geometry<f64>, (f64, f64, f64, f64));

struct MemSink {
    tiles: HashMap<(u8, u32, u32), Vec<u8>>,
    meta: Option<(String, String, Option<String>)>,
}

impl MemSink {
    fn new() -> Self {
        Self { tiles: HashMap::new(), meta: None }
    }
}

impl TileSink for MemSink {
    fn put(&mut self, c: TileCoord, data: &[u8]) -> Result<(), Error> {
        self.tiles.insert((c.z, c.x, c.y), data.to_vec());
        Ok(())
    }
    fn finalize(&mut self, meta: &PyramidMetadata) -> Result<(), Error> {
        self.meta = Some((meta.name.clone(), meta.format.to_string(), meta.json.clone()));
        Ok(())
    }
}

fn lonlat_to_meters(lon: f64, lat: f64) -> (f64, f64) {
    let mx = lon.to_radians() * EARTH_RADIUS_M;
    let my = ((PI / 4.0 + lat.to_radians() / 2.0).tan()).ln() * EARTH_RADIUS_M;
    (mx, my)
}

fn meters_to_lonlat(mx: f64, my: f64) -> (f64, f64) {
    let lon = (mx / EARTH_RADIUS_M).to_degrees();
    let lat = (2.0 * (my / EARTH_RADIUS_M).exp().atan() - PI / 2.0).to_degrees();
    (lon, lat)
}

fn project(geom: Geometry<f64>, crs: SourceCrs) -> Option<Shape> {
    let geom = match geom {
        Geometry::Line(l) => Geometry::LineString(vec![l.start, l.end].into()),
        Geometry::Rect(r) => Geometry::Polygon(r.to_polygon()),
        Geometry::Triangle(t) => Geometry::Polygon(t.to_polygon()),
        Geometry::GeometryCollection(_) => return None,
        g => g,
    };
    let geom = match crs {
        SourceCrs::Mercator => geom,
        SourceCrs::LonLat => geom.map_coords(|Coord { x, y }| {
            let (mx, my) = lonlat_to_meters(x, y);
            Coord { x: mx, y: my }
        }),
    };
    let rect = geom.bounding_rect()?;
    Some((geom, (rect.min().x, rect.min().y, rect.max().x, rect.max().y)))
}

fn raw(geometry: Geometry<f64>, id: Option<&str>, props: Vec<(&str, AttributeValue)>) -> RawFeature<Geometry<f64>> {
    RawFeature {
        geometry: Some(geometry),
        id: id.map(String::from),
        properties: props.into_iter().map(|(k, v)| (k.to_string(), v)).collect(),
    }
}

fn extent(features: &[RawFeature<Geometry<f64>>]) -> (bool, bool) {
    let mut x: f64 = 0.0;
    let mut y: f64 = 0.0;
    for f in features {
        if let Some(r) = f.geometry.as_ref().and_then(|g| g.bounding_rect()) {
            x = x.max(r.min().x.abs()).max(r.max().x.abs());
            y = y.max(r.min().y.abs()).max(r.max().y.abs());
        }
    }
    let limit = ORIGIN_SHIFT_M * 1.001;
    (x <= 180.5 && y <= 90.5, x <= limit && y <= limit)
}

fn from_collection(
    name: &str,
    features: Vec<RawFeature<Geometry<f64>>>,
    crs: Option<SourceCrs>,
) -> Result<VectorSource<Shape>, Error> {
    let (degrees, meters) = extent(&features);
    VectorSource::from_collection(name, features, crs, degrees, meters, &project)
}

fn bounds_meters(source: &VectorSource<Shape>) -> (f64, f64, f64, f64) {
    let mut b = (f64::INFINITY, f64::INFINITY, f64::NEG_INFINITY, f64::NEG_INFINITY);
    for f in source.layers().iter().flat_map(|l| &l.features) {
        let s = f.geometry.1;
        b = (b.0.min(s.0), b.1.min(s.1), b.2.max(s.2), b.3.max(s.3));
    }
    b
}

fn bounds_lonlat(source: &VectorSource<Shape>) -> (f64, f64, f64, f64) {
    let (x0, y0, x1, y1) = bounds_meters(source);
    let (w, s) = meters_to_lonlat(x0, y0);
    let (e, n) = meters_to_lonlat(x1, y1);
    (w, s, e, n)
}

fn tile_bounds(c: TileCoord) -> (f64, f64, f64, f64) {
    let span = 2.0 * ORIGIN_SHIFT_M / TileCoord::tiles_per_axis(c.z) as f64;
    let min_x = -ORIGIN_SHIFT_M + c.x as f64 * span;
    let max_y = ORIGIN_SHIFT_M - c.y as f64 * span;
    (min_x, max_y - span, min_x + span, max_y)
}

fn rect_polygon(r: &Rect<f64>) -> Polygon<f64> {
    r.to_polygon()
}

fn clip(opts: &MvtOptions, coord: TileCoord, shape: &Shape) -> InTile {
    let (min_x, min_y, max_x, max_y) = tile_bounds(coord);
    let span = max_x - min_x;
    let buffer = span * opts.buffer as f64 / opts.extent as f64;
    let rect = Rect::new(
        Coord { x: min_x - buffer, y: min_y - buffer },
        Coord { x: max_x + buffer, y: max_y + buffer },
    );
    let b = shape.1;
    if b.0 > rect.max().x || b.2 < rect.min().x || b.1 > rect.max().y || b.3 < rect.min().y {
        return None;
    }
    let tol = span / opts.extent as f64 * f64::from_bits(opts.simplify);
    let scale = opts.extent as f64 / span;
    let qx = |x: f64| (x - min_x) * scale;
    let qy = |y: f64| (max_y - y) * scale;
    let quant = |c: &Coord<f64>| (qx(c.x).round() as i64, qy(c.y).round() as i64);
    let within = |c: &Coord<f64>| {
        c.x >= rect.min().x && c.x <= rect.max().x && c.y >= rect.min().y && c.y <= rect.max().y
    };
    let lines = |m: &MultiLineString<f64>| {
        let cut = rect_polygon(&rect).clip(m, false);
        let cut = if tol > 0.0 { cut.simplify(&tol) } else { cut };
        Clipped::Lines(cut.iter().map(|l| l.coords().map(quant).collect()).collect())
    };
    let polygons = |m: &MultiPolygon<f64>| {
        let cut = MultiPolygon(vec![rect_polygon(&rect)]).intersection(m);
        let cut = if tol > 0.0 { cut.simplify(&tol) } else { cut };
        Clipped::Polygons(
            cut.iter()
                .map(|p| RawPolygon {
                    exterior: p.exterior().coords().map(quant).collect(),
                    interiors: p.interiors().iter().map(|r| r.coords().map(quant).collect()).collect(),
                })
                .collect(),
        )
    };
    let clipped = match &shape.0 {
        Geometry::Point(p) => Clipped::Points([p.0].iter().filter(|c| within(c)).map(quant).collect()),
        Geometry::LineString(l) => lines(&MultiLineString(vec![l.clone()])),
        Geometry::Polygon(p) => polygons(&MultiPolygon(vec![p.clone()])),
        _ => return None,
    };
    let (x0, y0) = (b.0.max(rect.min().x), b.1.max(rect.min().y));
    let (x1, y1) = (b.2.min(rect.max().x), b.3.min(rect.max().y));
    let score: f64 = if x1 <= x0 || y1 <= y0 {
        0.0
    } else {
        (qx(x1) - qx(x0)).max(0.0) * (qy(y0) - qy(y1)).abs()
    };
    Some((clipped, score.to_bits()))
}

fn run(source: &VectorSource<Shape>, opts: &MvtOptions, sink: &mut MemSink) -> Result<PyramidStats, Error> {
    let b = bounds_meters(source);
    let edges = |z: u8| -> Edges {
        let span = 2.0 * ORIGIN_SHIFT_M / (1u64 << z) as f64;
        let eps = span * 1e-9;
        let col = |x: f64| ((x + ORIGIN_SHIFT_M) / span).floor() as i64;
        let row = |y: f64| ((ORIGIN_SHIFT_M - y) / span).floor() as i64;
        (col(b.0), row(b.1 + eps), col(b.2 - eps), row(b.3))
    };
    let cut = |c: TileCoord, g: &Shape| clip(opts, c, g);
    generate_mvt(source, opts, (0, 0, 0, 0), &edges, sink, &cut, &|_| {})
}

fn square(x: f64, y: f64, size: f64) -> Geometry<f64> {
    let ring = vec![(x, y), (x + size, y), (x + size, y + size), (x, y + size), (x, y)];
    Geometry::Polygon(Polygon::new(LineString::from(ring), vec![]))
}

fn source() -> VectorSource<Shape> {
    let poly = Geometry::Polygon(Polygon::new(
        LineString::from(vec![(-71.6, -33.1), (-70.9, -33.1), (-70.9, -32.4), (-71.6, -32.4), (-71.6, -33.1)]),
        vec![],
    ));
    let line = Geometry::LineString(LineString::from(vec![(-71.55, -33.05), (-71.0, -32.5)]));
    let features = vec![
        raw(poly, None, vec![("name", AttributeValue::String("zona".into()))]),
        raw(line, Some("7"), vec![]),
        raw(Geometry::Point(Point::new(-71.3, -32.8)), None, vec![]),
    ];
    from_collection("capa", features, None).unwrap()
}

fn collection() -> Vec<RawFeature<Geometry<f64>>> {
    let poly = Geometry::Polygon(Polygon::new(
        LineString::from(vec![(-71.5, -33.0), (-71.0, -33.0), (-71.0, -32.5), (-71.5, -33.0)]),
        vec![],
    ));
    vec![
        raw(
            poly,
            None,
            vec![
                ("name", AttributeValue::String("cuenca".into())),
                ("area_km2", AttributeValue::Float(12.5)),
            ],
        ),
        raw(
            Geometry::LineString(LineString::from(vec![(-71.4, -32.9), (-71.2, -32.7)])),
            Some("42"),
            vec![],
        ),
        raw(Geometry::Point(Point::new(-71.3, -32.8)), None, vec![]),
    ]
}

fn push(
    source: &mut VectorSource<Shape>,
    name: &str,
    features: Vec<RawFeature<Geometry<f64>>>,
) -> Result<(), Error> {
    let (degrees, meters) = extent(&features);
    source.push_file(name, features, None, degrees, meters, &project)
}

#[test]
fn builds_single_layer_in_mercator() {
    let src = from_collection("capa", collection(), None).unwrap();
    assert_eq!(src.layers().len(), 1);
    let layer = &src.layers()[0];
    assert_eq!(layer.name, "capa");
    assert_eq!(layer.features.len(), 3);

    // Coordinates are mercator meters now (about -7.96e6 for -71.5 degrees).
    let (x0, _, x1, _) = bounds_meters(&src);
    assert!(x0 < -7.9e6 && x1 < -7.9e6, "expected mercator: {x0}..{x1}");
    // Round-trip back to degrees.
    let (w, s, e, n) = bounds_lonlat(&src);
    assert!((w - -71.5).abs() < 1e-9 && (e - -71.0).abs() < 1e-9);
    assert!(s < n);
}

#[test]
fn numeric_id_survives_and_props_sorted() {
    let src = from_collection("capa", collection(), None).unwrap();
    let layer = &src.layers()[0];
    assert_eq!(layer.features[1].id, Some(42));
    let keys: Vec<&str> = layer.features[0].properties.iter().map(|(k, _)| k.as_str()).collect();
    assert_eq!(keys, ["area_km2", "name"]);
}

#[test]
fn mercator_input_passes_through() {
    let (mx, my) = lonlat_to_meters(-71.0, -33.0);
    let src = from_collection("m", vec![raw(Geometry::Point(Point::new(mx, my)), None, vec![])], None).unwrap();
    let (w, _, _, _) = bounds_lonlat(&src);
    assert!((w - -71.0).abs() < 1e-6);
}

#[test]
fn multi_layer_via_push() {
    let mut src = from_collection("a", collection(), None).unwrap();
    let (degrees, meters) = extent(&collection());
    src.push_layer("b", collection(), None, degrees, meters, &project).unwrap();
    assert_eq!(src.layers().len(), 2);
    assert_eq!(src.layers()[1].name, "b");
}

#[test]
fn push_file_reads_and_rejects_duplicate_names() {
    let points = || vec![raw(Geometry::Point(Point::new(-71.0, -33.0)), None, vec![("k", AttributeValue::Int(1))])];
    let mut src = from_collection("base", collection(), None).unwrap();
    push(&mut src, "puntos", points()).unwrap();
    assert_eq!(src.layers().len(), 2);
    assert_eq!(src.layers()[1].name, "puntos");

    // Same name twice -> rejected.
    assert!(push(&mut src, "puntos", points()).is_err());
    assert_eq!(push(&mut src, "base", points()), Err(Error::InvalidInput(Invalid::DuplicateLayer)));
    assert_eq!(src.layers().len(), 2);
    assert!(src.name_taken("puntos") && !src.name_taken("punto"));
}

#[test]
fn rejects_empty_input() {
    assert!(from_collection("x", vec![], None).is_err());
    let none = from_collection("x", vec![], None).err();
    assert_eq!(none, Some(Error::InvalidInput(Invalid::NoFeatures)));
    let far = vec![raw(Geometry::Point(Point::new(1e9, 0.0)), None, vec![])];
    assert_eq!(from_collection("x", far, None).err(), Some(Error::InvalidInput(Invalid::VectorCrs)));
}

#[test]
fn rect_normalizes_to_polygon() {
    let rect = Geometry::Rect(Rect::new(Coord { x: -71.0, y: -33.0 }, Coord { x: -70.0, y: -32.0 }));
    let src = from_collection("r", vec![raw(rect, None, vec![])], None).unwrap();
    assert!(matches!(src.layers()[0].features[0].geometry.0, Geometry::Polygon(_)));
}

#[test]
fn numbers_are_read_as_std_reads_them() {
    for text in ["0", "42", "+7", "007", "", "+", "-1", " 1", "1 ", "1e3", "18446744073709551615", "18446744073709551616", "99999999999999999999", "\u{663}"] {
        assert_eq!(parse_number(text), text.parse::<u64>().ok(), "{text:?}");
    }
}

#[test]
fn texts_are_ordered_as_std_orders_them() {
    let words = ["", "a", "ab", "b", "B", "ñ", "z", "\u{10000}", "\u{ffff}", "zz"];
    for a in words {
        for b in words {
            assert_eq!(comes_before(a, b), a < b);
            assert_eq!(same_text(a, b), a == b);
        }
    }
    let items: Vec<(String, usize)> =
        ["b", "a", "c", "a"].iter().enumerate().map(|(i, k)| (k.to_string(), i)).collect();
    let mut want = items.clone();
    want.sort_by(|x, y| x.0.cmp(&y.0));
    assert_eq!(sort_by_key(items), want);
}

#[test]
fn generates_gzipped_pbf_tiles() {
    let opts = MvtOptions { min_zoom: 0, max_zoom: 8, ..Default::default() };
    let mut sink = MemSink::new();
    let stats = run(&source(), &opts, &mut sink).unwrap();
    assert!(stats.written >= 9, "one tile per zoom at least: {stats:?}");
    for data in sink.tiles.values() {
        assert_eq!(&data[..2], &[0x1f, 0x8b], "tiles must be gzip");
    }
    let (_, format, json) = sink.meta.unwrap();
    assert_eq!(format, "pbf");
    let json = json.unwrap();
    assert!(json.contains("\"vector_layers\""), "{json}");
    assert!(json.contains("\"capa\""));
    assert!(json.contains("\"name\": \"String\""));
}

#[test]
fn uncompressed_tiles_are_raw_protobuf() {
    let opts = MvtOptions { min_zoom: 6, max_zoom: 6, compress: false, ..Default::default() };
    let mut sink = MemSink::new();
    run(&source(), &opts, &mut sink).unwrap();
    // protobuf field 3 (layer), wire type 2 -> first byte 0x1A.
    let data = sink.tiles.values().next().unwrap();
    assert_eq!(data[0], 0x1A, "expected raw MVT protobuf");

    // Gzipped, the same tile holds the same bytes.
    let mut packed = MemSink::new();
    run(&source(), &MvtOptions { compress: true, ..opts }, &mut packed).unwrap();
    for (coord, data) in &sink.tiles {
        let mut plain = vec![];
        GzDecoder::new(&packed.tiles[coord][..]).read_to_end(&mut plain).unwrap();
        assert_eq!(&plain, data);
    }
}

#[test]
fn drop_densest_respects_tile_budget() {
    // Many small polygons clustered in one tile. With a tiny budget the
    // largest features survive and the total size stays under budget.
    let mut features = vec![];
    for i in 0..200 {
        let x0 = -71.5 + (i % 10) as f64 * 0.002;
        let y0 = -33.0 + (i / 10) as f64 * 0.002;
        // First 20 features are big; the rest are tiny.
        let size = if i < 20 { 0.02 } else { 0.0002 };
        let ring = vec![(x0, y0), (x0 + size, y0), (x0 + size, y0 + size), (x0, y0)];
        let p = Polygon::new(LineString::from(ring), vec![]);
        features.push(raw(Geometry::Polygon(p), None, vec![("i", AttributeValue::Int(i))]));
    }
    let src = from_collection("polys", features, None).unwrap();

    // Without dropping, the tile is large.
    let opts_all = MvtOptions { min_zoom: 11, max_zoom: 11, compress: false, ..Default::default() };
    let mut sink_all = MemSink::new();
    run(&src, &opts_all, &mut sink_all).unwrap();
    let big = sink_all.tiles.values().next().expect("a tile");

    // With a small budget, output must shrink and stay under budget.
    let opts_drop = MvtOptions {
        min_zoom: 11,
        max_zoom: 11,
        compress: false,
        drop_densest: true,
        max_tile_bytes: 2000,
        ..Default::default()
    };
    let mut sink_drop = MemSink::new();
    run(&src, &opts_drop, &mut sink_drop).unwrap();
    assert!(sink_drop.tiles.values().all(|t| t.len() <= opts_drop.max_tile_bytes));
    let small = sink_drop.tiles.values().next().expect("a tile");

    assert!(small.len() < big.len(), "dropping must shrink the tile: {} vs {}", small.len(), big.len());
    // And it must fit the budget (protobuf overhead is small).
    assert!(small.len() <= opts_drop.max_tile_bytes + 64, "over budget: {}", small.len());
}

#[test]
fn tiny_polygon_vanishes_at_low_zoom_but_not_high() {
    // A square of about 100 m.
    let (mx, my) = lonlat_to_meters(-71.3, -32.8);
    let src = from_collection("p", vec![raw(square(mx, my, 100.0), None, vec![])], Some(SourceCrs::Mercator)).unwrap();

    let mut low = MemSink::new();
    let low_stats = run(&src, &MvtOptions { min_zoom: 2, max_zoom: 2, ..Default::default() }, &mut low);
    // At z2 the square is far below one tile unit -> tile skipped.
    assert!(low_stats.unwrap().written == 0);

    let mut high = MemSink::new();
    let high_stats =
        run(&src, &MvtOptions { min_zoom: 14, max_zoom: 14, ..Default::default() }, &mut high).unwrap();
    assert!(high_stats.written >= 1);
}

#[test]
fn options_are_checked_before_any_tile() {
    let zooms = MvtOptions { min_zoom: 5, max_zoom: 2, ..Default::default() };
    assert_eq!(check_options(&zooms), Err(Error::InvalidInput(Invalid::ZoomRange(5, 2))));
    let flat = MvtOptions { extent: 0, ..Default::default() };
    let mut sink = MemSink::new();
    assert_eq!(run(&source(), &flat, &mut sink), Err(Error::InvalidInput(Invalid::Extent)));
    assert!(sink.tiles.is_empty() && sink.meta.is_none());
}

fn layer(name: &str, props: Vec<Vec<(&str, AttributeValue)>>) -> VectorLayer<()> {
    VectorLayer {
        name: name.to_string(),
        features: props
            .into_iter()
            .map(|p| VectorFeature {
                geometry: (),
                id: None,
                properties: p.into_iter().map(|(k, v)| (k.to_string(), v)).collect(),
            })
            .collect(),
    }
}

#[test]
fn layers_are_described_by_their_first_values() {
    let source = VectorSource {
        layers: vec![
            layer(
                "a \"quoted\"",
                vec![
                    vec![("n", AttributeValue::Null), ("z", AttributeValue::Bool(true))],
                    vec![("n", AttributeValue::Int(1)), ("b", AttributeValue::String("x".into()))],
                    vec![("n", AttributeValue::String("late".into())), ("f", AttributeValue::Float(0.5))],
                ],
            ),
            layer("empty", vec![]),
        ],
    };
    let opts = MvtOptions { min_zoom: 2, max_zoom: 14, ..Default::default() };
    assert_eq!(
        vector_layers_json(&source, &opts),
        "{\"vector_layers\": [{\"id\": \"a \\\"quoted\\\"\", \"minzoom\": 2, \"maxzoom\": 14, \
         \"fields\": {\"b\": \"String\", \"f\": \"Number\", \"n\": \"Number\", \"z\": \"Boolean\"}}, \
         {\"id\": \"empty\", \"minzoom\": 2, \"maxzoom\": 14, \"fields\": {}}]}"
    );
}

#[test]
fn coordinates_past_32_bits_are_an_error() {
    let geom = |p: (i64, i64)| QuantizedGeom { kind: GeomKind::Point, parts: vec![vec![p]] };
    assert!(encode_geometry(&geom((i32::MAX as i64, i32::MIN as i64))).is_ok());
    let far = Error::Encode(EncodeStep::Geometry);
    assert_eq!(encode_geometry(&geom((i32::MAX as i64 + 1, 0))).err(), Some(far));
    assert_eq!(encode_geometry(&geom((0, i32::MIN as i64 - 1))).err(), Some(far));
}

#[test]
fn lines_reach_the_last_column_and_row() {
    let (min, max) = (i32::MIN as i64, i32::MAX as i64);
    let line = |a: (i64, i64), b: (i64, i64)| {
        encode_geometry(&QuantizedGeom { kind: GeomKind::Linestring, parts: vec![vec![a, b]] })
    };
    // Each is one move and one line.
    assert_eq!(line((0, 0), (max, max)).unwrap().len(), 6);
    assert_eq!(line((max, -7), (3, max)).unwrap().len(), 6);
    assert_eq!(line((max, min), (max, max)).unwrap().len(), 6);
    assert_eq!(line((min, min), (max - 1, max - 1)).unwrap().len(), 6);
    assert!(line((min, 0), (max, max)).is_err());
}

#[test]
fn geometry_words_are_those_of_the_format() {
    // Move to (25, 17): one command and two parameters.
    let point = QuantizedGeom { kind: GeomKind::Point, parts: vec![vec![(25, 17)]] };
    assert_eq!(encode_geometry(&point).unwrap().len(), 3);
    // Two lines: each moves once and draws the rest.
    let lines = QuantizedGeom {
        kind: GeomKind::Linestring,
        parts: vec![vec![(2, 2), (2, 10), (10, 10)], vec![(1, 1), (3, 5)]],
    };
    assert_eq!(encode_geometry(&lines).unwrap().len(), 8 + 6);
    // A ring is closed by one more command.
    let ring = QuantizedGeom { kind: GeomKind::Polygon, parts: vec![vec![(3, 6), (8, 12), (20, 34)]] };
    assert_eq!(encode_geometry(&ring).unwrap().len(), 9);
}

/// The payloads of a protobuf field of bytes.
fn fields(data: &[u8], field: u64) -> Vec<Vec<u8>> {
    let mut out = vec![];
    let mut i = 0;
    let varint = |i: &mut usize| {
        let mut v = 0u64;
        let mut shift = 0;
        loop {
            let b = data[*i];
            *i += 1;
            v |= ((b & 0x7f) as u64) << shift;
            shift += 7;
            if b < 0x80 {
                return v;
            }
        }
    };
    while i < data.len() {
        let key = varint(&mut i);
        match key & 7 {
            0 => {
                let v = varint(&mut i);
                if key >> 3 == field {
                    out.push(v.to_le_bytes().to_vec());
                }
            }
            1 => {
                if key >> 3 == field {
                    out.push(data[i..i + 8].to_vec());
                }
                i += 8;
            }
            2 => {
                let n = varint(&mut i) as usize;
                if key >> 3 == field {
                    out.push(data[i..i + n].to_vec());
                }
                i += n;
            }
            _ => panic!("unexpected wire type"),
        }
    }
    out
}

#[test]
fn tiles_group_features_by_layer_name() {
    let feature = |id: Option<u64>, props: Vec<(&str, AttributeValue)>| VectorFeature {
        geometry: (),
        id,
        properties: props.into_iter().map(|(k, v)| (k.to_string(), v)).collect(),
    };
    let source = VectorSource {
        layers: vec![
            VectorLayer {
                name: "roads".to_string(),
                features: vec![feature(Some(9), vec![
                    ("b", AttributeValue::Bool(true)),
                    ("d", AttributeValue::Float(2.5)),
                    ("i", AttributeValue::Int(-3)),
                    ("n", AttributeValue::Null),
                    ("s", AttributeValue::String("x".into())),
                ])],
            },
            VectorLayer { name: "areas".to_string(), features: vec![feature(None, vec![])] },
            VectorLayer {
                name: "roads".to_string(),
                features: vec![feature(None, vec![]), feature(None, vec![])],
            },
        ],
    };
    let point = |x: i64| Some((Clipped::Points(vec![(x, 0)]), 1u64));
    let seen = vec![vec![point(1)], vec![point(2)], vec![None, point(3)]];
    let items = encode_features(&source, seen).unwrap();
    assert_eq!(items.len(), 3);
    let opts = MvtOptions { compress: false, ..Default::default() };
    let tile = pack_tile(items, &opts).unwrap().unwrap();
    let layers = fields(&tile, 3);
    // One layer per name, in the order of the source.
    let names: Vec<Vec<u8>> = layers.iter().map(|l| fields(l, 1)[0].clone()).collect();
    assert_eq!(names, vec![b"roads".to_vec(), b"areas".to_vec()]);
    assert_eq!(fields(&layers[1], 2).len(), 1);
    let roads = fields(&layers[0], 2);
    assert_eq!(roads.len(), 2);
    assert_eq!(fields(&roads[0], 1)[0], 9u64.to_le_bytes());
    // All values but the missing one became tags, in order.
    let keys = [b"b", b"d", b"i", b"s"].map(|k| k.to_vec());
    assert_eq!(fields(&layers[0], 3), keys);
    let values = fields(&layers[0], 4);
    assert_eq!(fields(&values[0], 7)[0][0], 1);
    assert_eq!(fields(&values[1], 3)[0], 2.5f64.to_le_bytes());
    assert_eq!(fields(&values[2], 4)[0], (-3i64).to_le_bytes());
    assert_eq!(fields(&values[3], 1)[0], b"x");
    // The extent is that of the options.
    assert_eq!(fields(&layers[0], 5)[0], 4096u64.to_le_bytes());
}

#[test]
fn a_tile_without_features_is_none() {
    let opts = MvtOptions::default();
    assert_eq!(pack_tile(vec![], &opts), Ok(None));
    // Nothing fits a budget below one feature.
    let source = VectorSource { layers: vec![layer("l", vec![vec![]])] };
    let items = encode_features(&source, vec![vec![Some((Clipped::Points(vec![(1, 1)]), 5))]]).unwrap();
    let tight = MvtOptions { drop_densest: true, max_tile_bytes: 11, ..Default::default() };
    assert_eq!(pack_tile(items, &tight), Ok(None));
    // A degenerate geometry leaves nothing behind.
    let items = encode_features(&source, vec![vec![Some((Clipped::Lines(vec![vec![(1, 1)]]), 5))]]).unwrap();
    assert!(items.is_empty());
}

#[test]
fn the_densest_go_first_and_the_rest_keep_their_order() {
    let names = ["a", "b", "c", "d"];
    let source = VectorSource {
        layers: names.iter().map(|n| layer(n, vec![vec![]])).collect(),
    };
    let scores = [5u64, 1, 5, 9];
    let seen: Vec<Vec<InTile>> =
        scores.iter().map(|s| vec![Some((Clipped::Points(vec![(1, 1)]), *s))]).collect();
    let items = encode_features(&source, seen).unwrap();
    // Each costs twelve bytes: two fit.
    let rest = geotiles::vector_tile::drop_densest(items, 24);
    let kept: Vec<&str> = rest.iter().map(|i| i.layer).collect();
    assert_eq!(kept, vec!["c", "d"]);
    let all = geotiles::vector_tile::drop_densest(rest, 24);
    assert_eq!(all.len(), 2);
}

#[test]
fn tags_count_towards_the_budget() {
    // Points with long names: four bytes for each word of their geometry fit the
    // budget, their tags do not.
    let props = |i: usize| vec![("name", AttributeValue::String(format!("{i:0>90}")))];
    let source = VectorSource { layers: vec![layer("l", (0..10).map(props).collect())] };
    let seen = || -> Vec<Vec<InTile>> {
        vec![(0..10).map(|i| Some((Clipped::Points(vec![(i, i)]), i as u64))).collect()]
    };
    let budgeted =
        || MvtOptions { compress: false, drop_densest: true, ..Default::default() };
    let tile = |bytes: usize| {
        let items = encode_features(&source, seen()).unwrap();
        let opts = MvtOptions { max_tile_bytes: bytes, ..budgeted() };
        pack_tile(items, &opts).unwrap()
    };
    let all = tile(100_000).unwrap();
    let some = tile(500).unwrap();
    assert!(all.len() > 900 && some.len() <= 500);
    let kept = fields(&fields(&some, 3)[0], 2).len();
    assert!(kept >= 3, "{kept} kept");
    // One more would not fit: what is dropped is dropped for a reason.
    assert!(some.len() + 110 > 500);
    // The largest footprints stay.
    assert!(String::from_utf8_lossy(&some).contains(&format!("{:0>90}", 9)));
    assert_eq!(tile(60), None);
    assert_eq!(tile(all.len()), Some(all));
}
