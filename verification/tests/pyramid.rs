//! Raster sources, sampled and tiled.

use geotiles::cog::{write_cog, CogOptions, RasterInfo};
use geotiles::cog_layout::GeoRef;
use geotiles::error::{EncodeStep, Error, Invalid};
use geotiles::grid::Grid;
use geotiles::images::{compose_rgba, encode_rgba, TileFormat, JPEG_QUALITY};
use geotiles::mercator::{zoom_for_resolution, TileCoord, TileRange};
use geotiles::pyramid::{
    count_tiles, generate, list_tiles, resolve_shading, run_tiles, stretch_of, zoom_range, Edges, MemorySink, PyramidMetadata, PyramidOptions, PyramidStats,
    Shading, TileSink, WindowBudget, WINDOW_BUDGET,
};
use geotiles::raster_pyramid::generate_raster;
use geotiles::render::{render_tile_color, render_tile_gray, render_tile_image, render_tile_rgb};
use geotiles::source::{
    Band, CrsHints, FileSource, PixelBox, RasterSource, Resampling, SourceCrs, SourceData, Window,
};
use geotiles::window::{
    area_cells, band_minmax, extremes, read_band_window, select_bands, window_source, AreaSample, Chunk,
    ChunkLayout,
};
use std::cell::RefCell;
use std::collections::HashMap;
use std::f64::consts::PI;
use std::io::Cursor;
use surtgis_colormap::{raster_to_rgba, ColorScheme, ColormapParams};
use surtgis_core::{GeoTransform, Raster, CRS};
use tiff::decoder::{ChunkType, Decoder, DecodingResult, Limits};

const EARTH_RADIUS_M: f64 = 6_378_137.0;
const ORIGIN_SHIFT_M: f64 = PI * EARTH_RADIUS_M;
const MAX_LATITUDE_DEG: f64 = 85.051_128_779_806_59;

type Source = RasterSource<f64, GeoTransform>;
type Options = PyramidOptions<f64>;

fn lonlat_to_meters(lon: f64, lat: f64) -> (f64, f64) {
    let lat = lat.clamp(-MAX_LATITUDE_DEG, MAX_LATITUDE_DEG);
    let mx = lon.to_radians() * EARTH_RADIUS_M;
    let my = ((PI / 4.0 + lat.to_radians() / 2.0).tan()).ln() * EARTH_RADIUS_M;
    (mx, my)
}

fn meters_to_lonlat(mx: f64, my: f64) -> (f64, f64) {
    let lon = (mx / EARTH_RADIUS_M).to_degrees();
    let lat = (2.0 * (my / EARTH_RADIUS_M).exp().atan() - PI / 2.0).to_degrees();
    (lon, lat)
}

fn resolution(zoom: u8, tile_size: u32) -> f64 {
    2.0 * ORIGIN_SHIFT_M / (tile_size as f64 * (1u64 << zoom) as f64)
}

fn tile_bounds(c: TileCoord) -> (f64, f64, f64, f64) {
    let span = 2.0 * ORIGIN_SHIFT_M / TileCoord::tiles_per_axis(c.z) as f64;
    let min_x = -ORIGIN_SHIFT_M + c.x as f64 * span;
    let max_y = ORIGIN_SHIFT_M - c.y as f64 * span;
    (min_x, max_y - span, min_x + span, max_y)
}

fn edges(b: (f64, f64, f64, f64), z: u8) -> Edges {
    let span = 2.0 * ORIGIN_SHIFT_M / TileCoord::tiles_per_axis(z) as f64;
    let eps = span * 1e-9;
    let col = |x: f64| ((x + ORIGIN_SHIFT_M) / span).floor() as i64;
    let row = |y: f64| ((ORIGIN_SHIFT_M - y) / span).floor() as i64;
    (col(b.0), row(b.1 + eps), col(b.2 - eps), row(b.3))
}

fn to_grid(r: &Raster<f64>) -> Grid<f64> {
    let cells =
        r.data().iter().map(|&v| if v.is_nan() || r.is_nodata(v) { None } else { Some(v) });
    Grid::new(r.rows(), r.cols(), cells.collect()).unwrap()
}

fn north_up(t: &GeoTransform) -> bool {
    t.is_north_up()
}

fn aligned(a: &GeoTransform, b: &GeoTransform) -> bool {
    let (x, y) = (a.to_gdal(), b.to_gdal());
    !x.iter().zip(&y).any(|(p, q)| (p - q).abs() > 1e-9)
}

fn hints(r: &Raster<f64>) -> CrsHints {
    let (min_x, min_y, max_x, max_y) = r.bounds();
    let limit = ORIGIN_SHIFT_M * 1.001;
    CrsHints {
        epsg: r.crs().and_then(|c| c.epsg()),
        looks_geographic: min_x >= -180.5 && max_x <= 180.5 && min_y >= -90.5 && max_y <= 90.5,
        looks_mercator: min_x.abs() <= limit && max_x.abs() <= limit && (max_x - min_x) > 360.0,
    }
}

fn band(r: &Raster<f64>) -> Band<f64, GeoTransform> {
    Band { grid: to_grid(r), transform: *r.transform() }
}

fn open(r: &Raster<f64>, crs: Option<SourceCrs>) -> Result<Source, Error> {
    RasterSource::new(band(r), crs, hints(r), &north_up, &aligned)
}

fn open_multi(rasters: &[Raster<f64>]) -> Result<Source, Error> {
    let bands = rasters.iter().map(band).collect();
    RasterSource::new_multi(bands, None, hints(&rasters[0]), &north_up, &aligned)
}

fn placed(s: &Source) -> (GeoTransform, usize, usize) {
    match &s.data {
        SourceData::Memory(b) => (b[0].transform, b[0].grid.rows, b[0].grid.cols),
        SourceData::File(f) => (f.transform, f.rows, f.cols),
    }
}

fn bounds(s: &Source) -> (f64, f64, f64, f64) {
    let (t, rows, cols) = placed(s);
    let (x0, y0) = t.pixel_to_geo_corner(0, 0);
    let (x1, y1) = t.pixel_to_geo_corner(cols, rows);
    (x0.min(x1), y0.min(y1), x0.max(x1), y0.max(y1))
}

fn bounds_meters(s: &Source) -> (f64, f64, f64, f64) {
    let (min_x, min_y, max_x, max_y) = bounds(s);
    match s.crs() {
        SourceCrs::Mercator => (min_x, min_y, max_x, max_y),
        SourceCrs::LonLat => {
            let (mx0, my0) = lonlat_to_meters(min_x.max(-180.0), min_y);
            let (mx1, my1) = lonlat_to_meters(max_x.min(180.0), max_y);
            (mx0, my0, mx1, my1)
        }
    }
}

fn native_resolution(s: &Source) -> f64 {
    let cell = placed(s).0.cell_size();
    match s.crs() {
        SourceCrs::Mercator => cell,
        SourceCrs::LonLat => cell * ORIGIN_SHIFT_M / 180.0,
    }
}

fn native_max_zoom(s: &Source, tile_size: u32) -> u8 {
    let native = native_resolution(s);
    zoom_for_resolution(|z| resolution(z, tile_size) <= native)
}

fn in_source(s: &Source, mx: f64, my: f64) -> (f64, f64) {
    match s.crs() {
        SourceCrs::Mercator => (mx, my),
        SourceCrs::LonLat => meters_to_lonlat(mx, my),
    }
}

fn sample_band(s: &Source, b: usize, mx: f64, my: f64, method: Resampling) -> Option<f64> {
    let (sx, sy) = in_source(s, mx, my);
    let (col, row) = s.band_opt(b)?.transform.geo_to_pixel(sx, sy);
    if let Resampling::Nearest = method {
        return s.valid_at(b, row.floor() as i64, col.floor() as i64);
    }
    let (u, v) = (col - 0.5, row - 0.5);
    let (fu, fv) = (u - u.floor(), v - v.floor());
    let (a, b, c, d) = s.bilinear_cells(b, v.floor() as i64, u.floor() as i64);
    let mut acc = 0.0;
    let mut wsum = 0.0;
    for (cell, w) in [
        (a, (1.0 - fu) * (1.0 - fv)),
        (b, fu * (1.0 - fv)),
        (c, (1.0 - fu) * fv),
        (d, fu * fv),
    ] {
        if let (Some(value), true) = (cell, w > 0.0) {
            acc += value * w;
            wsum += w;
        }
    }
    (wsum >= 0.5).then(|| acc / wsum)
}

fn sample(s: &Source, mx: f64, my: f64, method: Resampling) -> Option<f64> {
    sample_band(s, 0, mx, my, method)
}

fn sample_area_band(s: &Source, b: usize, r: (f64, f64, f64, f64)) -> Option<f64> {
    let ((sx0, sy0), (sx1, sy1)) = (in_source(s, r.0, r.1), in_source(s, r.2, r.3));
    let t = s.band_opt(b)?.transform;
    let (ca, ra) = t.geo_to_pixel(sx0.min(sx1), sy0.max(sy1));
    let (cb, rb) = t.geo_to_pixel(sx0.max(sx1), sy0.min(sy1));
    let start = |x: f64, y: f64| (x.min(y) - 0.5).ceil() as i64;
    let end = |x: f64, y: f64| (x.max(y) - 0.5).floor() as i64;
    match area_cells(s, b, start(ra, rb), end(ra, rb), start(ca, cb), end(ca, cb))? {
        AreaSample::Point => {
            let (mx, my) = ((r.0 + r.2) / 2.0, (r.1 + r.3) / 2.0);
            sample_band(s, b, mx, my, Resampling::Bilinear)
        }
        AreaSample::Cells(values) => {
            let n = values.len();
            (n > 0).then(|| values.iter().sum::<f64>() / n as f64)
        }
    }
}

fn sample_area(s: &Source, mx0: f64, my0: f64, mx1: f64, my1: f64) -> Option<f64> {
    sample_area_band(s, 0, (mx0, my0, mx1, my1))
}

fn sample_pixel(s: &Source, b: usize, c: TileCoord, o: &Options, row: usize, col: usize) -> Option<f64> {
    let (min_x, _, _, max_y) = tile_bounds(c);
    let res = resolution(c.z, o.tile_size);
    let mx = min_x + (col as f64 + 0.5) * res;
    let my = max_y - (row as f64 + 0.5) * res;
    if res > 2.0 * native_resolution(s) {
        let half = res / 2.0;
        sample_area_band(s, b, (mx - half, my - half, mx + half, my + half))
    } else {
        sample_band(s, b, mx, my, o.resampling)
    }
}

fn colour(n: usize, o: &Options, lo: f64, hi: f64, cells: &[Option<f64>]) -> Vec<u8> {
    let mut tile = Raster::filled(n, n, f64::NAN);
    for (k, v) in cells.iter().enumerate() {
        if let Some(v) = v {
            tile.set(k / n, k % n, *v).unwrap();
        }
    }
    raster_to_rgba(&tile, &ColormapParams::with_range(o.scheme, lo, hi))
}

fn level(v: f64, (lo, hi): (f64, f64)) -> u8 {
    ((v - lo) * (1.0 / (hi - lo)) * 255.0).clamp(0.0, 255.0) as u8
}

fn render(
    s: &Source,
    c: TileCoord,
    o: &Options,
    shading: &Shading<f64>,
    file: Option<&Bytes>,
) -> Result<Option<Vec<u8>>, Error> {
    let at = if s.is_file_backed() { Some(box_at(s, c)) } else { None };
    let read = |band: usize, w: Window| file.unwrap().window(band, w, placed(s).0);
    render_tile_image(
        s,
        at,
        &read,
        shading,
        (0.0, 255.0),
        o.tile_size,
        o.format,
        &|part: &Source, b, row, col| sample_pixel(part, b, c, o, row, col),
        &|lo, hi, cells: &Vec<Option<f64>>| colour(o.tile_size as usize, o, lo, hi, cells),
        &level,
    )
}

fn minmax(s: &Source) -> (f64, f64) {
    let values: Vec<f64> = s.raster().grid.cells.iter().flatten().copied().collect();
    let keys = values.iter().map(|v| Some((*v as i64 + (1 << 40)) as u64)).collect();
    let (lo, hi) = extremes(&keys).unwrap();
    ((lo as i64 - (1 << 40)) as f64, (hi as i64 - (1 << 40)) as f64)
}

/// A GeoTIFF in memory.
struct Bytes(Vec<u8>);

impl Bytes {
    fn decoder(&self) -> Decoder<Cursor<&[u8]>> {
        Decoder::new(Cursor::new(self.0.as_slice())).unwrap().with_limits(Limits::unlimited())
    }

    fn layout(&self) -> ChunkLayout {
        let mut d = self.decoder();
        let (cols, rows) = d.dimensions().unwrap();
        let (width, height) = d.chunk_dimensions();
        let spp = d.get_tag_u32(tiff::tags::Tag::SamplesPerPixel).unwrap_or(1);
        ChunkLayout {
            rows: rows as usize,
            cols: cols as usize,
            samples_per_pixel: spp as usize,
            chunk_width: width as usize,
            chunk_height: height as usize,
            tiled: d.get_chunk_type() == ChunkType::Tile,
        }
    }

    fn window(&self, b: usize, w: Window, t: GeoTransform) -> Result<Band<f64, GeoTransform>, Error> {
        let d = RefCell::new(self.decoder());
        let read = |i: u32| -> Result<Chunk<f64>, Error> {
            let mut d = d.borrow_mut();
            let (width, height) = d.chunk_data_dimensions(i);
            let values: Vec<f64> = match d.read_chunk(i).unwrap() {
                DecodingResult::F32(v) => v.into_iter().map(f64::from).collect(),
                DecodingResult::F64(v) => v,
                _ => return Err(Error::Read),
            };
            let samples = values.into_iter().map(|v| (!v.is_nan()).then_some(v)).collect();
            Ok(Chunk { width: width as usize, height: height as usize, samples })
        };
        let grid = read_band_window(&self.layout(), b, w.col0, w.row0, w.width, w.height, &read)?;
        let transform = GeoTransform::new(
            t.origin_x + w.col0 as f64 * t.pixel_width,
            t.origin_y + w.row0 as f64 * t.pixel_height,
            t.pixel_width,
            t.pixel_height,
        );
        Ok(Band { grid, transform })
    }
}

fn cog_bytes(r: &Raster<f64>, tile_size: u32) -> Bytes {
    let t = r.transform();
    let about = RasterInfo {
        epsg: r.crs().and_then(|c| c.epsg()),
        georef: GeoRef {
            pixel_width: t.pixel_width.to_bits(),
            pixel_height: t.pixel_height.abs().to_bits(),
            origin_x: t.origin_x.to_bits(),
            origin_y: t.origin_y.to_bits(),
        },
        nodata: "NaN".to_string(),
        fill: f32::NAN.to_bits(),
    };
    let mean = |a: Option<f64>, b: Option<f64>, c: Option<f64>, d: Option<f64>| {
        let v: Vec<f64> = [a, b, c, d].into_iter().flatten().collect();
        (!v.is_empty()).then(|| v.iter().sum::<f64>() / v.len() as f64)
    };
    let opts = CogOptions { tile_size, ..Default::default() };
    Bytes(write_cog(&to_grid(r), &about, &opts, &mean, &|v| (v as f32).to_bits()).unwrap().0)
}

fn file_source(bytes: &Bytes, r: &Raster<f64>) -> Source {
    let l = bytes.layout();
    let file = FileSource {
        path: "stream.tif".to_string(),
        bands: vec![0],
        rows: l.rows,
        cols: l.cols,
        transform: *r.transform(),
    };
    let hints = CrsHints { epsg: Some(4326), looks_geographic: true, looks_mercator: false };
    RasterSource::open_file(file, None, true, hints).unwrap()
}

fn window_at(s: &Source, c: TileCoord) -> Option<Window> {
    s.window_rect(Some(box_at(s, c)))
}

fn box_at(s: &Source, c: TileCoord) -> PixelBox {
    let (x0, y0, x1, y1) = tile_bounds(c);
    let t = placed(s).0;
    let (sx0, sy0) = in_source(s, x0, y1);
    let (sx1, sy1) = in_source(s, x1, y0);
    let (ca, ra) = t.geo_to_pixel(sx0, sy0);
    let (cb, rb) = t.geo_to_pixel(sx1, sy1);
    PixelBox {
        col_low: ca.min(cb).floor() as i64,
        row_low: ra.min(rb).floor() as i64,
        col_high: ca.max(cb).ceil() as i64,
        row_high: ra.max(rb).ceil() as i64,
    }
}

struct Run {
    tiles: HashMap<(u8, u32, u32), Vec<u8>>,
    stats: PyramidStats,
    meta: PyramidMetadata,
}

fn run_with(s: &Source, o: &Options, file: Option<&Bytes>) -> Result<Run, Error> {
    let b = bounds_meters(s);
    let l = bounds(s);
    let mut sink = MemorySink::new();
    let stats = generate_raster(
        s.band_count(),
        native_max_zoom(s, o.tile_size),
        o,
        (0.0, 255.0),
        &|lo, hi| lo >= hi,
        &|| Ok(minmax(s)),
        (l.0.to_bits(), l.1.to_bits(), l.2.to_bits(), l.3.to_bits()),
        &|z: u8| edges(b, z),
        &mut sink,
        &|shading: &Shading<f64>, c: TileCoord| render(s, c, o, shading, file),
        &|_| {},
    );
    let stats = match stats {
        Ok(stats) => stats,
        Err(e) => {
            assert!(sink.tiles.is_empty() && sink.closed.is_empty());
            return Err(e);
        }
    };
    assert_eq!(sink.closed.len(), 1);
    let tiles = sink.tiles.into_iter().map(|(c, d)| ((c.z, c.x, c.y), d)).collect();
    Ok(Run { tiles, stats, meta: sink.closed.remove(0) })
}

fn run(s: &Source, o: &Options) -> Result<Run, Error> {
    run_with(s, o, None)
}

fn zooms(min: u8, max: u8) -> Options {
    PyramidOptions { min_zoom: Some(min), max_zoom: Some(max), ..Default::default() }
}

/// Gradient raster over (-5..5) degrees of longitude and latitude.
fn source() -> Source {
    let n = 64;
    let mut r = Raster::new(n, n);
    for i in 0..n {
        for j in 0..n {
            r.set(i, j, (i + j) as f64).unwrap();
        }
    }
    r.set_transform(GeoTransform::new(-5.0, 5.0, 10.0 / n as f64, -10.0 / n as f64));
    r.set_crs(Some(CRS::from_epsg(4326)));
    open(&r, None).unwrap()
}

fn constant_bands(n: usize, values: &[f64]) -> Vec<Raster<f64>> {
    values
        .iter()
        .map(|&v| {
            let mut r = Raster::filled(n, n, v);
            r.set_transform(GeoTransform::new(-5.0, 5.0, 10.0 / n as f64, -10.0 / n as f64));
            r.set_crs(Some(CRS::from_epsg(4326)));
            r
        })
        .collect()
}

/// 4x4 raster covering (0..4)E x (0..4)N, value = row*10 + col.
fn lonlat_raster() -> Raster<f64> {
    let mut r = Raster::new(4, 4);
    for row in 0..4 {
        for col in 0..4 {
            r.set(row, col, (row * 10 + col) as f64).unwrap();
        }
    }
    r.set_transform(GeoTransform::new(0.0, 4.0, 1.0, -1.0));
    r.set_crs(Some(CRS::from_epsg(4326)));
    r
}

#[test]
fn generates_pyramid_with_valid_pngs() {
    let got = run(&source(), &zooms(0, 4)).unwrap();
    assert!(got.stats.written >= 5, "at least one tile per zoom level");
    assert_eq!(got.tiles.len() as u64, got.stats.written);
    for png in got.tiles.values() {
        assert_eq!(&png[..8], &[0x89, b'P', b'N', b'G', b'\r', b'\n', 0x1A, b'\n']);
    }
    assert!(got.tiles.contains_key(&(0, 0, 0)));
    assert_eq!((got.meta.min_zoom, got.meta.max_zoom), (0, 4));
    assert!((f64::from_bits(got.meta.bounds_lonlat.0) - -5.0).abs() < 1e-9);
}

#[test]
fn webp_format_produces_valid_webp_tiles() {
    let opts = PyramidOptions { format: TileFormat::WebP, ..zooms(0, 3) };
    let got = run(&source(), &opts).unwrap();
    assert!(got.stats.written >= 4);
    for tile in got.tiles.values() {
        assert_eq!(&tile[..4], b"RIFF", "expected RIFF header");
        assert_eq!(&tile[8..12], b"WEBP", "expected WEBP fourcc");
    }
    assert_eq!(got.meta.format, "webp");
}

#[test]
fn file_backed_matches_in_memory_pyramid() {
    let n = 128;
    let mut r = Raster::new(n, n);
    for i in 0..n {
        for j in 0..n {
            let v = if i < 4 || j < 4 { f64::NAN } else { (i * 10 + j) as f64 };
            r.set(i, j, v).unwrap();
        }
    }
    r.set_transform(GeoTransform::new(-71.0, -33.0, 0.01, -0.01));
    r.set_crs(Some(CRS::from_epsg(4326)));
    let bytes = cog_bytes(&r, 32);
    let in_mem = open(&r, None).unwrap();
    let file_backed = file_source(&bytes, &r);

    let opts = PyramidOptions { range: Some((0.0, 1300.0)), ..zooms(0, 4) };
    let a = run(&in_mem, &opts).unwrap();
    let b = run_with(&file_backed, &opts, Some(&bytes)).unwrap();
    assert_eq!(a.tiles.len(), b.tiles.len());
    for (coord, bytes) in &a.tiles {
        assert_eq!(
            bytes,
            b.tiles.get(coord).expect("same tile in file-backed"),
            "tile {coord:?} differs between in-memory and file-backed"
        );
    }
}

#[test]
fn file_backed_window_is_small() {
    let n = 2000;
    let mut r = Raster::new(n, n);
    for i in 0..n {
        for j in 0..n {
            r.set(i, j, (i + j) as f64).unwrap();
        }
    }
    r.set_transform(GeoTransform::new(-71.5, -32.5, 1.0 / n as f64, -1.0 / n as f64));
    r.set_crs(Some(CRS::from_epsg(4326)));
    let bytes = cog_bytes(&r, 256);
    let src = file_source(&bytes, &r);
    assert!(src.is_file_backed());

    let e = edges(bounds_meters(&src), 12);
    let coord = TileRange::for_bounds(e.0, e.1, e.2, e.3, 12).iter()[0];
    let read = |b: usize, w: Window| bytes.window(b, w, placed(&src).0);
    let win = window_source(&src, Some(box_at(&src, coord)), &read).unwrap().unwrap();
    let (rows, cols) = (win.band(0).grid.rows, win.band(0).grid.cols);
    assert!(cols < 100 && rows < 100, "window too large: {rows}x{cols}");
    let full = open(&r, None).unwrap();
    assert!(window_source(&full, None, &read).unwrap().is_none());

    // The window holds the values of the raster, and its bytes are counted.
    let w = window_at(&src, coord).unwrap();
    assert_eq!(win.band(0).grid.get(0, 0), Some((w.row0 + w.col0) as f64));
    assert_eq!(src.window_bytes(Some(w)), Some(w.width * w.height * 8));
    assert_eq!(src.window_bytes(None), None);
}

#[test]
fn jpeg_format_produces_valid_jpeg_tiles() {
    let opts = PyramidOptions { format: TileFormat::Jpeg, ..zooms(0, 3) };
    let got = run(&source(), &opts).unwrap();
    assert!(got.stats.written >= 4);
    for tile in got.tiles.values() {
        assert_eq!(&tile[..2], &[0xFF, 0xD8], "expected JPEG SOI marker");
    }
    assert_eq!(got.meta.format, "jpeg");
}

#[test]
fn jpeg_composites_transparency_on_black() {
    let n = 64;
    let mut bands = vec![];
    for value in [200.0, 100.0, 50.0] {
        let mut r = Raster::filled(n, n, f64::NAN);
        for j in 0..n {
            for i in 0..n {
                if i >= 2 && j >= 2 {
                    r.set(i, j, value).unwrap();
                }
            }
        }
        r.set_transform(GeoTransform::new(-5.0, 5.0, 10.0 / n as f64, -10.0 / n as f64));
        r.set_crs(Some(CRS::from_epsg(4326)));
        bands.push(r);
    }
    let src = open_multi(&bands).unwrap();
    let opts = PyramidOptions { format: TileFormat::Jpeg, ..zooms(0, 1) };
    let got = run(&src, &opts).unwrap();
    let bytes = got.tiles.get(&(0, 0, 0)).expect("expected zoom-0 tile");
    let mut decoder = jpeg_decoder::Decoder::new(Cursor::new(bytes));
    let pixels = decoder.decode().expect("decode jpeg tile");
    let info = decoder.info().expect("jpeg info");
    let stride = match info.pixel_format {
        jpeg_decoder::PixelFormat::L8 => 1,
        _ => 3,
    };
    let get = |i: usize, j: usize| {
        let off = (j * info.width as usize + i) * stride;
        let (r, g, b) = (pixels[off], pixels[off + 1], pixels[off + 2]);
        r.max(g).max(b)
    };
    assert!(get(0, 0) <= 40, "transparent corner should be near-black");
    let cx = info.width as usize / 2;
    let cy = info.height as usize / 2;
    assert!(get(cx, cy) > 100, "opaque centre should be bright, got {}", get(cx, cy));
}

#[test]
fn count_matches_enumeration() {
    let src = source();
    let opts = zooms(0, 3);
    let b = bounds_meters(&src);
    let counted = count_tiles(0, 3, &|z| edges(b, z));
    let got = run(&src, &opts).unwrap();
    assert_eq!(counted, got.stats.written + got.stats.skipped);
    assert_eq!(counted, list_tiles(0, 3, &|z| edges(b, z)).len() as u64);
}

#[test]
fn rgb_source_renders_color_tiles() {
    let src = open_multi(&constant_bands(64, &[200.0, 100.0, 50.0])).unwrap();
    assert_eq!(src.band_count(), 3);
    let got = run(&src, &zooms(2, 4)).unwrap();
    assert!(got.stats.written > 0);
    for png in got.tiles.values() {
        assert_eq!(&png[..4], &[0x89, b'P', b'N', b'G']);
    }
}

#[test]
fn band_ranges_stretch_each_channel_independently() {
    let n = 32;
    let mut bands = vec![];
    for value in [128.0, 64.0, 192.0] {
        let mut r = Raster::filled(n, n, value);
        r.set_transform(GeoTransform::new(-180.0, 180.0, 360.0 / n as f64, -360.0 / n as f64));
        r.set_crs(Some(CRS::from_epsg(4326)));
        bands.push(r);
    }
    let src = open_multi(&bands).unwrap();
    let opts = PyramidOptions {
        band_ranges: Some(vec![(0.0, 256.0), (0.0, 64.0), (128.0, 256.0)]),
        ..zooms(3, 3)
    };
    let got = run(&src, &opts).unwrap();
    let data = got.tiles.values().next().expect("at least one tile");
    let img = image::load_from_memory(data).unwrap().to_rgba8();
    let (cx, cy) = (img.width() / 2, img.height() / 2);
    let px = img.get_pixel(cx, cy);
    assert!((px.0[0] as i32 - 127).abs() <= 2, "R={}", px.0[0]);
    assert!((px.0[1] as i32 - 255).abs() <= 2, "G={}", px.0[1]);
    assert!((px.0[2] as i32 - 128).abs() <= 2, "B={}", px.0[2]);
}

#[test]
fn invalid_band_range_is_rejected() {
    let src = open_multi(&constant_bands(32, &[128.0, 100.0, 50.0])).unwrap();
    let opts = PyramidOptions { band_ranges: Some(vec![(0.0, 0.0)]), ..zooms(0, 1) };
    assert_eq!(run(&src, &opts).err(), Some(Error::InvalidInput(Invalid::BandStretch)));
}

#[test]
fn rgba_alpha_band_controls_transparency() {
    let src = open_multi(&constant_bands(64, &[200.0, 100.0, 50.0, 0.0])).unwrap();
    let got = run(&src, &zooms(3, 3)).unwrap();
    assert!(got.stats.written > 0);
    for png in got.tiles.values() {
        let img = image::load_from_memory(png).unwrap().to_rgba8();
        assert!(img.pixels().all(|p| p.0[3] == 0));
    }
}

#[test]
fn small_raster_covers_every_low_zoom() {
    let n = 32;
    let mut r = Raster::new(n, n);
    for i in 0..n {
        for j in 0..n {
            r.set(i, j, (i + j) as f64).unwrap();
        }
    }
    r.set_transform(GeoTransform::new(-71.5, -32.8, 0.002, -0.002));
    r.set_crs(Some(CRS::from_epsg(4326)));
    let got = run(&open(&r, None).unwrap(), &zooms(0, 6)).unwrap();
    for z in 0..=6u8 {
        assert!(got.tiles.keys().any(|&(tz, _, _)| tz == z), "zoom {z} has no tiles");
    }
}

#[test]
fn rejects_inverted_zooms() {
    assert_eq!(
        run(&source(), &zooms(5, 2)).err(),
        Some(Error::InvalidInput(Invalid::ZoomRange(5, 2)))
    );
}

#[test]
fn detects_crs_from_epsg() {
    assert_eq!(open(&lonlat_raster(), None).unwrap().crs(), SourceCrs::LonLat);
}

#[test]
fn rejects_unsupported_epsg() {
    let mut r = lonlat_raster();
    r.set_crs(Some(CRS::from_epsg(32719)));
    assert_eq!(open(&r, None).err(), Some(Error::InvalidInput(Invalid::SourceCrs(32719))));
    assert_eq!(open(&r, Some(SourceCrs::Mercator)).unwrap().crs(), SourceCrs::Mercator);
}

#[test]
fn heuristic_detects_degrees_without_crs() {
    let mut r = lonlat_raster();
    r.set_crs(None);
    assert_eq!(open(&r, None).unwrap().crs(), SourceCrs::LonLat);
    // Meters, and bounds that can be neither.
    r.set_transform(GeoTransform::new(0.0, 4000.0, 1000.0, -1000.0));
    assert_eq!(open(&r, None).unwrap().crs(), SourceCrs::Mercator);
    r.set_transform(GeoTransform::new(1e9, 1e9, 1.0, -1.0));
    assert_eq!(open(&r, None).err(), Some(Error::InvalidInput(Invalid::AmbiguousCrs)));
}

#[test]
fn nearest_sample_hits_cell_value() {
    let src = open(&lonlat_raster(), None).unwrap();
    let (mx, my) = lonlat_to_meters(2.5, 3.5);
    assert_eq!(sample(&src, mx, my, Resampling::Nearest), Some(2.0));
    let (mx, my) = lonlat_to_meters(0.5, 0.5);
    assert_eq!(sample(&src, mx, my, Resampling::Nearest), Some(30.0));
}

#[test]
fn bilinear_interpolates_between_centers() {
    let src = open(&lonlat_raster(), None).unwrap();
    let (mx, my) = lonlat_to_meters(1.0, 0.5);
    let v = sample(&src, mx, my, Resampling::Bilinear).unwrap();
    assert!((v - 30.5).abs() < 1e-9, "got {v}");
}

#[test]
fn outside_raster_is_none() {
    let src = open(&lonlat_raster(), None).unwrap();
    let (mx, my) = lonlat_to_meters(10.0, 10.0);
    assert_eq!(sample(&src, mx, my, Resampling::Bilinear), None);
}

#[test]
fn nodata_is_none_and_does_not_bleed() {
    let mut r = lonlat_raster();
    r.set_nodata(Some(-9999.0));
    r.set(0, 2, -9999.0).unwrap();
    let src = open(&r, None).unwrap();
    let (mx, my) = lonlat_to_meters(2.5, 3.5);
    assert_eq!(sample(&src, mx, my, Resampling::Nearest), None);
    let (mx, my) = lonlat_to_meters(1.9, 3.5);
    assert!(sample(&src, mx, my, Resampling::Bilinear).is_some());
}

#[test]
fn area_average_over_whole_raster_is_mean() {
    let src = open(&lonlat_raster(), None).unwrap();
    let (mx0, my0) = lonlat_to_meters(0.0, 0.0);
    let (mx1, my1) = lonlat_to_meters(4.0, 4.0);
    let v = sample_area(&src, mx0, my0, mx1, my1).unwrap();
    assert!((v - 16.5).abs() < 1e-9, "got {v}");
}

#[test]
fn area_average_ignores_nodata() {
    let mut r = lonlat_raster();
    r.set_nodata(Some(-9999.0));
    for col in 0..4 {
        for row in 0..4 {
            if !(row == 0 && col == 0) {
                r.set(row, col, -9999.0).unwrap();
            }
        }
    }
    let src = open(&r, None).unwrap();
    let (mx0, my0) = lonlat_to_meters(0.0, 0.0);
    let (mx1, my1) = lonlat_to_meters(4.0, 4.0);
    assert_eq!(sample_area(&src, mx0, my0, mx1, my1), Some(0.0));
}

#[test]
fn area_average_sub_cell_footprint_falls_back_to_point() {
    let src = open(&lonlat_raster(), None).unwrap();
    let (mx, my) = lonlat_to_meters(0.5, 0.5);
    let v = sample_area(&src, mx - 1.0, my - 1.0, mx + 1.0, my + 1.0).unwrap();
    assert!((v - 30.0).abs() < 1e-9, "got {v}");
}

#[test]
fn native_zoom_is_sane_for_one_degree_cells() {
    let src = open(&lonlat_raster(), None).unwrap();
    assert!(native_max_zoom(&src, 256) <= 2);
}

#[test]
fn rgb_roundtrip_via_surtgis_writer() {
    // Each band as surtgis writes it, interleaved into one strip of three.
    let mut back = vec![];
    for b in 0..3usize {
        let mut r = Raster::new(2, 3);
        for i in 0..2 {
            for j in 0..3 {
                r.set(i, j, (b * 100 + i * 10 + j) as f64).unwrap();
            }
        }
        r.set_transform(GeoTransform::new(-71.0, -33.0, 0.1, -0.1));
        r.set_crs(Some(CRS::from_epsg(4326)));
        let bytes = surtgis_core::io::write_geotiff_to_buffer(&r, None).unwrap();
        let read: Raster<f64> =
            surtgis_core::io::read_geotiff_from_buffer(&bytes, None).unwrap();
        back.push(read);
    }
    let layout = ChunkLayout {
        rows: 2,
        cols: 3,
        samples_per_pixel: 3,
        chunk_width: 3,
        chunk_height: 2,
        tiled: false,
    };
    let read = |_: u32| -> Result<Chunk<f64>, Error> {
        let mut samples = vec![];
        for k in 0..6 {
            for r in &back {
                samples.push(Some(r.get(k / 3, k % 3).unwrap()));
            }
        }
        Ok(Chunk { width: 3, height: 2, samples })
    };
    let bands = |list: Option<&Vec<usize>>| -> Result<Vec<Grid<f64>>, Error> {
        select_bands(list, 3)?
            .into_iter()
            .map(|b| read_band_window(&layout, b, 0, 0, 3, 2, &read))
            .collect()
    };
    let all = bands(None).unwrap();
    assert_eq!(all.len(), 3);
    for (b, g) in all.iter().enumerate() {
        assert_eq!((g.rows, g.cols), (2, 3));
        assert_eq!(g.get(1, 2), Some((b * 100 + 12) as f64));
    }
    assert_eq!(back[0].crs().and_then(|c| c.epsg()), Some(4326));
    assert!((back[0].cell_size() - 0.1).abs() < 1e-12);

    let sel = bands(Some(&vec![3, 1])).unwrap();
    assert_eq!(sel[0].get(0, 0), Some(200.0));
    assert_eq!(sel[1].get(0, 0), Some(0.0));
    assert!(bands(Some(&vec![4])).is_err());
}

#[test]
fn sources_are_refused_with_their_reason() {
    let invalid = |i: Invalid| Some(Error::InvalidInput(i));
    let bands = constant_bands(4, &[1.0, 2.0, 3.0]);
    assert_eq!(open_multi(&bands[..2]).err(), invalid(Invalid::BandCount));

    let mut small = bands.clone();
    small[1] = Raster::filled(3, 4, 2.0);
    assert_eq!(open_multi(&small).err(), invalid(Invalid::BandShape(2)));

    let mut moved = bands.clone();
    moved[2].set_transform(GeoTransform::new(-5.5, 5.0, 2.5, -2.5));
    assert_eq!(open_multi(&moved).err(), invalid(Invalid::BandTransform(3)));

    let hints = CrsHints { epsg: Some(4326), looks_geographic: true, looks_mercator: false };
    let flat = Band { grid: Grid::<u8>::new(0, 4, vec![]).unwrap(), transform: () };
    let got = RasterSource::new(flat, None, hints, &|_: &()| true, &|_: &(), _: &()| true);
    assert_eq!(got.err(), invalid(Invalid::EmptyRaster));
    let turned = Band { grid: Grid::new(1, 1, vec![Some(7u8)]).unwrap(), transform: () };
    let got = RasterSource::new(turned, None, hints, &|_: &()| false, &|_: &(), _: &()| true);
    assert_eq!(got.err(), invalid(Invalid::Rotated));
}

#[test]
fn files_are_opened_by_their_header() {
    let file = |bands: Vec<usize>| FileSource {
        path: "a.tif".to_string(),
        bands,
        rows: 10,
        cols: 20,
        transform: (),
    };
    let open = |bands, crs, up, epsg, looks_geographic, looks_mercator| {
        let hints = CrsHints { epsg, looks_geographic, looks_mercator };
        RasterSource::<u8, ()>::open_file(file(bands), crs, up, hints)
    };
    let invalid = |i: Invalid| Some(Error::InvalidInput(i));
    assert_eq!(open(vec![0, 1], None, true, None, true, false).err(), invalid(Invalid::BandCount));
    assert_eq!(open(vec![0], None, false, None, true, false).err(), invalid(Invalid::Rotated));
    let got = open(vec![0], None, true, Some(32719), true, false);
    assert_eq!(got.err(), invalid(Invalid::SourceCrs(32719)));
    let got = open(vec![0], None, true, None, true, false);
    assert_eq!(got.unwrap().crs(), SourceCrs::LonLat);
    let got = open(vec![0], None, true, None, false, true);
    assert_eq!(got.unwrap().crs(), SourceCrs::Mercator);
    // Bounds that look like neither are refused, as those of a raster in memory.
    let got = open(vec![0], None, true, None, false, false);
    assert_eq!(got.err(), invalid(Invalid::AmbiguousCrs));
    let crs = Some(SourceCrs::LonLat);
    let forced = open(vec![0, 1, 2], crs, true, Some(32719), false, false).unwrap();
    assert_eq!(forced.crs(), SourceCrs::LonLat);
    assert_eq!(forced.band_count(), 3);
    assert!(forced.is_file_backed());
    assert!(forced.band_opt(0).is_none());
    assert_eq!(forced.valid_at(0, 0, 0), None);
}

#[test]
fn one_range_stretches_all_colours() {
    let src = open_multi(&constant_bands(32, &[64.0, 128.0, 192.0])).unwrap();
    let opts = PyramidOptions { range: Some((0.0, 256.0)), ..zooms(4, 4) };
    let got = run(&src, &opts).unwrap();
    let mut seen = 0;
    for png in got.tiles.values() {
        let img = image::load_from_memory(png).unwrap().to_rgba8();
        for p in img.pixels().filter(|p| p.0[3] == 255) {
            assert_eq!(p.0, [63, 127, 191, 255]);
            seen += 1;
        }
    }
    assert!(seen > 0);
}

#[test]
fn windows_have_a_margin_and_stay_inside() {
    let file = FileSource {
        path: "a.tif".to_string(),
        bands: vec![0],
        rows: 100,
        cols: 200,
        transform: (),
    };
    let src = RasterSource::<u8, ()>::open_file(
        file,
        None,
        true,
        CrsHints { epsg: Some(3857), looks_geographic: false, looks_mercator: false },
    )
    .unwrap();
    let at = |col_low, row_low, col_high, row_high| {
        src.window_rect(Some(PixelBox { col_low, row_low, col_high, row_high }))
    };
    let w = at(10, 20, 30, 50).unwrap();
    assert_eq!((w.col0, w.row0, w.width, w.height), (8, 18, 24, 34));
    let w = at(-50, -50, 5, 5).unwrap();
    assert_eq!((w.col0, w.row0, w.width, w.height), (0, 0, 7, 7));
    let w = at(190, 95, 500, 500).unwrap();
    assert_eq!((w.col0, w.row0, w.width, w.height), (188, 93, 12, 7));
    assert!(at(300, 20, 400, 50).is_none());
    assert!(at(-40, 20, -3, 50).is_none());
    assert!(src.window_rect(None).is_none());
}

#[test]
fn the_first_band_that_fails_tells_the_error() {
    let file = FileSource {
        path: "a.tif".to_string(),
        bands: vec![4, 2, 7],
        rows: 50,
        cols: 50,
        transform: (),
    };
    let hints = CrsHints { epsg: Some(3857), looks_geographic: false, looks_mercator: false };
    let src = RasterSource::<u8, ()>::open_file(file, None, true, hints).unwrap();
    let at = PixelBox { col_low: 10, row_low: 10, col_high: 12, row_high: 12 };
    let band = |w: Window| Band {
        grid: Grid::new(w.height, w.width, vec![Some(1u8); w.width * w.height]).unwrap(),
        transform: (),
    };
    let seen = RefCell::new(vec![]);
    let read = |b: usize, w: Window| {
        seen.borrow_mut().push((b, w.col0, w.row0, w.width, w.height));
        match b {
            2 => Err(Error::Read),
            7 => Err(Error::Sink),
            _ => Ok(band(w)),
        }
    };
    assert_eq!(window_source(&src, Some(at), &read).err(), Some(Error::Read));
    assert_eq!(seen.borrow().as_slice(), &[(4, 8, 8, 6, 6), (2, 8, 8, 6, 6)]);
    // A tile clear of the file reads nothing.
    let away = PixelBox { col_low: 90, row_low: 10, col_high: 95, row_high: 12 };
    let part = window_source(&src, Some(away), &read).unwrap().unwrap();
    assert_eq!(part.band_count(), 0);
    assert_eq!(seen.borrow().len(), 2);
    let all = window_source(&src, Some(at), &|_, w| Ok(band(w))).unwrap().unwrap();
    assert_eq!((all.band_count(), all.crs()), (3, SourceCrs::Mercator));
    assert_eq!((all.band(2).grid.rows, all.band(2).grid.cols), (6, 6));
}

#[test]
fn areas_are_cut_to_the_raster() {
    let src = open(&lonlat_raster(), None).unwrap();
    let cells = |r0, r1, c0, c1| match area_cells(&src, 0, r0, r1, c0, c1) {
        Some(AreaSample::Cells(v)) => Some(v),
        _ => None,
    };
    assert_eq!(cells(1, 2, 1, 2), Some(vec![11.0, 12.0, 21.0, 22.0]));
    assert_eq!(cells(-9, 0, 3, i64::MAX), Some(vec![3.0]));
    assert_eq!(cells(7, 9, 0, 3), Some(vec![]));
    assert!(matches!(area_cells(&src, 0, 2, 1, 0, 0), Some(AreaSample::Point)));
    assert!(area_cells(&src, 1, 0, 1, 0, 1).is_none());
}

#[test]
fn zooms_and_stretches_have_their_defaults() {
    assert_eq!(zoom_range(None, None, 9), Ok((0, 9)));
    assert_eq!(zoom_range(Some(3), Some(3), 9), Ok((3, 3)));
    let wrong = Error::InvalidInput(Invalid::ZoomRange(4, 3));
    assert_eq!(zoom_range(Some(4), None, 3), Err(wrong));

    let shading = |bands: usize, o: &PyramidOptions<i32>| {
        resolve_shading(bands, o, (0, 255), &|lo, hi| lo >= hi, &|| Ok((-7, 12)))
    };
    let plain = PyramidOptions::<i32>::default();
    assert!(matches!(shading(1, &plain), Ok(Shading::Colormap(-7, 12))));
    assert!(matches!(shading(3, &plain), Ok(Shading::Rgb(v)) if v == vec![(0, 255); 3]));
    let fixed = PyramidOptions { range: Some((1, 5)), ..Default::default() };
    assert!(matches!(shading(1, &fixed), Ok(Shading::Colormap(1, 5))));
    assert!(matches!(shading(4, &fixed), Ok(Shading::Rgb(v)) if v == vec![(1, 5); 3]));
    let each = PyramidOptions {
        range: Some((1, 5)),
        band_ranges: Some(vec![(0, 9), (2, 3)]),
        ..Default::default()
    };
    assert!(matches!(shading(3, &each), Ok(Shading::Rgb(v)) if v == vec![(0, 9), (2, 3)]));
    assert!(matches!(shading(1, &each), Ok(Shading::Colormap(1, 5))));
    let upside = PyramidOptions { range: Some((5, 5)), ..Default::default() };
    assert_eq!(shading(1, &upside).err(), Some(Error::InvalidInput(Invalid::Stretch)));

    let failing = resolve_shading(1, &plain, (0, 255), &|lo, hi| lo >= hi, &|| Err(Error::Read));
    assert_eq!(failing.err(), Some(Error::Read));
}

#[test]
fn bands_without_a_stretch_take_a_default() {
    let stretches = vec![(1, 2), (3, 4)];
    let of = |band| stretch_of(&stretches, band, (0, 255));
    assert_eq!([of(0), of(1), of(2), of(3)], [(1, 2), (3, 4), (0, 255), (1, 2)]);
    assert_eq!(stretch_of(&vec![], 3, (0, 255)), (0, 255));
    assert_eq!(PyramidOptions::<u8>::default().scheme, ColorScheme::Grayscale);
}

#[test]
fn the_largest_and_smallest_are_found() {
    assert_eq!(extremes(&vec![]), None);
    assert_eq!(extremes(&vec![None, None]), None);
    assert_eq!(extremes(&vec![None, Some(5), Some(2), None, Some(9)]), Some((2, 9)));
    assert_eq!(extremes(&vec![Some(4)]), Some((4, 4)));
}

#[test]
fn a_band_is_scanned_window_by_window() {
    // 1500 x 2100 cells in windows of 1024: two down, three across.
    let seen = RefCell::new(vec![]);
    let read = |w: Window| -> Result<Vec<Option<u64>>, Error> {
        seen.borrow_mut().push((w.row0, w.col0, w.width, w.height));
        Ok(match (w.row0, w.col0) {
            (0, 1024) => vec![Some(70), None],
            (1024, 2048) => vec![Some(3), Some(50)],
            _ => vec![None],
        })
    };
    assert_eq!(band_minmax(1500, 2100, &read), Ok(Some((3, 70))));
    let starts: Vec<(i64, i64)> = seen.borrow().iter().map(|s| (s.0, s.1)).collect();
    assert_eq!(
        starts,
        vec![(0, 0), (0, 1024), (0, 2048), (1024, 0), (1024, 1024), (1024, 2048)]
    );
    assert!(seen.borrow().iter().all(|s| (s.2, s.3) == (1024, 1024)));
    assert_eq!(band_minmax(10, 10, &|_: Window| Ok(vec![None])), Ok(None));
    let broken = |w: Window| if w.col0 > 0 { Err(Error::Read) } else { Ok(vec![Some(1)]) };
    assert_eq!(band_minmax(10, 2000, &broken), Err(Error::Read));
    assert_eq!(band_minmax(0, 7, &broken), Ok(None));
}

#[test]
fn window_memory_is_bounded() {
    let mut b = WindowBudget::new(100);
    assert!(b.take(60));
    assert!(!b.take(41));
    assert!(b.take(40));
    assert!(!b.take(1));
    b.give_back(60);
    assert!(b.take(60));
    b.give_back(100);
    assert_eq!((b.free, b.total), (100, 100));
    assert_eq!(WINDOW_BUDGET, 512 * 1024 * 1024);
}

/// A sink that is full after some tiles, or cannot be closed.
struct Limited {
    room: usize,
    stored: Vec<TileCoord>,
    closes: bool,
}

impl TileSink for Limited {
    fn put(&mut self, c: TileCoord, _: &[u8]) -> Result<(), Error> {
        if self.stored.len() == self.room {
            return Err(Error::Sink);
        }
        self.stored.push(c);
        Ok(())
    }
    fn finalize(&mut self, _: &PyramidMetadata) -> Result<(), Error> {
        if self.closes { Ok(()) } else { Err(Error::Sink) }
    }
}

fn world(z: u8) -> Edges {
    let last = TileCoord::tiles_per_axis(z) as i64 - 1;
    (0, last, last, 0)
}

fn some_meta() -> PyramidMetadata {
    PyramidMetadata {
        name: "m".to_string(),
        bounds_lonlat: (0, 0, 0, 0),
        min_zoom: 0,
        max_zoom: 1,
        format: "png",
        json: None,
    }
}

#[test]
fn no_tile_is_listed_twice() {
    let tiles = list_tiles(0, 4, &world);
    assert_eq!(tiles.len(), 1 + 4 + 16 + 64 + 256);
    assert_eq!(count_tiles(0, 4, &world), 341);
    let mut seen: Vec<(u8, u32, u32)> = tiles.iter().map(|c| (c.z, c.x, c.y)).collect();
    seen.sort();
    seen.dedup();
    assert_eq!(seen.len(), tiles.len());
}

#[test]
fn runs_store_in_order_and_count() {
    let mut sink = MemorySink::new();
    let seen = RefCell::new(vec![]);
    let render = |c: TileCoord| -> Result<Option<Vec<u8>>, Error> {
        Ok((c.x == c.y).then(|| vec![c.z, c.x as u8]))
    };
    let progress = |n: u64| seen.borrow_mut().push(n);
    let stats = generate(0, 1, &world, &some_meta(), &mut sink, &render, &progress).unwrap();
    assert_eq!(stats, PyramidStats { written: 3, skipped: 2 });
    assert_eq!(seen.into_inner(), vec![1, 2, 3, 4, 5]);
    let stored: Vec<(u8, u32, u32, Vec<u8>)> =
        sink.tiles.into_iter().map(|(c, d)| (c.z, c.x, c.y, d)).collect();
    assert_eq!(
        stored,
        vec![(0, 0, 0, vec![0, 0]), (1, 0, 0, vec![1, 0]), (1, 1, 1, vec![1, 1])]
    );
    assert_eq!(sink.closed[0].name, "m");
}

#[test]
fn the_first_failure_ends_a_run() {
    let tiles = list_tiles(0, 1, &world);
    let all = |_: TileCoord| -> Result<Option<Vec<u8>>, Error> { Ok(Some(vec![1])) };
    let mut sink = Limited { room: 2, stored: vec![], closes: true };
    assert_eq!(run_tiles(&tiles, &mut sink, &all, &|_| {}), Err(Error::Sink));
    assert_eq!(sink.stored, tiles[..2].to_vec());

    let broken = Error::Encode(EncodeStep::Image(TileFormat::Png));
    let third = tiles[2];
    let some = |c: TileCoord| -> Result<Option<Vec<u8>>, Error> {
        if c == third { Err(broken) } else { Ok(Some(vec![1])) }
    };
    let mut sink = Limited { room: 9, stored: vec![], closes: true };
    assert_eq!(run_tiles(&tiles, &mut sink, &some, &|_| {}), Err(broken));
    assert_eq!(sink.stored, tiles[..2].to_vec());

    let mut sink = Limited { room: 9, stored: vec![], closes: false };
    let got = generate(0, 1, &world, &some_meta(), &mut sink, &all, &|_| {});
    assert_eq!(got, Err(Error::Sink));
    assert_eq!(sink.stored, tiles);
}

#[test]
fn empty_tiles_are_none() {
    let none = |_: usize, _: usize| -> Option<u8> { None };
    let colour = |cells: &Vec<Option<u8>>| vec![0; 4 * cells.len()];
    assert_eq!(render_tile_gray(4, TileFormat::Png, &none, &colour), Ok(None));
    let no_blue = |b: usize, _: usize, _: usize| (b != 2).then_some(9);
    assert_eq!(render_tile_rgb(4, 3, &no_blue), None);
    assert_eq!(render_tile_color(4, TileFormat::WebP, 3, &no_blue), Ok(None));
}

#[test]
fn pixels_need_all_colours() {
    let r = vec![Some(1), Some(2), Some(3)];
    let g = vec![Some(4), None, Some(6)];
    let b = vec![Some(7), Some(8), Some(9)];
    let rgba = compose_rgba(&r, &g, &b, None).unwrap();
    assert_eq!(&rgba[..4], &[1, 4, 7, 255]);
    assert_eq!(rgba[7], 0);
    assert_eq!(&rgba[8..], &[3, 6, 9, 255]);
    let a = vec![Some(10), Some(20), None];
    let rgba = compose_rgba(&r, &g, &b, Some(&a)).unwrap();
    assert_eq!((rgba[3], rgba[7], rgba[11]), (10, 0, 255));
}

#[test]
fn images_decode_to_the_pixels() {
    let rgba: Vec<u8> = (0..16 * 16 * 4).map(|k| if k % 4 == 3 { 255 } else { (k % 251) as u8 }).collect();
    for format in [TileFormat::Png, TileFormat::WebP] {
        let bytes = encode_rgba(&rgba, 16, format).unwrap();
        let img = image::load_from_memory(&bytes).unwrap().to_rgba8();
        assert_eq!(img.dimensions(), (16, 16));
        assert_eq!(img.into_raw(), rgba);
    }
    let flat: Vec<u8> = (0..16 * 16).flat_map(|_| [200, 100, 50, 128]).collect();
    let bytes = encode_rgba(&flat, 16, TileFormat::Jpeg).unwrap();
    let mut decoder = jpeg_decoder::Decoder::new(Cursor::new(&bytes));
    let px = decoder.decode().unwrap();
    for (got, want) in px[..3].iter().zip([100, 50, 25]) {
        assert!((*got as i32 - want).abs() <= 4, "{got} for {want}");
    }
    assert_eq!(JPEG_QUALITY, 85);
}
