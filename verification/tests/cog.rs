//! Cloud Optimized GeoTIFF files, written and read back.

use geotiles::cog::{
    downsample_half, encode_cog, output_crs, write_cog, CogInfo, CogOptions, Image, RasterInfo,
};
use geotiles::cog_layout::{geo_key_directory, CogCompression, CogTags, GeoRef, T_TILE_OFFSETS};
use geotiles::error::{Error, Invalid};
use geotiles::grid::Grid;
use geotiles::source::{
    detect_crs, CrsHints, FileSource, RasterSource, SourceCrs, SourceData,
};
use geotiles::window::{
    clip_window, read_band_window, read_epsg, scan_windows, select_bands, Chunk, ChunkLayout,
};
use std::cell::RefCell;
use std::io::Cursor;
use tiff::decoder::{ChunkType, Decoder, DecodingResult, Limits};
use tiff::tags::Tag;

fn grid(rows: usize, cols: usize, value: impl Fn(usize, usize) -> Option<f64>) -> Grid<f64> {
    let mut cells = vec![];
    for i in 0..rows {
        for j in 0..cols {
            cells.push(value(i, j));
        }
    }
    Grid::new(rows, cols, cells).unwrap()
}

fn gradient(rows: usize, cols: usize) -> Grid<f64> {
    grid(rows, cols, |i, j| Some((i * cols + j) as f64))
}

fn mean(a: Option<f64>, b: Option<f64>, c: Option<f64>, d: Option<f64>) -> Option<f64> {
    let mut acc = 0.0;
    let mut n = 0u32;
    for v in [a, b, c, d].into_iter().flatten() {
        acc += v;
        n += 1;
    }
    let m = acc / n as f64;
    if m.is_nan() { None } else { Some(m) }
}

fn sample(v: f64) -> u32 {
    (v as f32).to_bits()
}

fn about(epsg: Option<u32>) -> RasterInfo {
    RasterInfo {
        epsg,
        georef: GeoRef {
            pixel_width: 0.001f64.to_bits(),
            pixel_height: 0.001f64.to_bits(),
            origin_x: (-71.0f64).to_bits(),
            origin_y: (-32.0f64).to_bits(),
        },
        nodata: "NaN".to_string(),
        fill: f32::NAN.to_bits(),
    }
}

fn write(r: &Grid<f64>, opts: &CogOptions) -> Result<(Vec<u8>, CogInfo), Error> {
    write_cog(r, &about(Some(4326)), opts, &mean, &sample)
}

fn decoder(bytes: &[u8]) -> Decoder<Cursor<Vec<u8>>> {
    Decoder::new(Cursor::new(bytes.to_vec())).unwrap().with_limits(Limits::unlimited())
}

fn to_f64(result: DecodingResult) -> Vec<Option<f64>> {
    match result {
        DecodingResult::F32(v) => v.iter().map(|x| (!x.is_nan()).then_some(*x as f64)).collect(),
        DecodingResult::F64(v) => v.iter().map(|x| (!x.is_nan()).then_some(*x)).collect(),
        _ => panic!("unexpected sample type"),
    }
}

fn layout(dec: &mut Decoder<Cursor<Vec<u8>>>) -> ChunkLayout {
    let (cols, rows) = dec.dimensions().unwrap();
    let (chunk_width, chunk_height) = dec.chunk_dimensions();
    ChunkLayout {
        rows: rows as usize,
        cols: cols as usize,
        samples_per_pixel: 1,
        chunk_width: chunk_width as usize,
        chunk_height: chunk_height as usize,
        tiled: dec.get_chunk_type() == ChunkType::Tile,
    }
}

/// A window of band 0 of a file in memory.
fn window(
    bytes: &[u8],
    col0: i64,
    row0: i64,
    width: usize,
    height: usize,
) -> Result<Grid<f64>, Error> {
    let mut dec = decoder(bytes);
    let l = layout(&mut dec);
    let dec = RefCell::new(dec);
    let read = |i: u32| -> Result<Chunk<f64>, Error> {
        let mut d = dec.borrow_mut();
        let (w, h) = d.chunk_data_dimensions(i);
        let samples = to_f64(d.read_chunk(i).unwrap());
        Ok(Chunk { width: w as usize, height: h as usize, samples })
    };
    read_band_window(&l, 0, col0, row0, width, height, &read)
}

fn full(bytes: &[u8]) -> Grid<f64> {
    let mut dec = decoder(bytes);
    let (cols, rows) = dec.dimensions().unwrap();
    let cells = to_f64(dec.read_image().unwrap());
    Grid::new(rows as usize, cols as usize, cells).unwrap()
}

#[test]
fn downsample_averages_blocks() {
    let r = gradient(4, 4);
    let d = downsample_half(&r, &mean);
    assert_eq!((d.rows, d.cols), (2, 2));
    // Block (0,0): values 0,1,4,5 -> 2.5.
    assert!((d.get(0, 0).unwrap() - 2.5).abs() < 1e-9);
}

#[test]
fn downsample_skips_nodata() {
    let r = grid(2, 2, |i, j| if (i, j) == (0, 0) { None } else { Some((i * 2 + j) as f64) });
    let d = downsample_half(&r, &mean);
    // Valid: 1, 2, 3 -> 2.0.
    assert!((d.get(0, 0).unwrap() - 2.0).abs() < 1e-9);
}

#[test]
fn downsample_keeps_odd_edges_and_holes() {
    let r = grid(3, 5, |i, j| if i == 2 { None } else { Some((i * 5 + j) as f64) });
    let d = downsample_half(&r, &mean);
    assert_eq!((d.rows, d.cols), (2, 3));
    // The last column has one cell per row of the block.
    assert_eq!(d.get(0, 2), Some((4.0 + 9.0) / 2.0));
    assert_eq!(d.get(1, 0), None);
}

#[test]
fn writes_readable_cog_with_overviews() {
    // 600x700 with 256-px tiles -> needs at least one overview level.
    let r = gradient(600, 700);
    let opts = CogOptions { tile_size: 256, ..Default::default() };
    let (bytes, info) = write(&r, &opts).unwrap();
    assert!(info.levels >= 2, "expected overviews, got {} level(s)", info.levels);

    let back = full(&bytes);
    assert_eq!((back.rows, back.cols), (600, 700));
    assert!((back.get(0, 0).unwrap() - 0.0).abs() < 1e-6);
    assert!((back.get(599, 699).unwrap() - (600.0 * 700.0 - 1.0)).abs() < 1e-6);

    // 600x700, 300x350, 150x175.
    assert_eq!(info.levels, 3);
    assert_eq!(info.tiles, 9 + 4 + 1);
    assert_eq!(info.file_size, bytes.len() as u64);
}

#[test]
fn rejects_bad_tile_size() {
    let r = gradient(8, 8);
    let opts = CogOptions { tile_size: 100, ..Default::default() };
    assert!(write(&r, &opts).is_err());
}

#[test]
fn every_refusal_has_its_error() {
    let invalid = |i: Invalid| Some(Error::InvalidInput(i));
    let r = gradient(8, 8);
    let empty = grid(0, 3, |_, _| None);
    let opts = CogOptions::default();
    assert_eq!(write(&empty, &opts).err(), invalid(Invalid::EmptyRaster));
    let zero = CogOptions { tile_size: 0, ..opts };
    assert_eq!(write(&r, &zero).err(), invalid(Invalid::TileSize(0)));
    let got = write_cog(&r, &about(Some(32719)), &opts, &mean, &sample);
    assert_eq!(got.err(), invalid(Invalid::OutputCrs(32719)));
    let got = write_cog(&r, &about(None), &opts, &mean, &sample);
    assert_eq!(got.err(), invalid(Invalid::OutputCrsMissing));
    assert_eq!(output_crs(None, Some(900913)), Ok(SourceCrs::Mercator));
    assert_eq!(output_crs(Some(SourceCrs::LonLat), Some(32719)), Ok(SourceCrs::LonLat));
}

#[test]
fn ifds_precede_tile_data() {
    let r = gradient(600, 700);
    let opts = CogOptions { tile_size: 256, ..Default::default() };
    let (bytes, _) = write(&r, &opts).unwrap();

    // Walk the IFD chain; every IFD offset must sit before the first
    // tile-data offset (the COG layout requirement).
    let u16at = |o: usize| u16::from_le_bytes([bytes[o], bytes[o + 1]]);
    let u32at = |o: usize| u32::from_le_bytes(bytes[o..o + 4].try_into().unwrap());
    let mut ifd = u32at(4) as usize;
    let mut max_ifd_end = 0usize;
    let mut min_tile_offset = usize::MAX;
    let mut tags = vec![];
    while ifd != 0 {
        let n = u16at(ifd) as usize;
        max_ifd_end = max_ifd_end.max(ifd + 2 + n * 12 + 4);
        let mut here = vec![];
        for k in 0..n {
            let e = ifd + 2 + k * 12;
            here.push(u16at(e));
            if u16at(e) == T_TILE_OFFSETS {
                let count = u32at(e + 4) as usize;
                let first = if count == 1 {
                    u32at(e + 8) as usize
                } else {
                    u32at(u32at(e + 8) as usize) as usize
                };
                min_tile_offset = min_tile_offset.min(first);
            }
        }
        tags.push(here);
        ifd = u32at(ifd + 2 + n * 12) as usize;
    }
    assert!(max_ifd_end <= min_tile_offset, "IFDs must precede tile data");
    // Tags ascend; only the full resolution is georeferenced.
    assert!(tags.iter().all(|t| t.windows(2).all(|w| w[0] < w[1])));
    assert_eq!(tags.iter().map(|t| t.len()).collect::<Vec<_>>(), vec![16, 12, 12]);
}

#[test]
fn uncompressed_samples_stand_where_the_directory_says() {
    let values: Vec<u32> = (0..20 * 18).collect();
    let image = Image { rows: 20, cols: 18, values };
    let tags = CogTags {
        tile_size: 16,
        compression: CogCompression::Uncompressed,
        georef: about(None).georef,
        crs: SourceCrs::Mercator,
        nodata: "-9999".to_string(),
    };
    let (bytes, info) = encode_cog(&vec![image], 7, &tags).unwrap();
    assert_eq!((info.levels, info.tiles), (1, 4));
    let u32at = |o: usize| u32::from_le_bytes(bytes[o..o + 4].try_into().unwrap());
    // Entry 9 of the first directory holds the place of the offsets.
    let offsets = u32at(8 + 2 + 12 * 9 + 8) as usize;
    for (row, col) in [(0usize, 0usize), (15, 15), (16, 0), (19, 17), (3, 16)] {
        let tile = (row / 16) * 2 + col / 16;
        let place = (row % 16) * 16 + col % 16;
        let at = u32at(offsets + 4 * tile) as usize + 4 * place;
        assert_eq!(u32at(at), (row * 18 + col) as u32);
    }
    // Beyond the edge stands the fill value.
    assert_eq!(u32at(u32at(offsets + 4) as usize + 4 * 2), 7);
    // The nodata text ends in a NUL.
    assert!(bytes.windows(6).any(|w| w == b"-9999\0"));
}

#[test]
fn one_tile_keeps_its_offset_in_the_entry() {
    let r = gradient(8, 8);
    let opts = CogOptions {
        tile_size: 16,
        compression: CogCompression::Uncompressed,
        crs: Some(SourceCrs::LonLat),
    };
    let (bytes, info) = write(&r, &opts).unwrap();
    assert_eq!(info.levels, 1);
    let u32at = |o: usize| u32::from_le_bytes(bytes[o..o + 4].try_into().unwrap());
    let at = u32at(8 + 2 + 12 * 9 + 8) as usize;
    assert_eq!(bytes.len(), at + 16 * 16 * 4);
    assert_eq!(f32::from_bits(u32at(at + 4 * (2 * 16 + 3))), 19.0);
    assert!(f32::from_bits(u32at(at + 4 * 8)).is_nan());
}

#[test]
fn deflate_is_smaller_and_reads_the_same() {
    let r = gradient(64, 64);
    let packed = CogOptions { tile_size: 64, ..Default::default() };
    let raw = CogOptions { compression: CogCompression::Uncompressed, ..packed };
    let (a, _) = write(&r, &packed).unwrap();
    let (b, _) = write(&r, &raw).unwrap();
    assert!(a.len() < b.len());
    assert_eq!(full(&a).cells, full(&b).cells);
}

#[test]
fn reads_geotiles_cog_output() {
    let r = grid(20, 20, |i, j| Some((i + j) as f64));
    let (bytes, _) = write(&r, &CogOptions { tile_size: 16, ..Default::default() }).unwrap();
    let back = full(&bytes);
    assert_eq!((back.rows, back.cols), (20, 20));
    assert_eq!(back.get(5, 7), Some(12.0));
    let keys = decoder(&bytes).get_tag_u16_vec(Tag::Unknown(34735)).unwrap();
    assert_eq!(read_epsg(&keys), Some(4326));
}

fn window_source(rows: usize, cols: usize) -> Grid<f64> {
    grid(rows, cols, |i, j| Some((i * 1000 + j) as f64))
}

/// A window read must match the corresponding cells of the full read, for a
/// tiled file whose tiles are smaller than the window.
#[test]
fn band_window_matches_full_read_tiled() {
    let r = window_source(40, 60);
    let (bytes, _) = write(&r, &CogOptions { tile_size: 16, ..Default::default() }).unwrap();

    // Window overlapping 4 tiles (c 10..34, r 5..25).
    let win = window(&bytes, 10, 5, 24, 20).unwrap();
    assert_eq!((win.rows, win.cols), (20, 24));

    let full = full(&bytes);
    for i in 0..20 {
        for j in 0..24 {
            assert_eq!(win.get(i, j).unwrap(), full.get(5 + i, 10 + j).unwrap());
        }
    }
    let keys = decoder(&bytes).get_tag_u16_vec(Tag::Unknown(34735)).unwrap();
    assert_eq!(read_epsg(&keys), Some(4326));
}

/// Window clipped to the raster edge: request past the boundary must return
/// the valid intersection.
#[test]
fn band_window_clips_at_edge_tiled() {
    let r = window_source(20, 20);
    let (bytes, _) = write(&r, &CogOptions { tile_size: 16, ..Default::default() }).unwrap();

    // Requests a 12x12 window at (15,15): only 5x5 remains.
    let win = window(&bytes, 15, 15, 12, 12).unwrap();
    assert_eq!((win.rows, win.cols), (5, 5));
    let full = full(&bytes);
    assert_eq!(win.get(0, 0).unwrap(), full.get(15, 15).unwrap());
    assert_eq!(win.get(4, 4).unwrap(), full.get(19, 19).unwrap());

    // Fully outside -> error.
    assert!(window(&bytes, 25, 25, 4, 4).is_err());
    assert_eq!(
        window(&bytes, -9, 0, 4, 4).err(),
        Some(Error::InvalidInput(Invalid::WindowOutside))
    );
}

/// The same, for a stripped (non-tiled) file.
#[test]
fn band_window_matches_full_read_stripped() {
    let r = window_source(30, 30);
    let data: Vec<f32> = r.cells.iter().map(|v| v.unwrap() as f32).collect();
    let mut out = Cursor::new(Vec::new());
    let mut enc = tiff::encoder::TiffEncoder::new(&mut out).unwrap();
    let mut image = enc.new_image::<tiff::encoder::colortype::Gray32Float>(30, 30).unwrap();
    image.rows_per_strip(7).unwrap();
    image.write_data(&data).unwrap();
    let bytes = out.into_inner();
    assert!(!layout(&mut decoder(&bytes)).tiled);

    let win = window(&bytes, 8, 4, 15, 15).unwrap();
    assert_eq!((win.rows, win.cols), (15, 15));
    let full = full(&bytes);
    for i in 0..15 {
        for j in 0..15 {
            assert_eq!(win.get(i, j).unwrap(), full.get(4 + i, 8 + j).unwrap());
        }
    }
}

/// The header exposes shape and CRS without touching pixel data.
#[test]
fn meta_read_reports_shape_and_crs() {
    let r = window_source(12, 14);
    let georef = GeoRef {
        pixel_width: 0.01f64.to_bits(),
        pixel_height: 0.01f64.to_bits(),
        origin_x: (-71.0f64).to_bits(),
        origin_y: (-33.0f64).to_bits(),
    };
    let info = RasterInfo { georef, ..about(Some(4326)) };
    let (bytes, _) = write_cog(&r, &info, &CogOptions::default(), &mean, &sample).unwrap();
    let mut dec = decoder(&bytes);
    let l = layout(&mut dec);
    assert_eq!((l.rows, l.cols), (12, 14));
    let keys = dec.get_tag_u16_vec(Tag::Unknown(34735)).unwrap();
    let epsg = read_epsg(&keys);
    assert_eq!(epsg, Some(4326));
    let scale = dec.get_tag_f64_vec(Tag::Unknown(33550)).unwrap();
    assert!((scale[0] - 0.01).abs() < 1e-12);
    assert!((scale[1] - 0.01).abs() < 1e-12);

    let file = FileSource {
        path: "m.tif".to_string(),
        bands: vec![0],
        rows: l.rows,
        cols: l.cols,
        transform: (),
    };
    let hints = CrsHints { epsg, looks_geographic: false, looks_mercator: false };
    let source = RasterSource::<f64, ()>::open_file(file, None, true, hints).unwrap();
    assert_eq!(source.crs(), SourceCrs::LonLat);
    match source.data {
        SourceData::File(f) => {
            assert_eq!((f.rows, f.cols), (12, 14));
            assert_eq!(f.bands, vec![0]);
        }
        SourceData::Memory(_) => panic!("the pixels are not read"),
    }
}

#[test]
fn recorded_crs_is_the_one_read() {
    for crs in [SourceCrs::LonLat, SourceCrs::Mercator] {
        let epsg = read_epsg(&geo_key_directory(crs));
        let hints = CrsHints { epsg, looks_geographic: false, looks_mercator: false };
        assert_eq!(detect_crs(None, hints), Ok(crs));
    }
    assert_eq!(read_epsg(&vec![1, 1, 0]), None);
    assert_eq!(read_epsg(&vec![1, 1, 0, 9, 1024, 0, 1, 2]), None);
    // A code of 0 is passed over.
    assert_eq!(read_epsg(&vec![1, 1, 0, 2, 2048, 0, 1, 0, 3072, 0, 1, 3857]), Some(3857));
}

#[test]
fn chunk_errors_come_through() {
    let l = ChunkLayout {
        rows: 8,
        cols: 8,
        samples_per_pixel: 2,
        chunk_width: 4,
        chunk_height: 4,
        tiled: true,
    };
    let short = |_: u32| Ok(Chunk { width: 4, height: 4, samples: vec![Some(1u8); 31] });
    assert_eq!(
        read_band_window(&l, 1, 0, 0, 8, 8, &short).err(),
        Some(Error::InvalidInput(Invalid::BadChunk))
    );
    // A chunk that lacks only what the window does not need is read.
    let part = |_: u32| Ok(Chunk { width: 4, height: 4, samples: vec![Some(7u8); 12] });
    let win = read_band_window(&l, 1, 0, 0, 2, 2, &part).unwrap();
    assert_eq!(win.cells, vec![Some(7); 4]);
    assert_eq!(
        read_band_window(&l, 1, 0, 0, 3, 2, &part).err(),
        Some(Error::InvalidInput(Invalid::BadChunk))
    );
    // The first chunk that fails tells the error.
    let two = |i: u32| -> Result<Chunk<u8>, Error> {
        match i {
            1 => Err(Error::Sink),
            2 => Err(Error::Read),
            _ => Ok(Chunk { width: 4, height: 4, samples: vec![Some(0); 32] }),
        }
    };
    assert_eq!(read_band_window(&l, 0, 0, 0, 8, 8, &two).err(), Some(Error::Sink));
    assert_eq!(read_band_window(&l, 0, 0, 0, 4, 8, &two).err(), Some(Error::Read));
    let broken = |i: u32| -> Result<Chunk<u8>, Error> {
        if i == 3 {
            Err(Error::Read)
        } else {
            Ok(Chunk { width: 4, height: 4, samples: vec![Some(i as u8); 32] })
        }
    };
    assert_eq!(read_band_window(&l, 1, 0, 0, 8, 8, &broken).err(), Some(Error::Read));
    // The broken chunk is not touched by a window beside it.
    let win = read_band_window(&l, 1, 2, 1, 5, 3, &broken).unwrap();
    assert_eq!((win.rows, win.cols), (3, 5));
    assert_eq!(win.cells[..5], [Some(0), Some(0), Some(1), Some(1), Some(1)]);
}

#[test]
fn bands_interleave() {
    let l = ChunkLayout {
        rows: 2,
        cols: 3,
        samples_per_pixel: 3,
        chunk_width: 3,
        chunk_height: 2,
        tiled: false,
    };
    let read = |_: u32| -> Result<Chunk<u32>, Error> {
        Ok(Chunk { width: 3, height: 2, samples: (0..18).map(Some).collect() })
    };
    let g = read_band_window(&l, 1, 0, 0, 3, 2, &read).unwrap();
    assert_eq!(g.cells, [1, 4, 7, 10, 13, 16].map(Some));
    assert!(clip_window(&l, 1, 1, 9, 9).is_some());
}

#[test]
fn band_numbers_count_from_one() {
    assert_eq!(select_bands(Some(&vec![3, 1]), 3), Ok(vec![2, 0]));
    assert_eq!(select_bands(None, 3), Ok(vec![0, 1, 2]));
    assert_eq!(select_bands(Some(&vec![]), 2), Ok(vec![0, 1]));
    let bad = Error::InvalidInput(Invalid::BandNumber);
    assert_eq!(select_bands(Some(&vec![4]), 3), Err(bad));
    assert_eq!(select_bands(Some(&vec![0]), 3), Err(bad));
}

#[test]
fn scan_windows_cover_each_cell_once() {
    let starts = scan_windows(1500, 2049);
    assert_eq!(starts.len(), 2 * 3);
    assert_eq!(starts[0], (0, 0));
    assert_eq!(starts[5], (1024, 2048));
    for (row, col) in [(0usize, 0usize), (1023, 1024), (1499, 2048)] {
        let holding = starts
            .iter()
            .filter(|s| s.0 <= row && row < s.0 + 1024 && s.1 <= col && col < s.1 + 1024)
            .count();
        assert_eq!(holding, 1);
    }
}
