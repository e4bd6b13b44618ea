//! Directory trees and archives: what is written where.

use geotiles::archive::{tile_type_for, ArchiveHeader, ArchiveTile, PmtilesSink};
use geotiles::error::{EncodeStep, Error, Invalid};
use geotiles::mercator::TileCoord;
use geotiles::pyramid::PyramidMetadata;
use geotiles::ranking::{drop_plan, rank};
use geotiles::text::push_decimal;
use geotiles::xyz::{BoundsText, XyzSink};
use pmtiles::{Compression, PmTilesStreamWriter, PmTilesWriter, TileType};
use std::io::Cursor;

/// An archive in memory.
struct Archive {
    state: PmtilesSink,
    writer: Option<PmTilesStreamWriter<Cursor<Vec<u8>>>>,
}

impl Archive {
    fn create(format: &str) -> Self {
        Self { state: PmtilesSink::create(format), writer: None }
    }

    fn start(&mut self, h: ArchiveHeader, out: Cursor<Vec<u8>>) {
        let kind = match h.tile {
            ArchiveTile::Png => TileType::Png,
            ArchiveTile::Webp => TileType::Webp,
            ArchiveTile::Jpeg => TileType::Jpeg,
            ArchiveTile::Mvt => TileType::Mvt,
            ArchiveTile::Unknown => TileType::Unknown,
        };
        let (w, s, e, n) = h.bounds_lonlat;
        let [w, s, e, n] = [w, s, e, n].map(f64::from_bits);
        let mut b = PmTilesWriter::new(kind)
            .min_zoom(h.min_zoom)
            .max_zoom(h.max_zoom)
            .bounds(w, s, e, n)
            .center_zoom(h.center_zoom)
            .metadata(h.json);
        if h.gzip {
            b = b.precompressed(Compression::Gzip);
        }
        self.writer = Some(b.create(out).unwrap());
        self.state.opened();
    }

    fn prepare(&mut self, meta: &PyramidMetadata) -> Result<(), Error> {
        let header = self.state.prepare(meta)?;
        self.start(header, Cursor::new(vec![]));
        Ok(())
    }

    fn put(&mut self, coord: TileCoord, data: &[u8]) -> Result<(), Error> {
        let (z, x, y) = self.state.put(coord)?.address;
        let at = pmtiles::TileCoord::new(z, x, y).unwrap();
        self.writer.as_mut().unwrap().add_tile(at, data).unwrap();
        Ok(())
    }
}

/// Writes a whole archive and hands back its bytes.
fn archive(
    format: &str,
    prepared: bool,
    meta: &PyramidMetadata,
    tiles: &[(TileCoord, &[u8])],
) -> Vec<u8> {
    let mut bytes = Cursor::new(vec![]);
    let mut state = PmtilesSink::create(format);
    let header = if prepared {
        state.prepare(meta).unwrap()
    } else {
        state.finish(meta).unwrap().unwrap()
    };
    let kind = if header.tile == ArchiveTile::Mvt { TileType::Mvt } else { TileType::Png };
    let mut b = PmTilesWriter::new(kind)
        .min_zoom(header.min_zoom)
        .max_zoom(header.max_zoom)
        .metadata(header.json);
    if header.gzip {
        b = b.precompressed(Compression::Gzip);
    }
    let mut writer = b.create(&mut bytes).unwrap();
    state.opened();
    for (coord, data) in tiles {
        let (z, x, y) = state.put(*coord).unwrap().address;
        writer.add_tile(pmtiles::TileCoord::new(z, x, y).unwrap(), data).unwrap();
    }
    assert!(state.finish(meta).unwrap().is_none());
    writer.finalize().unwrap();
    state.closed();
    assert!(!state.open);
    bytes.into_inner()
}

fn meta() -> PyramidMetadata {
    PyramidMetadata {
        name: "dem".into(),
        bounds_lonlat: (
            (-72.0f64).to_bits(),
            (-34.0f64).to_bits(),
            (-70.0f64).to_bits(),
            (-32.0f64).to_bits(),
        ),
        min_zoom: 0,
        max_zoom: 1,
        format: "png",
        json: None,
    }
}

fn vector_meta() -> PyramidMetadata {
    PyramidMetadata {
        name: "vec".into(),
        max_zoom: 0,
        format: "pbf",
        json: Some(r#"{"vector_layers":[]}"#.into()),
        ..meta()
    }
}

#[test]
fn writes_valid_pmtiles() {
    let bytes = archive(
        "png",
        true,
        &meta(),
        &[
            (TileCoord { z: 0, x: 0, y: 0 }, b"png-bytes-0"),
            (TileCoord { z: 1, x: 0, y: 0 }, b"png-bytes-1"),
        ],
    );
    assert_eq!(&bytes[..7], b"PMTiles", "magic number");
    assert_eq!(bytes[7], 3, "version 3");
}

#[test]
fn finalize_without_prepare_still_writes() {
    let bytes = archive("png", false, &meta(), &[]);
    assert_eq!(&bytes[..7], b"PMTiles", "magic number");
}

#[test]
fn writes_mvt_tiles_gzip_declared() {
    let bytes = archive(
        "pbf",
        true,
        &vector_meta(),
        &[(TileCoord { z: 0, x: 0, y: 0 }, b"gzipped-pbf")],
    );
    assert_eq!(bytes[96], 1, "must be clustered");
    assert_eq!(bytes[97], 2, "internal compression must be gzip (0x02)");
    assert_eq!(bytes[98], 2, "tile compression must be gzip (0x02)");
    assert_eq!(bytes[99], 1, "tile type must be MVT (0x01)");
    // The tile stands in the archive as it was put.
    assert!(bytes.windows(11).any(|w| w == b"gzipped-pbf"));
}

#[test]
fn format_mismatch_is_rejected() {
    let mut sink = Archive::create("png");
    let mut m = meta();
    m.format = "pbf";
    assert_eq!(sink.prepare(&m), Err(Error::InvalidInput(Invalid::FormatMismatch)));
    assert!(sink.state.finish(&m).is_err());
}

#[test]
fn archives_are_opened_once_and_before_tiles() {
    let mut sink = Archive::create("png");
    let at = TileCoord { z: 1, x: 1, y: 0 };
    assert_eq!(sink.put(at, b"x"), Err(Error::InvalidInput(Invalid::NotPrepared)));
    sink.prepare(&meta()).unwrap();
    assert_eq!(sink.prepare(&meta()), Err(Error::InvalidInput(Invalid::AlreadyOpen)));
    assert_eq!(sink.put(at, b"x"), Ok(()));
    let outside = TileCoord { z: 1, x: 2, y: 0 };
    assert_eq!(sink.put(outside, b"x"), Err(Error::Encode(EncodeStep::Address)));
    let deep = TileCoord { z: 32, x: 0, y: 0 };
    assert_eq!(sink.put(deep, b"x"), Err(Error::Encode(EncodeStep::Address)));
}

#[test]
fn headers_say_what_the_metadata_say() {
    let h = PmtilesSink::create("png").prepare(&meta()).unwrap();
    assert_eq!((h.tile, h.gzip), (ArchiveTile::Png, false));
    assert_eq!((h.min_zoom, h.max_zoom, h.center_zoom), (0, 1, 0));
    assert_eq!(h.bounds_lonlat, meta().bounds_lonlat);
    assert_eq!(h.json, r#"{"name":"dem","type":"overlay","version":"1.0.0"}"#);
    let h = PmtilesSink::create("pbf").prepare(&vector_meta()).unwrap();
    assert_eq!((h.tile, h.gzip), (ArchiveTile::Mvt, true));
    assert_eq!(h.json, r#"{"vector_layers":[]}"#);
    assert_eq!(tile_type_for("webp"), ArchiveTile::Webp);
    assert_eq!(tile_type_for("jpeg"), ArchiveTile::Jpeg);
    assert_eq!(tile_type_for("bmp"), ArchiveTile::Unknown);
}

#[test]
fn writes_tree_and_metadata() {
    let sink = XyzSink::create("tiles");
    let coord = TileCoord { z: 3, x: 2, y: 5 };
    let path = format!("{}/{}/{}", sink.root(), sink.tile_dir(coord), sink.tile_file(coord));
    assert_eq!(path, "tiles/3/2/5.png");
    let text = BoundsText {
        west: (-71.0f64).to_string(),
        south: (-34.0f64).to_string(),
        east: (-70.0f64).to_string(),
        north: (-33.0f64).to_string(),
    };
    let m = PyramidMetadata { name: "test".into(), max_zoom: 3, ..meta() };
    let summary = sink.metadata_json(&m, &text);
    assert!(summary.contains("\"maxzoom\": 3"));
    assert!(summary.contains("\"scheme\": \"xyz\""));
    assert!(summary.contains("\"bounds\": [-71, -34, -70, -33]"));
}

#[test]
fn trees_of_other_tiles_have_other_extensions() {
    let sink = XyzSink::with_extension("out", "pbf");
    let coord = TileCoord { z: 10, x: 309, y: 614 };
    assert_eq!(sink.tile_dir(coord), "10/309");
    assert_eq!(sink.tile_file(coord), "614.pbf");
}

#[test]
fn decimals_and_quotes_are_those_of_std() {
    for n in [0u64, 7, 10, 4096, u64::MAX] {
        let mut out = String::from("n=");
        push_decimal(&mut out, n);
        assert_eq!(out, format!("n={n}"));
    }
    let sink = XyzSink::create("tiles");
    for name in ["", "plain", "with \"quotes\"", "tab\tand\nline", "ñandú"] {
        let text = BoundsText {
            west: "0".into(),
            south: "1".into(),
            east: "2".into(),
            north: "3".into(),
        };
        let m = PyramidMetadata { name: name.into(), ..vector_meta() };
        assert_eq!(
            sink.metadata_json(&m, &text),
            format!(
                "{{\n  \"name\": {name:?},\n  \"format\": \"pbf\",\n  \"minzoom\": 0,\n  \
                 \"maxzoom\": 0,\n  \"bounds\": [0, 1, 2, 3],\n  \"scheme\": \"xyz\",\n  \
                 \"json\": {:?}\n}}\n",
                r#"{"vector_layers":[]}"#
            )
        );
    }
}

#[test]
fn ranking_is_stable_and_dropping_is_greedy() {
    assert_eq!(rank(&vec![5, 1, 5, 0, 1]), vec![3, 1, 4, 0, 2]);
    assert_eq!(rank(&vec![]), Vec::<usize>::new());
    // Costs 4 + 3 + 2 + 1; the smallest scores go until six are left.
    let keep = drop_plan(&vec![9, 1, 5, 2], &vec![4, 3, 2, 1], 6);
    assert_eq!(keep, vec![true, false, true, false]);
    assert_eq!(drop_plan(&vec![9, 1], &vec![4, 3], 7), vec![true, true]);
    assert_eq!(drop_plan(&vec![9, 1], &vec![4, 3], 0), vec![false, false]);
}
