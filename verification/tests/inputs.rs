//! What a user asks for: layers, bands, colour schemes and outputs.

use geotiles::error::{Error, Invalid};
use geotiles::inputs::{
    output_kind, parse_bbox, parse_layer_spec, parse_scheme, scheme_names,
    validate_band_selection, vector_crs, vector_format, OutputKind, VectorFormat,
};
use geotiles::paths::{extension, file_stem, name_in, split_once};
use geotiles::source::SourceCrs::{LonLat, Mercator};
use std::path::PathBuf;

#[test]
fn layer_spec_plain_path_uses_stem() {
    let s = parse_layer_spec("data/cuencas.geojson").unwrap();
    assert_eq!(s.name, "cuencas");
    assert_eq!(PathBuf::from(&s.path), PathBuf::from("data/cuencas.geojson"));
    assert!(s.gpkg_table.is_none());
}

#[test]
fn layer_spec_with_name_and_table() {
    let s = parse_layer_spec("red=hidro.gpkg#rios").unwrap();
    assert_eq!(s.name, "red");
    assert_eq!(PathBuf::from(&s.path), PathBuf::from("hidro.gpkg"));
    assert_eq!(s.gpkg_table.as_deref(), Some("rios"));
}

#[test]
fn layer_spec_table_without_name() {
    let s = parse_layer_spec("hidro.gpkg#rios").unwrap();
    assert_eq!(s.name, "hidro");
    assert_eq!(s.gpkg_table.as_deref(), Some("rios"));
}

#[test]
fn layer_spec_empty_path_rejected() {
    assert!(parse_layer_spec("red=").is_err());
}

#[test]
fn layer_spec_edges() {
    let empty = Error::InvalidInput(Invalid::EmptyPath);
    assert_eq!(parse_layer_spec("").err(), Some(empty));
    assert_eq!(parse_layer_spec("#rios").err(), Some(empty));
    // The name ends at the first '=', the path at the first '#'.
    let s = parse_layer_spec("pts=big.fgb#bbox=-71.0,-33.0,-69.5,-31.5").unwrap();
    assert_eq!((s.name.as_str(), s.path.as_str()), ("pts", "big.fgb"));
    let table = s.gpkg_table.unwrap();
    assert_eq!(parse_bbox(&table), Some(("-71.0", "-33.0", "-69.5", "-31.5")));
    let s = parse_layer_spec("=x.shp").unwrap();
    assert_eq!((s.name.as_str(), s.path.as_str()), ("", "x.shp"));
    // A path that names no file falls back to a fixed name.
    assert_eq!(parse_layer_spec("..").unwrap().name, "layer");
    assert_eq!(parse_layer_spec("/").unwrap().name, "layer");
}

#[test]
fn bbox_needs_four_limits() {
    assert_eq!(parse_bbox("bbox=1,2,3"), None);
    assert_eq!(parse_bbox("bbox=1,2,3,4,5"), None);
    assert_eq!(parse_bbox("rios"), None);
    assert_eq!(parse_bbox("box=1,2,3,4"), None);
    assert_eq!(parse_bbox("bbox=1,2,3,4"), Some(("1", "2", "3", "4")));
}

#[test]
fn paths_have_the_parts_that_std_gives_them() {
    for p in [
        "data/cuencas.geojson",
        "a/b/",
        "a/b//",
        "a/.",
        "a/./",
        ".",
        "./",
        "..",
        "a/..",
        "/",
        "",
        ".hidden",
        "dir.d/.hidden",
        "x.tar.gz",
        "x.",
        "..x",
        "/abs/path/file.MBTILES",
        "áé/ñandú.GeoJSON",
    ] {
        let path = PathBuf::from(p);
        assert_eq!(name_in(p).map(String::from), path.file_name().map(|s| s.to_string_lossy().into_owned()), "name of {p:?}");
        assert_eq!(file_stem(p).map(String::from), path.file_stem().map(|s| s.to_string_lossy().into_owned()), "stem of {p:?}");
        assert_eq!(extension(p).map(String::from), path.extension().map(|s| s.to_string_lossy().into_owned()), "extension of {p:?}");
    }
}

#[test]
fn text_splits_at_the_first_mark() {
    assert_eq!(split_once("a=b=c", '='), Some(("a", "b=c")));
    assert_eq!(split_once("ñ#é", '#'), Some(("ñ", "é")));
    assert_eq!(split_once("abc", '='), None);
}

#[test]
fn one_three_or_four_bands() {
    let bad = Error::InvalidInput(Invalid::BandCount);
    for n in 0..6usize {
        let bands = vec![1usize; n];
        let got = validate_band_selection(&bands);
        if n == 1 || n == 3 || n == 4 {
            assert_eq!(got, Ok(()));
        } else {
            assert_eq!(got, Err(bad));
        }
    }
}

#[test]
fn schemes_are_found_whatever_the_case() {
    let names = scheme_names();
    assert_eq!(names.len(), 16);
    assert_eq!(names[0], "terrain");
    assert_eq!(names[3], "ndvi");
    assert_eq!(names[15], "pastel rainbow");
    assert_eq!(parse_scheme("TERRAIN").unwrap().name(), "Terrain");
    assert_eq!(parse_scheme("Ndvi").unwrap().name(), "NDVI");
    assert_eq!(parse_scheme("imhof 1 (CLASSIC)").unwrap().name(), "Imhof 1 (classic)");
    for name in &names {
        assert_eq!(parse_scheme(name).unwrap().name().to_lowercase(), *name);
    }
    assert_eq!(parse_scheme("rainbow").err(), Some(Error::InvalidInput(Invalid::UnknownScheme)));
}

#[test]
fn outputs_follow_the_extension() {
    assert!(OutputKind::Mbtiles.compresses() && OutputKind::Pmtiles.compresses());
    assert!(!OutputKind::Xyz.compresses());
    assert_eq!(output_kind("dem.mbtiles"), OutputKind::Mbtiles);
    assert_eq!(output_kind("out/DEM.MBTiles"), OutputKind::Mbtiles);
    assert_eq!(output_kind("dem.pmtiles"), OutputKind::Pmtiles);
    assert_eq!(output_kind("tiles/"), OutputKind::Xyz);
    assert_eq!(output_kind("tiles"), OutputKind::Xyz);
    assert_eq!(output_kind(".mbtiles"), OutputKind::Xyz);
    assert_eq!(output_kind("a.mbtiles.d"), OutputKind::Xyz);
}

#[test]
fn vector_formats_follow_the_extension() {
    assert_eq!(vector_format("a.GeoJSON"), VectorFormat::GeoJson);
    assert_eq!(vector_format("a.json"), VectorFormat::GeoJson);
    assert_eq!(vector_format("a.gpkg"), VectorFormat::GeoPackage);
    assert_eq!(vector_format("a.SHP"), VectorFormat::Shapefile);
    assert_eq!(vector_format("a.parquet"), VectorFormat::GeoParquet);
    assert_eq!(vector_format("a.fgb"), VectorFormat::FlatGeobuf);
    assert_eq!(vector_format("a.kml"), VectorFormat::Other);
    assert_eq!(vector_format("a"), VectorFormat::Other);
}

#[test]
fn geojson_is_in_degrees() {
    assert_eq!(vector_crs(VectorFormat::GeoJson, None), Some(LonLat));
    assert_eq!(vector_crs(VectorFormat::GeoJson, Some(Mercator)), Some(Mercator));
    assert_eq!(vector_crs(VectorFormat::Shapefile, None), None);
    assert_eq!(vector_crs(VectorFormat::FlatGeobuf, Some(LonLat)), Some(LonLat));
}
