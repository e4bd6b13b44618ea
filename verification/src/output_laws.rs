//! What holds of requests and outputs, said of what goes in and what comes out.

use vstd::arithmetic::power2::pow2;
use vstd::prelude::*;
use vstd::utf8::encode_utf8;

use crate::archive::{
    archives_declare_their_format, headers_say_what_the_pyramid_is, tile_type_for, ArchiveHeader,
    ArchivePut, ArchiveTile, PmtilesSink,
};
use crate::error::Error;
use crate::images::TileFormat;
use crate::inputs::{
    boxes_are_read_as_written, format_for, formats_go_by_their_extension,
    layer_texts_are_read_as_written, output_kind, outputs_go_by_their_extension, parse_bbox,
    parse_layer_spec, same_word, validate_band_selection, vector_crs, LayerSpec, OutputKind,
    VectorFormat,
};
use crate::mercator::{
    range_lists_its_tiles, range_tiles_come_row_by_row, ranges_hold_the_tiles_of_their_box,
    TileCoord, TileRange,
};
use crate::paths::{
    extension, file_stem, paths_have_the_ends_of_their_file_name, split_at_first, split_once,
    texts_split_where_they_were_joined,
};
use crate::pyramid::{
    all_tiles, are_covers, count_tiles, covering_tiles_are_distinct, covers_are_determined,
    list_tiles, listed, metadata_tell_the_pyramid, pyramid_metadata, pyramids_cover_their_box,
    pyramids_go_zoom_by_zoom, resolve, runs_are_resolved_part_by_part, shadings_are_as_asked_for,
    zoom_range, zooms_are_used_as_given, Edges, PyramidMetadata, PyramidOptions, Resolved, Shading,
};
use crate::source::SourceCrs;
use crate::text::{
    comes_before, decimal, quoted, says, texts_go_by_their_first_difference,
};
use crate::vector::number_value;
use crate::vector_pyramid::{check_options, options_are_refused_for_what_is_wrong};
use crate::vector_tile::MvtOptions;
use crate::xyz::{
    summaries_say_what_viewers_need, tiles_are_read_back_from_their_paths, BoundsText, XyzSink,
};

verus! {

/// The range of a box that meets the world holds just the tiles of the world
/// between its edges.
pub proof fn boxes_are_covered(
    west: i64,
    south: i64,
    east: i64,
    north: i64,
    z: u8,
    range: TileRange,
    tile: TileCoord,
)
    requires
        z < 32,
        call_ensures(TileRange::for_bounds, (west, south, east, north, z), range),
        tile.valid(),
        tile.z == z,
        west <= east,
        north <= south,
        0 <= east,
        west < pow2(z as nat),
        0 <= south,
        north < pow2(z as nat),
    ensures
        range.z == z,
        (range.x_min <= tile.x <= range.x_max && range.y_min <= tile.y <= range.y_max) <==> (west
            <= tile.x <= east && north <= tile.y <= south),
{
    ranges_hold_the_tiles_of_their_box(
        west as int,
        south as int,
        east as int,
        north as int,
        z,
        range,
        tile,
    );
}

/// The tiles of a range are listed row by row: that of a column and a row stands
/// behind all rows north of it and all columns west of it in its row.
pub proof fn tiles_are_listed_row_by_row(
    range: &TileRange,
    tiles: Vec<TileCoord>,
    x: u32,
    y: u32,
)
    requires
        call_ensures(TileRange::iter, (range,), tiles),
        range.x_min <= x <= range.x_max,
        range.y_min <= y <= range.y_max,
    ensures
        ({
            let across = range.x_max - range.x_min + 1;
            let k = (y - range.y_min) * across + (x - range.x_min);
            &&& tiles@.len() == across * (range.y_max - range.y_min + 1)
            &&& 0 <= k < tiles@.len()
            &&& tiles@[k] == (TileCoord { z: range.z, x, y })
        }),
{
    range_tiles_come_row_by_row(*range, x, y);
}

/// As many tiles are counted in a range as are listed of it, and each is in it.
pub proof fn listed_tiles_are_counted(
    range: &TileRange,
    n: u64,
    tiles: Vec<TileCoord>,
    tile: TileCoord,
)
    requires
        call_ensures(TileRange::count, (range,), n),
        call_ensures(TileRange::iter, (range,), tiles),
    ensures
        n == tiles@.len(),
        tiles@.contains(tile) <==> tile.z == range.z && range.x_min <= tile.x <= range.x_max
            && range.y_min <= tile.y <= range.y_max,
{
    range_lists_its_tiles(*range, tile);
}

/// The tiles of a pyramid are counted as they are listed: all between the edges of
/// the box at each zoom, zoom by zoom, none twice.
pub proof fn pyramids_list_the_tiles_of_their_box<C>(
    min_zoom: u8,
    max_zoom: u8,
    edges: &C,
    tiles: Vec<TileCoord>,
    total: u64,
    tile: TileCoord,
    west: i64,
    south: i64,
    east: i64,
    north: i64,
) where C: Fn(u8) -> Edges
    requires
        min_zoom <= max_zoom < 32,
        call_ensures(list_tiles::<C>, (min_zoom, max_zoom, edges), tiles),
        call_ensures(count_tiles::<C>, (min_zoom, max_zoom, edges), total),
        forall|z: u8, a: Edges, b: Edges|
            call_ensures(*edges, (z,), a) && call_ensures(*edges, (z,), b) ==> a == b,
        tile.valid(),
        min_zoom <= tile.z <= max_zoom,
        call_ensures(*edges, (tile.z,), (west, south, east, north)),
        west <= east,
        north <= south,
        0 <= east,
        west < pow2(tile.z as nat),
        0 <= south,
        north < pow2(tile.z as nat),
    ensures
        total == tiles@.len(),
        tiles@.contains(tile) <==> west <= tile.x <= east && north <= tile.y <= south,
        forall|i: int, j: int|
            0 <= i < j < tiles@.len() ==> (#[trigger] tiles@[i]).z <= (#[trigger] tiles@[j]).z
                && tiles@[i] != tiles@[j],
{
    let ranges = choose|ranges: Seq<TileRange>|
        {
            &&& #[trigger] are_covers(*edges, min_zoom, ranges)
            &&& ranges.len() == max_zoom - min_zoom + 1
            &&& tiles@ == all_tiles(ranges)
        };
    let counted = choose|ranges: Seq<TileRange>|
        {
            &&& #[trigger] are_covers(*edges, min_zoom, ranges)
            &&& ranges.len() == max_zoom - min_zoom + 1
            &&& total == all_tiles(ranges).len()
        };
    covers_are_determined(*edges, min_zoom, counted, ranges);
    pyramids_cover_their_box(*edges, min_zoom, ranges, tile, west, south, east, north);
    assert forall|i: int, j: int| 0 <= i < j < tiles@.len() implies (#[trigger] tiles@[i]).z <= (
    #[trigger] tiles@[j]).z && tiles@[i] != tiles@[j] by {
        pyramids_go_zoom_by_zoom(*edges, min_zoom, ranges, i, j);
        covering_tiles_are_distinct(*edges, min_zoom, ranges, i, j);
    }
}

/// Zooms that are given are those that are used.
pub proof fn given_zooms_are_used(
    min_zoom: Option<u8>,
    max_zoom: Option<u8>,
    native: u8,
    range: Result<(u8, u8), Error>,
)
    requires
        call_ensures(zoom_range, (min_zoom, max_zoom, native), range),
    ensures
        match range {
            Ok((min, max)) => {
                &&& min <= max
                &&& min_zoom is Some ==> min_zoom == Some(min)
                &&& min_zoom is None ==> min == 0
                &&& max_zoom is Some ==> max_zoom == Some(max)
                &&& max_zoom is None ==> max == native
            },
            Err(_) => min_zoom is Some && (max_zoom is Some ==> min_zoom->Some_0
                > max_zoom->Some_0) && (max_zoom is None ==> min_zoom->Some_0 > native),
        },
{
    zooms_are_used_as_given(min_zoom, max_zoom, native);
}

/// What is resolved of the options is what they say: the zooms that are given, the
/// stretch of each band, or the stretch of all, or else the byte range, of a source
/// of three bands or more, and the stretch that is given, or else the range of the
/// data, of one of fewer.
pub proof fn options_are_resolved_as_they_say<T: Copy, I, M>(
    bands: usize,
    native_zoom: u8,
    opts: &PyramidOptions<T>,
    byte_range: (T, T),
    inverted: &I,
    minmax: &M,
    resolved: Resolved<T>,
) where I: Fn(T, T) -> bool, M: Fn() -> Result<(T, T), Error>
    requires
        call_ensures(
            resolve::<T, I, M>,
            (bands, native_zoom, opts, byte_range, inverted, minmax),
            Ok(resolved),
        ),
    ensures
        resolved.min_zoom <= resolved.max_zoom,
        opts.min_zoom is Some ==> opts.min_zoom == Some(resolved.min_zoom),
        opts.min_zoom is None ==> resolved.min_zoom == 0,
        opts.max_zoom is Some ==> opts.max_zoom == Some(resolved.max_zoom),
        opts.max_zoom is None ==> resolved.max_zoom == native_zoom,
        bands >= 3 <==> resolved.shading is Rgb,
        bands >= 3 && opts.band_ranges is Some ==> (resolved.shading matches Shading::Rgb(v) && v@
            == opts.band_ranges->Some_0@),
        bands >= 3 && opts.band_ranges is None ==> (resolved.shading matches Shading::Rgb(v)
            && v@.len() == 3 && forall|i: int|
            0 <= i < 3 ==> (opts.range is Some ==> #[trigger] v@[i] == opts.range->Some_0) && (
            opts.range is None ==> v@[i] == byte_range)),
        bands < 3 ==> (resolved.shading matches Shading::Colormap(lo, hi) && (opts.range is Some
            ==> opts.range == Some((lo, hi))) && (opts.range is None ==> call_ensures(
            *minmax,
            (),
            Ok::<(T, T), Error>((lo, hi)),
        ))),
{
    runs_are_resolved_part_by_part(
        bands,
        native_zoom,
        *opts,
        byte_range,
        *inverted,
        *minmax,
        resolved,
    );
    shadings_are_as_asked_for(
        bands,
        opts.range,
        listed(opts.band_ranges),
        byte_range,
        *inverted,
        *minmax,
        resolved.shading,
    );
}

/// The metadata of a raster pyramid say what it is.
pub proof fn raster_metadata_say_what_it_is<T>(
    opts: &PyramidOptions<T>,
    resolved: &Resolved<T>,
    bounds_lonlat: (u64, u64, u64, u64),
    meta: PyramidMetadata,
)
    requires
        call_ensures(pyramid_metadata::<T>, (opts, resolved, bounds_lonlat), meta),
    ensures
        meta.name@ == opts.name@,
        meta.bounds_lonlat == bounds_lonlat,
        meta.min_zoom == resolved.min_zoom,
        meta.max_zoom == resolved.max_zoom,
        meta.json is None,
        opts.format == TileFormat::Png ==> meta.format@ == "png"@,
        opts.format == TileFormat::WebP ==> meta.format@ == "webp"@,
        opts.format == TileFormat::Jpeg ==> meta.format@ == "jpeg"@,
{
    metadata_tell_the_pyramid(*opts, resolved.min_zoom, resolved.max_zoom, bounds_lonlat);
}

/// A tile lies in the directory of its zoom and column, in the file of its row, and
/// its address can be read from both.
pub proof fn tiles_lie_under_their_address(
    sink: &XyzSink,
    coord: TileCoord,
    dir: String,
    file: String,
)
    requires
        call_ensures(XyzSink::tile_dir, (sink, coord), dir),
        call_ensures(XyzSink::tile_file, (sink, coord), file),
    ensures
        split_at_first(dir@, '/') matches Some((z, x)) && number_value(z) == Some(coord.z as u64)
            && number_value(x) == Some(coord.x as u64),
        split_at_first(file@, '.') matches Some((y, ext)) && number_value(y) == Some(
            coord.y as u64,
        ) && ext == sink.ext@,
{
    tiles_are_read_back_from_their_paths(coord, sink.ext@);
}

/// The header of an archive is written once, before any tile, and says what the
/// pyramid is; a tile goes under its own address.
pub proof fn archives_say_what_they_hold(
    sink: &PmtilesSink,
    meta: &PyramidMetadata,
    header: ArchiveHeader,
    open: &PmtilesSink,
    coord: TileCoord,
    put: ArchivePut,
    tile: ArchiveTile,
)
    requires
        call_ensures(PmtilesSink::prepare, (sink, meta), Ok(header)),
        call_ensures(PmtilesSink::put, (open, coord), Ok(put)),
        call_ensures(tile_type_for, (meta.format,), tile),
    ensures
        !sink.open,
        open.open,
        sink.format@ == meta.format@,
        header.tile == tile,
        header.min_zoom == meta.min_zoom,
        header.max_zoom == meta.max_zoom,
        header.center_zoom == meta.min_zoom,
        header.bounds_lonlat == meta.bounds_lonlat,
        header.gzip <==> meta.format@ == "pbf"@ || meta.format@ == "mvt"@,
        tile == ArchiveTile::Png <==> meta.format@ == "png"@,
        tile == ArchiveTile::Webp <==> meta.format@ == "webp"@,
        tile == ArchiveTile::Jpeg <==> meta.format@ == "jpeg"@,
        meta.json matches Some(j) ==> header.json@ == j@,
        put.address.0 == coord.z,
        put.address.1 == coord.x,
        put.address.2 == coord.y,
{
    headers_say_what_the_pyramid_is(*meta, header);
    archives_declare_their_format(meta.format@);
}

/// A text that is put together of two with a separator between them splits into the
/// two.
pub proof fn joined_texts_split<'a>(
    text: &'a str,
    c: char,
    a: Seq<char>,
    b: Seq<char>,
    parts: Option<(&'a str, &'a str)>,
)
    requires
        !a.contains(c),
        text@ == a.push(c) + b,
        call_ensures(split_once, (text, c), parts),
    ensures
        parts matches Some((x, y)) && x@ == a && y@ == b,
{
    texts_split_where_they_were_joined(a, c, b);
}

/// The stem and the extension of a path are those of the name behind its last
/// separator.
pub proof fn paths_have_a_stem_and_an_extension<'a>(
    path: &'a str,
    dir: Seq<char>,
    base: Seq<char>,
    ext: Seq<char>,
    stem: Option<&'a str>,
    ending: Option<&'a str>,
)
    requires
        base.len() > 0,
        !base.contains('/'),
        !ext.contains('/'),
        !ext.contains('.'),
        base != seq!['.'] || ext.len() > 0,
        path@ == dir.push('/') + (base.push('.') + ext),
        call_ensures(file_stem, (path,), stem),
        call_ensures(extension, (path,), ending),
    ensures
        stem matches Some(s) && s@ == base,
        ending matches Some(e) && e@ == ext,
{
    paths_have_the_ends_of_their_file_name(dir, base, ext);
}

/// A layer text is read as it is put together.
pub proof fn layers_are_read_as_written(
    text: &str,
    name: Seq<char>,
    path: Seq<char>,
    table: Seq<char>,
    layer: Result<LayerSpec, Error>,
)
    requires
        !name.contains('='),
        !path.contains('#'),
        path.len() > 0,
        text@ == name.push('=') + (path.push('#') + table),
        call_ensures(parse_layer_spec, (text,), layer),
    ensures
        layer matches Ok(l) && l.name@ == name && l.path@ == path && l.gpkg_table is Some
            && l.gpkg_table->Some_0@ == table,
{
    layer_texts_are_read_as_written(name, path, table);
}

/// The limits of a box are read in the order west, south, east, north.
pub proof fn box_limits_are_read_in_order<'a>(
    text: &'a str,
    key: Seq<char>,
    west: Seq<char>,
    south: Seq<char>,
    east: Seq<char>,
    north: Seq<char>,
    limits: Option<(&'a str, &'a str, &'a str, &'a str)>,
)
    requires
        key == "bbox"@,
        !key.contains('='),
        !west.contains(','),
        !south.contains(','),
        !east.contains(','),
        !north.contains(','),
        text@ == key.push('=') + (west.push(',') + (south.push(',') + (east.push(',') + north))),
        call_ensures(parse_bbox, (text,), limits),
    ensures
        limits matches Some((w, s, e, n)) && w@ == west && s@ == south && e@ == east && n@ == north,
{
    boxes_are_read_as_written(key, west, south, east, north, Seq::empty());
}

/// A path goes to an archive exactly by its extension, whatever the case, and
/// vector tiles are gzipped but in a directory.
pub proof fn paths_tell_the_output(
    path: &str,
    dir: Seq<char>,
    stem: Seq<char>,
    ext: Seq<char>,
    kind: OutputKind,
    compress: bool,
)
    requires
        stem.len() > 0,
        !stem.contains('/'),
        !ext.contains('/'),
        !ext.contains('.'),
        stem != seq!['.'] || ext.len() > 0,
        path@ == dir.push('/') + (stem.push('.') + ext),
        call_ensures(output_kind, (path,), kind),
        call_ensures(OutputKind::compresses, (kind,), compress),
    ensures
        kind == OutputKind::Mbtiles <==> same_word(ext, "mbtiles"@),
        kind == OutputKind::Pmtiles <==> same_word(ext, "pmtiles"@),
        compress <==> same_word(ext, "mbtiles"@) || same_word(ext, "pmtiles"@),
{
    outputs_go_by_their_extension(dir, stem, ext);
}

/// A vector file's format is told by its extension, and only GeoJSON tells the CRS.
pub proof fn extensions_tell_the_format(
    ext: &str,
    asked: Option<SourceCrs>,
    format: VectorFormat,
    crs: Option<SourceCrs>,
)
    requires
        call_ensures(format_for, (ext,), format),
        call_ensures(vector_crs, (format, asked), crs),
    ensures
        format == VectorFormat::GeoJson <==> ext@ == "geojson"@ || ext@ == "json"@,
        format == VectorFormat::GeoPackage <==> ext@ == "gpkg"@,
        format == VectorFormat::Shapefile <==> ext@ == "shp"@,
        format == VectorFormat::GeoParquet <==> ext@ == "parquet"@,
        format == VectorFormat::FlatGeobuf <==> ext@ == "fgb"@,
        asked is Some ==> crs == asked,
        asked is None && format == VectorFormat::GeoJson ==> crs == Some(SourceCrs::LonLat),
        asked is None && format != VectorFormat::GeoJson ==> crs is None,
{
    formats_go_by_their_extension(ext@);
}

/// A selection of bands is taken exactly where it can be shown: one, three or four.
pub proof fn selections_can_be_shown(bands: &[usize], valid: Result<(), Error>)
    requires
        call_ensures(validate_band_selection, (bands,), valid),
    ensures
        valid is Ok <==> bands@.len() != 0 && bands@.len() != 2 && bands@.len() <= 4,
{
}

/// Each image format has its own name.
pub proof fn formats_have_their_names(format: TileFormat, name: &'static str)
    requires
        call_ensures(TileFormat::as_str, (format,), name),
    ensures
        format == TileFormat::Png ==> name@ == "png"@,
        format == TileFormat::WebP ==> name@ == "webp"@,
        format == TileFormat::Jpeg ==> name@ == "jpeg"@,
{
}

/// The summary of a tree says what the metadata say, the bounds in the order west,
/// south, east, north.
pub proof fn summaries_say_what_the_metadata_say(
    sink: &XyzSink,
    meta: &PyramidMetadata,
    bounds: &BoundsText,
    out: String,
)
    requires
        call_ensures(XyzSink::metadata_json, (sink, meta, bounds), out),
    ensures
        says(out@, "{\n  \"name\": "@ + quoted(meta.name@)),
        says(out@, ",\n  \"format\": \""@ + meta.format@),
        says(
            out@,
            "\",\n  \"minzoom\": "@ + decimal(meta.min_zoom as nat) + ",\n  \"maxzoom\": "@
                + decimal(meta.max_zoom as nat),
        ),
        says(
            out@,
            ",\n  \"bounds\": ["@ + bounds.west@ + ", "@ + bounds.south@ + ", "@ + bounds.east@
                + ", "@ + bounds.north@,
        ),
        meta.json matches Some(j) ==> says(
            out@,
            "],\n  \"scheme\": \"xyz\""@ + ",\n  \"json\": "@ + quoted(j@) + "\n}\n"@,
        ),
{
    summaries_say_what_viewers_need(
        meta.name@,
        meta.format@,
        meta.min_zoom,
        meta.max_zoom,
        *bounds,
        match meta.json {
            Some(j) => Some(j@),
            None => None,
        },
    );
}

/// Options of a vector run are taken exactly where they make sense.
pub proof fn sound_options_are_taken(opts: &MvtOptions, check: Result<(), Error>)
    requires
        call_ensures(check_options, (opts,), check),
    ensures
        check is Ok <==> opts.min_zoom <= opts.max_zoom && opts.extent > 0,
{
    options_are_refused_for_what_is_wrong(*opts);
}

/// Of two texts the one comes before whose byte is the smaller where they first
/// differ.
pub proof fn texts_come_in_the_order_of_their_bytes(a: &str, b: &str, k: int, less: bool)
    requires
        0 <= k < encode_utf8(a@).len(),
        k < encode_utf8(b@).len(),
        encode_utf8(a@).take(k) == encode_utf8(b@).take(k),
        encode_utf8(a@)[k] != encode_utf8(b@)[k],
        call_ensures(comes_before, (a, b), less),
    ensures
        less <==> encode_utf8(a@)[k] < encode_utf8(b@)[k],
{
    texts_go_by_their_first_difference(a@, b@, k);
    texts_go_by_their_first_difference(b@, a@, k);
}

} // verus!
