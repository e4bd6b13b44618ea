//! What holds of raster operations, said of what goes in and what comes out.

use vstd::prelude::*;
use vstd::utf8::encode_utf8;

use crate::bytes::{u16_at, u32_at, u64_at};
use crate::cog::{
    build_overviews, downsample_half, edge_fits, encode_level_tiles, encoded_as,
    files_are_as_told, halved, halved_cells_stand_for_four, holds_cell, image_of, image_wf,
    images_are_described, images_begin_with_the_raster, images_keep_cells_in_place, images_of,
    images_wf, is_pyramid, lemma_tile_count, level_grid, levels_of, make_image, output_crs,
    output_crs_spec, overviews_halve_until_one_tile, rasters_keep_their_crs, samples_are_found,
    small_rasters_have_no_overview, stored_tile, tiles_hold_their_cells, write_cog, CogInfo,
    CogOptions, Image, ImageModel, RasterInfo,
};
use crate::cog_layout::{
    assemble_cog, cog_bytes, crs_is_found, directories_chain, directory_at, file_size_is_planned,
    geo_key_directory, georeference_is_found, holds_long, holds_short, is_entry, is_geo_key,
    level_models, levels_are_described, levels_wf, nodata_is_found, tiles_are_found, values_at,
    CogCompression, CogTags, Level, TagsModel,
};
use crate::compress::zlib_compressed;
use crate::error::Error;
use crate::grid::{ceil_div, lemma_position, Grid};
use crate::images::{
    band_view, compose_rgba, composing_keeps_pixels_in_place, encode_rgba,
    formats_have_their_encoders, is_pixel_on_black, jpeg_encoded, png_encoded, sample_grid,
    webp_encoded, TileFormat,
};
use crate::pyramid::{stretch_of, Shading};
use crate::render::{
    any_sample, are_sampled, colour_tiles_show_their_source, is_image, is_tile_of_bytes,
    pixels_show_their_bands, render_tile_gray, render_tile_image_in_memory, render_tile_rgb,
    rendered_bytes_have_a_pixel, samples_stand_row_by_row, scheme_tiles_show_their_source,
    shows_channels, shows_source,
};
use crate::source::{RasterSource, SourceCrs};
use crate::tiff::{
    double_bytes, doubles_are_read_back, long_bytes, longs_are_read_back, padded, short_bytes,
    shorts_are_read_back, Entry,
};

verus! {

/// A JPEG tile is made of three bytes for each pixel, in the order of the pixels:
/// each colour scaled by its pixel's alpha, at quality 85.
pub proof fn jpeg_tiles_keep_their_pixels(rgba: &[u8], tile_size: u32, image: Vec<u8>)
    requires
        tile_size <= u16::MAX,
        rgba@.len() == 4 * (tile_size * tile_size),
        call_ensures(encode_rgba, (rgba, tile_size, TileFormat::Jpeg), Ok(image)),
    ensures
        exists|rgb: Seq<u8>|
            {
                &&& #[trigger] jpeg_encoded(tile_size as u16, tile_size as u16, rgb, 85) == Some(
                    image@,
                )
                &&& rgb.len() == 3 * (tile_size * tile_size)
                &&& forall|p: int|
                    0 <= p < tile_size * tile_size ==> #[trigger] is_pixel_on_black(rgb, rgba@, p)
            },
{
    formats_have_their_encoders(rgba@, tile_size);
}

/// A PNG or a WebP tile is made of the very bytes that are given.
pub proof fn lossless_tiles_keep_their_bytes(
    rgba: &[u8],
    tile_size: u32,
    png: Vec<u8>,
    webp: Vec<u8>,
)
    requires
        tile_size <= u16::MAX,
        rgba@.len() == 4 * (tile_size * tile_size),
        call_ensures(encode_rgba, (rgba, tile_size, TileFormat::Png), Ok(png)),
        call_ensures(encode_rgba, (rgba, tile_size, TileFormat::WebP), Ok(webp)),
    ensures
        png_encoded(tile_size, tile_size, rgba@) == Some(png@),
        webp_encoded(tile_size, tile_size, rgba@) == Some(webp@),
{
    formats_have_their_encoders(rgba@, tile_size);
}

/// The cells that are sampled stand row by row: at `i * n + j` stands what the
/// sampler says of row `i` and column `j`.
pub proof fn sampled_cells_stand_row_by_row<V, F>(
    n: usize,
    sample: &F,
    cells: Vec<Option<V>>,
    i: usize,
    j: usize,
) where F: Fn(usize, usize) -> Option<V>
    requires
        call_ensures(sample_grid::<V, F>, (n, sample), cells),
        i < n,
        j < n,
    ensures
        cells@.len() == n * n,
        0 <= i * n + j < n * n,
        call_ensures(*sample, (i, j), cells@[i * n + j]),
{
    lemma_position(i as int, j as int, n as int, n as int);
}

/// The pixel of row `i` and column `j` of a tile shows what the sampler says of
/// bands 0, 1 and 2 there as red, green and blue, and of a fourth band as alpha.
/// There are no bytes exactly where no pixel has all three colours.
pub proof fn rendered_pixels_show_their_samples<F>(
    tile_size: u32,
    bands: usize,
    sample: &F,
    rgba: Option<Vec<u8>>,
    i: usize,
    j: usize,
) where F: Fn(usize, usize, usize) -> Option<u8>
    requires
        call_ensures(render_tile_rgb::<F>, (tile_size, bands, sample), rgba),
        i < tile_size,
        j < tile_size,
    ensures
        exists|r: Option<u8>, g: Option<u8>, b: Option<u8>, a: Option<u8>|
            {
                &&& call_ensures(*sample, (0, i, j), r)
                &&& call_ensures(*sample, (1, i, j), g)
                &&& call_ensures(*sample, (2, i, j), b)
                &&& bands == 4 ==> call_ensures(*sample, (3, i, j), a)
                &&& bands != 4 ==> a is None
                &&& #[trigger] shows_channels(
                    rgba,
                    tile_size as int,
                    i as int,
                    j as int,
                    r,
                    g,
                    b,
                    a,
                )
            },
        rgba is Some ==> exists|y: usize, x: usize, r: u8, g: u8, b: u8|
            {
                &&& y < tile_size
                &&& x < tile_size
                &&& #[trigger] call_ensures(*sample, (0, y, x), Some(r))
                &&& #[trigger] call_ensures(*sample, (1, y, x), Some(g))
                &&& #[trigger] call_ensures(*sample, (2, y, x), Some(b))
            },
{
    pixels_show_their_bands(tile_size as int, bands, *sample, rgba, i, j);
    if let Some(v) = rgba {
        rendered_bytes_have_a_pixel(tile_size as int, bands, *sample, v);
    }
}

/// A tile through a colour scheme is the image of what the scheme makes of the
/// samples of the first band, that of row `i` and column `j` at `i * n + j`. It is
/// empty exactly where no pixel has a sample.
pub proof fn scheme_tiles_show_the_first_band<T: Copy, X, F, K, L>(
    source: &RasterSource<T, X>,
    lo: T,
    hi: T,
    byte_range: (T, T),
    tile_size: u32,
    format: TileFormat,
    sample: &F,
    colour: &K,
    level: &L,
    tile: Result<Option<Vec<u8>>, Error>,
) where
    F: Fn(&RasterSource<T, X>, usize, usize, usize) -> Option<T>,
    K: Fn(T, T, &Vec<Option<T>>) -> Vec<u8>,
    L: Fn(T, (T, T)) -> u8,

    requires
        call_ensures(
            render_tile_image_in_memory::<T, X, F, K, L>,
            (
                source,
                &Shading::Colormap(lo, hi),
                byte_range,
                tile_size,
                format,
                sample,
                colour,
                level,
            ),
            tile,
        ),
    ensures
        exists|cells: Vec<Option<T>>, rgba: Option<Vec<u8>>|
            #![trigger cells@, is_tile_of_bytes(rgba, tile_size, format, tile)]
            {
                &&& cells@.len() == tile_size * tile_size
                &&& forall|i: usize, j: usize, k: int|
                    #![trigger call_ensures(*sample, (source, 0usize, i, j), cells@[k])]
                    i < tile_size && j < tile_size && k == i * tile_size + j ==> call_ensures(
                        *sample,
                        (source, 0usize, i, j),
                        cells@[k],
                    )
                &&& rgba is None <==> forall|k: int|
                    0 <= k < cells@.len() ==> (#[trigger] cells@[k]) is None
                &&& rgba is Some ==> call_ensures(*colour, (lo, hi, &cells), rgba->Some_0)
                &&& is_tile_of_bytes(rgba, tile_size, format, tile)
            },
{
    scheme_tiles_show_their_source(
        *source,
        lo,
        hi,
        byte_range,
        tile_size,
        format,
        *sample,
        *colour,
        *level,
        tile,
    );
}

/// A tile of colour bands is the image of bytes that show, pixel by pixel, what the
/// sampler says of the bands of the source there.
pub proof fn colour_tiles_show_all_bands<T: Copy, X, F, K, L>(
    source: &RasterSource<T, X>,
    stretches: Vec<(T, T)>,
    byte_range: (T, T),
    tile_size: u32,
    format: TileFormat,
    sample: &F,
    colour: &K,
    level: &L,
    tile: Result<Option<Vec<u8>>, Error>,
) where
    F: Fn(&RasterSource<T, X>, usize, usize, usize) -> Option<T>,
    K: Fn(T, T, &Vec<Option<T>>) -> Vec<u8>,
    L: Fn(T, (T, T)) -> u8,

    requires
        stretches@.len() >= 3,
        call_ensures(
            render_tile_image_in_memory::<T, X, F, K, L>,
            (
                source,
                &Shading::Rgb(stretches),
                byte_range,
                tile_size,
                format,
                sample,
                colour,
                level,
            ),
            tile,
        ),
    ensures
        exists|rgba: Option<Vec<u8>>|
            {
                &&& #[trigger] is_tile_of_bytes(rgba, tile_size, format, tile)
                &&& forall|i: usize, j: usize|
                    i < tile_size && j < tile_size ==> #[trigger] shows_source(
                        rgba,
                        tile_size as int,
                        *source,
                        stretches@,
                        *sample,
                        *level,
                        i,
                        j,
                    )
            },
{
    colour_tiles_show_their_source(
        *source,
        stretches,
        byte_range,
        tile_size,
        format,
        *sample,
        *colour,
        *level,
        tile,
    );
}

/// Each of the first three bands is stretched by the pair of its number, a fourth
/// one as the first, and one for which there is no pair over the byte range.
pub proof fn bands_are_stretched_by_their_pair<T: Copy>(
    stretches: &Vec<(T, T)>,
    band: usize,
    byte_range: (T, T),
    stretch: (T, T),
)
    requires
        call_ensures(stretch_of::<T>, (stretches, band, byte_range), stretch),
    ensures
        band < 3 && band < stretches@.len() ==> stretch == stretches@[band as int],
        band == 3 && 0 < stretches@.len() ==> stretch == stretches@[0],
        band < 3 && band >= stretches@.len() ==> stretch == byte_range,
        stretches@.len() == 0 ==> stretch == byte_range,
{
}

/// A raster at half the resolution has half the rows and columns, rounded up, and
/// each of its cells is the mean of the two by two cells under it, row by row, of
/// which those beyond the edge count as empty. A cell over empty ones is empty.
pub proof fn half_rasters_are_means_of_four<T: Copy, M>(
    raster: &Grid<T>,
    mean: &M,
    half: Grid<T>,
    row: int,
    col: int,
) where M: Fn(Option<T>, Option<T>, Option<T>, Option<T>) -> Option<T>
    requires
        raster.wf(),
        call_ensures(downsample_half::<T, M>, (raster, mean), half),
        0 <= row < half.rows,
        0 <= col < half.cols,
        2 * row + 1 < raster.rows,
        2 * col + 1 < raster.cols,
    ensures
        half.rows == (raster.rows + 1) / 2,
        half.cols == (raster.cols + 1) / 2,
        ({
            let w = raster.cols as int;
            let top = (2 * row) * w + 2 * col;
            let below = (2 * row + 1) * w + 2 * col;
            let cell = half.cells@[row * half.cols + col];
            let (a, b) = (raster.cells@[top], raster.cells@[top + 1]);
            let (c, d) = (raster.cells@[below], raster.cells@[below + 1]);
            &&& a is None && b is None && c is None && d is None ==> cell is None
            &&& a is Some || b is Some || c is Some || d is Some ==> call_ensures(
                *mean,
                (a, b, c, d),
                cell,
            )
        }),
{
    halved_cells_stand_for_four(*raster, half, *mean, row, col);
}

/// The samples of an image stand where the cells of its raster stand.
pub proof fn images_hold_the_cells_of_their_raster<T: Copy, E>(
    grid: &Grid<T>,
    fill: u32,
    sample: &E,
    image: Image,
    row: int,
    col: int,
) where E: Fn(T) -> u32
    requires
        grid.wf(),
        call_ensures(make_image::<T, E>, (grid, fill, sample), image),
        0 <= row < grid.rows,
        0 <= col < grid.cols,
    ensures
        image.rows == grid.rows,
        image.cols == grid.cols,
        image.values@.len() == grid.rows * grid.cols,
        grid.cells@[row * grid.cols + col] matches Some(v) ==> call_ensures(
            *sample,
            (v,),
            image.values@[row * grid.cols + col],
        ),
        grid.cells@[row * grid.cols + col] is None ==> image.values@[row * grid.cols + col] == fill,
{
    images_keep_cells_in_place(*grid, image@, fill, *sample, row, col);
}

/// Overviews halve a raster just until it fits one tile.
pub proof fn overviews_end_at_one_tile<T: Copy, M>(
    raster: &Grid<T>,
    tile_size: u32,
    mean: &M,
    overviews: Vec<Grid<T>>,
    k: int,
) where M: Fn(Option<T>, Option<T>, Option<T>, Option<T>) -> Option<T>
    requires
        call_ensures(build_overviews::<T, M>, (raster, tile_size, mean), overviews),
    ensures
        overviews@.len() == 0 <==> raster.rows <= tile_size && raster.cols <= tile_size,
        overviews@.len() > 0 ==> overviews@.last().rows <= tile_size && overviews@.last().cols
            <= tile_size,
        0 < k < overviews@.len() ==> halved(overviews@[k - 1], overviews@[k], *mean) && (
        overviews@[k - 1].rows > tile_size || overviews@[k - 1].cols > tile_size),
        overviews@.len() > 0 ==> halved(*raster, overviews@[0], *mean),
{
    small_rasters_have_no_overview(*raster, overviews@, tile_size, *mean);
    if overviews@.len() > 0 {
        overviews_halve_until_one_tile(*raster, overviews@, tile_size, *mean, 0);
        if 0 < k < overviews@.len() {
            overviews_halve_until_one_tile(*raster, overviews@, tile_size, *mean, k);
        }
    }
}

/// A raster is recorded with the CRS that is asked for, else with that of its code:
/// 4326 is geographic, 3857 and 900913 are Web Mercator.
pub proof fn recorded_crs_is_the_one_told(
    asked: Option<SourceCrs>,
    epsg: Option<u32>,
    crs: SourceCrs,
)
    requires
        call_ensures(output_crs, (asked, epsg), Ok(crs)),
    ensures
        asked is Some ==> asked == Some(crs),
        asked is None ==> match crs {
            SourceCrs::LonLat => epsg == Some(4326u32),
            SourceCrs::Mercator => epsg == Some(3857u32) || epsg == Some(900913u32),
        },
{
    rasters_keep_their_crs(asked, epsg);
}

proof fn lemma_level_models(levels: Seq<Level>, k: int)
    requires
        0 <= k < levels.len(),
    ensures
        level_models(levels).len() == levels.len(),
        level_models(levels)[k].width == levels[k].width,
        level_models(levels)[k].height == levels[k].height,
        level_models(levels)[k].tiles.len() == levels[k].tiles@.len(),
        forall|t: int|
            0 <= t < levels[k].tiles@.len() ==> #[trigger] level_models(levels)[k].tiles[t]
                == levels[k].tiles@[t]@,
{
}

/// A file is found by a reader to hold what was handed in: the georeference in its
/// first directory, and in the directory of each level its width, its height, the
/// edge of its tiles, and each of its tiles.
pub proof fn files_hold_what_was_handed_in(
    levels: &Vec<Level>,
    tags: &CogTags,
    file: Vec<u8>,
    k: int,
    t: int,
)
    requires
        levels@.len() > 0,
        forall|j: int| 0 <= j < levels@.len() ==> (#[trigger] levels@[j]).tiles@.len() > 0,
        call_ensures(assemble_cog, (levels, tags), Some(file)),
        0 <= k < levels@.len(),
        0 <= t < levels@[k].tiles@.len(),
    ensures
        ({
            let dir = directory_at(file@, 0);
            &&& exists|i: int|
                {
                    let at = values_at(file@, dir, i, 8);
                    &&& #[trigger] is_entry(file@, dir, i, 33922, 12, 6)
                    &&& u64_at(file@, at) == 0
                    &&& u64_at(file@, at + 8) == 0
                    &&& u64_at(file@, at + 16) == 0
                    &&& u64_at(file@, at + 24) == tags.georef.origin_x
                    &&& u64_at(file@, at + 32) == tags.georef.origin_y
                    &&& u64_at(file@, at + 40) == 0
                }
            &&& exists|i: int|
                {
                    let at = values_at(file@, dir, i, 8);
                    &&& #[trigger] is_entry(file@, dir, i, 33550, 12, 3)
                    &&& u64_at(file@, at) == tags.georef.pixel_width
                    &&& u64_at(file@, at + 8) == tags.georef.pixel_height
                    &&& u64_at(file@, at + 16) == 0
                }
        }),
        ({
            let dir = directory_at(file@, k);
            let n = levels@[k].tiles@.len() as int;
            &&& holds_long(file@, dir, 256, levels@[k].width as int)
            &&& holds_long(file@, dir, 257, levels@[k].height as int)
            &&& holds_long(file@, dir, 322, tags.tile_size as int)
            &&& holds_long(file@, dir, 323, tags.tile_size as int)
            &&& holds_short(
                file@,
                dir,
                259,
                if tags.compression == CogCompression::Deflate {
                    8
                } else {
                    1
                },
            )
            &&& exists|i: int, j: int|
                {
                    let at = u32_at(file@, values_at(file@, dir, i, 4) + 4 * t);
                    let len = u32_at(file@, values_at(file@, dir, j, 4) + 4 * t);
                    &&& #[trigger] is_entry(file@, dir, i, 324, 4, n)
                    &&& #[trigger] is_entry(file@, dir, j, 325, 4, n)
                    &&& file@.subrange(at, at + len) == levels@[k].tiles@[t]@
                }
        }),
{
    let m = level_models(levels@);
    assert forall|j: int| 0 <= j < m.len() implies (#[trigger] m[j]).tiles.len() > 0 by {
        lemma_level_models(levels@, j);
        assert(levels@[j].tiles@.len() > 0);
    }
    assert(levels_wf(m));
    lemma_level_models(levels@, k);
    georeference_is_found(m, tags@);
    levels_are_described(m, tags@, k);
    tiles_are_found(m, tags@, k, t);
}

/// A file is found by a reader to tell its CRS and, in UTF-8 closed by a zero byte,
/// its nodata value.
pub proof fn files_tell_their_crs(levels: &Vec<Level>, tags: &CogTags, file: Vec<u8>)
    requires
        levels@.len() > 0,
        forall|j: int| 0 <= j < levels@.len() ==> (#[trigger] levels@[j]).tiles@.len() > 0,
        call_ensures(assemble_cog, (levels, tags), Some(file)),
    ensures
        file@[0] == 73,
        file@[1] == 73,
        file@.len() <= u32::MAX,
        ({
            let dir = directory_at(file@, 0);
            let text = encode_utf8(tags.nodata@);
            let n = text.len() as int + 1;
            &&& exists|i: int|
                {
                    let at = values_at(file@, dir, i, 2);
                    &&& #[trigger] is_entry(file@, dir, i, 34735, 3, 16)
                    &&& u32_at(file@, at) == 0x1_0001
                    &&& is_geo_key(file@, at, 2, 1025, 1)
                    &&& tags.crs == SourceCrs::LonLat ==> is_geo_key(file@, at, 1, 1024, 2)
                        && is_geo_key(file@, at, 3, 2048, 4326)
                    &&& tags.crs == SourceCrs::Mercator ==> is_geo_key(file@, at, 1, 1024, 1)
                        && is_geo_key(file@, at, 3, 3072, 3857)
                }
            &&& exists|i: int|
                {
                    let at = values_at(file@, dir, i, 1);
                    &&& #[trigger] is_entry(file@, dir, i, 42113, 2, n)
                    &&& file@.subrange(at, at + text.len()) == text
                    &&& file@[at + text.len()] == 0
                }
        }),
{
    let m = level_models(levels@);
    assert forall|j: int| 0 <= j < m.len() implies (#[trigger] m[j]).tiles.len() > 0 by {
        lemma_level_models(levels@, j);
        assert(levels@[j].tiles@.len() > 0);
    }
    assert(levels_wf(m));
    file_size_is_planned(m, tags@);
    directories_chain(m, tags@, 0);
    crs_is_found(m, tags@);
    nodata_is_found(m, tags@);
}

proof fn lemma_levels_have_cells<T: Copy, M>(
    raster: Grid<T>,
    overviews: Seq<Grid<T>>,
    tile_size: u32,
    mean: M,
    k: int,
) where M: Fn(Option<T>, Option<T>, Option<T>, Option<T>) -> Option<T>
    requires
        raster.wf(),
        raster.rows > 0,
        raster.cols > 0,
        is_pyramid(raster, overviews, tile_size, mean),
        0 <= k <= overviews.len(),
    ensures
        level_grid(raster, overviews, k).wf(),
        0 < level_grid(raster, overviews, k).rows <= raster.rows,
        0 < level_grid(raster, overviews, k).cols <= raster.cols,
    decreases k,
{
    if k > 0 {
        lemma_levels_have_cells(raster, overviews, tile_size, mean, k - 1);
        overviews_halve_until_one_tile(raster, overviews, tile_size, mean, k - 1);
    }
}

proof fn lemma_images_wf<T: Copy, M, E>(
    raster: Grid<T>,
    images: Seq<ImageModel>,
    tile_size: u32,
    fill: u32,
    mean: M,
    sample: E,
) where
    M: Fn(Option<T>, Option<T>, Option<T>, Option<T>) -> Option<T>,
    E: Fn(T) -> u32,

    requires
        raster.wf(),
        0 < raster.rows <= u32::MAX,
        0 < raster.cols <= u32::MAX,
        tile_size > 0,
        4 * (tile_size * tile_size) <= usize::MAX,
        raster.rows + tile_size <= usize::MAX,
        raster.cols + tile_size <= usize::MAX,
        images_of(raster, images, tile_size, fill, mean, sample),
    ensures
        images_wf(images, tile_size as int),
{
    let overviews = choose|overviews: Seq<Grid<T>>|
        {
            &&& #[trigger] is_pyramid(raster, overviews, tile_size, mean)
            &&& images.len() == overviews.len() + 1
            &&& forall|k: int|
                0 <= k < images.len() ==> image_of(
                    level_grid(raster, overviews, k),
                    #[trigger] images[k],
                    fill,
                    sample,
                )
        };
    assert forall|k: int| 0 <= k < images.len() implies image_wf(#[trigger] images[k]) && edge_fits(
        images[k],
        tile_size as int,
    ) by {
        lemma_levels_have_cells(raster, overviews, tile_size, mean, k);
        assert(image_of(level_grid(raster, overviews, k), images[k], fill, sample));
    }
}

/// A raster that is written is read back: the first directory of the file has its
/// columns as the width and its rows as the height, the georeference is its own,
/// and, in a file that is not compressed, the sample of each row and column stands
/// in the tile that these lead to: what is sampled of the cell there, or the fill.
pub proof fn written_rasters_are_read_back<T: Copy, M, E>(
    raster: &Grid<T>,
    about: &RasterInfo,
    opts: &CogOptions,
    mean: &M,
    sample: &E,
    file: Vec<u8>,
    info: CogInfo,
    row: int,
    col: int,
) where
    M: Fn(Option<T>, Option<T>, Option<T>, Option<T>) -> Option<T>,
    E: Fn(T) -> u32,

    requires
        raster.wf(),
        raster.rows <= u32::MAX,
        raster.cols <= u32::MAX,
        4 * (opts.tile_size * opts.tile_size) <= usize::MAX,
        raster.rows + opts.tile_size <= usize::MAX,
        raster.cols + opts.tile_size <= usize::MAX,
        opts.compression == CogCompression::Uncompressed,
        call_ensures(
            write_cog::<T, M, E>,
            (raster, about, opts, mean, sample),
            Ok((file, info)),
        ),
        0 <= row < raster.rows,
        0 <= col < raster.cols,
    ensures
        info.file_size == file@.len(),
        info.levels > 0,
        ({
            let dir = directory_at(file@, 0);
            let ts = opts.tile_size as int;
            let across = (raster.cols + ts - 1) / ts;
            let n = ((raster.rows + ts - 1) / ts) * across;
            let tile = (row / ts) * across + col / ts;
            let place = (row % ts) * ts + col % ts;
            let cell = raster.cells@[row * raster.cols + col];
            &&& holds_long(file@, dir, 256, raster.cols as int)
            &&& holds_long(file@, dir, 257, raster.rows as int)
            &&& exists|i: int|
                {
                    let at = values_at(file@, dir, i, 8);
                    &&& #[trigger] is_entry(file@, dir, i, 33922, 12, 6)
                    &&& u64_at(file@, at + 24) == about.georef.origin_x
                    &&& u64_at(file@, at + 32) == about.georef.origin_y
                }
            &&& exists|i: int|
                {
                    let at = values_at(file@, dir, i, 8);
                    &&& #[trigger] is_entry(file@, dir, i, 33550, 12, 3)
                    &&& u64_at(file@, at) == about.georef.pixel_width
                    &&& u64_at(file@, at + 8) == about.georef.pixel_height
                }
            &&& exists|i: int, v: u32|
                {
                    let at = u32_at(file@, values_at(file@, dir, i, 4) + 4 * tile);
                    &&& #[trigger] is_entry(file@, dir, i, 324, 4, n)
                    &&& #[trigger] is_sample_of(cell, about.fill, *sample, v)
                    &&& u32_at(file@, at + 4 * place) == v
                }
        }),
{
    let ts = opts.tile_size as int;
    let crs = output_crs_spec(opts.crs, about.epsg)->Ok_0;
    let tags = TagsModel {
        tile_size: opts.tile_size,
        compression: opts.compression,
        georef: about.georef,
        crs,
        nodata: about.nodata@,
    };
    let images = choose|images: Seq<ImageModel>|
        {
            &&& #[trigger] images_of(
                *raster,
                images,
                opts.tile_size,
                about.fill,
                *mean,
                *sample,
            )
            &&& encoded_as(images, about.fill, tags, Ok((file, info)))
        };
    lemma_images_wf(*raster, images, opts.tile_size, about.fill, *mean, *sample);
    images_begin_with_the_raster(
        *raster,
        images,
        opts.tile_size,
        about.fill,
        *mean,
        *sample,
        row,
        col,
        0,
    );
    files_are_as_told(images, about.fill, tags, file, info);
    images_are_described(images, about.fill, tags, 0);
    samples_are_found(images, about.fill, tags, 0, row, col);
    let levels = levels_of(images, about.fill, ts, tags.compression);
    assert(file@ == cog_bytes(levels, tags));
    lemma_levels_of_wf(images, about.fill, ts, tags.compression);
    georeference_is_found(levels, tags);
    let v = images[0].values[row * raster.cols + col];
    assert(is_sample_of(raster.cells@[row * raster.cols + col], about.fill, *sample, v));
}

proof fn lemma_levels_of_wf(
    images: Seq<ImageModel>,
    fill: u32,
    ts: int,
    compression: CogCompression,
)
    requires
        images_wf(images, ts),
    ensures
        levels_wf(levels_of(images, fill, ts, compression)),
{
    let levels = levels_of(images, fill, ts, compression);
    assert forall|j: int| 0 <= j < levels.len() implies (#[trigger] levels[j]).tiles.len() > 0 by {
        assert(image_wf(images[j]) && edge_fits(images[j], ts));
        lemma_tile_count(images[j], ts);
    }
}

/// `v` is what is sampled of a cell, or the fill where the cell is empty.
pub open spec fn is_sample_of<T, E>(cell: Option<T>, fill: u32, sample: E, v: u32) -> bool where
    E: Fn(T) -> u32,
 {
    match cell {
        Some(t) => call_ensures(sample, (t,), v),
        None => v == fill,
    }
}

/// The GeoTIFF keys of a CRS hold three keys, in ascending order: the model, that
/// cells are areas, and the system, each with its value.
pub proof fn keys_tell_the_crs(crs: SourceCrs, keys: Vec<u16>)
    requires
        call_ensures(geo_key_directory, (crs,), keys),
    ensures
        keys@.len() == 16,
        keys@[3] == 3,
        keys@[4] < keys@[8] < keys@[12],
        keys@[8] == 1025 && keys@[11] == 1,
        keys@[4] == 1024,
        crs == SourceCrs::LonLat ==> keys@[7] == 2 && keys@[12] == 2048 && keys@[15] == 4326,
        crs == SourceCrs::Mercator ==> keys@[7] == 1 && keys@[12] == 3072 && keys@[15] == 3857,
{
}

/// The cell at a row and column of a grid is the one at that row times the columns
/// and that column; there is none outside it.
pub proof fn grids_give_the_cell_asked_for<T: Copy>(
    grid: &Grid<T>,
    row: usize,
    col: usize,
    cell: Option<T>,
)
    requires
        grid.wf(),
        call_ensures(Grid::<T>::get, (grid, row, col), cell),
    ensures
        row < grid.rows && col < grid.cols ==> cell == grid.cells@[row * grid.cols + col],
        row >= grid.rows || col >= grid.cols ==> cell is None,
{
}

/// An entry of doubles holds each in its place, under its tag.
pub proof fn entries_hold_their_doubles(tag: u16, vs: &[u64], entry: Entry, i: int)
    requires
        call_ensures(Entry::doubles, (tag, vs), entry),
        0 <= i < vs@.len(),
    ensures
        entry.tag == tag,
        entry.typ == 12,
        entry.count == vs@.len(),
        entry.value@.len() == 8 * vs@.len(),
        u64_at(entry.value@, 8 * i) == vs@[i],
{
    assert(entry@.value == double_bytes(vs@));
    doubles_are_read_back(vs@, i);
}

/// An entry of 32-bit values holds each in its place, under its tag.
pub proof fn entries_hold_their_longs(tag: u16, vs: &[u32], entry: Entry, i: int)
    requires
        call_ensures(Entry::longs, (tag, vs), entry),
        0 <= i < vs@.len(),
    ensures
        entry.tag == tag,
        entry.typ == 4,
        entry.count == vs@.len(),
        u32_at(entry.value@, 4 * i) == vs@[i],
{
    assert(entry@.value == long_bytes(vs@));
    longs_are_read_back(vs@, i);
}

/// An entry of 16-bit values holds each in its place, under its tag.
pub proof fn entries_hold_their_shorts(tag: u16, vs: &[u16], entry: Entry, i: int)
    requires
        call_ensures(Entry::shorts, (tag, vs), entry),
        0 <= i < vs@.len(),
    ensures
        entry.tag == tag,
        entry.typ == 3,
        entry.count == vs@.len(),
        entry.value@.len() >= 4,
        u16_at(entry.value@, 2 * i) == vs@[i],
{
    let raw = short_bytes(vs@);
    assert(entry@.value == padded(raw));
    shorts_are_read_back(vs@, i);
    assert(entry.value@[2 * i] == raw[2 * i] && entry.value@[2 * i + 1] == raw[2 * i + 1]);
}

/// A tile of one band is the image of what the colours make of the samples, that of
/// row `i` and column `j` at `i * n + j`, and is empty exactly where there is none.
pub proof fn gray_tiles_show_their_samples<V, F, K>(
    tile_size: u32,
    format: TileFormat,
    sample: &F,
    colour: &K,
    tile: Result<Option<Vec<u8>>, Error>,
) where F: Fn(usize, usize) -> Option<V>, K: Fn(&Vec<Option<V>>) -> Vec<u8>
    requires
        call_ensures(render_tile_gray::<V, F, K>, (tile_size, format, sample, colour), tile),
    ensures
        exists|cells: Vec<Option<V>>, rgba: Option<Vec<u8>>|
            #![trigger cells@, is_tile_of_bytes(rgba, tile_size, format, tile)]
            {
                &&& cells@.len() == tile_size * tile_size
                &&& forall|i: usize, j: usize, k: int|
                    #![trigger call_ensures(*sample, (i, j), cells@[k])]
                    i < tile_size && j < tile_size && k == i * tile_size + j ==> call_ensures(
                        *sample,
                        (i, j),
                        cells@[k],
                    )
                &&& rgba is None <==> forall|k: int|
                    0 <= k < cells@.len() ==> (#[trigger] cells@[k]) is None
                &&& rgba is Some ==> call_ensures(*colour, (&cells,), rgba->Some_0)
                &&& is_tile_of_bytes(rgba, tile_size, format, tile)
            },
{
    let n = tile_size as int;
    let cells = choose|cells: Vec<Option<V>>|
        {
            &&& #[trigger] are_sampled(n, *sample, cells@)
            &&& if !any_sample(cells@) {
                tile == Ok::<Option<Vec<u8>>, Error>(None)
            } else {
                exists|rgba: Vec<u8>| #[trigger]
                    call_ensures(*colour, (&cells,), rgba) && is_image(
                        rgba@,
                        tile_size,
                        format,
                        tile,
                    )
            }
        };
    assert forall|i: usize, j: usize, k: int|
        #![trigger call_ensures(*sample, (i, j), cells@[k])]
        i < tile_size && j < tile_size && k == i * tile_size + j implies call_ensures(
        *sample,
        (i, j),
        cells@[k],
    ) by {
        samples_stand_row_by_row(n, *sample, cells@, i, j);
    }
    if any_sample(cells@) {
        let v = choose|rgba: Vec<u8>| #[trigger]
            call_ensures(*colour, (&cells,), rgba) && is_image(rgba@, tile_size, format, tile);
        assert(is_tile_of_bytes(Some(v), tile_size, format, tile));
        let k = choose|k: int| 0 <= k < cells@.len() && (#[trigger] cells@[k]) is Some;
        assert(!(cells@[k] is None));
    } else {
        assert(is_tile_of_bytes(None, tile_size, format, tile));
    }
}

/// Pixel `p` of bands that are composed holds their samples at `p`: red, green and
/// blue in this order, 0 where there is none, and an alpha that is 0 where a colour
/// is missing, else that of the alpha band, or 255.
pub proof fn composed_pixels_hold_their_samples(
    r: &Vec<Option<u8>>,
    g: &Vec<Option<u8>>,
    b: &Vec<Option<u8>>,
    alpha: Option<&Vec<Option<u8>>>,
    rgba: Vec<u8>,
    p: int,
)
    requires
        0 <= p < r@.len(),
        call_ensures(compose_rgba, (r, g, b, alpha), Some(rgba)),
    ensures
        rgba@.len() == 4 * r@.len(),
        r@[p] is Some ==> rgba@[4 * p] == r@[p]->Some_0,
        g@[p] is Some ==> rgba@[4 * p + 1] == g@[p]->Some_0,
        b@[p] is Some ==> rgba@[4 * p + 2] == b@[p]->Some_0,
        r@[p] is None ==> rgba@[4 * p] == 0 && rgba@[4 * p + 3] == 0,
        g@[p] is None ==> rgba@[4 * p + 1] == 0 && rgba@[4 * p + 3] == 0,
        b@[p] is None ==> rgba@[4 * p + 2] == 0 && rgba@[4 * p + 3] == 0,
        r@[p] is Some && g@[p] is Some && b@[p] is Some ==> rgba@[4 * p + 3] == if alpha is Some
            && alpha->Some_0@[p] is Some {
            alpha->Some_0@[p]->Some_0
        } else {
            255
        },
{
    composing_keeps_pixels_in_place(r@, g@, b@, band_view(alpha), p);
}

/// The tile in row `ty` and column `tx` of a level is stored as tile `ty * across +
/// tx`: its cells, four bytes each, row by row, the fill where the image has no
/// cell, deflated where that is asked for.
pub proof fn level_tiles_hold_their_cells(
    image: &Image,
    fill: u32,
    tile_size: u32,
    compression: CogCompression,
    tiles: Vec<Vec<u8>>,
    ty: int,
    tx: int,
)
    requires
        tile_size > 0,
        image_wf(image@),
        call_ensures(encode_level_tiles, (image, fill, tile_size, compression), Ok(tiles)),
        0 <= ty < ceil_div(image.rows as int, tile_size as int),
        0 <= tx < ceil_div(image.cols as int, tile_size as int),
    ensures
        ({
            let ts = tile_size as int;
            let i = ty * ceil_div(image.cols as int, ts) + tx;
            &&& 0 <= i < tiles@.len()
            &&& tiles@.len() == ceil_div(image.rows as int, ts) * ceil_div(image.cols as int, ts)
            &&& exists|raw: Seq<u8>|
                {
                    &&& raw.len() == 4 * (ts * ts)
                    &&& forall|y: int, x: int|
                        0 <= y < ts && 0 <= x < ts ==> #[trigger] holds_cell(
                            raw,
                            image@,
                            fill,
                            ts,
                            ty,
                            tx,
                            y,
                            x,
                        )
                    &&& compression == CogCompression::Deflate ==> #[trigger] zlib_compressed(raw)
                        == Some(tiles@[i]@)
                    &&& compression == CogCompression::Uncompressed ==> raw == tiles@[i]@
                }
        }),
{
    tiles_hold_their_cells(image@, fill, tile_size as int, compression, ty, tx);
    let i = ty * ceil_div(image.cols as int, tile_size as int) + tx;
    assert(stored_tile(image@, fill, tile_size as int, compression, i) == Some(tiles@[i]@));
}

/// A raster that is written tells what it was written with: the CRS that is asked
/// for, else that of its own code, its nodata value, the edge of its tiles and how
/// they are compressed, compressed or not.
pub proof fn written_rasters_tell_how_they_were_written<T: Copy, M, E>(
    raster: &Grid<T>,
    about: &RasterInfo,
    opts: &CogOptions,
    mean: &M,
    sample: &E,
    file: Vec<u8>,
    info: CogInfo,
) where
    M: Fn(Option<T>, Option<T>, Option<T>, Option<T>) -> Option<T>,
    E: Fn(T) -> u32,

    requires
        raster.wf(),
        raster.rows <= u32::MAX,
        raster.cols <= u32::MAX,
        4 * (opts.tile_size * opts.tile_size) <= usize::MAX,
        raster.rows + opts.tile_size <= usize::MAX,
        raster.cols + opts.tile_size <= usize::MAX,
        call_ensures(
            write_cog::<T, M, E>,
            (raster, about, opts, mean, sample),
            Ok((file, info)),
        ),
    ensures
        raster.rows > 0,
        raster.cols > 0,
        opts.tile_size > 0,
        opts.tile_size % 16 == 0,
        ({
            let dir = directory_at(file@, 0);
            let text = encode_utf8(about.nodata@);
            let n = text.len() as int + 1;
            let geographic = opts.crs == Some(SourceCrs::LonLat) || (opts.crs is None && about.epsg
                == Some(4326u32));
            &&& holds_long(file@, dir, 322, opts.tile_size as int)
            &&& holds_long(file@, dir, 323, opts.tile_size as int)
            &&& opts.compression == CogCompression::Deflate ==> holds_short(file@, dir, 259, 8)
            &&& opts.compression == CogCompression::Uncompressed ==> holds_short(
                file@,
                dir,
                259,
                1,
            )
            &&& exists|i: int|
                {
                    let at = values_at(file@, dir, i, 2);
                    &&& #[trigger] is_entry(file@, dir, i, 34735, 3, 16)
                    &&& geographic ==> is_geo_key(file@, at, 1, 1024, 2) && is_geo_key(
                        file@,
                        at,
                        3,
                        2048,
                        4326,
                    )
                    &&& !geographic ==> is_geo_key(file@, at, 1, 1024, 1) && is_geo_key(
                        file@,
                        at,
                        3,
                        3072,
                        3857,
                    )
                }
            &&& exists|i: int|
                {
                    let at = values_at(file@, dir, i, 1);
                    &&& #[trigger] is_entry(file@, dir, i, 42113, 2, n)
                    &&& file@.subrange(at, at + text.len()) == text
                    &&& file@[at + text.len()] == 0
                }
        }),
        !(opts.crs is None) || about.epsg == Some(4326u32) || about.epsg == Some(3857u32)
            || about.epsg == Some(900913u32),
{
    let ts = opts.tile_size as int;
    let crs = output_crs_spec(opts.crs, about.epsg)->Ok_0;
    let tags = TagsModel {
        tile_size: opts.tile_size,
        compression: opts.compression,
        georef: about.georef,
        crs,
        nodata: about.nodata@,
    };
    let images = choose|images: Seq<ImageModel>|
        {
            &&& #[trigger] images_of(
                *raster,
                images,
                opts.tile_size,
                about.fill,
                *mean,
                *sample,
            )
            &&& encoded_as(images, about.fill, tags, Ok((file, info)))
        };
    lemma_images_wf(*raster, images, opts.tile_size, about.fill, *mean, *sample);
    let levels = levels_of(images, about.fill, ts, tags.compression);
    lemma_levels_of_wf(images, about.fill, ts, tags.compression);
    file_size_is_planned(levels, tags);
    levels_are_described(levels, tags, 0);
    crs_is_found(levels, tags);
    nodata_is_found(levels, tags);
    rasters_keep_their_crs(opts.crs, about.epsg);
}

} // verus!
