//! Rendering one raster tile.

use vstd::prelude::*;

use crate::error::{EncodeStep, Error};
use crate::grid::{lemma_position, lemma_row_col};
use crate::images::{
    compose_rgba, composed, composing_keeps_pixels_in_place, encode_rgba, encoded, has_pixel,
    sample_grid, TileFormat,
};
use crate::pyramid::{stretch_of, stretch_spec, Shading};
use crate::source::{has_margin, Band, PixelBox, RasterSource, SourceData, Window};
use crate::window::{
    failed_bands_are_named, files_have_the_cells_of_the_raster, is_part, is_raster_of,
    is_window_source, seen_alike, window_source,
};

verus! {

/// `cells` are the samples of a square of pixels, row by row.
pub open spec fn are_sampled<V, F>(n: int, sample: F, cells: Seq<Option<V>>) -> bool where
    F: Fn(usize, usize) -> Option<V>,
 {
    &&& cells.len() == n * n
    &&& forall|k: int|
        0 <= k < n * n ==> call_ensures(
            sample,
            ((k / n) as usize, (k % n) as usize),
            #[trigger] cells[k],
        )
}

/// A sample is there.
pub open spec fn any_sample<V>(cells: Seq<Option<V>>) -> bool {
    exists|k: int| 0 <= k < cells.len() && (#[trigger] cells[k]) is Some
}

/// `tile` is the image of these RGBA bytes, or why there is none.
pub open spec fn is_image(
    rgba: Seq<u8>,
    tile_size: u32,
    format: TileFormat,
    tile: Result<Option<Vec<u8>>, Error>,
) -> bool {
    match encoded(rgba, tile_size, format) {
        Some(bytes) => tile matches Ok(Some(v)) && v@ == bytes,
        None => tile == Err::<Option<Vec<u8>>, Error>(Error::Encode(EncodeStep::Image(format))),
    }
}

/// A tile that can be rendered in a format on this machine.
pub open spec fn renderable(tile_size: u32, format: TileFormat) -> bool {
    &&& 4 * (tile_size * tile_size) <= usize::MAX
    &&& format == TileFormat::Jpeg ==> tile_size <= u16::MAX
}

fn encode_tile(rgba: &Vec<u8>, tile_size: u32, format: TileFormat) -> (tile: Result<
    Option<Vec<u8>>,
    Error,
>)
    requires
        renderable(tile_size, format),
        rgba@.len() == 4 * (tile_size * tile_size),
    ensures
        is_image(rgba@, tile_size, format, tile),
{
    match encode_rgba(rgba.as_slice(), tile_size, format) {
        Ok(bytes) => Ok(Some(bytes)),
        Err(e) => Err(e),
    }
}

fn has_sample<V>(cells: &Vec<Option<V>>) -> (any: bool)
    ensures
        any == any_sample(cells@),
{
    for k in 0..cells.len()
        invariant
            forall|i: int| 0 <= i < k ==> (#[trigger] cells@[i]) is None,
    {
        if cells[k].is_some() {
            return true;
        }
    }
    false
}

/// Renders a tile of one band; `None` when no pixel has a sample.
///
/// `sample` is asked for each row and column, and `colour` turns the samples
/// into RGBA bytes, four for each.
pub fn render_tile_gray<V, F, K>(tile_size: u32, format: TileFormat, sample: &F, colour: &K) -> (
    tile: Result<Option<Vec<u8>>, Error>) where
    F: Fn(usize, usize) -> Option<V>,
    K: Fn(&Vec<Option<V>>) -> Vec<u8>,

    requires
        renderable(tile_size, format),
        forall|i: usize, j: usize| call_requires(*sample, (i, j)),
        forall|cells: &Vec<Option<V>>| call_requires(*colour, (cells,)),
        forall|cells: &Vec<Option<V>>, rgba: Vec<u8>| #[trigger]
            call_ensures(*colour, (cells,), rgba) ==> rgba@.len() == 4 * cells@.len(),
    ensures
        exists|cells: Vec<Option<V>>|
            {
                &&& #[trigger] are_sampled(tile_size as int, *sample, cells@)
                &&& if !any_sample(cells@) {
                    tile == Ok::<Option<Vec<u8>>, Error>(None)
                } else {
                    exists|rgba: Vec<u8>| #[trigger]
                        call_ensures(*colour, (&cells,), rgba) && is_image(
                            rgba@,
                            tile_size,
                            format,
                            tile,
                        )
                }
            },
{
    assert(tile_size * tile_size <= 4 * (tile_size * tile_size)) by (nonlinear_arith);
    let cells: Vec<Option<V>> = sample_grid(tile_size as usize, sample);
    assert(are_sampled(tile_size as int, *sample, cells@));
    if !has_sample(&cells) {
        return Ok(None);
    }
    let rgba: Vec<u8> = colour(&cells);
    assert(call_ensures(*colour, (&cells,), rgba));
    encode_tile(&rgba, tile_size, format)
}

/// `cells` are the samples of one band over a square of pixels.
pub open spec fn is_band_sampled<F>(n: int, band: usize, sample: F, cells: Seq<Option<u8>>) -> bool
    where F: Fn(usize, usize, usize) -> Option<u8>
{
    &&& cells.len() == n * n
    &&& forall|k: int|
        0 <= k < n * n ==> call_ensures(
            sample,
            (band, (k / n) as usize, (k % n) as usize),
            #[trigger] cells[k],
        )
}

fn sample_band<F>(n: usize, band: usize, sample: &F) -> (cells: Vec<Option<u8>>) where
    F: Fn(usize, usize, usize) -> Option<u8>,

    requires
        n * n <= usize::MAX,
        forall|b: usize, i: usize, j: usize| call_requires(*sample, (b, i, j)),
    ensures
        is_band_sampled(n as int, band, *sample, cells@),
{
    let one = |i: usize, j: usize| -> (v: Option<u8>)
        ensures
            call_ensures(*sample, (band, i, j), v),
        { sample(band, i, j) };
    sample_grid(n, &one)
}

/// `rgba` is what becomes of three colour bands, and of a fourth one as alpha.
pub open spec fn is_composed(
    r: Seq<Option<u8>>,
    g: Seq<Option<u8>>,
    b: Seq<Option<u8>>,
    alpha: Option<Seq<Option<u8>>>,
    rgba: Option<Vec<u8>>,
) -> bool {
    &&& rgba is Some <==> exists|p: int| 0 <= p < r.len() && #[trigger] has_pixel(r, g, b, p)
    &&& rgba matches Some(v) ==> v@ == composed(r, g, b, alpha)
}

/// `rgba` is what becomes of the sampled bands of a tile.
pub open spec fn is_rgba_of<F>(n: int, bands: usize, sample: F, rgba: Option<Vec<u8>>) -> bool where
    F: Fn(usize, usize, usize) -> Option<u8>,
 {
    exists|
        r: Seq<Option<u8>>,
        g: Seq<Option<u8>>,
        b: Seq<Option<u8>>,
        a: Option<Seq<Option<u8>>>,
    |
        {
            &&& is_band_sampled(n, 0, sample, r)
            &&& is_band_sampled(n, 1, sample, g)
            &&& is_band_sampled(n, 2, sample, b)
            &&& bands != 4 ==> a is None
            &&& bands == 4 ==> a is Some && is_band_sampled(n, 3, sample, a->Some_0)
            &&& #[trigger] is_composed(r, g, b, a, rgba)
        }
}

/// Renders the RGBA bytes of a tile of three bands (RGB) or four (RGBA);
/// `None` when no pixel has all three colours.
///
/// `sample` is asked for each band, row and column, and gives channel values.
/// Pixels where a colour is missing become transparent.
pub fn render_tile_rgb<F>(tile_size: u32, bands: usize, sample: &F) -> (rgba: Option<Vec<u8>>) where
    F: Fn(usize, usize, usize) -> Option<u8>,

    requires
        tile_size * tile_size <= usize::MAX,
        forall|b: usize, i: usize, j: usize| call_requires(*sample, (b, i, j)),
    ensures
        is_rgba_of(tile_size as int, bands, *sample, rgba),
{
    let n: usize = tile_size as usize;
    let r: Vec<Option<u8>> = sample_band(n, 0, sample);
    let g: Vec<Option<u8>> = sample_band(n, 1, sample);
    let b: Vec<Option<u8>> = sample_band(n, 2, sample);
    if bands == 4 {
        let a: Vec<Option<u8>> = sample_band(n, 3, sample);
        let rgba: Option<Vec<u8>> = compose_rgba(&r, &g, &b, Some(&a));
        assert(is_composed(r@, g@, b@, Some(a@), rgba));
        rgba
    } else {
        let rgba: Option<Vec<u8>> = compose_rgba(&r, &g, &b, None);
        assert(is_composed(r@, g@, b@, None, rgba));
        rgba
    }
}

/// Renders a tile of three bands (RGB) or four (RGBA); `None` when no pixel has
/// all three colours. See [`render_tile_rgb`].
pub fn render_tile_color<F>(tile_size: u32, format: TileFormat, bands: usize, sample: &F) -> (tile:
    Result<Option<Vec<u8>>, Error>) where F: Fn(usize, usize, usize) -> Option<u8>
    requires
        renderable(tile_size, format),
        forall|b: usize, i: usize, j: usize| call_requires(*sample, (b, i, j)),
    ensures
        exists|rgba: Option<Vec<u8>>|
            {
                &&& #[trigger] is_rgba_of(tile_size as int, bands, *sample, rgba)
                &&& match rgba {
                    None => tile == Ok::<Option<Vec<u8>>, Error>(None),
                    Some(v) => is_image(v@, tile_size, format, tile),
                }
            },
{
    assert(tile_size * tile_size <= 4 * (tile_size * tile_size)) by (nonlinear_arith);
    match render_tile_rgb(tile_size, bands, sample) {
        None => Ok(None),
        Some(rgba) => encode_tile(&rgba, tile_size, format),
    }
}

/// `cells` are the samples of a band of a source over a square of pixels, row
/// by row.
pub open spec fn is_band_read<T: Copy, X, F>(
    n: int,
    source: RasterSource<T, X>,
    band: usize,
    sample: F,
    cells: Seq<Option<T>>,
) -> bool where F: Fn(&RasterSource<T, X>, usize, usize, usize) -> Option<T> {
    &&& cells.len() == n * n
    &&& forall|k: int|
        0 <= k < n * n ==> call_ensures(
            sample,
            (&source, band, (k / n) as usize, (k % n) as usize),
            #[trigger] cells[k],
        )
}

/// `channel` is a band's sample at a pixel, stretched to a byte; `None` where
/// there is no sample.
pub open spec fn is_level<T: Copy, X, F, L>(
    source: RasterSource<T, X>,
    band: usize,
    row: usize,
    col: usize,
    stretch: (T, T),
    sample: F,
    level: L,
    channel: Option<u8>,
) -> bool where
    F: Fn(&RasterSource<T, X>, usize, usize, usize) -> Option<T>,
    L: Fn(T, (T, T)) -> u8,
 {
    exists|v: Option<T>| #[trigger]
        call_ensures(sample, (&source, band, row, col), v) && match v {
            None => channel is None,
            Some(t) => channel is Some && call_ensures(level, (t, stretch), channel->Some_0),
        }
}

/// `cells` are the stretched samples of a band over a square of pixels. The
/// band takes its stretch from the list.
pub open spec fn is_band_leveled<T: Copy, X, F, L>(
    n: int,
    source: RasterSource<T, X>,
    band: usize,
    stretches: Seq<(T, T)>,
    byte_range: (T, T),
    sample: F,
    level: L,
    cells: Seq<Option<u8>>,
) -> bool where
    F: Fn(&RasterSource<T, X>, usize, usize, usize) -> Option<T>,
    L: Fn(T, (T, T)) -> u8,
 {
    &&& cells.len() == n * n
    &&& forall|k: int|
        0 <= k < n * n ==> is_level(
            source,
            band,
            (k / n) as usize,
            (k % n) as usize,
            stretch_spec(stretches, band as int, byte_range),
            sample,
            level,
            #[trigger] cells[k],
        )
}

/// `rgba` is what becomes of the colour bands of a source, and of a fourth band
/// as alpha.
pub open spec fn is_colour_of<T: Copy, X, F, L>(
    n: int,
    source: RasterSource<T, X>,
    stretches: Seq<(T, T)>,
    byte_range: (T, T),
    sample: F,
    level: L,
    rgba: Option<Vec<u8>>,
) -> bool where
    F: Fn(&RasterSource<T, X>, usize, usize, usize) -> Option<T>,
    L: Fn(T, (T, T)) -> u8,
 {
    exists|
        r: Seq<Option<u8>>,
        g: Seq<Option<u8>>,
        b: Seq<Option<u8>>,
        a: Option<Seq<Option<u8>>>,
    |
        {
            &&& is_band_leveled(n, source, 0, stretches, byte_range, sample, level, r)
            &&& is_band_leveled(n, source, 1, stretches, byte_range, sample, level, g)
            &&& is_band_leveled(n, source, 2, stretches, byte_range, sample, level, b)
            &&& source.bands() != 4 ==> a is None
            &&& source.bands() == 4 ==> a is Some && is_band_leveled(
                n,
                source,
                3,
                stretches,
                byte_range,
                sample,
                level,
                a->Some_0,
            )
            &&& #[trigger] is_composed(r, g, b, a, rgba)
        }
}

/// `tile` is the tile of a source in memory.
///
/// With a colour scheme it is empty where no pixel of the first band has a
/// sample, else the image of the coloured samples. With stretches it is empty
/// where no pixel has all three colours, else the image of the stretched bands.
pub open spec fn is_shaded<T: Copy, X, F, K, L>(
    source: RasterSource<T, X>,
    shading: Shading<T>,
    byte_range: (T, T),
    tile_size: u32,
    format: TileFormat,
    sample: F,
    colour: K,
    level: L,
    tile: Result<Option<Vec<u8>>, Error>,
) -> bool where
    F: Fn(&RasterSource<T, X>, usize, usize, usize) -> Option<T>,
    K: Fn(T, T, &Vec<Option<T>>) -> Vec<u8>,
    L: Fn(T, (T, T)) -> u8,
 {
    let n = tile_size as int;
    match shading {
        Shading::Colormap(lo, hi) => exists|cells: Vec<Option<T>>|
            {
                &&& #[trigger] is_band_read(n, source, 0, sample, cells@)
                &&& if !any_sample(cells@) {
                    tile == Ok::<Option<Vec<u8>>, Error>(None)
                } else {
                    exists|rgba: Vec<u8>| #[trigger]
                        call_ensures(colour, (lo, hi, &cells), rgba) && is_image(
                            rgba@,
                            tile_size,
                            format,
                            tile,
                        )
                }
            },
        Shading::Rgb(stretches) => exists|rgba: Option<Vec<u8>>|
            {
                &&& #[trigger] is_colour_of(
                    n,
                    source,
                    stretches@,
                    byte_range,
                    sample,
                    level,
                    rgba,
                )
                &&& match rgba {
                    None => tile == Ok::<Option<Vec<u8>>, Error>(None),
                    Some(v) => is_image(v@, tile_size, format, tile),
                }
            },
    }
}

/// A band's sample at a pixel, stretched to a byte.
fn level_at<T: Copy, X, F, L>(
    source: &RasterSource<T, X>,
    band: usize,
    row: usize,
    col: usize,
    stretch: (T, T),
    sample: &F,
    level: &L,
) -> (channel: Option<u8>) where
    F: Fn(&RasterSource<T, X>, usize, usize, usize) -> Option<T>,
    L: Fn(T, (T, T)) -> u8,

    requires
        call_requires(*sample, (source, band, row, col)),
        forall|v: T| call_requires(*level, (v, stretch)),
    ensures
        is_level(*source, band, row, col, stretch, *sample, *level, channel),
{
    let got: Option<T> = sample(source, band, row, col);
    assert(call_ensures(*sample, (source, band, row, col), got));
    match got {
        None => None,
        Some(v) => Some(level(v, stretch)),
    }
}

/// Renders one tile of a source in memory; `None` when it is empty.
///
/// `sample` is asked for each pixel, by band, row and column. `colour` gives
/// samples the colours of a scheme stretched from low to high, four bytes each.
/// `level` stretches a sample to a byte. Colour bands without a stretch take
/// `byte_range`.
pub fn render_tile_image_in_memory<T: Copy, X, F, K, L>(
    source: &RasterSource<T, X>,
    shading: &Shading<T>,
    byte_range: (T, T),
    tile_size: u32,
    format: TileFormat,
    sample: &F,
    colour: &K,
    level: &L,
) -> (tile: Result<Option<Vec<u8>>, Error>) where
    F: Fn(&RasterSource<T, X>, usize, usize, usize) -> Option<T>,
    K: Fn(T, T, &Vec<Option<T>>) -> Vec<u8>,
    L: Fn(T, (T, T)) -> u8,

    requires
        renderable(tile_size, format),
        forall|b: usize, i: usize, j: usize| call_requires(*sample, (source, b, i, j)),
        forall|lo: T, hi: T, cells: &Vec<Option<T>>| call_requires(*colour, (lo, hi, cells)),
        forall|lo: T, hi: T, cells: &Vec<Option<T>>, rgba: Vec<u8>| #[trigger]
            call_ensures(*colour, (lo, hi, cells), rgba) ==> rgba@.len() == 4 * cells@.len(),
        forall|v: T, stretch: (T, T)| call_requires(*level, (v, stretch)),
    ensures
        is_shaded(
            *source,
            *shading,
            byte_range,
            tile_size,
            format,
            *sample,
            *colour,
            *level,
            tile,
        ),
{
    let ghost n = tile_size as int;
    match shading {
        Shading::Colormap(lo, hi) => {
            let (low, high): (T, T) = (*lo, *hi);
            let one = |i: usize, j: usize| -> (v: Option<T>)
                ensures
                    call_ensures(*sample, (source, 0usize, i, j), v),
                { sample(source, 0, i, j) };
            let paint = |cells: &Vec<Option<T>>| -> (rgba: Vec<u8>)
                ensures
                    call_ensures(*colour, (low, high, cells), rgba),
                { colour(low, high, cells) };
            let tile: Result<Option<Vec<u8>>, Error> = render_tile_gray(
                tile_size,
                format,
                &one,
                &paint,
            );
            proof {
                let cells = choose|cells: Vec<Option<T>>|
                    {
                        &&& #[trigger] are_sampled(n, one, cells@)
                        &&& if !any_sample(cells@) {
                            tile == Ok::<Option<Vec<u8>>, Error>(None)
                        } else {
                            exists|rgba: Vec<u8>| #[trigger]
                                call_ensures(paint, (&cells,), rgba) && is_image(
                                    rgba@,
                                    tile_size,
                                    format,
                                    tile,
                                )
                        }
                    };
                assert(is_band_read(n, *source, 0, *sample, cells@));
                if any_sample(cells@) {
                    let rgba = choose|rgba: Vec<u8>| #[trigger]
                        call_ensures(paint, (&cells,), rgba) && is_image(
                            rgba@,
                            tile_size,
                            format,
                            tile,
                        );
                    assert(call_ensures(*colour, (low, high, &cells), rgba));
                }
            }
            tile
        },
        Shading::Rgb(stretches) => {
            let channel = |b: usize, i: usize, j: usize| -> (v: Option<u8>)
                ensures
                    is_level(
                        *source,
                        b,
                        i,
                        j,
                        stretch_spec(stretches@, b as int, byte_range),
                        *sample,
                        *level,
                        v,
                    ),
                {
                    let stretch: (T, T) = stretch_of(stretches, b, byte_range);
                    level_at(source, b, i, j, stretch, sample, level)
                };
            let bands: usize = source.band_count();
            let tile: Result<Option<Vec<u8>>, Error> = render_tile_color(
                tile_size,
                format,
                bands,
                &channel,
            );
            proof {
                let rgba = choose|rgba: Option<Vec<u8>>|
                    {
                        &&& #[trigger] is_rgba_of(n, bands, channel, rgba)
                        &&& match rgba {
                            None => tile == Ok::<Option<Vec<u8>>, Error>(None),
                            Some(v) => is_image(v@, tile_size, format, tile),
                        }
                    };
                let (r, g, b, a) = choose|
                    r: Seq<Option<u8>>,
                    g: Seq<Option<u8>>,
                    b: Seq<Option<u8>>,
                    a: Option<Seq<Option<u8>>>,
                |
                    {
                        &&& is_band_sampled(n, 0, channel, r)
                        &&& is_band_sampled(n, 1, channel, g)
                        &&& is_band_sampled(n, 2, channel, b)
                        &&& bands != 4 ==> a is None
                        &&& bands == 4 ==> a is Some && is_band_sampled(n, 3, channel, a->Some_0)
                        &&& #[trigger] is_composed(r, g, b, a, rgba)
                    };
                let s = stretches@;
                assert(is_band_leveled(n, *source, 0, s, byte_range, *sample, *level, r));
                assert(is_band_leveled(n, *source, 1, s, byte_range, *sample, *level, g));
                assert(is_band_leveled(n, *source, 2, s, byte_range, *sample, *level, b));
                if bands == 4 {
                    assert(is_band_leveled(
                        n,
                        *source,
                        3,
                        s,
                        byte_range,
                        *sample,
                        *level,
                        a->Some_0,
                    ));
                }
                assert(is_composed(r, g, b, a, rgba));
                assert(is_colour_of(n, *source, s, byte_range, *sample, *level, rgba));
            }
            tile
        },
    }
}

/// `tile` is the tile of a source: of one in memory its own, of a file that of
/// the window that the tile needs, and nothing where the tile does not meet the
/// file.
pub open spec fn is_tile_image<T: Copy, X, R, F, K, L>(
    source: RasterSource<T, X>,
    at: Option<PixelBox>,
    read: R,
    shading: Shading<T>,
    byte_range: (T, T),
    tile_size: u32,
    format: TileFormat,
    sample: F,
    colour: K,
    level: L,
    tile: Result<Option<Vec<u8>>, Error>,
) -> bool where
    R: Fn(usize, Window) -> Result<Band<T, X>, Error>,
    F: Fn(&RasterSource<T, X>, usize, usize, usize) -> Option<T>,
    K: Fn(T, T, &Vec<Option<T>>) -> Vec<u8>,
    L: Fn(T, (T, T)) -> u8,
 {
    if source.data is Memory {
        is_shaded(source, shading, byte_range, tile_size, format, sample, colour, level, tile)
    } else {
        exists|got: Result<Option<RasterSource<T, X>>, Error>|
            {
                &&& #[trigger] is_window_source(source, at, read, got)
                &&& match got {
                    Err(e) => tile == Err::<Option<Vec<u8>>, Error>(e),
                    Ok(part) => {
                        &&& part matches Some(s)
                        &&& if s.bands() == 0 {
                            tile == Ok::<Option<Vec<u8>>, Error>(None)
                        } else {
                            is_shaded(
                                s,
                                shading,
                                byte_range,
                                tile_size,
                                format,
                                sample,
                                colour,
                                level,
                                tile,
                            )
                        }
                    },
                }
            }
    }
}

/// Renders one tile; `None` when it is empty.
///
/// A source in a file is first brought into memory as far as the tile needs
/// it; a tile that does not meet the file is empty. `at` is where the tile's
/// edges lie in the source, `None` where that cannot be told. See
/// [`render_tile_image_in_memory`].
pub fn render_tile_image<T: Copy, X, R, F, K, L>(
    source: &RasterSource<T, X>,
    at: Option<PixelBox>,
    read: &R,
    shading: &Shading<T>,
    byte_range: (T, T),
    tile_size: u32,
    format: TileFormat,
    sample: &F,
    colour: &K,
    level: &L,
) -> (tile: Result<Option<Vec<u8>>, Error>) where
    R: Fn(usize, Window) -> Result<Band<T, X>, Error>,
    F: Fn(&RasterSource<T, X>, usize, usize, usize) -> Option<T>,
    K: Fn(T, T, &Vec<Option<T>>) -> Vec<u8>,
    L: Fn(T, (T, T)) -> u8,

    requires
        source.wf(),
        has_margin(at),
        source.has_extent(),
        renderable(tile_size, format),
        forall|b: usize, w: Window| call_requires(*read, (b, w)),
        forall|b: usize, w: Window, got: Band<T, X>| #[trigger]
            call_ensures(*read, (b, w), Ok::<Band<T, X>, Error>(got)) ==> got.grid.wf(),
        forall|s: &RasterSource<T, X>, b: usize, i: usize, j: usize|
            s.wf() && s.data is Memory ==> #[trigger] call_requires(*sample, (s, b, i, j)),
        forall|lo: T, hi: T, cells: &Vec<Option<T>>| call_requires(*colour, (lo, hi, cells)),
        forall|lo: T, hi: T, cells: &Vec<Option<T>>, rgba: Vec<u8>| #[trigger]
            call_ensures(*colour, (lo, hi, cells), rgba) ==> rgba@.len() == 4 * cells@.len(),
        forall|v: T, stretch: (T, T)| call_requires(*level, (v, stretch)),
    ensures
        is_tile_image(
            *source,
            at,
            *read,
            *shading,
            byte_range,
            tile_size,
            format,
            *sample,
            *colour,
            *level,
            tile,
        ),
{
    if !source.is_file_backed() {
        return render_tile_image_in_memory(
            source,
            shading,
            byte_range,
            tile_size,
            format,
            sample,
            colour,
            level,
        );
    }
    let got: Result<Option<RasterSource<T, X>>, Error> = window_source(source, at, read);
    assert(is_window_source(*source, at, *read, got));
    match got {
        Err(e) => Err(e),
        Ok(None) => Ok(None),
        Ok(Some(part)) => {
            if part.band_count() == 0 {
                Ok(None)
            } else {
                render_tile_image_in_memory(
                    &part,
                    shading,
                    byte_range,
                    tile_size,
                    format,
                    sample,
                    colour,
                    level,
                )
            }
        },
    }
}

/// Two sources give the same tile where they give the same samples: what a
/// tile of the one may be, a tile of the other may be.
pub proof fn equal_samples_give_equal_tiles<T: Copy, X, F, K, L>(
    one: RasterSource<T, X>,
    other: RasterSource<T, X>,
    shading: Shading<T>,
    byte_range: (T, T),
    tile_size: u32,
    format: TileFormat,
    sample: F,
    colour: K,
    level: L,
    tile: Result<Option<Vec<u8>>, Error>,
) where
    F: Fn(&RasterSource<T, X>, usize, usize, usize) -> Option<T>,
    K: Fn(T, T, &Vec<Option<T>>) -> Vec<u8>,
    L: Fn(T, (T, T)) -> u8,

    requires
        one.bands() == other.bands(),
        forall|b: usize, i: usize, j: usize, v: Option<T>| #[trigger]
            call_ensures(sample, (&one, b, i, j), v) ==> call_ensures(
                sample,
                (&other, b, i, j),
                v,
            ),
        is_shaded(one, shading, byte_range, tile_size, format, sample, colour, level, tile),
    ensures
        is_shaded(other, shading, byte_range, tile_size, format, sample, colour, level, tile),
{
    let n = tile_size as int;
    match shading {
        Shading::Colormap(lo, hi) => {
            let cells = choose|cells: Vec<Option<T>>|
                {
                    &&& #[trigger] is_band_read(n, one, 0, sample, cells@)
                    &&& if !any_sample(cells@) {
                        tile == Ok::<Option<Vec<u8>>, Error>(None)
                    } else {
                        exists|rgba: Vec<u8>| #[trigger]
                            call_ensures(colour, (lo, hi, &cells), rgba) && is_image(
                                rgba@,
                                tile_size,
                                format,
                                tile,
                            )
                    }
                };
            assert(is_band_read(n, other, 0, sample, cells@));
        },
        Shading::Rgb(stretches) => {
            let s = stretches@;
            let rgba = choose|rgba: Option<Vec<u8>>|
                {
                    &&& #[trigger] is_colour_of(n, one, s, byte_range, sample, level, rgba)
                    &&& match rgba {
                        None => tile == Ok::<Option<Vec<u8>>, Error>(None),
                        Some(v) => is_image(v@, tile_size, format, tile),
                    }
                };
            let (r, g, b, a) = choose|
                r: Seq<Option<u8>>,
                g: Seq<Option<u8>>,
                b: Seq<Option<u8>>,
                a: Option<Seq<Option<u8>>>,
            |
                {
                    &&& is_band_leveled(n, one, 0, s, byte_range, sample, level, r)
                    &&& is_band_leveled(n, one, 1, s, byte_range, sample, level, g)
                    &&& is_band_leveled(n, one, 2, s, byte_range, sample, level, b)
                    &&& one.bands() != 4 ==> a is None
                    &&& one.bands() == 4 ==> a is Some && is_band_leveled(
                        n,
                        one,
                        3,
                        s,
                        byte_range,
                        sample,
                        level,
                        a->Some_0,
                    )
                    &&& #[trigger] is_composed(r, g, b, a, rgba)
                };
            lemma_band_leveled_alike(n, one, other, 0, s, byte_range, sample, level, r);
            lemma_band_leveled_alike(n, one, other, 1, s, byte_range, sample, level, g);
            lemma_band_leveled_alike(n, one, other, 2, s, byte_range, sample, level, b);
            if one.bands() == 4 {
                let alpha = a->Some_0;
                lemma_band_leveled_alike(n, one, other, 3, s, byte_range, sample, level, alpha);
            }
            assert(is_composed(r, g, b, a, rgba));
            assert(is_colour_of(n, other, s, byte_range, sample, level, rgba));
        },
    }
}

proof fn lemma_band_leveled_alike<T: Copy, X, F, L>(
    n: int,
    one: RasterSource<T, X>,
    other: RasterSource<T, X>,
    band: usize,
    stretches: Seq<(T, T)>,
    byte_range: (T, T),
    sample: F,
    level: L,
    cells: Seq<Option<u8>>,
) where
    F: Fn(&RasterSource<T, X>, usize, usize, usize) -> Option<T>,
    L: Fn(T, (T, T)) -> u8,

    requires
        forall|b: usize, i: usize, j: usize, v: Option<T>| #[trigger]
            call_ensures(sample, (&one, b, i, j), v) ==> call_ensures(
                sample,
                (&other, b, i, j),
                v,
            ),
        is_band_leveled(n, one, band, stretches, byte_range, sample, level, cells),
    ensures
        is_band_leveled(n, other, band, stretches, byte_range, sample, level, cells),
{
    let stretch = stretch_spec(stretches, band as int, byte_range);
    assert forall|k: int| 0 <= k < n * n implies is_level(
        other,
        band,
        (k / n) as usize,
        (k % n) as usize,
        stretch,
        sample,
        level,
        #[trigger] cells[k],
    ) by {
        let (row, col) = ((k / n) as usize, (k % n) as usize);
        assert(is_level(one, band, row, col, stretch, sample, level, cells[k]));
        let v = choose|v: Option<T>| #[trigger]
            call_ensures(sample, (&one, band, row, col), v) && match v {
                None => cells[k] is None,
                Some(t) => cells[k] is Some && call_ensures(
                    level,
                    (t, stretch),
                    cells[k]->Some_0,
                ),
            };
        assert(call_ensures(sample, (&other, band, row, col), v));
    }
}

/// The window of each band of the file can be read.
pub open spec fn reads_succeed<T: Copy, X, R>(file: RasterSource<T, X>, w: Window, read: R) -> bool
    where R: Fn(usize, Window) -> Result<Band<T, X>, Error>
{
    file.data matches SourceData::File(f) ==> forall|i: int, e: Error|
        #![trigger call_ensures(read, (f.bands@[i], w), Err::<Band<T, X>, Error>(e))]
        0 <= i < f.bands@.len() ==> !call_ensures(
            read,
            (f.bands@[i], w),
            Err::<Band<T, X>, Error>(e),
        )
}

/// Sampling goes by what the tile at `at` can see: of a window of the file that
/// is seen as the raster is, it gives what it gives of the raster.
pub open spec fn samples_what_it_sees<T: Copy, X, R, F>(
    file: RasterSource<T, X>,
    whole: RasterSource<T, X>,
    at: PixelBox,
    w: Window,
    read: R,
    sample: F,
) -> bool where
    R: Fn(usize, Window) -> Result<Band<T, X>, Error>,
    F: Fn(&RasterSource<T, X>, usize, usize, usize) -> Option<T>,
 {
    forall|part: RasterSource<T, X>, b: usize, i: usize, j: usize, v: Option<T>| #[trigger]
        call_ensures(sample, (&part, b, i, j), v) && is_window_source(
            file,
            Some(at),
            read,
            Ok::<Option<RasterSource<T, X>>, Error>(Some(part)),
        ) && seen_alike(whole, part, at, w) ==> call_ensures(sample, (&whole, b, i, j), v)
}

/// The tile of a file is a tile of the same raster in memory.
///
/// `sample` has to go by what a tile can see: where a window is seen as the whole
/// raster is, it gives what it gives of the raster. Reading must not fail, and
/// the tile must meet the file; one that does not sees nothing of the raster.
pub proof fn files_give_the_tiles_of_the_raster<T: Copy, X, R, F, K, L>(
    file: RasterSource<T, X>,
    whole: RasterSource<T, X>,
    at: PixelBox,
    w: Window,
    read: R,
    shading: Shading<T>,
    byte_range: (T, T),
    tile_size: u32,
    format: TileFormat,
    sample: F,
    colour: K,
    level: L,
    tile: Result<Option<Vec<u8>>, Error>,
) where
    R: Fn(usize, Window) -> Result<Band<T, X>, Error>,
    F: Fn(&RasterSource<T, X>, usize, usize, usize) -> Option<T>,
    K: Fn(T, T, &Vec<Option<T>>) -> Vec<u8>,
    L: Fn(T, (T, T)) -> u8,

    requires
        is_raster_of(file, read, whole),
        file.bands() > 0,
        file.is_tile_window(Some(at), Some(w)),
        reads_succeed(file, w, read),
        samples_what_it_sees(file, whole, at, w, read, sample),
        is_tile_image(
            file,
            Some(at),
            read,
            shading,
            byte_range,
            tile_size,
            format,
            sample,
            colour,
            level,
            tile,
        ),
    ensures
        is_tile_image(
            whole,
            Some(at),
            read,
            shading,
            byte_range,
            tile_size,
            format,
            sample,
            colour,
            level,
            tile,
        ),
{
    let got = choose|got: Result<Option<RasterSource<T, X>>, Error>|
        {
            &&& #[trigger] is_window_source(file, Some(at), read, got)
            &&& match got {
                Err(e) => tile == Err::<Option<Vec<u8>>, Error>(e),
                Ok(part) => {
                    &&& part matches Some(s)
                    &&& if s.bands() == 0 {
                        tile == Ok::<Option<Vec<u8>>, Error>(None)
                    } else {
                        is_shaded(
                            s,
                            shading,
                            byte_range,
                            tile_size,
                            format,
                            sample,
                            colour,
                            level,
                            tile,
                        )
                    }
                },
            }
        };
    let window = choose|window: Option<Window>|
        #[trigger] file.is_tile_window(Some(at), window) && is_part(file, window, read, got);
    assert(window == Some(w));
    assert(got is Ok);
    let part = got->Ok_0->Some_0;
    files_have_the_cells_of_the_raster(file, whole, at, w, read, part);
    equal_samples_give_equal_tiles(
        part,
        whole,
        shading,
        byte_range,
        tile_size,
        format,
        sample,
        colour,
        level,
        tile,
    );
}

/// The samples of a square stand row by row: the sample of row `i` and column
/// `j`, of `n`, is the one at `i * n + j`.
pub proof fn samples_stand_row_by_row<V, F>(
    n: int,
    sample: F,
    cells: Seq<Option<V>>,
    i: usize,
    j: usize,
) where F: Fn(usize, usize) -> Option<V>
    requires
        are_sampled(n, sample, cells),
        i < n,
        j < n,
    ensures
        cells.len() == n * n,
        0 <= i * n + j < n * n,
        call_ensures(sample, (i, j), cells[i * n + j]),
{
    lemma_position(i as int, j as int, n, n);
}

/// The samples of a band stand row by row: the sample of row `i` and column `j`,
/// of `n`, is the one at `i * n + j`, and it is a sample of this band.
pub proof fn band_samples_stand_row_by_row<F>(
    n: int,
    band: usize,
    sample: F,
    cells: Seq<Option<u8>>,
    i: usize,
    j: usize,
) where F: Fn(usize, usize, usize) -> Option<u8>
    requires
        is_band_sampled(n, band, sample, cells),
        i < n,
        j < n,
    ensures
        cells.len() == n * n,
        0 <= i * n + j < n * n,
        call_ensures(sample, (band, i, j), cells[i * n + j]),
{
    lemma_position(i as int, j as int, n, n);
}

/// The pixel of row `i` and column `j`, of `n`, shows these channels: its bytes
/// start at `4 * (i * n + j)`, red, green and blue in this order, 0 where a
/// channel is missing. Its fourth byte is 0 where a colour is missing, else the
/// alpha, and 255 where there is none. Where no pixel has all three colours there
/// are no bytes.
pub open spec fn shows_channels(
    rgba: Option<Vec<u8>>,
    n: int,
    i: int,
    j: int,
    r: Option<u8>,
    g: Option<u8>,
    b: Option<u8>,
    a: Option<u8>,
) -> bool {
    let at = 4 * (i * n + j);
    match rgba {
        None => r is None || g is None || b is None,
        Some(v) => {
            &&& v@.len() == 4 * (n * n)
            &&& r is Some ==> v@[at] == r->Some_0
            &&& r is None ==> v@[at] == 0
            &&& g is Some ==> v@[at + 1] == g->Some_0
            &&& g is None ==> v@[at + 1] == 0
            &&& b is Some ==> v@[at + 2] == b->Some_0
            &&& b is None ==> v@[at + 2] == 0
            &&& (r is None || g is None || b is None) ==> v@[at + 3] == 0
            &&& (r is Some && g is Some && b is Some && a is None) ==> v@[at + 3] == 255
            &&& (r is Some && g is Some && b is Some && a is Some) ==> v@[at + 3] == a->Some_0
        },
    }
}

proof fn lemma_shows_channels(
    n: int,
    r: Seq<Option<u8>>,
    g: Seq<Option<u8>>,
    b: Seq<Option<u8>>,
    a: Option<Seq<Option<u8>>>,
    rgba: Option<Vec<u8>>,
    i: int,
    j: int,
)
    requires
        r.len() == g.len() == b.len() == n * n,
        is_composed(r, g, b, a, rgba),
        0 <= i < n,
        0 <= j < n,
    ensures
        0 <= i * n + j < n * n,
        shows_channels(
            rgba,
            n,
            i,
            j,
            r[i * n + j],
            g[i * n + j],
            b[i * n + j],
            match a {
                Some(alpha) => alpha[i * n + j],
                None => None,
            },
        ),
{
    let p = i * n + j;
    lemma_position(i, j, n, n);
    assert(rgba is None ==> !has_pixel(r, g, b, p));
    composing_keeps_pixels_in_place(r, g, b, a, p);
}

/// The pixel of row `i` and column `j` shows what the bands give there: band 0 is
/// red, band 1 green and band 2 blue, and band 3 is the alpha where there are four.
pub proof fn pixels_show_their_bands<F>(
    n: int,
    bands: usize,
    sample: F,
    rgba: Option<Vec<u8>>,
    i: usize,
    j: usize,
) where F: Fn(usize, usize, usize) -> Option<u8>
    requires
        is_rgba_of(n, bands, sample, rgba),
        i < n,
        j < n,
    ensures
        exists|r: Option<u8>, g: Option<u8>, b: Option<u8>, a: Option<u8>|
            {
                &&& call_ensures(sample, (0, i, j), r)
                &&& call_ensures(sample, (1, i, j), g)
                &&& call_ensures(sample, (2, i, j), b)
                &&& bands == 4 ==> call_ensures(sample, (3, i, j), a)
                &&& bands != 4 ==> a is None
                &&& #[trigger] shows_channels(rgba, n, i as int, j as int, r, g, b, a)
            },
{
    let (r, g, b, a) = choose|
        r: Seq<Option<u8>>,
        g: Seq<Option<u8>>,
        b: Seq<Option<u8>>,
        a: Option<Seq<Option<u8>>>,
    |
        {
            &&& is_band_sampled(n, 0, sample, r)
            &&& is_band_sampled(n, 1, sample, g)
            &&& is_band_sampled(n, 2, sample, b)
            &&& bands != 4 ==> a is None
            &&& bands == 4 ==> a is Some && is_band_sampled(n, 3, sample, a->Some_0)
            &&& #[trigger] is_composed(r, g, b, a, rgba)
        };
    band_samples_stand_row_by_row(n, 0, sample, r, i, j);
    band_samples_stand_row_by_row(n, 1, sample, g, i, j);
    band_samples_stand_row_by_row(n, 2, sample, b, i, j);
    if bands == 4 {
        band_samples_stand_row_by_row(n, 3, sample, a->Some_0, i, j);
    }
    lemma_shows_channels(n, r, g, b, a, rgba, i as int, j as int);
}

/// Bytes are rendered only where some pixel has all three colours.
pub proof fn rendered_bytes_have_a_pixel<F>(n: int, bands: usize, sample: F, rgba: Vec<u8>) where
    F: Fn(usize, usize, usize) -> Option<u8>,

    requires
        0 <= n <= usize::MAX,
        is_rgba_of(n, bands, sample, Some(rgba)),
    ensures
        exists|i: usize, j: usize, r: u8, g: u8, b: u8|
            {
                &&& i < n
                &&& j < n
                &&& #[trigger] call_ensures(sample, (0, i, j), Some(r))
                &&& #[trigger] call_ensures(sample, (1, i, j), Some(g))
                &&& #[trigger] call_ensures(sample, (2, i, j), Some(b))
            },
{
    let (r, g, b, a) = choose|
        r: Seq<Option<u8>>,
        g: Seq<Option<u8>>,
        b: Seq<Option<u8>>,
        a: Option<Seq<Option<u8>>>,
    |
        {
            &&& is_band_sampled(n, 0, sample, r)
            &&& is_band_sampled(n, 1, sample, g)
            &&& is_band_sampled(n, 2, sample, b)
            &&& bands != 4 ==> a is None
            &&& bands == 4 ==> a is Some && is_band_sampled(n, 3, sample, a->Some_0)
            &&& #[trigger] is_composed(r, g, b, a, Some(rgba))
        };
    let p = choose|p: int| 0 <= p < r.len() && #[trigger] has_pixel(r, g, b, p);
    lemma_row_col(p, n, n);
    let (i, j) = ((p / n) as usize, (p % n) as usize);
    let (cr, cg, cb) = (r[p]->Some_0, g[p]->Some_0, b[p]->Some_0);
    assert(r[p] == Some(cr) && g[p] == Some(cg) && b[p] == Some(cb));
    assert(call_ensures(sample, (0, i, j), Some(cr)));
    assert(call_ensures(sample, (1, i, j), Some(cg)));
    assert(call_ensures(sample, (2, i, j), Some(cb)));
}

/// The samples of a band of a source stand row by row: the one at `i * n + j` is
/// what the sampler says of this band at row `i` and column `j`.
pub proof fn read_samples_stand_row_by_row<T: Copy, X, F>(
    n: int,
    source: RasterSource<T, X>,
    band: usize,
    sample: F,
    cells: Seq<Option<T>>,
    i: usize,
    j: usize,
) where F: Fn(&RasterSource<T, X>, usize, usize, usize) -> Option<T>
    requires
        is_band_read(n, source, band, sample, cells),
        i < n,
        j < n,
    ensures
        cells.len() == n * n,
        0 <= i * n + j < n * n,
        call_ensures(sample, (&source, band, i, j), cells[i * n + j]),
{
    lemma_position(i as int, j as int, n, n);
}

/// What the sampler says of a band at a pixel, `None` or a byte that the stretch
/// from `stretch.0` to `stretch.1` makes of it.
pub open spec fn sampled_channel<T: Copy, X, F, L>(
    source: RasterSource<T, X>,
    band: usize,
    i: usize,
    j: usize,
    stretch: (T, T),
    sample: F,
    level: L,
    channel: Option<u8>,
) -> bool where
    F: Fn(&RasterSource<T, X>, usize, usize, usize) -> Option<T>,
    L: Fn(T, (T, T)) -> u8,
 {
    ||| channel is None && call_ensures(sample, (&source, band, i, j), None)
    ||| channel is Some && exists|t: T| #[trigger]
        call_ensures(sample, (&source, band, i, j), Some(t)) && call_ensures(
            level,
            (t, stretch),
            channel->Some_0,
        )
}

/// The stretched samples of a band stand row by row: the one at `i * n + j` is
/// the sample of row `i` and column `j`. The first three bands take the stretch
/// of their number in the list, the fourth that of the first, and a band for
/// which the list has none is stretched over the byte range.
pub proof fn leveled_samples_stand_row_by_row<T: Copy, X, F, L>(
    n: int,
    source: RasterSource<T, X>,
    band: usize,
    stretches: Seq<(T, T)>,
    byte_range: (T, T),
    sample: F,
    level: L,
    cells: Seq<Option<u8>>,
    i: usize,
    j: usize,
) where
    F: Fn(&RasterSource<T, X>, usize, usize, usize) -> Option<T>,
    L: Fn(T, (T, T)) -> u8,

    requires
        is_band_leveled(n, source, band, stretches, byte_range, sample, level, cells),
        i < n,
        j < n,
    ensures
        cells.len() == n * n,
        0 <= i * n + j < n * n,
        band < 3 && band < stretches.len() ==> sampled_channel(
            source,
            band,
            i,
            j,
            stretches[band as int],
            sample,
            level,
            cells[i * n + j],
        ),
        band == 3 && 0 < stretches.len() ==> sampled_channel(
            source,
            band,
            i,
            j,
            stretches[0],
            sample,
            level,
            cells[i * n + j],
        ),
        (band < 3 && band >= stretches.len()) || stretches.len() == 0 ==> sampled_channel(
            source,
            band,
            i,
            j,
            byte_range,
            sample,
            level,
            cells[i * n + j],
        ),
{
    lemma_position(i as int, j as int, n, n);
    let k = i * n + j;
    let stretch = stretch_spec(stretches, band as int, byte_range);
    assert(is_level(source, band, i, j, stretch, sample, level, cells[k]));
    let v = choose|v: Option<T>| #[trigger]
        call_ensures(sample, (&source, band, i, j), v) && match v {
            None => cells[k] is None,
            Some(t) => cells[k] is Some && call_ensures(level, (t, stretch), cells[k]->Some_0),
        };
    if v is Some {
        assert(v == Some(v->Some_0));
    } else {
        assert(v == None::<T>);
    }
}

/// The pixel of row `i` and column `j` shows what the sampler says of the bands of
/// a source there, each stretched by its own pair: band 0 is red, band 1 green,
/// band 2 blue. A fourth band is the alpha, stretched as the first.
pub open spec fn shows_source<T: Copy, X, F, L>(
    rgba: Option<Vec<u8>>,
    n: int,
    source: RasterSource<T, X>,
    stretches: Seq<(T, T)>,
    sample: F,
    level: L,
    i: usize,
    j: usize,
) -> bool where
    F: Fn(&RasterSource<T, X>, usize, usize, usize) -> Option<T>,
    L: Fn(T, (T, T)) -> u8,
 {
    exists|r: Option<u8>, g: Option<u8>, b: Option<u8>, a: Option<u8>|
        {
            &&& sampled_channel(source, 0, i, j, stretches[0], sample, level, r)
            &&& sampled_channel(source, 1, i, j, stretches[1], sample, level, g)
            &&& sampled_channel(source, 2, i, j, stretches[2], sample, level, b)
            &&& source.bands() == 4 ==> sampled_channel(
                source,
                3,
                i,
                j,
                stretches[0],
                sample,
                level,
                a,
            )
            &&& source.bands() != 4 ==> a is None
            &&& #[trigger] shows_channels(rgba, n, i as int, j as int, r, g, b, a)
        }
}

/// A tile of colour bands is the image of bytes that show, pixel by pixel, what
/// the sampler says of the source; it is empty where no pixel has all three
/// colours.
pub proof fn colour_tiles_show_their_source<T: Copy, X, F, K, L>(
    source: RasterSource<T, X>,
    stretches: Vec<(T, T)>,
    byte_range: (T, T),
    tile_size: u32,
    format: TileFormat,
    sample: F,
    colour: K,
    level: L,
    tile: Result<Option<Vec<u8>>, Error>,
) where
    F: Fn(&RasterSource<T, X>, usize, usize, usize) -> Option<T>,
    K: Fn(T, T, &Vec<Option<T>>) -> Vec<u8>,
    L: Fn(T, (T, T)) -> u8,

    requires
        stretches@.len() >= 3,
        is_shaded(
            source,
            Shading::Rgb(stretches),
            byte_range,
            tile_size,
            format,
            sample,
            colour,
            level,
            tile,
        ),
    ensures
        exists|rgba: Option<Vec<u8>>|
            {
                &&& #[trigger] is_tile_of_bytes(rgba, tile_size, format, tile)
                &&& forall|i: usize, j: usize|
                    i < tile_size && j < tile_size ==> #[trigger] shows_source(
                        rgba,
                        tile_size as int,
                        source,
                        stretches@,
                        sample,
                        level,
                        i,
                        j,
                    )
            },
{
    let n = tile_size as int;
    let s = stretches@;
    let rgba = choose|rgba: Option<Vec<u8>>|
        {
            &&& #[trigger] is_colour_of(n, source, s, byte_range, sample, level, rgba)
            &&& match rgba {
                None => tile == Ok::<Option<Vec<u8>>, Error>(None),
                Some(v) => is_image(v@, tile_size, format, tile),
            }
        };
    let (r, g, b, a) = choose|
        r: Seq<Option<u8>>,
        g: Seq<Option<u8>>,
        b: Seq<Option<u8>>,
        a: Option<Seq<Option<u8>>>,
    |
        {
            &&& is_band_leveled(n, source, 0, s, byte_range, sample, level, r)
            &&& is_band_leveled(n, source, 1, s, byte_range, sample, level, g)
            &&& is_band_leveled(n, source, 2, s, byte_range, sample, level, b)
            &&& source.bands() != 4 ==> a is None
            &&& source.bands() == 4 ==> a is Some && is_band_leveled(
                n,
                source,
                3,
                s,
                byte_range,
                sample,
                level,
                a->Some_0,
            )
            &&& #[trigger] is_composed(r, g, b, a, rgba)
        };
    assert forall|i: usize, j: usize| i < n && j < n implies #[trigger] shows_source(
        rgba,
        n,
        source,
        s,
        sample,
        level,
        i,
        j,
    ) by {
        leveled_samples_stand_row_by_row(n, source, 0, s, byte_range, sample, level, r, i, j);
        leveled_samples_stand_row_by_row(n, source, 1, s, byte_range, sample, level, g, i, j);
        leveled_samples_stand_row_by_row(n, source, 2, s, byte_range, sample, level, b, i, j);
        if source.bands() == 4 {
            let alpha = a->Some_0;
            leveled_samples_stand_row_by_row(n, source, 3, s, byte_range, sample, level, alpha, i, j);
        }
        lemma_shows_channels(n, r, g, b, a, rgba, i as int, j as int);
    }
    assert(is_tile_of_bytes(rgba, tile_size, format, tile));
}

/// `tile` is empty where there are no bytes, else what the format's encoder makes
/// of them, or the error that it failed.
pub open spec fn is_tile_of_bytes(
    rgba: Option<Vec<u8>>,
    tile_size: u32,
    format: TileFormat,
    tile: Result<Option<Vec<u8>>, Error>,
) -> bool {
    match rgba {
        None => tile == Ok::<Option<Vec<u8>>, Error>(None),
        Some(v) => match tile {
            Ok(Some(image)) => encoded(v@, tile_size, format) == Some(image@),
            Ok(None) => false,
            Err(e) => encoded(v@, tile_size, format) is None && e == Error::Encode(
                EncodeStep::Image(format),
            ),
        },
    }
}

/// A tile through a colour scheme is the image of what the scheme, stretched from
/// low to high, makes of the samples of the first band, the sample of row `i` and
/// column `j` at `i * n + j`. It is empty exactly where no pixel has a sample.
pub proof fn scheme_tiles_show_their_source<T: Copy, X, F, K, L>(
    source: RasterSource<T, X>,
    lo: T,
    hi: T,
    byte_range: (T, T),
    tile_size: u32,
    format: TileFormat,
    sample: F,
    colour: K,
    level: L,
    tile: Result<Option<Vec<u8>>, Error>,
) where
    F: Fn(&RasterSource<T, X>, usize, usize, usize) -> Option<T>,
    K: Fn(T, T, &Vec<Option<T>>) -> Vec<u8>,
    L: Fn(T, (T, T)) -> u8,

    requires
        is_shaded(
            source,
            Shading::Colormap(lo, hi),
            byte_range,
            tile_size,
            format,
            sample,
            colour,
            level,
            tile,
        ),
    ensures
        exists|cells: Vec<Option<T>>, rgba: Option<Vec<u8>>|
            #![trigger cells@, is_tile_of_bytes(rgba, tile_size, format, tile)]
            {
                &&& cells@.len() == tile_size * tile_size
                &&& forall|i: usize, j: usize, k: int|
                    #![trigger call_ensures(sample, (&source, 0usize, i, j), cells@[k])]
                    i < tile_size && j < tile_size && k == i * tile_size + j ==> call_ensures(
                        sample,
                        (&source, 0usize, i, j),
                        cells@[k],
                    )
                &&& rgba is None <==> forall|k: int|
                    0 <= k < cells@.len() ==> (#[trigger] cells@[k]) is None
                &&& rgba is Some ==> call_ensures(colour, (lo, hi, &cells), rgba->Some_0)
                &&& is_tile_of_bytes(rgba, tile_size, format, tile)
            },
{
    let n = tile_size as int;
    let cells = choose|cells: Vec<Option<T>>|
        {
            &&& #[trigger] is_band_read(n, source, 0, sample, cells@)
            &&& if !any_sample(cells@) {
                tile == Ok::<Option<Vec<u8>>, Error>(None)
            } else {
                exists|rgba: Vec<u8>| #[trigger]
                    call_ensures(colour, (lo, hi, &cells), rgba) && is_image(
                        rgba@,
                        tile_size,
                        format,
                        tile,
                    )
            }
        };
    assert forall|i: usize, j: usize, k: int|
        #![trigger call_ensures(sample, (&source, 0usize, i, j), cells@[k])]
        i < tile_size && j < tile_size && k == i * tile_size + j implies call_ensures(
        sample,
        (&source, 0usize, i, j),
        cells@[k],
    ) by {
        read_samples_stand_row_by_row(n, source, 0, sample, cells@, i, j);
    }
    if any_sample(cells@) {
        let v = choose|rgba: Vec<u8>| #[trigger]
            call_ensures(colour, (lo, hi, &cells), rgba) && is_image(
                rgba@,
                tile_size,
                format,
                tile,
            );
        assert(is_tile_of_bytes(Some(v), tile_size, format, tile));
        let k = choose|k: int| 0 <= k < cells@.len() && (#[trigger] cells@[k]) is Some;
        assert(!(cells@[k] is None));
    } else {
        assert(is_tile_of_bytes(None, tile_size, format, tile));
    }
}

/// A tile of a file that lies clear of it is empty, and nothing is read for it.
pub proof fn tiles_clear_of_the_file_are_empty<T: Copy, X, R, F, K, L>(
    file: RasterSource<T, X>,
    at: Option<PixelBox>,
    read: R,
    shading: Shading<T>,
    byte_range: (T, T),
    tile_size: u32,
    format: TileFormat,
    sample: F,
    colour: K,
    level: L,
    tile: Result<Option<Vec<u8>>, Error>,
) where
    R: Fn(usize, Window) -> Result<Band<T, X>, Error>,
    F: Fn(&RasterSource<T, X>, usize, usize, usize) -> Option<T>,
    K: Fn(T, T, &Vec<Option<T>>) -> Vec<u8>,
    L: Fn(T, (T, T)) -> u8,

    requires
        file.data is File,
        file.is_tile_window(at, None),
        is_tile_image(
            file,
            at,
            read,
            shading,
            byte_range,
            tile_size,
            format,
            sample,
            colour,
            level,
            tile,
        ),
    ensures
        tile == Ok::<Option<Vec<u8>>, Error>(None),
{
    let got = choose|got: Result<Option<RasterSource<T, X>>, Error>|
        {
            &&& #[trigger] is_window_source(file, at, read, got)
            &&& match got {
                Err(e) => tile == Err::<Option<Vec<u8>>, Error>(e),
                Ok(part) => {
                    &&& part matches Some(s)
                    &&& if s.bands() == 0 {
                        tile == Ok::<Option<Vec<u8>>, Error>(None)
                    } else {
                        is_shaded(
                            s,
                            shading,
                            byte_range,
                            tile_size,
                            format,
                            sample,
                            colour,
                            level,
                            tile,
                        )
                    }
                },
            }
        };
    let window = choose|window: Option<Window>|
        #[trigger] file.is_tile_window(at, window) && is_part(file, window, read, got);
    assert(window is None);
}

/// The tile of a source in memory is the shaded source, whatever a file would
/// give.
pub proof fn tiles_in_memory_are_shaded<T: Copy, X, R, F, K, L>(
    source: RasterSource<T, X>,
    at: Option<PixelBox>,
    read: R,
    shading: Shading<T>,
    byte_range: (T, T),
    tile_size: u32,
    format: TileFormat,
    sample: F,
    colour: K,
    level: L,
    tile: Result<Option<Vec<u8>>, Error>,
) where
    R: Fn(usize, Window) -> Result<Band<T, X>, Error>,
    F: Fn(&RasterSource<T, X>, usize, usize, usize) -> Option<T>,
    K: Fn(T, T, &Vec<Option<T>>) -> Vec<u8>,
    L: Fn(T, (T, T)) -> u8,

    requires
        source.data is Memory,
    ensures
        is_tile_image(
            source,
            at,
            read,
            shading,
            byte_range,
            tile_size,
            format,
            sample,
            colour,
            level,
            tile,
        ) <==> is_shaded(
            source,
            shading,
            byte_range,
            tile_size,
            format,
            sample,
            colour,
            level,
            tile,
        ),
{
}

/// A tile fails only as the window of a band could not be read, or as its image
/// could not be encoded.
pub proof fn tiles_fail_for_a_reason<T: Copy, X, R, F, K, L>(
    file: RasterSource<T, X>,
    at: Option<PixelBox>,
    read: R,
    shading: Shading<T>,
    byte_range: (T, T),
    tile_size: u32,
    format: TileFormat,
    sample: F,
    colour: K,
    level: L,
    e: Error,
) where
    R: Fn(usize, Window) -> Result<Band<T, X>, Error>,
    F: Fn(&RasterSource<T, X>, usize, usize, usize) -> Option<T>,
    K: Fn(T, T, &Vec<Option<T>>) -> Vec<u8>,
    L: Fn(T, (T, T)) -> u8,

    requires
        is_tile_image(
            file,
            at,
            read,
            shading,
            byte_range,
            tile_size,
            format,
            sample,
            colour,
            level,
            Err(e),
        ),
    ensures
        e == Error::Encode(EncodeStep::Image(format)) || exists|band: usize, w: Window|
            {
                &&& file.is_tile_window(at, Some(w))
                &&& #[trigger] call_ensures(read, (band, w), Err::<Band<T, X>, Error>(e))
            },
{
    let tile = Err::<Option<Vec<u8>>, Error>(e);
    if file.data is Memory {
        lemma_shaded_error(
            file,
            shading,
            byte_range,
            tile_size,
            format,
            sample,
            colour,
            level,
            e,
        );
    } else {
        let got = choose|got: Result<Option<RasterSource<T, X>>, Error>|
            {
                &&& #[trigger] is_window_source(file, at, read, got)
                &&& match got {
                    Err(g) => tile == Err::<Option<Vec<u8>>, Error>(g),
                    Ok(part) => {
                        &&& part matches Some(s)
                        &&& if s.bands() == 0 {
                            tile == Ok::<Option<Vec<u8>>, Error>(None)
                        } else {
                            is_shaded(
                                s,
                                shading,
                                byte_range,
                                tile_size,
                                format,
                                sample,
                                colour,
                                level,
                                tile,
                            )
                        }
                    },
                }
            };
        match got {
            Ok(part) => {
                lemma_shaded_error(
                    part->Some_0,
                    shading,
                    byte_range,
                    tile_size,
                    format,
                    sample,
                    colour,
                    level,
                    e,
                );
            },
            Err(g) => {
                let window = choose|window: Option<Window>|
                    #[trigger] file.is_tile_window(at, window) && is_part(file, window, read, got);
                let w = window->Some_0;
                let bands = file.data->File_0.bands@;
                let i = failed_bands_are_named::<T, X, R>(bands, w, read, e);
                assert(call_ensures(read, (bands[i], w), Err::<Band<T, X>, Error>(e)));
            },
        }
    }
}

proof fn lemma_shaded_error<T: Copy, X, F, K, L>(
    source: RasterSource<T, X>,
    shading: Shading<T>,
    byte_range: (T, T),
    tile_size: u32,
    format: TileFormat,
    sample: F,
    colour: K,
    level: L,
    e: Error,
) where
    F: Fn(&RasterSource<T, X>, usize, usize, usize) -> Option<T>,
    K: Fn(T, T, &Vec<Option<T>>) -> Vec<u8>,
    L: Fn(T, (T, T)) -> u8,

    requires
        is_shaded(
            source,
            shading,
            byte_range,
            tile_size,
            format,
            sample,
            colour,
            level,
            Err(e),
        ),
    ensures
        e == Error::Encode(EncodeStep::Image(format)),
{
}

} // verus!
