//! Pyramids of raster tiles.

use vstd::prelude::*;

use crate::error::Error;
use crate::images::TileFormat;
use crate::mercator::TileCoord;
use crate::pyramid::{
    generate, is_generated, is_listed, is_resolution, lemma_generated_weaker, pyramid_metadata,
    raster_metadata, rendering_of, resolve, Edges, MetadataModel, PyramidMetadata, PyramidOptions,
    PyramidStats, Rendering, Resolved, Shading, TileSink,
};
use crate::render::{
    files_give_the_tiles_of_the_raster, is_tile_image, reads_succeed, samples_what_it_sees,
};
use crate::source::{Band, PixelBox, RasterSource, Window};
use crate::window::is_raster_of;

verus! {

/// What rendering a tile with a shading may give.
pub open spec fn shaded_rendering<T, R>(render: R, shading: Shading<T>) -> Rendering where
    R: Fn(&Shading<T>, TileCoord) -> Result<Option<Vec<u8>>, Error>,
 {
    |c: TileCoord, r: Result<Option<Vec<u8>>, Error>| call_ensures(render, (&shading, c), r)
}

/// Generates a pyramid of raster tiles into the sink: resolves the options,
/// renders each tile with the shading that they give, and closes the sink with
/// the metadata of the run.
///
/// `bands` is the number of the source's bands and `native_zoom` its native
/// zoom. `inverted`, `minmax` and `byte_range` are those of
/// [`resolve`](crate::pyramid::resolve). `edges` tells where the source's
/// bounds lie at each zoom.
pub fn generate_raster<T: Copy, I, M, S, C, R, P>(
    bands: usize,
    native_zoom: u8,
    opts: &PyramidOptions<T>,
    byte_range: (T, T),
    inverted: &I,
    minmax: &M,
    bounds_lonlat: (u64, u64, u64, u64),
    edges: &C,
    sink: &mut S,
    render: &R,
    progress: &P,
) -> (stats: Result<PyramidStats, Error>) where
    I: Fn(T, T) -> bool,
    M: Fn() -> Result<(T, T), Error>,
    S: TileSink,
    C: Fn(u8) -> Edges,
    R: Fn(&Shading<T>, TileCoord) -> Result<Option<Vec<u8>>, Error>,
    P: Fn(u64),

    requires
        native_zoom < 32,
        opts.max_zoom matches Some(z) ==> z < 32,
        forall|lo: T, hi: T| call_requires(*inverted, (lo, hi)),
        call_requires(*minmax, ()),
        forall|z: u8| z < 32 ==> call_requires(*edges, (z,)),
        forall|s: &Shading<T>, c: TileCoord| c.valid() ==> call_requires(*render, (s, c)),
        forall|n: u64| call_requires(*progress, (n,)),
    ensures
        exists|resolved: Result<Resolved<T>, Error>|
            {
                &&& #[trigger] is_resolution(
                    bands,
                    native_zoom,
                    *opts,
                    byte_range,
                    *inverted,
                    *minmax,
                    resolved,
                )
                &&& match resolved {
                    Err(e) => {
                        &&& stats == Err::<PyramidStats, Error>(e)
                        &&& final(sink).stored() == old(sink).stored()
                        &&& final(sink).summaries() == old(sink).summaries()
                    },
                    Ok(how) => {
                        let meta = raster_metadata(
                            *opts,
                            how.min_zoom,
                            how.max_zoom,
                            bounds_lonlat,
                        );
                        &&& is_generated::<S, C>(
                            *edges,
                            how.min_zoom,
                            how.max_zoom,
                            shaded_rendering(*render, how.shading),
                            meta,
                            old(sink).stored(),
                            final(sink).stored(),
                            stats,
                        )
                        &&& final(sink).summaries() == if stats is Ok {
                            old(sink).summaries().push(meta)
                        } else {
                            old(sink).summaries()
                        }
                    },
                }
            },
{
    let resolved: Result<Resolved<T>, Error> = resolve(
        bands,
        native_zoom,
        opts,
        byte_range,
        inverted,
        minmax,
    );
    let ghost all = resolved;
    assert(is_resolution(bands, native_zoom, *opts, byte_range, *inverted, *minmax, all));
    let how: Resolved<T> = match resolved {
        Ok(how) => how,
        Err(e) => {
            return Err(e);
        },
    };
    let meta: PyramidMetadata = pyramid_metadata(opts, &how, bounds_lonlat);
    let shading: &Shading<T> = &how.shading;
    let one = |c: TileCoord| -> (tile: Result<Option<Vec<u8>>, Error>)
        requires
            c.valid(),
        ensures
            call_ensures(*render, (shading, c), tile),
        { render(shading, c) };
    let ghost before = sink.stored();
    let stats: Result<PyramidStats, Error> = generate(
        how.min_zoom,
        how.max_zoom,
        edges,
        &meta,
        sink,
        &one,
        progress,
    );
    proof {
        lemma_generated_weaker::<S, C>(
            *edges,
            how.min_zoom,
            how.max_zoom,
            rendering_of(one),
            shaded_rendering(*render, how.shading),
            meta@,
            before,
            sink.stored(),
            stats,
        );
    }
    stats
}

/// What rendering a tile of a source may give. `place` tells where a tile's
/// edges lie in the source, and `sampler` what samples it.
pub open spec fn source_rendering<T: Copy, X, R, F, K, L>(
    source: RasterSource<T, X>,
    place: spec_fn(TileCoord) -> PixelBox,
    read: R,
    shading: Shading<T>,
    byte_range: (T, T),
    tile_size: u32,
    format: TileFormat,
    sampler: spec_fn(TileCoord) -> F,
    colour: K,
    level: L,
) -> Rendering where
    R: Fn(usize, Window) -> Result<Band<T, X>, Error>,
    F: Fn(&RasterSource<T, X>, usize, usize, usize) -> Option<T>,
    K: Fn(T, T, &Vec<Option<T>>) -> Vec<u8>,
    L: Fn(T, (T, T)) -> u8,
 {
    |c: TileCoord, tile: Result<Option<Vec<u8>>, Error>|
        is_tile_image(
            source,
            Some(place(c)),
            read,
            shading,
            byte_range,
            tile_size,
            format,
            sampler(c),
            colour,
            level,
            tile,
        )
}

/// What rendering a tile needs for its tile of a file to be the tile of the
/// raster: it meets the file, its window can be read, and sampling goes by what
/// it sees.
pub open spec fn sees_the_raster<T: Copy, X, R, F>(
    file: RasterSource<T, X>,
    whole: RasterSource<T, X>,
    at: PixelBox,
    read: R,
    sample: F,
) -> bool where
    R: Fn(usize, Window) -> Result<Band<T, X>, Error>,
    F: Fn(&RasterSource<T, X>, usize, usize, usize) -> Option<T>,
 {
    exists|w: Window|
        {
            &&& #[trigger] file.is_tile_window(Some(at), Some(w))
            &&& reads_succeed(file, w, read)
            &&& samples_what_it_sees(file, whole, at, w, read, sample)
        }
}

/// The pyramid of a file is a pyramid of the same raster in memory: the same
/// tiles, of the same bytes, and the same counters.
pub proof fn files_give_the_pyramids_of_the_raster<T: Copy, X, S: TileSink, C, R, F, K, L>(
    file: RasterSource<T, X>,
    whole: RasterSource<T, X>,
    edges: C,
    min_zoom: u8,
    max_zoom: u8,
    place: spec_fn(TileCoord) -> PixelBox,
    read: R,
    shading: Shading<T>,
    byte_range: (T, T),
    tile_size: u32,
    format: TileFormat,
    sampler: spec_fn(TileCoord) -> F,
    colour: K,
    level: L,
    meta: MetadataModel,
    before: Seq<(TileCoord, Seq<u8>)>,
    after: Seq<(TileCoord, Seq<u8>)>,
    stats: Result<PyramidStats, Error>,
) where
    C: Fn(u8) -> Edges,
    R: Fn(usize, Window) -> Result<Band<T, X>, Error>,
    F: Fn(&RasterSource<T, X>, usize, usize, usize) -> Option<T>,
    K: Fn(T, T, &Vec<Option<T>>) -> Vec<u8>,
    L: Fn(T, (T, T)) -> u8,

    requires
        is_raster_of(file, read, whole),
        file.bands() > 0,
        forall|c: TileCoord| #[trigger]
            is_listed(edges, min_zoom, max_zoom, c) ==> sees_the_raster(
                file,
                whole,
                place(c),
                read,
                sampler(c),
            ),
        is_generated::<S, C>(
            edges,
            min_zoom,
            max_zoom,
            source_rendering(
                file,
                place,
                read,
                shading,
                byte_range,
                tile_size,
                format,
                sampler,
                colour,
                level,
            ),
            meta,
            before,
            after,
            stats,
        ),
    ensures
        is_generated::<S, C>(
            edges,
            min_zoom,
            max_zoom,
            source_rendering(
                whole,
                place,
                read,
                shading,
                byte_range,
                tile_size,
                format,
                sampler,
                colour,
                level,
            ),
            meta,
            before,
            after,
            stats,
        ),
{
    let strong = source_rendering(
        file,
        place,
        read,
        shading,
        byte_range,
        tile_size,
        format,
        sampler,
        colour,
        level,
    );
    let weak = source_rendering(
        whole,
        place,
        read,
        shading,
        byte_range,
        tile_size,
        format,
        sampler,
        colour,
        level,
    );
    assert forall|c: TileCoord, r: Result<Option<Vec<u8>>, Error>| #[trigger]
        strong(c, r) && is_listed(edges, min_zoom, max_zoom, c) implies weak(c, r) by {
        let w = choose|w: Window|
            {
                &&& #[trigger] file.is_tile_window(Some(place(c)), Some(w))
                &&& reads_succeed(file, w, read)
                &&& samples_what_it_sees(file, whole, place(c), w, read, sampler(c))
            };
        files_give_the_tiles_of_the_raster(
            file,
            whole,
            place(c),
            w,
            read,
            shading,
            byte_range,
            tile_size,
            format,
            sampler(c),
            colour,
            level,
            r,
        );
    }
    lemma_generated_weaker::<S, C>(
        edges,
        min_zoom,
        max_zoom,
        strong,
        weak,
        meta,
        before,
        after,
        stats,
    );
}

/// What a tile of a run may be rendered to is what the renderer may give for that
/// tile with the shading of the run.
pub proof fn tiles_are_rendered_with_the_shading_of_the_run<T, R>(
    render: R,
    shading: Shading<T>,
    tile: TileCoord,
    image: Result<Option<Vec<u8>>, Error>,
) where R: Fn(&Shading<T>, TileCoord) -> Result<Option<Vec<u8>>, Error>
    ensures
        shaded_rendering(render, shading)(tile, image) <==> call_ensures(
            render,
            (&shading, tile),
            image,
        ),
{
}

} // verus!
