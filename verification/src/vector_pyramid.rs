//! Pyramids of vector tiles.

use vstd::prelude::*;

use crate::error::{Error, Invalid};
use crate::layer_json::{
    all_layers_are_told, describe, is_described, layers_json, vector_layers_json,
};
use crate::mercator::TileCoord;
use crate::pyramid::{
    generate, is_generated, lemma_generated_weaker, rendering_of, Edges, MetadataModel,
    PyramidMetadata, PyramidStats, Rendering, TileSink,
};
use crate::text::says;
use crate::vector::{VectorLayer, VectorSource};
use crate::vector_tile::{is_mvt_tile, render_mvt_tile, InTile, MvtOptions};

verus! {

/// What is wrong with the options, the first thing first.
pub open spec fn options_error(opts: MvtOptions) -> Option<Error> {
    if opts.min_zoom > opts.max_zoom {
        Some(Error::InvalidInput(Invalid::ZoomRange(opts.min_zoom, opts.max_zoom)))
    } else if opts.extent == 0 {
        Some(Error::InvalidInput(Invalid::Extent))
    } else {
        None
    }
}

/// Checks the options.
pub fn check_options(opts: &MvtOptions) -> (check: Result<(), Error>)
    ensures
        match options_error(*opts) {
            Some(e) => check == Err::<(), Error>(e),
            None => check is Ok,
        },
{
    if opts.min_zoom > opts.max_zoom {
        return Err(Error::InvalidInput(Invalid::ZoomRange(opts.min_zoom, opts.max_zoom)));
    }
    if opts.extent == 0 {
        return Err(Error::InvalidInput(Invalid::Extent));
    }
    Ok(())
}

/// `meta` are the metadata of a vector run.
pub open spec fn is_vector_metadata<G>(
    layers: Seq<VectorLayer<G>>,
    opts: MvtOptions,
    bounds_lonlat: (u64, u64, u64, u64),
    meta: MetadataModel,
) -> bool {
    &&& meta.name == opts.name@
    &&& meta.bounds_lonlat == bounds_lonlat
    &&& meta.min_zoom == opts.min_zoom
    &&& meta.max_zoom == opts.max_zoom
    &&& meta.format == "pbf"@
    &&& meta.json is Some
    &&& exists|texts: Seq<Seq<char>>|
        #[trigger] describe(layers, opts.min_zoom, opts.max_zoom, texts) && meta.json->Some_0
            == layers_json(texts)
}

/// The metadata of a vector run, the same that its sink gets at the end.
pub fn vector_metadata<G>(
    source: &VectorSource<G>,
    opts: &MvtOptions,
    bounds_lonlat: (u64, u64, u64, u64),
) -> (meta: PyramidMetadata)
    ensures
        is_vector_metadata(source.layers@, *opts, bounds_lonlat, meta@),
{
    PyramidMetadata {
        name: opts.name.clone(),
        bounds_lonlat,
        min_zoom: opts.min_zoom,
        max_zoom: opts.max_zoom,
        format: "pbf",
        json: Some(vector_layers_json(source, opts)),
    }
}

/// What rendering a vector tile may give.
pub open spec fn mvt_rendering<G, C>(
    layers: Seq<VectorLayer<G>>,
    opts: MvtOptions,
    clip: C,
) -> Rendering where C: Fn(TileCoord, &G) -> InTile {
    |c: TileCoord, r: Result<Option<Vec<u8>>, Error>| is_mvt_tile(layers, opts, clip, c, r)
}

/// Generates a pyramid of vector tiles into the sink.
///
/// `edges` tells where the source's bounds lie at each zoom, and `clip` clips
/// a geometry to a tile.
pub fn generate_mvt<G, S, E, C, P>(
    source: &VectorSource<G>,
    opts: &MvtOptions,
    bounds_lonlat: (u64, u64, u64, u64),
    edges: &E,
    sink: &mut S,
    clip: &C,
    progress: &P,
) -> (stats: Result<PyramidStats, Error>) where
    S: TileSink,
    E: Fn(u8) -> Edges,
    C: Fn(TileCoord, &G) -> InTile,
    P: Fn(u64),

    requires
        opts.max_zoom < 32,
        forall|z: u8| z < 32 ==> call_requires(*edges, (z,)),
        forall|c: TileCoord, g: &G| c.valid() ==> call_requires(*clip, (c, g)),
        forall|n: u64| call_requires(*progress, (n,)),
    ensures
        match options_error(*opts) {
            Some(e) => {
                &&& stats == Err::<PyramidStats, Error>(e)
                &&& final(sink).stored() == old(sink).stored()
                &&& final(sink).summaries() == old(sink).summaries()
            },
            None => exists|meta: MetadataModel|
                {
                    &&& #[trigger] is_vector_metadata(source.layers@, *opts, bounds_lonlat, meta)
                    &&& is_generated::<S, E>(
                        *edges,
                        opts.min_zoom,
                        opts.max_zoom,
                        mvt_rendering(source.layers@, *opts, *clip),
                        meta,
                        old(sink).stored(),
                        final(sink).stored(),
                        stats,
                    )
                    &&& final(sink).summaries() == if stats is Ok {
                        old(sink).summaries().push(meta)
                    } else {
                        old(sink).summaries()
                    }
                },
        },
{
    match check_options(opts) {
        Err(e) => {
            return Err(e);
        },
        Ok(_) => {},
    }
    let meta: PyramidMetadata = vector_metadata(source, opts, bounds_lonlat);
    let render = |c: TileCoord| -> (tile: Result<Option<Vec<u8>>, Error>)
        requires
            c.valid(),
        ensures
            is_mvt_tile(source.layers@, *opts, *clip, c, tile),
        { render_mvt_tile(source, opts, c, clip) };
    let ghost before = sink.stored();
    let stats: Result<PyramidStats, Error> = generate(
        opts.min_zoom,
        opts.max_zoom,
        edges,
        &meta,
        sink,
        &render,
        progress,
    );
    proof {
        lemma_generated_weaker::<S, E>(
            *edges,
            opts.min_zoom,
            opts.max_zoom,
            rendering_of(render),
            mvt_rendering(source.layers@, *opts, *clip),
            meta@,
            before,
            sink.stored(),
            stats,
        );
        assert(is_vector_metadata(source.layers@, *opts, bounds_lonlat, meta@));
    }
    stats
}

/// Options are taken exactly where the lowest zoom is no higher than the highest
/// and the extent is not 0. Zooms that are crossed are named, and go before the
/// extent.
pub proof fn options_are_refused_for_what_is_wrong(opts: MvtOptions)
    ensures
        options_error(opts) is None <==> opts.min_zoom <= opts.max_zoom && opts.extent > 0,
        opts.min_zoom > opts.max_zoom ==> options_error(opts) == Some(
            Error::InvalidInput(Invalid::ZoomRange(opts.min_zoom, opts.max_zoom)),
        ),
        opts.min_zoom <= opts.max_zoom && opts.extent == 0 ==> options_error(opts) == Some(
            Error::InvalidInput(Invalid::Extent),
        ),
{
}

/// The metadata of a vector pyramid tell its name, its bounds, its zooms and that
/// its tiles are `pbf`, and describe each layer in its place.
pub proof fn metadata_tell_the_vector_pyramid<G>(
    layers: Seq<VectorLayer<G>>,
    opts: MvtOptions,
    bounds_lonlat: (u64, u64, u64, u64),
    meta: MetadataModel,
    k: int,
)
    requires
        is_vector_metadata(layers, opts, bounds_lonlat, meta),
        0 <= k < layers.len(),
    ensures
        meta.name == opts.name@,
        meta.bounds_lonlat == bounds_lonlat,
        meta.min_zoom == opts.min_zoom,
        meta.max_zoom == opts.max_zoom,
        meta.format == "pbf"@,
        meta.json matches Some(json) && exists|text: Seq<char>| #[trigger]
            is_described(layers[k], opts.min_zoom, opts.max_zoom, text) && says(json, text),
{
    let texts = choose|texts: Seq<Seq<char>>|
        #[trigger] describe(layers, opts.min_zoom, opts.max_zoom, texts) && meta.json->Some_0
            == layers_json(texts);
    all_layers_are_told(texts, k);
    assert(is_described(layers[k], opts.min_zoom, opts.max_zoom, texts[k]));
}

/// What a tile of a vector run may be is what may become of the source there.
pub proof fn vector_tiles_are_rendered_at_their_address<G, C>(
    layers: Seq<VectorLayer<G>>,
    opts: MvtOptions,
    clip: C,
    tile: TileCoord,
    image: Result<Option<Vec<u8>>, Error>,
) where C: Fn(TileCoord, &G) -> InTile
    ensures
        mvt_rendering(layers, opts, clip)(tile, image) <==> is_mvt_tile(
            layers,
            opts,
            clip,
            tile,
            image,
        ),
{
}

} // verus!
