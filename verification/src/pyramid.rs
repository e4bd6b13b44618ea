//! Tile pyramids: which tiles to render, and where they go.

use surtgis_colormap::ColorScheme;
use vstd::arithmetic::power2::{
    lemma2_to64, lemma_pow2_adds, lemma_pow2_strictly_increases, pow2,
};
use vstd::prelude::*;
use vstd::slice::slice_to_vec;

use crate::error::{Error, Invalid};
use crate::images::TileFormat;
use crate::inputs::{grayscale, scheme_name};
use crate::mercator::{
    covers_box, range_lists_its_tiles, range_lists_no_tile_twice, range_tiles_are_valid,
    ranges_hold_the_tiles_of_their_box, TileCoord, TileRange,
};
use crate::source::Resampling;

verus! {

/// Metadata describing a finished pyramid, handed to the sink at the end.
pub struct PyramidMetadata {
    pub name: String,
    /// West, south, east and north in degrees, each the bit pattern of a
    /// double.
    pub bounds_lonlat: (u64, u64, u64, u64),
    pub min_zoom: u8,
    pub max_zoom: u8,
    /// Tile format ("pbf" for vector tiles).
    pub format: &'static str,
    /// Description of the vector layers; `None` for raster tiles.
    pub json: Option<String>,
}

/// The metadata of a pyramid.
pub struct MetadataModel {
    pub name: Seq<char>,
    pub bounds_lonlat: (u64, u64, u64, u64),
    pub min_zoom: u8,
    pub max_zoom: u8,
    pub format: Seq<char>,
    pub json: Option<Seq<char>>,
}

impl View for PyramidMetadata {
    type V = MetadataModel;

    open spec fn view(&self) -> MetadataModel {
        MetadataModel {
            name: self.name@,
            bounds_lonlat: self.bounds_lonlat,
            min_zoom: self.min_zoom,
            max_zoom: self.max_zoom,
            format: self.format@,
            json: match self.json {
                Some(j) => Some(j@),
                None => None,
            },
        }
    }
}

/// Counters of a run.
#[derive(Debug, Clone, Copy, PartialEq, Eq, Structural)]
pub struct PyramidStats {
    /// Tiles actually written.
    pub written: u64,
    /// Tiles inside the bounds that turned out empty and were skipped.
    pub skipped: u64,
}

impl Default for PyramidStats {
    fn default() -> (stats: PyramidStats)
        ensures
            stats.written == 0,
            stats.skipped == 0,
    {
        PyramidStats { written: 0, skipped: 0 }
    }
}

/// Destination for rendered tiles (a directory tree, an archive, ...).
pub trait TileSink {
    /// The tiles stored so far, in order. A sink that is verified says here
    /// what it holds.
    closed spec fn stored(&self) -> Seq<(TileCoord, Seq<u8>)> {
        Seq::empty()
    }

    /// The metadata that the sink was closed with so far, in order.
    closed spec fn summaries(&self) -> Seq<MetadataModel> {
        Seq::empty()
    }

    /// The sink may refuse this tile with this error.
    closed spec fn refuses(&self, coord: TileCoord, data: Seq<u8>, e: Error) -> bool {
        true
    }

    /// The sink may refuse to be closed with these metadata, with this error.
    closed spec fn refuses_close(&self, meta: MetadataModel, e: Error) -> bool {
        true
    }

    /// Stores one encoded tile. A tile that is refused is not stored.
    fn put(&mut self, coord: TileCoord, data: &[u8]) -> (done: Result<(), Error>)
        ensures
            final(self).stored() == if done is Ok {
                old(self).stored().push((coord, data@))
            } else {
                old(self).stored()
            },
            final(self).summaries() == old(self).summaries(),
            done matches Err(e) ==> old(self).refuses(coord, data@, e),
    ;

    /// Called once after all tiles are stored.
    fn finalize(&mut self, meta: &PyramidMetadata) -> (done: Result<(), Error>)
        ensures
            final(self).stored() == old(self).stored(),
            final(self).summaries() == if done is Ok {
                old(self).summaries().push(meta@)
            } else {
                old(self).summaries()
            },
            done matches Err(e) ==> old(self).refuses_close(meta@, e),
    ;
}

/// A sink that keeps tiles in memory.
pub struct MemorySink {
    /// The tiles, in the order in which they came.
    pub tiles: Vec<(TileCoord, Vec<u8>)>,
    /// The metadata of each time that it was closed.
    pub closed: Vec<PyramidMetadata>,
}

impl MemorySink {
    /// A sink that holds nothing.
    pub fn new() -> (sink: MemorySink)
        ensures
            sink.stored() == Seq::<(TileCoord, Seq<u8>)>::empty(),
            sink.summaries() == Seq::<MetadataModel>::empty(),
    {
        let sink = MemorySink { tiles: Vec::new(), closed: Vec::new() };
        assert(sink.stored() =~= Seq::empty());
        assert(sink.summaries() =~= Seq::empty());
        sink
    }
}

impl TileSink for MemorySink {
    open spec fn stored(&self) -> Seq<(TileCoord, Seq<u8>)> {
        self.tiles@.map_values(|t: (TileCoord, Vec<u8>)| (t.0, t.1@))
    }

    open spec fn summaries(&self) -> Seq<MetadataModel> {
        self.closed@.map_values(|m: PyramidMetadata| m@)
    }

    /// It has room for every tile.
    open spec fn refuses(&self, coord: TileCoord, data: Seq<u8>, e: Error) -> bool {
        false
    }

    /// It can always be closed.
    open spec fn refuses_close(&self, meta: MetadataModel, e: Error) -> bool {
        false
    }

    fn put(&mut self, coord: TileCoord, data: &[u8]) -> (done: Result<(), Error>) {
        let ghost before = self.stored();
        let kept: Vec<u8> = slice_to_vec(data);
        self.tiles.push((coord, kept));
        assert(self.stored() =~= before.push((coord, data@)));
        Ok(())
    }

    fn finalize(&mut self, meta: &PyramidMetadata) -> (done: Result<(), Error>) {
        let ghost before = self.summaries();
        let json: Option<String> = match &meta.json {
            Some(j) => Some(j.clone()),
            None => None,
        };
        let kept = PyramidMetadata {
            name: meta.name.clone(),
            bounds_lonlat: meta.bounds_lonlat,
            min_zoom: meta.min_zoom,
            max_zoom: meta.max_zoom,
            format: meta.format,
            json,
        };
        assert(kept@ == meta@);
        self.closed.push(kept);
        assert(self.summaries() =~= before.push(meta@));
        Ok(())
    }
}

/// The tiles that were rendered to something, in order.
pub open spec fn rendered_tiles(tiles: Seq<TileCoord>, images: Seq<Option<Vec<u8>>>) -> Seq<
    (TileCoord, Seq<u8>),
>
    decreases images.len(),
{
    if images.len() == 0 {
        Seq::empty()
    } else {
        let before = rendered_tiles(tiles, images.drop_last());
        match images.last() {
            Some(v) => before.push((tiles[images.len() - 1], v@)),
            None => before,
        }
    }
}

/// What rendering a tile may give.
pub type Rendering = spec_fn(TileCoord, Result<Option<Vec<u8>>, Error>) -> bool;

/// What a function may give when it renders a tile.
pub open spec fn rendering_of<R>(render: R) -> Rendering where
    R: Fn(TileCoord) -> Result<Option<Vec<u8>>, Error>,
 {
    |c: TileCoord, r: Result<Option<Vec<u8>>, Error>| call_ensures(render, (c,), r)
}

/// `images` is what the first tiles were rendered to.
pub open spec fn are_rendered(
    tiles: Seq<TileCoord>,
    rendering: Rendering,
    images: Seq<Option<Vec<u8>>>,
) -> bool {
    &&& images.len() <= tiles.len()
    &&& forall|i: int|
        0 <= i < images.len() ==> rendering(
            tiles[i],
            Ok::<Option<Vec<u8>>, Error>(#[trigger] images[i]),
        )
}

/// A sink that holds `held` may refuse, with `e`, what a tile was rendered to.
pub open spec fn tile_refused<S: TileSink>(
    tile: TileCoord,
    rendering: Rendering,
    held: Seq<(TileCoord, Seq<u8>)>,
    e: Error,
) -> bool {
    exists|at: S, data: Vec<u8>|
        {
            &&& rendering(tile, Ok::<Option<Vec<u8>>, Error>(Some(data)))
            &&& at.stored() == held
            &&& #[trigger] at.refuses(tile, data@, e)
        }
}

/// A sink that holds `held` may refuse, with `e`, to be closed.
pub open spec fn close_refused<S: TileSink>(
    meta: MetadataModel,
    held: Seq<(TileCoord, Seq<u8>)>,
    e: Error,
) -> bool {
    exists|at: S| at.stored() == held && #[trigger] at.refuses_close(meta, e)
}

/// `outcome` is what becomes of a run into a sink of type `S`. When all goes
/// well, each tile was rendered, each rendered tile was stored in order, and
/// the counters say how many. An error is that of the first tile that could
/// not be rendered, or that the sink refused; what was rendered before it is
/// stored, and nothing else.
pub open spec fn is_run<S: TileSink>(
    tiles: Seq<TileCoord>,
    rendering: Rendering,
    before: Seq<(TileCoord, Seq<u8>)>,
    after: Seq<(TileCoord, Seq<u8>)>,
    outcome: Result<PyramidStats, Error>,
) -> bool {
    exists|images: Seq<Option<Vec<u8>>>|
        {
            &&& #[trigger] are_rendered(tiles, rendering, images)
            &&& after == before + rendered_tiles(tiles, images)
            &&& match outcome {
                Ok(stats) => {
                    &&& images.len() == tiles.len()
                    &&& stats.written == rendered_tiles(tiles, images).len()
                    &&& stats.written + stats.skipped == tiles.len()
                },
                Err(e) => {
                    let next = tiles[images.len() as int];
                    &&& images.len() < tiles.len()
                    &&& rendering(next, Err::<Option<Vec<u8>>, Error>(e)) || tile_refused::<S>(
                        next,
                        rendering,
                        after,
                        e,
                    )
                },
            }
        }
}

/// Renders tile after tile into the sink; `progress` gets the running count
/// of processed tiles.
pub fn run_tiles<S, R, P>(tiles: &Vec<TileCoord>, sink: &mut S, render: &R, progress: &P) -> (stats:
    Result<PyramidStats, Error>) where
    S: TileSink,
    R: Fn(TileCoord) -> Result<Option<Vec<u8>>, Error>,
    P: Fn(u64),

    requires
        forall|c: TileCoord| tiles@.contains(c) ==> call_requires(*render, (c,)),
        forall|n: u64| call_requires(*progress, (n,)),
    ensures
        is_run::<S>(tiles@, rendering_of(*render), old(sink).stored(), final(sink).stored(), stats),
        final(sink).summaries() == old(sink).summaries(),
{
    let ghost before = sink.stored();
    let ghost mut images: Seq<Option<Vec<u8>>> = Seq::empty();
    let mut written: u64 = 0;
    let mut skipped: u64 = 0;
    assert(before =~= before + rendered_tiles(tiles@, images));
    let n: usize = tiles.len();
    for i in 0..n
        invariant
            n == tiles@.len(),
            forall|c: TileCoord| tiles@.contains(c) ==> call_requires(*render, (c,)),
            forall|n: u64| call_requires(*progress, (n,)),
            images.len() == i,
            are_rendered(tiles@, rendering_of(*render), images),
            before == old(sink).stored(),
            sink.summaries() == old(sink).summaries(),
            sink.stored() == before + rendered_tiles(tiles@, images),
            written == rendered_tiles(tiles@, images).len(),
            written + skipped == i,
    {
        let coord: TileCoord = tiles[i];
        let ghost seen = images;
        assert(tiles@.contains(tiles@[i as int]));
        match render(coord) {
            Err(e) => {
                assert(are_rendered(tiles@, rendering_of(*render), images));
                assert(rendering_of(*render)(coord, Err::<Option<Vec<u8>>, Error>(e)));
                return Err(e);
            },
            Ok(image) => {
                proof {
                    images = seen.push(image);
                    assert(images.drop_last() =~= seen);
                }
                match image {
                    Some(data) => {
                        let ghost at = *sink;
                        match sink.put(coord, data.as_slice()) {
                            Err(e) => {
                                assert(are_rendered(tiles@, rendering_of(*render), seen));
                                assert(rendering_of(*render)(
                                    coord,
                                    Ok::<Option<Vec<u8>>, Error>(Some(data)),
                                ));
                                assert(at.refuses(coord, data@, e));
                                assert(tile_refused::<S>(
                                    coord,
                                    rendering_of(*render),
                                    sink.stored(),
                                    e,
                                ));
                                return Err(e);
                            },
                            Ok(_) => {},
                        }
                        written = written + 1;
                        assert(sink.stored() =~= before + rendered_tiles(tiles@, images));
                    },
                    None => {
                        skipped = skipped + 1;
                    },
                }
            },
        }
        progress(i as u64 + 1);
    }
    assert(are_rendered(tiles@, rendering_of(*render), images));
    Ok(PyramidStats { written, skipped })
}

/// The columns of a box's west and east edges and the rows of its south and
/// north edges at some zoom: west, south, east, north.
pub type Edges = (i64, i64, i64, i64);

/// `range` covers, at zoom `z`, the box whose edges `edges` tells.
pub open spec fn is_cover<C>(edges: C, z: u8, range: TileRange) -> bool where C: Fn(u8) -> Edges {
    exists|e: Edges| #[trigger]
        call_ensures(edges, (z,), e) && covers_box(
            e.0 as int,
            e.1 as int,
            e.2 as int,
            e.3 as int,
            z,
            range,
        )
}

/// `ranges` cover a box at each zoom from `min_zoom` on.
pub open spec fn are_covers<C>(edges: C, min_zoom: u8, ranges: Seq<TileRange>) -> bool where
    C: Fn(u8) -> Edges,
 {
    forall|k: int|
        0 <= k < ranges.len() ==> {
            &&& min_zoom + k < 32
            &&& (#[trigger] ranges[k]).valid()
            &&& is_cover(edges, (min_zoom + k) as u8, ranges[k])
        }
}

/// The tiles of all ranges, one range after the other.
pub open spec fn all_tiles(ranges: Seq<TileRange>) -> Seq<TileCoord>
    decreases ranges.len(),
{
    if ranges.len() == 0 {
        Seq::empty()
    } else {
        all_tiles(ranges.drop_last()) + ranges.last().tiles()
    }
}

/// Lists the tiles that cover a box, zoom by zoom, each zoom row by row.
pub fn list_tiles<C>(min_zoom: u8, max_zoom: u8, edges: &C) -> (tiles: Vec<TileCoord>) where
    C: Fn(u8) -> Edges,

    requires
        min_zoom <= max_zoom < 32,
        forall|z: u8| min_zoom <= z <= max_zoom ==> call_requires(*edges, (z,)),
    ensures
        exists|ranges: Seq<TileRange>|
            {
                &&& #[trigger] are_covers(*edges, min_zoom, ranges)
                &&& ranges.len() == max_zoom - min_zoom + 1
                &&& tiles@ == all_tiles(ranges)
            },
{
    let ghost mut ranges: Seq<TileRange> = Seq::empty();
    let mut tiles: Vec<TileCoord> = Vec::new();
    let mut z: u8 = min_zoom;
    while z <= max_zoom
        invariant
            min_zoom <= z <= max_zoom + 1,
            max_zoom < 32,
            forall|y: u8| min_zoom <= y <= max_zoom ==> call_requires(*edges, (y,)),
            ranges.len() == z - min_zoom,
            are_covers(*edges, min_zoom, ranges),
            tiles@ == all_tiles(ranges),
        decreases max_zoom + 1 - z,
    {
        let e: Edges = edges(z);
        let range: TileRange = TileRange::for_bounds(e.0, e.1, e.2, e.3, z);
        let mut more: Vec<TileCoord> = range.iter();
        let ghost before = ranges;
        proof {
            assert(is_cover(*edges, z, range));
            ranges = before.push(range);
            assert(ranges.drop_last() =~= before);
            assert forall|k: int| 0 <= k < ranges.len() implies {
                &&& min_zoom + k < 32
                &&& (#[trigger] ranges[k]).valid()
                &&& is_cover(*edges, (min_zoom + k) as u8, ranges[k])
            } by {
                if k < before.len() {
                    assert(ranges[k] == before[k]);
                }
            }
        }
        tiles.append(&mut more);
        z = z + 1;
    }
    assert(are_covers(*edges, min_zoom, ranges));
    tiles
}

proof fn lemma_range_is_small(range: TileRange)
    requires
        range.valid(),
    ensures
        range.tiles().len() <= pow2((2 * range.z) as nat),
        range.tiles().len() == range.width() * range.height(),
{
    let n = pow2(range.z as nat) as int;
    lemma_pow2_adds(range.z as nat, range.z as nat);
    assert(0 <= range.width() * range.height() <= n * n) by (nonlinear_arith)
        requires
            0 <= range.width() <= n,
            0 <= range.height() <= n,
    ;
}

/// Counts the tiles that cover a box, zoom by zoom.
pub fn count_tiles<C>(min_zoom: u8, max_zoom: u8, edges: &C) -> (total: u64) where
    C: Fn(u8) -> Edges,

    requires
        min_zoom <= max_zoom < 32,
        forall|z: u8| min_zoom <= z <= max_zoom ==> call_requires(*edges, (z,)),
    ensures
        exists|ranges: Seq<TileRange>|
            {
                &&& #[trigger] are_covers(*edges, min_zoom, ranges)
                &&& ranges.len() == max_zoom - min_zoom + 1
                &&& total == all_tiles(ranges).len()
            },
{
    let ghost mut ranges: Seq<TileRange> = Seq::empty();
    let mut total: u64 = 0;
    let mut z: u8 = min_zoom;
    proof {
        vstd::arithmetic::power2::lemma_pow2_pos((2 * z) as nat);
    }
    while z <= max_zoom
        invariant
            min_zoom <= z <= max_zoom + 1,
            max_zoom < 32,
            forall|y: u8| min_zoom <= y <= max_zoom ==> call_requires(*edges, (y,)),
            ranges.len() == z - min_zoom,
            are_covers(*edges, min_zoom, ranges),
            total == all_tiles(ranges).len(),
            total < pow2((2 * z) as nat),
        decreases max_zoom + 1 - z,
    {
        let e: Edges = edges(z);
        let range: TileRange = TileRange::for_bounds(e.0, e.1, e.2, e.3, z);
        let ghost before = ranges;
        proof {
            assert(is_cover(*edges, z, range));
            ranges = before.push(range);
            assert(ranges.drop_last() =~= before);
            assert forall|k: int| 0 <= k < ranges.len() implies {
                &&& min_zoom + k < 32
                &&& (#[trigger] ranges[k]).valid()
                &&& is_cover(*edges, (min_zoom + k) as u8, ranges[k])
            } by {
                if k < before.len() {
                    assert(ranges[k] == before[k]);
                }
            }
            lemma_range_is_small(range);
            lemma2_to64();
            let a = pow2((2 * z) as nat);
            lemma_pow2_adds((2 * z) as nat, 2);
            lemma_pow2_adds(31, 31);
            assert(pow2((2 * (z + 1)) as nat) == a * 4);
            if z < 31 {
                lemma_pow2_strictly_increases((2 * z) as nat, 62);
            }
            assert(a <= 0x4000_0000_0000_0000);
        }
        assert(range.width() <= u32::MAX && range.height() <= u32::MAX) by {
            lemma2_to64();
            if z < 31 {
                lemma_pow2_strictly_increases(z as nat, 31);
            }
        }
        total = total + range.count();
        z = z + 1;
    }
    assert(are_covers(*edges, min_zoom, ranges));
    total
}

/// Every tile that covers a box lies in the world, at a zoom of its range.
pub proof fn covering_tiles_are_valid<C>(edges: C, min_zoom: u8, ranges: Seq<TileRange>, i: int)
    where C: Fn(u8) -> Edges
    requires
        are_covers(edges, min_zoom, ranges),
        0 <= i < all_tiles(ranges).len(),
    ensures
        all_tiles(ranges)[i].valid(),
        min_zoom <= all_tiles(ranges)[i].z < min_zoom + ranges.len(),
    decreases ranges.len(),
{
    lemma_covers_prefix(edges, min_zoom, ranges);
    let rest = ranges.drop_last();
    if i < all_tiles(rest).len() {
        covering_tiles_are_valid(edges, min_zoom, rest, i);
    } else {
        let last = ranges[ranges.len() - 1];
        assert(last.valid());
        range_tiles_are_valid(last, i - all_tiles(rest).len());
    }
}

proof fn lemma_covers_prefix<C>(edges: C, min_zoom: u8, ranges: Seq<TileRange>) where
    C: Fn(u8) -> Edges,

    requires
        are_covers(edges, min_zoom, ranges),
        ranges.len() > 0,
    ensures
        are_covers(edges, min_zoom, ranges.drop_last()),
{
    let rest = ranges.drop_last();
    assert(ranges[ranges.len() - 1].valid());
    assert forall|k: int| 0 <= k < rest.len() implies #[trigger] rest[k] == ranges[k] by {}
}

/// No tile is listed twice among those that cover a box.
pub proof fn covering_tiles_are_distinct<C>(
    edges: C,
    min_zoom: u8,
    ranges: Seq<TileRange>,
    i: int,
    j: int,
) where C: Fn(u8) -> Edges
    requires
        are_covers(edges, min_zoom, ranges),
        0 <= i < j < all_tiles(ranges).len(),
    ensures
        all_tiles(ranges)[i] != all_tiles(ranges)[j],
    decreases ranges.len(),
{
    lemma_covers_prefix(edges, min_zoom, ranges);
    let rest = ranges.drop_last();
    let n = all_tiles(rest).len();
    let last = ranges[ranges.len() - 1];
    if j < n {
        covering_tiles_are_distinct(edges, min_zoom, rest, i, j);
    } else if i < n {
        covering_tiles_are_valid(edges, min_zoom, rest, i);
        assert(last.z == min_zoom + ranges.len() - 1);
        assert(all_tiles(ranges)[j] == last.tiles()[j - n]);
    } else {
        range_lists_no_tile_twice(last, i - n, j - n);
    }
}

/// What covers a box is determined where its edges are: counting its tiles and
/// listing them agree.
pub proof fn covers_are_determined<C>(
    edges: C,
    min_zoom: u8,
    counted: Seq<TileRange>,
    listed: Seq<TileRange>,
) where C: Fn(u8) -> Edges
    requires
        are_covers(edges, min_zoom, counted),
        are_covers(edges, min_zoom, listed),
        counted.len() == listed.len(),
        forall|z: u8, a: Edges, b: Edges|
            call_ensures(edges, (z,), a) && call_ensures(edges, (z,), b) ==> a == b,
    ensures
        counted == listed,
        all_tiles(counted).len() == all_tiles(listed).len(),
{
    assert forall|k: int| 0 <= k < counted.len() implies counted[k] == listed[k] by {
        let z = (min_zoom + k) as u8;
        assert(is_cover(edges, z, counted[k]) && is_cover(edges, z, listed[k]));
    }
    assert(counted =~= listed);
}

/// `stats` is what becomes of a pyramid in a sink of type `S`: the tiles that
/// cover the box were run, and the sink was closed. An error is that of the
/// run, or that of a sink that would not be closed after a run without one.
pub open spec fn is_generated<S: TileSink, C>(
    edges: C,
    min_zoom: u8,
    max_zoom: u8,
    rendering: Rendering,
    meta: MetadataModel,
    before: Seq<(TileCoord, Seq<u8>)>,
    after: Seq<(TileCoord, Seq<u8>)>,
    stats: Result<PyramidStats, Error>,
) -> bool where C: Fn(u8) -> Edges {
    exists|ranges: Seq<TileRange>, run: Result<PyramidStats, Error>|
        {
            &&& are_covers(edges, min_zoom, ranges)
            &&& ranges.len() == max_zoom - min_zoom + 1
            &&& #[trigger] is_run::<S>(all_tiles(ranges), rendering, before, after, run)
            &&& stats == run || (run is Ok && stats is Err && close_refused::<S>(
                meta,
                after,
                stats->Err_0,
            ))
        }
}

/// What holds of one rendering holds of every rendering that allows more.
proof fn lemma_run_weaker<S: TileSink>(
    tiles: Seq<TileCoord>,
    strong: Rendering,
    weak: Rendering,
    before: Seq<(TileCoord, Seq<u8>)>,
    after: Seq<(TileCoord, Seq<u8>)>,
    run: Result<PyramidStats, Error>,
)
    requires
        is_run::<S>(tiles, strong, before, after, run),
        forall|c: TileCoord, r: Result<Option<Vec<u8>>, Error>| #[trigger]
            strong(c, r) && tiles.contains(c) ==> weak(c, r),
    ensures
        is_run::<S>(tiles, weak, before, after, run),
{
    let images = choose|images: Seq<Option<Vec<u8>>>|
        {
            &&& #[trigger] are_rendered(tiles, strong, images)
            &&& after == before + rendered_tiles(tiles, images)
            &&& match run {
                Ok(s) => {
                    &&& images.len() == tiles.len()
                    &&& s.written == rendered_tiles(tiles, images).len()
                    &&& s.written + s.skipped == tiles.len()
                },
                Err(e) => {
                    let next = tiles[images.len() as int];
                    &&& images.len() < tiles.len()
                    &&& strong(next, Err::<Option<Vec<u8>>, Error>(e)) || tile_refused::<S>(
                        next,
                        strong,
                        after,
                        e,
                    )
                },
            }
        };
    assert forall|i: int| 0 <= i < images.len() implies weak(
        tiles[i],
        Ok::<Option<Vec<u8>>, Error>(#[trigger] images[i]),
    ) by {
        assert(strong(tiles[i], Ok::<Option<Vec<u8>>, Error>(images[i])));
        assert(tiles.contains(tiles[i]));
    }
    assert(are_rendered(tiles, weak, images));
    if let Err(e) = run {
        let next = tiles[images.len() as int];
        assert(tiles.contains(next));
        if tile_refused::<S>(next, strong, after, e) {
            let (at, data) = choose|at: S, data: Vec<u8>|
                {
                    &&& strong(next, Ok::<Option<Vec<u8>>, Error>(Some(data)))
                    &&& at.stored() == after
                    &&& #[trigger] at.refuses(next, data@, e)
                };
            assert(weak(next, Ok::<Option<Vec<u8>>, Error>(Some(data))));
            assert(tile_refused::<S>(next, weak, after, e));
        }
    }
}

/// The tile is one of those that cover the box.
pub open spec fn is_listed<C>(edges: C, min_zoom: u8, max_zoom: u8, tile: TileCoord) -> bool where
    C: Fn(u8) -> Edges,
 {
    exists|ranges: Seq<TileRange>|
        {
            &&& #[trigger] are_covers(edges, min_zoom, ranges)
            &&& ranges.len() == max_zoom - min_zoom + 1
            &&& all_tiles(ranges).contains(tile)
        }
}

/// A pyramid of one rendering is a pyramid of another that, of each tile that
/// covers the box, may give what the one may give.
pub proof fn lemma_generated_weaker<S: TileSink, C>(
    edges: C,
    min_zoom: u8,
    max_zoom: u8,
    strong: Rendering,
    weak: Rendering,
    meta: MetadataModel,
    before: Seq<(TileCoord, Seq<u8>)>,
    after: Seq<(TileCoord, Seq<u8>)>,
    stats: Result<PyramidStats, Error>,
) where C: Fn(u8) -> Edges
    requires
        is_generated::<S, C>(edges, min_zoom, max_zoom, strong, meta, before, after, stats),
        forall|c: TileCoord, r: Result<Option<Vec<u8>>, Error>| #[trigger]
            strong(c, r) && is_listed(edges, min_zoom, max_zoom, c) ==> weak(c, r),
    ensures
        is_generated::<S, C>(edges, min_zoom, max_zoom, weak, meta, before, after, stats),
{
    let (ranges, run) = choose|ranges: Seq<TileRange>, run: Result<PyramidStats, Error>|
        {
            &&& are_covers(edges, min_zoom, ranges)
            &&& ranges.len() == max_zoom - min_zoom + 1
            &&& #[trigger] is_run::<S>(all_tiles(ranges), strong, before, after, run)
            &&& stats == run || (run is Ok && stats is Err && close_refused::<S>(
                meta,
                after,
                stats->Err_0,
            ))
        };
    assert forall|c: TileCoord, r: Result<Option<Vec<u8>>, Error>| #[trigger]
        strong(c, r) && all_tiles(ranges).contains(c) implies weak(c, r) by {
        assert(is_listed(edges, min_zoom, max_zoom, c));
    }
    lemma_run_weaker::<S>(all_tiles(ranges), strong, weak, before, after, run);
}

/// A pyramid succeeds where no tile fails to render and the sink refuses
/// nothing.
pub proof fn pyramids_without_refusals_succeed<S: TileSink, C>(
    edges: C,
    min_zoom: u8,
    max_zoom: u8,
    rendering: Rendering,
    meta: MetadataModel,
    before: Seq<(TileCoord, Seq<u8>)>,
    after: Seq<(TileCoord, Seq<u8>)>,
    stats: Result<PyramidStats, Error>,
) where C: Fn(u8) -> Edges
    requires
        is_generated::<S, C>(edges, min_zoom, max_zoom, rendering, meta, before, after, stats),
        forall|c: TileCoord, e: Error| !#[trigger]
            rendering(c, Err::<Option<Vec<u8>>, Error>(e)),
        forall|at: S, c: TileCoord, d: Seq<u8>, e: Error| !#[trigger] at.refuses(c, d, e),
        forall|at: S, e: Error| !#[trigger] at.refuses_close(meta, e),
    ensures
        stats is Ok,
{
}

proof fn lemma_rendered_from(tiles: Seq<TileCoord>, images: Seq<Option<Vec<u8>>>, i: int) -> (k:
    int)
    requires
        images.len() <= tiles.len(),
        0 <= i < rendered_tiles(tiles, images).len(),
    ensures
        i <= k < images.len(),
        rendered_tiles(tiles, images)[i].0 == tiles[k],
        rendered_tiles(tiles, images.take(k)).len() == i,
        images[k] is Some,
        images[k]->Some_0@ == rendered_tiles(tiles, images)[i].1,
    decreases images.len(),
{
    let n = images.len() as int;
    let rest = images.drop_last();
    if i < rendered_tiles(tiles, rest).len() {
        let k = lemma_rendered_from(tiles, rest, i);
        assert(rest.take(k) =~= images.take(k));
        k
    } else {
        lemma_rendered_len(tiles, rest);
        assert(images.take(n - 1) =~= rest);
        n - 1
    }
}

proof fn lemma_rendered_len(tiles: Seq<TileCoord>, images: Seq<Option<Vec<u8>>>)
    ensures
        rendered_tiles(tiles, images).len() <= images.len(),
    decreases images.len(),
{
    if images.len() > 0 {
        lemma_rendered_len(tiles, images.drop_last());
    }
}

proof fn lemma_rendered_distinct(
    tiles: Seq<TileCoord>,
    images: Seq<Option<Vec<u8>>>,
    i: int,
    j: int,
)
    requires
        images.len() <= tiles.len(),
        0 <= i < j < rendered_tiles(tiles, images).len(),
        forall|a: int, b: int|
            0 <= a < b < tiles.len() ==> #[trigger] tiles[a] != #[trigger] tiles[b],
    ensures
        rendered_tiles(tiles, images)[i].0 != rendered_tiles(tiles, images)[j].0,
{
    let a = lemma_rendered_from(tiles, images, i);
    let b = lemma_rendered_from(tiles, images, j);
    assert(a != b);
}

/// A pyramid that succeeds writes and skips together as many tiles as are
/// counted, and stores no tile twice.
pub proof fn pyramids_hold_each_counted_tile_once<S: TileSink, C>(
    edges: C,
    min_zoom: u8,
    max_zoom: u8,
    rendering: Rendering,
    meta: MetadataModel,
    before: Seq<(TileCoord, Seq<u8>)>,
    after: Seq<(TileCoord, Seq<u8>)>,
    stats: PyramidStats,
    counted: Seq<TileRange>,
) where C: Fn(u8) -> Edges
    requires
        is_generated::<S, C>(
            edges,
            min_zoom,
            max_zoom,
            rendering,
            meta,
            before,
            after,
            Ok::<PyramidStats, Error>(stats),
        ),
        are_covers(edges, min_zoom, counted),
        counted.len() == max_zoom - min_zoom + 1,
        forall|z: u8, a: Edges, b: Edges|
            call_ensures(edges, (z,), a) && call_ensures(edges, (z,), b) ==> a == b,
    ensures
        stats.written + stats.skipped == all_tiles(counted).len(),
        after.len() == before.len() + stats.written,
        after.take(before.len() as int) == before,
        forall|i: int|
            before.len() <= i < after.len() ==> all_tiles(counted).contains(
                (#[trigger] after[i]).0,
            ),
        forall|i: int, j: int|
            before.len() <= i < j < after.len() ==> (#[trigger] after[i]).0 != (
            #[trigger] after[j]).0,
{
    let ranges = choose|ranges: Seq<TileRange>|
        {
            &&& are_covers(edges, min_zoom, ranges)
            &&& ranges.len() == max_zoom - min_zoom + 1
            &&& #[trigger] is_run::<S>(
                all_tiles(ranges),
                rendering,
                before,
                after,
                Ok::<PyramidStats, Error>(stats),
            )
        };
    covers_are_determined(edges, min_zoom, counted, ranges);
    let tiles = all_tiles(ranges);
    let images = choose|images: Seq<Option<Vec<u8>>>|
        {
            &&& #[trigger] are_rendered(tiles, rendering, images)
            &&& after == before + rendered_tiles(tiles, images)
            &&& images.len() == tiles.len()
            &&& stats.written == rendered_tiles(tiles, images).len()
            &&& stats.written + stats.skipped == tiles.len()
        };
    let got = rendered_tiles(tiles, images);
    assert(after.take(before.len() as int) =~= before);
    assert forall|a: int, b: int| 0 <= a < b < tiles.len() implies #[trigger] tiles[a]
        != #[trigger] tiles[b] by {
        covering_tiles_are_distinct(edges, min_zoom, ranges, a, b);
    }
    assert forall|i: int| before.len() <= i < after.len() implies all_tiles(counted).contains(
        (#[trigger] after[i]).0,
    ) by {
        assert(after[i] == got[i - before.len()]);
        let k = lemma_rendered_from(tiles, images, i - before.len());
        assert(tiles[k] == after[i].0);
    }
    assert forall|i: int, j: int| before.len() <= i < j < after.len() implies (
    #[trigger] after[i]).0 != (#[trigger] after[j]).0 by {
        assert(after[i] == got[i - before.len()] && after[j] == got[j - before.len()]);
        lemma_rendered_distinct(tiles, images, i - before.len(), j - before.len());
    }
}

/// Generates a pyramid into the sink: lists the tiles, renders them one after
/// the other, and hands the sink the metadata at the end.
pub fn generate<S, C, R, P>(
    min_zoom: u8,
    max_zoom: u8,
    edges: &C,
    meta: &PyramidMetadata,
    sink: &mut S,
    render: &R,
    progress: &P,
) -> (stats: Result<PyramidStats, Error>) where
    S: TileSink,
    C: Fn(u8) -> Edges,
    R: Fn(TileCoord) -> Result<Option<Vec<u8>>, Error>,
    P: Fn(u64),

    requires
        min_zoom <= max_zoom < 32,
        forall|z: u8| min_zoom <= z <= max_zoom ==> call_requires(*edges, (z,)),
        forall|c: TileCoord| c.valid() ==> call_requires(*render, (c,)),
        forall|n: u64| call_requires(*progress, (n,)),
    ensures
        is_generated::<S, C>(
            *edges,
            min_zoom,
            max_zoom,
            rendering_of(*render),
            meta@,
            old(sink).stored(),
            final(sink).stored(),
            stats,
        ),
        final(sink).summaries() == if stats is Ok {
            old(sink).summaries().push(meta@)
        } else {
            old(sink).summaries()
        },
{
    let tiles: Vec<TileCoord> = list_tiles(min_zoom, max_zoom, edges);
    let ghost ranges = choose|ranges: Seq<TileRange>|
        {
            &&& #[trigger] are_covers(*edges, min_zoom, ranges)
            &&& ranges.len() == max_zoom - min_zoom + 1
            &&& tiles@ == all_tiles(ranges)
        };
    proof {
        assert forall|c: TileCoord| tiles@.contains(c) implies call_requires(*render, (c,)) by {
            let i = choose|i: int| 0 <= i < tiles@.len() && tiles@[i] == c;
            covering_tiles_are_valid(*edges, min_zoom, ranges, i);
        }
    }
    let run: Result<PyramidStats, Error> = run_tiles(&tiles, sink, render, progress);
    assert(is_run::<S>(
        all_tiles(ranges),
        rendering_of(*render),
        old(sink).stored(),
        sink.stored(),
        run,
    ));
    let ghost at = *sink;
    match run {
        Err(e) => Err(e),
        Ok(stats) => match sink.finalize(meta) {
            Err(e) => {
                assert(at.refuses_close(meta@, e));
                assert(close_refused::<S>(meta@, sink.stored(), e));
                Err(e)
            },
            Ok(_) => Ok(stats),
        },
    }
}

/// Options of a raster pyramid. `T` is the number type of stretch limits.
pub struct PyramidOptions<T> {
    /// Lowest zoom to generate (default 0).
    pub min_zoom: Option<u8>,
    /// Highest zoom to generate (default: the source's native zoom).
    pub max_zoom: Option<u8>,
    /// Tile edge in pixels (default 256).
    pub tile_size: u32,
    /// Resampling used when reading the source.
    pub resampling: Resampling,
    /// Colour scheme applied to the values of a single band (default
    /// grayscale).
    pub scheme: ColorScheme,
    /// Fixed stretch from low to high, of all colour bands alike; default:
    /// computed from the source.
    pub range: Option<(T, T)>,
    /// Stretch of each colour band of an RGB(A) source, which takes
    /// precedence over `range`.
    pub band_ranges: Option<Vec<(T, T)>>,
    /// Encoded tile image format (default PNG).
    pub format: TileFormat,
    /// Layer name recorded in the metadata.
    pub name: String,
}

impl<T> Default for PyramidOptions<T> {
    fn default() -> (opts: PyramidOptions<T>)
        ensures
            opts.min_zoom is None,
            opts.max_zoom is None,
            opts.tile_size == 256,
            opts.resampling == Resampling::Bilinear,
            scheme_name(opts.scheme) == "Grayscale"@,
            opts.range is None,
            opts.band_ranges is None,
            opts.format == TileFormat::Png,
            opts.name@ == "geotiles"@,
    {
        PyramidOptions {
            min_zoom: None,
            max_zoom: None,
            tile_size: 256,
            resampling: Resampling::Bilinear,
            scheme: grayscale(),
            range: None,
            band_ranges: None,
            format: TileFormat::Png,
            name: "geotiles".to_owned(),
        }
    }
}

/// How sampled band values become pixels.
pub enum Shading<T> {
    /// One band through a colour scheme stretched from low to high.
    Colormap(T, T),
    /// Three or four bands, each stretched linearly from low to high. See
    /// [`stretch_of`].
    Rgb(Vec<(T, T)>),
}

/// The stretch of a band: the alpha band takes that of the first, and one
/// beyond the list the byte range.
pub open spec fn stretch_spec<T>(stretches: Seq<(T, T)>, band: int, byte_range: (T, T)) -> (T, T) {
    let at = if band == 3 {
        0
    } else {
        band
    };
    if 0 <= at < stretches.len() {
        stretches[at]
    } else {
        byte_range
    }
}

/// The stretch of a band: the alpha band takes that of the first, and one
/// beyond the list the byte range.
pub fn stretch_of<T: Copy>(stretches: &Vec<(T, T)>, band: usize, byte_range: (T, T)) -> (stretch: (
    T,
    T,
))
    ensures
        stretch == stretch_spec(stretches@, band as int, byte_range),
{
    let at: usize = if band == 3 {
        0
    } else {
        band
    };
    if at < stretches.len() {
        stretches[at]
    } else {
        byte_range
    }
}

/// What a run does: its zoom range and its shading.
pub struct Resolved<T> {
    pub min_zoom: u8,
    pub max_zoom: u8,
    pub shading: Shading<T>,
}

/// The zoom range of a run, or why there is none: the highest zoom is the
/// native one and the lowest is 0 unless they are given.
pub open spec fn zoom_range_spec(min_zoom: Option<u8>, max_zoom: Option<u8>, native: u8) -> Result<
    (u8, u8),
    Error,
> {
    let max = match max_zoom {
        Some(z) => z,
        None => native,
    };
    let min = match min_zoom {
        Some(z) => z,
        None => 0,
    };
    if min > max {
        Err(Error::InvalidInput(Invalid::ZoomRange(min, max)))
    } else {
        Ok((min, max))
    }
}

/// The zoom range of a run, or why there is none: the highest zoom is the
/// native one and the lowest is 0 unless they are given.
pub fn zoom_range(min_zoom: Option<u8>, max_zoom: Option<u8>, native: u8) -> (range: Result<
    (u8, u8),
    Error,
>)
    ensures
        range == zoom_range_spec(min_zoom, max_zoom, native),
{
    let max: u8 = max_zoom.unwrap_or(native);
    let min: u8 = min_zoom.unwrap_or(0);
    if min > max {
        Err(Error::InvalidInput(Invalid::ZoomRange(min, max)))
    } else {
        Ok((min, max))
    }
}

/// The first `n` stretches are in order.
pub open spec fn in_order<T, I>(inverted: I, ranges: Seq<(T, T)>, n: int) -> bool where
    I: Fn(T, T) -> bool,
 {
    forall|i: int|
        0 <= i < n ==> call_ensures(inverted, ((#[trigger] ranges[i]).0, ranges[i].1), false)
}

/// The stretches that a vector lists.
pub open spec fn listed<T>(ranges: Option<Vec<(T, T)>>) -> Option<Seq<(T, T)>> {
    match ranges {
        Some(v) => Some(v@),
        None => None,
    }
}

/// `resolved` is the shading of a run, or why there is none.
pub open spec fn is_shading<T, I, M>(
    bands: usize,
    range: Option<(T, T)>,
    band_ranges: Option<Seq<(T, T)>>,
    byte_range: (T, T),
    inverted: I,
    minmax: M,
    resolved: Result<Shading<T>, Error>,
) -> bool where I: Fn(T, T) -> bool, M: Fn() -> Result<(T, T), Error> {
    ||| {
        // The fixed stretch is inverted.
        &&& range matches Some((lo, hi))
        &&& call_ensures(inverted, (lo, hi), true)
        &&& resolved == Err::<Shading<T>, Error>(Error::InvalidInput(Invalid::Stretch))
    }
    ||| {
        &&& range matches Some((lo, hi)) ==> call_ensures(inverted, (lo, hi), false)
        &&& if bands >= 3 {
            match band_ranges {
                Some(ranges) => {
                    ||| {
                        // A band's stretch is inverted.
                        &&& resolved == Err::<Shading<T>, Error>(
                            Error::InvalidInput(Invalid::BandStretch),
                        )
                        &&& exists|i: int|
                            0 <= i < ranges.len() && #[trigger] in_order(inverted, ranges, i)
                                && call_ensures(inverted, (ranges[i].0, ranges[i].1), true)
                    }
                    ||| {
                        &&& in_order(inverted, ranges, ranges.len() as int)
                        &&& resolved matches Ok(Shading::Rgb(v))
                        &&& v@ == ranges
                    }
                },
                None => {
                    &&& resolved matches Ok(Shading::Rgb(v))
                    &&& ({
                        let r = match range {
                            Some(r) => r,
                            None => byte_range,
                        };
                        // One stretch for all colour bands.
                        v@ == seq![r, r, r]
                    })
                },
            }
        } else {
            match range {
                Some((lo, hi)) => resolved == Ok::<Shading<T>, Error>(Shading::Colormap(lo, hi)),
                None => exists|found: Result<(T, T), Error>| #[trigger]
                    call_ensures(minmax, (), found) && match found {
                        Ok((lo, hi)) => resolved == Ok::<Shading<T>, Error>(
                            Shading::Colormap(lo, hi),
                        ),
                        Err(e) => resolved == Err::<Shading<T>, Error>(e),
                    },
            }
        }
    }
}

/// Resolves the shading of a run.
///
/// `inverted` tells whether a stretch's low end is not below its high end, and
/// `minmax` finds the data's range, which is asked for only where a colour
/// scheme has no fixed stretch. Colour bands without a stretch take
/// `byte_range`.
pub fn resolve_shading<T: Copy, I, M>(
    bands: usize,
    opts: &PyramidOptions<T>,
    byte_range: (T, T),
    inverted: &I,
    minmax: &M,
) -> (resolved: Result<Shading<T>, Error>) where
    I: Fn(T, T) -> bool,
    M: Fn() -> Result<(T, T), Error>,

    requires
        forall|lo: T, hi: T| call_requires(*inverted, (lo, hi)),
        call_requires(*minmax, ()),
    ensures
        is_shading(
            bands,
            opts.range,
            listed(opts.band_ranges),
            byte_range,
            *inverted,
            *minmax,
            resolved,
        ),
{
    if let Some((lo, hi)) = opts.range {
        if inverted(lo, hi) {
            return Err(Error::InvalidInput(Invalid::Stretch));
        }
    }
    if bands >= 3 {
        match &opts.band_ranges {
            Some(ranges) => {
                let mut out: Vec<(T, T)> = Vec::new();
                for i in 0..ranges.len()
                    invariant
                        forall|lo: T, hi: T| call_requires(*inverted, (lo, hi)),
                        opts.band_ranges == Some(*ranges),
                        bands >= 3,
                        opts.range matches Some((lo, hi)) ==> call_ensures(
                            *inverted,
                            (lo, hi),
                            false,
                        ),
                        in_order(*inverted, ranges@, i as int),
                        out@ == ranges@.take(i as int),
                {
                    let r: (T, T) = ranges[i];
                    if inverted(r.0, r.1) {
                        assert(in_order(*inverted, ranges@, i as int));
                        return Err(Error::InvalidInput(Invalid::BandStretch));
                    }
                    out.push(r);
                    assert(out@ =~= ranges@.take(i + 1));
                }
                assert(out@ =~= ranges@);
                Ok(Shading::Rgb(out))
            },
            None => {
                let r: (T, T) = match opts.range {
                    Some(r) => r,
                    None => byte_range,
                };
                let mut out: Vec<(T, T)> = Vec::new();
                out.push(r);
                out.push(r);
                out.push(r);
                assert(out@ =~= seq![r, r, r]);
                Ok(Shading::Rgb(out))
            },
        }
    } else {
        match opts.range {
            Some((lo, hi)) => Ok(Shading::Colormap(lo, hi)),
            None => match minmax() {
                Ok((lo, hi)) => Ok(Shading::Colormap(lo, hi)),
                Err(e) => Err(e),
            },
        }
    }
}

/// `resolved` is the zoom range and the shading of a run, or why there is none:
/// the zooms are looked at first.
pub open spec fn is_resolution<T, I, M>(
    bands: usize,
    native_zoom: u8,
    opts: PyramidOptions<T>,
    byte_range: (T, T),
    inverted: I,
    minmax: M,
    resolved: Result<Resolved<T>, Error>,
) -> bool where I: Fn(T, T) -> bool, M: Fn() -> Result<(T, T), Error> {
    match zoom_range_spec(opts.min_zoom, opts.max_zoom, native_zoom) {
        Err(e) => resolved == Err::<Resolved<T>, Error>(e),
        Ok((min, max)) => exists|shading: Result<Shading<T>, Error>|
            #[trigger] is_shading(
                bands,
                opts.range,
                listed(opts.band_ranges),
                byte_range,
                inverted,
                minmax,
                shading,
            ) && resolved == match shading {
                Ok(s) => Ok::<Resolved<T>, Error>(
                    Resolved { min_zoom: min, max_zoom: max, shading: s },
                ),
                Err(e) => Err(e),
            },
    }
}

/// Resolves the zoom range and the shading of a run.
pub fn resolve<T: Copy, I, M>(
    bands: usize,
    native_zoom: u8,
    opts: &PyramidOptions<T>,
    byte_range: (T, T),
    inverted: &I,
    minmax: &M,
) -> (resolved: Result<Resolved<T>, Error>) where
    I: Fn(T, T) -> bool,
    M: Fn() -> Result<(T, T), Error>,

    requires
        forall|lo: T, hi: T| call_requires(*inverted, (lo, hi)),
        call_requires(*minmax, ()),
    ensures
        is_resolution(bands, native_zoom, *opts, byte_range, *inverted, *minmax, resolved),
{
    match zoom_range(opts.min_zoom, opts.max_zoom, native_zoom) {
        Err(e) => Err(e),
        Ok((min_zoom, max_zoom)) => match resolve_shading(
            bands,
            opts,
            byte_range,
            inverted,
            minmax,
        ) {
            Err(e) => Err(e),
            Ok(shading) => Ok(Resolved { min_zoom, max_zoom, shading }),
        },
    }
}

/// The metadata of a raster run.
pub open spec fn raster_metadata<T>(
    opts: PyramidOptions<T>,
    min_zoom: u8,
    max_zoom: u8,
    bounds_lonlat: (u64, u64, u64, u64),
) -> MetadataModel {
    MetadataModel {
        name: opts.name@,
        bounds_lonlat,
        min_zoom,
        max_zoom,
        format: opts.format.name(),
        json: None,
    }
}

/// The metadata of a raster run, the same that its sink gets at the end. A
/// sink that needs them before any tile can be prepared with them.
pub fn pyramid_metadata<T>(
    opts: &PyramidOptions<T>,
    resolved: &Resolved<T>,
    bounds_lonlat: (u64, u64, u64, u64),
) -> (meta: PyramidMetadata)
    ensures
        meta@ == raster_metadata(*opts, resolved.min_zoom, resolved.max_zoom, bounds_lonlat),
{
    PyramidMetadata {
        name: opts.name.clone(),
        bounds_lonlat,
        min_zoom: resolved.min_zoom,
        max_zoom: resolved.max_zoom,
        format: opts.format.as_str(),
        json: None,
    }
}

/// The bytes of source windows that may be in memory at once: 512 MiB.
pub const WINDOW_BUDGET: usize = 536870912;

/// How much of the window budget is free. Each tile takes the bytes of its
/// source window while it is rendered, which bounds the peak whatever runs in
/// parallel.
pub struct WindowBudget {
    pub total: usize,
    pub free: usize,
}

impl WindowBudget {
    /// No more is free than there is.
    pub open spec fn wf(&self) -> bool {
        self.free <= self.total
    }

    /// The bytes that are taken.
    pub open spec fn taken(&self) -> int {
        self.total - self.free
    }

    /// A budget of which all is free.
    pub fn new(total: usize) -> (budget: WindowBudget)
        ensures
            budget.wf(),
            budget.total == total,
            budget.taken() == 0,
    {
        WindowBudget { total, free: total }
    }

    /// Takes `need` bytes if they are free, and tells whether they were.
    pub fn take(&mut self, need: usize) -> (taken: bool)
        requires
            old(self).wf(),
        ensures
            final(self).wf(),
            final(self).total == old(self).total,
            taken <==> old(self).taken() + need <= old(self).total,
            final(self).taken() == old(self).taken() + if taken {
                need as int
            } else {
                0
            },
    {
        if self.free < need {
            false
        } else {
            self.free = self.free - need;
            true
        }
    }

    /// Gives `need` bytes back.
    pub fn give_back(&mut self, need: usize)
        requires
            old(self).wf(),
            need <= old(self).taken(),
        ensures
            final(self).wf(),
            final(self).total == old(self).total,
            final(self).taken() == old(self).taken() - need,
    {
        self.free = self.free + need;
    }
}

/// Each tile that is rendered to something is stored under its own address with
/// its own image, once, behind those of all tiles before it; one that is empty is
/// not stored.
pub proof fn tiles_are_stored_with_their_images(
    tiles: Seq<TileCoord>,
    images: Seq<Option<Vec<u8>>>,
    k: int,
)
    requires
        images.len() <= tiles.len(),
        0 <= k < images.len(),
    ensures
        rendered_tiles(tiles, images).len() == images.filter(
            |image: Option<Vec<u8>>| image is Some,
        ).len(),
        ({
            let at = images.take(k).filter(|image: Option<Vec<u8>>| image is Some).len() as int;
            images[k] matches Some(v) ==> {
                &&& at < rendered_tiles(tiles, images).len()
                &&& rendered_tiles(tiles, images)[at].0 == tiles[k]
                &&& rendered_tiles(tiles, images)[at].1 == v@
            }
        }),
    decreases images.len(),
{
    reveal(Seq::filter);
    lemma_rendered_count(tiles, images);
    lemma_rendered_count(tiles, images.take(k));
    if k < images.len() - 1 {
        tiles_are_stored_with_their_images(tiles, images.drop_last(), k);
        assert(images.drop_last().take(k) =~= images.take(k));
    } else {
        assert(images.drop_last() =~= images.take(k));
    }
}

proof fn lemma_rendered_count(tiles: Seq<TileCoord>, images: Seq<Option<Vec<u8>>>)
    ensures
        rendered_tiles(tiles, images).len() == images.filter(
            |image: Option<Vec<u8>>| image is Some,
        ).len(),
    decreases images.len(),
{
    reveal(Seq::filter);
    if images.len() > 0 {
        lemma_rendered_count(tiles, images.drop_last());
    }
}

/// A run that succeeds has rendered each tile, in order: those that came out are
/// written, behind what the sink held, the others are skipped, and the counters
/// say how many of each.
pub proof fn runs_write_what_is_rendered<S: TileSink>(
    tiles: Seq<TileCoord>,
    rendering: Rendering,
    before: Seq<(TileCoord, Seq<u8>)>,
    after: Seq<(TileCoord, Seq<u8>)>,
    stats: PyramidStats,
)
    requires
        is_run::<S>(tiles, rendering, before, after, Ok(stats)),
    ensures
        exists|images: Seq<Option<Vec<u8>>>|
            {
                let came_out = |image: Option<Vec<u8>>| image is Some;
                &&& images.len() == tiles.len()
                &&& forall|k: int|
                    0 <= k < tiles.len() ==> rendering(
                        tiles[k],
                        Ok::<Option<Vec<u8>>, Error>(#[trigger] images[k]),
                    )
                &&& stats.written == images.filter(came_out).len()
                &&& stats.written + stats.skipped == tiles.len()
                &&& after.len() == before.len() + stats.written
                &&& forall|i: int| 0 <= i < before.len() ==> #[trigger] after[i] == before[i]
                &&& after == before + #[trigger] rendered_tiles(tiles, images)
            },
{
    let images = choose|images: Seq<Option<Vec<u8>>>|
        {
            &&& #[trigger] are_rendered(tiles, rendering, images)
            &&& after == before + rendered_tiles(tiles, images)
            &&& images.len() == tiles.len()
            &&& stats.written == rendered_tiles(tiles, images).len()
            &&& stats.written + stats.skipped == tiles.len()
        };
    lemma_rendered_count(tiles, images);
    assert(after == before + rendered_tiles(tiles, images));
}

/// The tiles of two lists of ranges are those of the first and then those of the
/// second; a single range gives its own.
pub proof fn ranges_add_up(a: Seq<TileRange>, b: Seq<TileRange>)
    ensures
        all_tiles(a + b) == all_tiles(a) + all_tiles(b),
        a.len() == 1 ==> all_tiles(a) == a[0].tiles(),
    decreases b.len(),
{
    if b.len() == 0 {
        assert(a + b =~= a);
        assert(all_tiles(a) + all_tiles(b) =~= all_tiles(a));
    } else {
        ranges_add_up(a, b.drop_last());
        assert((a + b).drop_last() =~= a + b.drop_last());
        assert(all_tiles(a + b) =~= all_tiles(a) + all_tiles(b));
    }
    if a.len() == 1 {
        assert(all_tiles(a.drop_last()) =~= Seq::empty());
        assert(all_tiles(a) =~= a[0].tiles());
    }
}

/// The tiles of a pyramid are, at each of its zooms, just the tiles of the world
/// between the edges of the box there: columns from west to east, rows from north
/// to south, ends included. The box has to meet the world.
pub proof fn pyramids_cover_their_box<C>(
    edges: C,
    min_zoom: u8,
    ranges: Seq<TileRange>,
    tile: TileCoord,
    west: i64,
    south: i64,
    east: i64,
    north: i64,
) where C: Fn(u8) -> Edges
    requires
        are_covers(edges, min_zoom, ranges),
        tile.valid(),
        min_zoom <= tile.z < min_zoom + ranges.len(),
        forall|e: Edges|
            call_ensures(edges, (tile.z,), e) ==> e == (west, south, east, north),
        west <= east,
        north <= south,
        0 <= east,
        west < pow2(tile.z as nat),
        0 <= south,
        north < pow2(tile.z as nat),
    ensures
        all_tiles(ranges).contains(tile) <==> west <= tile.x <= east && north <= tile.y <= south,
{
    let k = tile.z - min_zoom;
    let z = tile.z;
    let range = ranges[k];
    assert(range.valid() && is_cover(edges, (min_zoom + k) as u8, range));
    let e = choose|e: Edges| #[trigger]
        call_ensures(edges, (z,), e) && covers_box(
            e.0 as int,
            e.1 as int,
            e.2 as int,
            e.3 as int,
            z,
            range,
        );
    ranges_hold_the_tiles_of_their_box(
        west as int,
        south as int,
        east as int,
        north as int,
        z,
        range,
        tile,
    );
    range_lists_its_tiles(range, tile);
    lemma_listed_in_its_zoom(edges, min_zoom, ranges, tile);
}

proof fn lemma_listed_in_its_zoom<C>(
    edges: C,
    min_zoom: u8,
    ranges: Seq<TileRange>,
    tile: TileCoord,
) where C: Fn(u8) -> Edges
    requires
        are_covers(edges, min_zoom, ranges),
        min_zoom <= tile.z < min_zoom + ranges.len(),
    ensures
        all_tiles(ranges).contains(tile) <==> ranges[tile.z - min_zoom].tiles().contains(tile),
    decreases ranges.len(),
{
    let k = tile.z - min_zoom;
    let rest = ranges.drop_last();
    let last = ranges[ranges.len() - 1];
    lemma_covers_prefix(edges, min_zoom, ranges);
    assert(last.z == min_zoom + ranges.len() - 1) by {
        assert(is_cover(edges, (min_zoom + ranges.len() - 1) as u8, last));
    }
    lemma_in_either(all_tiles(rest), last.tiles(), tile);
    range_lists_its_tiles(last, tile);
    if k < rest.len() {
        lemma_listed_in_its_zoom(edges, min_zoom, rest, tile);
    } else if all_tiles(rest).contains(tile) {
        let i = choose|i: int| 0 <= i < all_tiles(rest).len() && all_tiles(rest)[i] == tile;
        covering_tiles_are_valid(edges, min_zoom, rest, i);
    }
}

proof fn lemma_in_either(a: Seq<TileCoord>, b: Seq<TileCoord>, tile: TileCoord)
    ensures
        (a + b).contains(tile) <==> a.contains(tile) || b.contains(tile),
{
    let both = a + b;
    if both.contains(tile) {
        let i = choose|i: int| 0 <= i < both.len() && both[i] == tile;
        if i < a.len() {
            assert(a[i] == tile);
        } else {
            assert(b[i - a.len()] == tile);
        }
    }
    if a.contains(tile) {
        let i = choose|i: int| 0 <= i < a.len() && a[i] == tile;
        assert(both[i] == tile);
    }
    if b.contains(tile) {
        let i = choose|i: int| 0 <= i < b.len() && b[i] == tile;
        assert(both[a.len() + i] == tile);
    }
}

/// The tiles of a pyramid come zoom by zoom, from the lowest.
pub proof fn pyramids_go_zoom_by_zoom<C>(
    edges: C,
    min_zoom: u8,
    ranges: Seq<TileRange>,
    i: int,
    j: int,
) where C: Fn(u8) -> Edges
    requires
        are_covers(edges, min_zoom, ranges),
        0 <= i < j < all_tiles(ranges).len(),
    ensures
        all_tiles(ranges)[i].z <= all_tiles(ranges)[j].z,
    decreases ranges.len(),
{
    lemma_covers_prefix(edges, min_zoom, ranges);
    let rest = ranges.drop_last();
    let n = all_tiles(rest).len();
    let last = ranges[ranges.len() - 1];
    if j < n {
        pyramids_go_zoom_by_zoom(edges, min_zoom, rest, i, j);
    } else {
        assert(last.valid() && is_cover(edges, (min_zoom + ranges.len() - 1) as u8, last));
        assert(all_tiles(ranges)[j] == last.tiles()[j - n]);
        covering_tiles_are_valid(edges, min_zoom, ranges, i);
    }
}

/// A zoom that is given is the one that is used; the lowest is 0 and the highest
/// the native one where they are not. A lowest zoom above the highest is refused,
/// both named.
pub proof fn zooms_are_used_as_given(min_zoom: Option<u8>, max_zoom: Option<u8>, native: u8)
    ensures
        match zoom_range_spec(min_zoom, max_zoom, native) {
            Ok((min, max)) => {
                &&& min <= max
                &&& min_zoom is Some ==> min_zoom == Some(min)
                &&& min_zoom is None ==> min == 0
                &&& max_zoom is Some ==> max_zoom == Some(max)
                &&& max_zoom is None ==> max == native
            },
            Err(e) => exists|min: u8, max: u8|
                {
                    &&& min > max
                    &&& min_zoom == Some(min)
                    &&& max_zoom == Some(max) || (max_zoom is None && max == native)
                    &&& e == Error::InvalidInput(#[trigger] zooms_crossed(min, max))
                },
        },
{
    if let Err(e) = zoom_range_spec(min_zoom, max_zoom, native) {
        let min = min_zoom->Some_0;
        let max = match max_zoom {
            Some(z) => z,
            None => native,
        };
        assert(e == Error::InvalidInput(zooms_crossed(min, max)));
    }
}

/// What is wrong with a lowest zoom above the highest.
pub open spec fn zooms_crossed(min: u8, max: u8) -> Invalid {
    Invalid::ZoomRange(min, max)
}

/// A source of three bands or more is shaded by its bands, each stretched by the
/// pair that is given for it, all three alike by the one that is given for all, or
/// else over the byte range. One of fewer bands goes through the colour scheme,
/// stretched by the pair that is given, or else over the range of the data.
pub proof fn shadings_are_as_asked_for<T, I, M>(
    bands: usize,
    range: Option<(T, T)>,
    band_ranges: Option<Seq<(T, T)>>,
    byte_range: (T, T),
    inverted: I,
    minmax: M,
    shading: Shading<T>,
) where I: Fn(T, T) -> bool, M: Fn() -> Result<(T, T), Error>
    requires
        is_shading(bands, range, band_ranges, byte_range, inverted, minmax, Ok(shading)),
    ensures
        bands >= 3 <==> shading is Rgb,
        range matches Some((lo, hi)) ==> call_ensures(inverted, (lo, hi), false),
        shading matches Shading::Rgb(v) ==> {
            &&& band_ranges matches Some(ranges) ==> v@ == ranges && forall|i: int|
                0 <= i < ranges.len() ==> call_ensures(
                    inverted,
                    ((#[trigger] ranges[i]).0, ranges[i].1),
                    false,
                )
            &&& band_ranges is None ==> v@.len() == 3 && forall|i: int|
                0 <= i < 3 ==> (range is Some ==> #[trigger] v@[i] == range->Some_0) && (range
                    is None ==> v@[i] == byte_range)
        },
        shading matches Shading::Colormap(lo, hi) ==> {
            &&& range is Some ==> range == Some((lo, hi))
            &&& range is None ==> call_ensures(minmax, (), Ok::<(T, T), Error>((lo, hi)))
        },
{
}

/// A shading is refused only for a stretch that is inverted, or as the range of
/// the data could not be found where it is needed.
pub proof fn shadings_are_refused_for_a_reason<T, I, M>(
    bands: usize,
    range: Option<(T, T)>,
    band_ranges: Option<Seq<(T, T)>>,
    byte_range: (T, T),
    inverted: I,
    minmax: M,
    e: Error,
) where I: Fn(T, T) -> bool, M: Fn() -> Result<(T, T), Error>
    requires
        is_shading(bands, range, band_ranges, byte_range, inverted, minmax, Err(e)),
    ensures
        ({
            ||| {
                &&& range is Some
                &&& call_ensures(inverted, (range->Some_0.0, range->Some_0.1), true)
                &&& e == Error::InvalidInput(Invalid::Stretch)
            }
            ||| {
                &&& bands >= 3
                &&& band_ranges is Some
                &&& exists|i: int|
                    0 <= i < band_ranges->Some_0.len() && call_ensures(
                        inverted,
                        ((#[trigger] band_ranges->Some_0[i]).0, band_ranges->Some_0[i].1),
                        true,
                    )
                &&& e == Error::InvalidInput(Invalid::BandStretch)
            }
            ||| bands < 3 && range is None && call_ensures(minmax, (), Err::<(T, T), Error>(e))
        }),
{
    if bands >= 3 && band_ranges is Some && e == Error::InvalidInput(Invalid::BandStretch) {
        let ranges = band_ranges->Some_0;
        if exists|i: int|
            0 <= i < ranges.len() && #[trigger] in_order(inverted, ranges, i) && call_ensures(
                inverted,
                (ranges[i].0, ranges[i].1),
                true,
            ) {
            let i = choose|i: int|
                0 <= i < ranges.len() && #[trigger] in_order(inverted, ranges, i) && call_ensures(
                    inverted,
                    (ranges[i].0, ranges[i].1),
                    true,
                );
            assert(call_ensures(inverted, (ranges[i].0, ranges[i].1), true));
        }
    }
}

/// The metadata of a raster pyramid tell its name, its bounds, its zooms and the
/// name of its image format, and describe no layers.
pub proof fn metadata_tell_the_pyramid<T>(
    opts: PyramidOptions<T>,
    min_zoom: u8,
    max_zoom: u8,
    bounds_lonlat: (u64, u64, u64, u64),
)
    ensures
        ({
            let meta = raster_metadata(opts, min_zoom, max_zoom, bounds_lonlat);
            &&& meta.name == opts.name@
            &&& meta.bounds_lonlat == bounds_lonlat
            &&& meta.min_zoom == min_zoom
            &&& meta.max_zoom == max_zoom
            &&& meta.json is None
            &&& opts.format == TileFormat::Png ==> meta.format == "png"@
            &&& opts.format == TileFormat::WebP ==> meta.format == "webp"@
            &&& opts.format == TileFormat::Jpeg ==> meta.format == "jpeg"@
        }),
{
}

/// What is taken of a budget and what is free are all of it.
pub proof fn budgets_are_free_or_taken(budget: WindowBudget)
    requires
        budget.wf(),
    ensures
        budget.taken() + budget.free == budget.total,
        0 <= budget.taken() <= budget.total,
{
}

/// What is resolved of the options of a run is its zoom range and its shading, each
/// as if it were resolved alone.
pub proof fn runs_are_resolved_part_by_part<T, I, M>(
    bands: usize,
    native_zoom: u8,
    opts: PyramidOptions<T>,
    byte_range: (T, T),
    inverted: I,
    minmax: M,
    resolved: Resolved<T>,
) where I: Fn(T, T) -> bool, M: Fn() -> Result<(T, T), Error>
    requires
        is_resolution(bands, native_zoom, opts, byte_range, inverted, minmax, Ok(resolved)),
    ensures
        resolved.min_zoom <= resolved.max_zoom,
        opts.min_zoom is Some ==> opts.min_zoom == Some(resolved.min_zoom),
        opts.min_zoom is None ==> resolved.min_zoom == 0,
        opts.max_zoom is Some ==> opts.max_zoom == Some(resolved.max_zoom),
        opts.max_zoom is None ==> resolved.max_zoom == native_zoom,
        bands >= 3 <==> resolved.shading is Rgb,
        is_shading(
            bands,
            opts.range,
            listed(opts.band_ranges),
            byte_range,
            inverted,
            minmax,
            Ok(resolved.shading),
        ),
{
    zooms_are_used_as_given(opts.min_zoom, opts.max_zoom, native_zoom);
    shadings_are_as_asked_for(
        bands,
        opts.range,
        listed(opts.band_ranges),
        byte_range,
        inverted,
        minmax,
        resolved.shading,
    );
}

/// A pyramid fails only as a tile that covers the box could not be rendered, or as
/// the sink refused such a tile, or would not be closed. What the sink held before
/// it still holds, with the tiles that were rendered before.
pub proof fn pyramids_fail_for_a_reason<S: TileSink, C>(
    edges: C,
    min_zoom: u8,
    max_zoom: u8,
    rendering: Rendering,
    meta: MetadataModel,
    before: Seq<(TileCoord, Seq<u8>)>,
    after: Seq<(TileCoord, Seq<u8>)>,
    e: Error,
) where C: Fn(u8) -> Edges
    requires
        is_generated::<S, C>(edges, min_zoom, max_zoom, rendering, meta, before, after, Err(e)),
    ensures
        before.len() <= after.len(),
        after.take(before.len() as int) == before,
        ({
            ||| exists|at: S| at.stored() == after && #[trigger] at.refuses_close(meta, e)
            ||| exists|tile: TileCoord|
                #[trigger] is_listed(edges, min_zoom, max_zoom, tile) && rendering(tile, Err(e))
            ||| exists|at: S, tile: TileCoord, data: Vec<u8>|
                {
                    &&& is_listed(edges, min_zoom, max_zoom, tile)
                    &&& rendering(tile, Ok(Some(data)))
                    &&& at.stored() == after
                    &&& #[trigger] at.refuses(tile, data@, e)
                }
        }),
{
    let (ranges, run) = choose|ranges: Seq<TileRange>, run: Result<PyramidStats, Error>|
        {
            &&& are_covers(edges, min_zoom, ranges)
            &&& ranges.len() == max_zoom - min_zoom + 1
            &&& #[trigger] is_run::<S>(all_tiles(ranges), rendering, before, after, run)
            &&& Err::<PyramidStats, Error>(e) == run || (run is Ok && close_refused::<S>(
                meta,
                after,
                e,
            ))
        };
    let tiles = all_tiles(ranges);
    let images = choose|images: Seq<Option<Vec<u8>>>|
        {
            &&& #[trigger] are_rendered(tiles, rendering, images)
            &&& after == before + rendered_tiles(tiles, images)
            &&& match run {
                Ok(s) => {
                    &&& images.len() == tiles.len()
                    &&& s.written == rendered_tiles(tiles, images).len()
                    &&& s.written + s.skipped == tiles.len()
                },
                Err(g) => {
                    let next = tiles[images.len() as int];
                    &&& images.len() < tiles.len()
                    &&& rendering(next, Err::<Option<Vec<u8>>, Error>(g)) || tile_refused::<S>(
                        next,
                        rendering,
                        after,
                        g,
                    )
                },
            }
        };
    assert(after.take(before.len() as int) =~= before);
    if run is Err {
        let next = tiles[images.len() as int];
        assert(tiles.contains(next));
        assert(is_listed(edges, min_zoom, max_zoom, next));
        if !rendering(next, Err::<Option<Vec<u8>>, Error>(e)) {
            let (at, data) = choose|at: S, data: Vec<u8>|
                {
                    &&& rendering(next, Ok::<Option<Vec<u8>>, Error>(Some(data)))
                    &&& at.stored() == after
                    &&& #[trigger] at.refuses(next, data@, e)
                };
            assert(at.refuses(next, data@, e));
        }
    } else {
        let at = choose|at: S| at.stored() == after && #[trigger] at.refuses_close(meta, e);
        assert(at.refuses_close(meta, e));
    }
}

/// A sink in memory holds its tiles, each under its address with its bytes, in the
/// order in which they came, and refuses nothing.
pub proof fn memory_holds_its_tiles(sink: MemorySink, i: int, meta: MetadataModel, e: Error)
    requires
        0 <= i < sink.tiles@.len(),
    ensures
        sink.stored().len() == sink.tiles@.len(),
        sink.stored()[i].0 == sink.tiles@[i].0,
        sink.stored()[i].1 == sink.tiles@[i].1@,
        sink.summaries().len() == sink.closed@.len(),
        !sink.refuses(sink.tiles@[i].0, sink.tiles@[i].1@, e),
        !sink.refuses_close(meta, e),
{
}

/// Metadata are seen as they are.
pub proof fn metadata_are_seen_as_they_are(meta: PyramidMetadata)
    ensures
        meta@.name == meta.name@,
        meta@.bounds_lonlat == meta.bounds_lonlat,
        meta@.min_zoom == meta.min_zoom,
        meta@.max_zoom == meta.max_zoom,
        meta@.format == meta.format@,
        meta.json is None <==> meta@.json is None,
        meta.json matches Some(j) ==> meta@.json == Some(j@),
{
}

/// What a tile may be rendered to is what the renderer may give for that tile.
pub proof fn tiles_are_rendered_at_their_address<R>(
    render: R,
    tile: TileCoord,
    image: Result<Option<Vec<u8>>, Error>,
) where R: Fn(TileCoord) -> Result<Option<Vec<u8>>, Error>
    ensures
        rendering_of(render)(tile, image) <==> call_ensures(render, (tile,), image),
{
}

} // verus!
