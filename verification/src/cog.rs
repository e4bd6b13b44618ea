//! Cloud Optimized GeoTIFF (COG) writer.
//!
//! Single band, Float32 samples, deflate or no compression, EPSG:4326 or
//! EPSG:3857 georeferencing, 2x overviews by averaging valid cells.

use vstd::prelude::*;

use crate::bytes::{lemma_le32_at, u32_at};
use crate::cog_layout::{
    assemble_cog, cog_bytes, cog_entries, cog_size, directory_at, file_size_is_planned,
    holds_long, is_entry, lemma_tile_total, level_models, levels_are_described, levels_wf,
    tile_total, tiles_are_found, tiles_are_readable, values_at, CogCompression, CogTags, GeoRef,
    Level, LevelModel, TagsModel,
};
use crate::compress::{zlib, zlib_compressed};
use crate::error::{EncodeStep, Error, Invalid};
use crate::grid::{
    ceil_div, div_ceil, lemma_ceil_div, lemma_position, lemma_row_col, Grid,
};
use crate::source::{crs_of_epsg, SourceCrs};
use crate::tiff::{lemma_long_bytes_at, longs_are_read_back, lemma_slice_of_slice, long_bytes};
use crate::window::{chunk_cell, chunk_index, file_cell, Chunk, ChunkLayout};

verus! {

/// Options for [`write_cog`].
#[derive(Debug, Clone, Copy, PartialEq, Eq, Structural)]
pub struct CogOptions {
    /// Internal tile edge in pixels; a multiple of 16 (default 512).
    pub tile_size: u32,
    /// Tile compression (default deflate).
    pub compression: CogCompression,
    /// CRS to record. `None`: taken from the raster (4326 or 3857 only).
    pub crs: Option<SourceCrs>,
}

impl Default for CogOptions {
    fn default() -> (opts: CogOptions)
        ensures
            opts == (CogOptions {
                tile_size: 512,
                compression: CogCompression::Deflate,
                crs: None,
            }),
    {
        CogOptions { tile_size: 512, compression: CogCompression::Deflate, crs: None }
    }
}

/// Summary returned by [`write_cog`].
#[derive(Debug, Clone, Copy, PartialEq, Eq, Structural)]
pub struct CogInfo {
    /// Number of resolution levels (the full one and its overviews).
    pub levels: usize,
    /// Total tiles across all levels.
    pub tiles: u64,
    /// Bytes of the file.
    pub file_size: u64,
}

/// The CRS to record: the one asked for, else the one of the raster's EPSG
/// code.
pub open spec fn output_crs_spec(asked: Option<SourceCrs>, epsg: Option<u32>) -> Result<
    SourceCrs,
    Error,
> {
    match asked {
        Some(crs) => Ok(crs),
        None => match epsg {
            Some(code) => if code == 4326 {
                Ok(SourceCrs::LonLat)
            } else if code == 3857 || code == 900913 {
                Ok(SourceCrs::Mercator)
            } else {
                Err(Error::InvalidInput(Invalid::OutputCrs(code)))
            },
            None => Err(Error::InvalidInput(Invalid::OutputCrsMissing)),
        },
    }
}

/// The CRS to record: the one asked for, else the one of the raster's EPSG
/// code.
pub fn output_crs(asked: Option<SourceCrs>, epsg: Option<u32>) -> (crs: Result<SourceCrs, Error>)
    ensures
        crs == output_crs_spec(asked, epsg),
{
    match asked {
        Some(crs) => Ok(crs),
        None => match epsg {
            Some(4326) => Ok(SourceCrs::LonLat),
            Some(3857) | Some(900913) => Ok(SourceCrs::Mercator),
            Some(other) => Err(Error::InvalidInput(Invalid::OutputCrs(other))),
            None => Err(Error::InvalidInput(Invalid::OutputCrsMissing)),
        },
    }
}

/// `cell` is what becomes of a 2x2 block: nothing where no cell of the block
/// is valid, else a mean of the valid ones.
pub open spec fn block_mean<T, M>(
    mean: M,
    a: Option<T>,
    b: Option<T>,
    c: Option<T>,
    d: Option<T>,
    cell: Option<T>,
) -> bool where M: Fn(Option<T>, Option<T>, Option<T>, Option<T>) -> Option<T> {
    if a is None && b is None && c is None && d is None {
        cell is None
    } else {
        call_ensures(mean, (a, b, c, d), cell)
    }
}

/// `half` is `full` at half the resolution, each cell made of a 2x2 block.
pub open spec fn halved<T: Copy, M>(full: Grid<T>, half: Grid<T>, mean: M) -> bool where
    M: Fn(Option<T>, Option<T>, Option<T>, Option<T>) -> Option<T>,
 {
    &&& half.wf()
    &&& half.rows == ceil_div(full.rows as int, 2)
    &&& half.cols == ceil_div(full.cols as int, 2)
    &&& forall|r: int, c: int|
        0 <= r < half.rows && 0 <= c < half.cols ==> block_mean(
            mean,
            full.cell(2 * r, 2 * c),
            full.cell(2 * r, 2 * c + 1),
            full.cell(2 * r + 1, 2 * c),
            full.cell(2 * r + 1, 2 * c + 1),
            #[trigger] half.cell(r, c),
        )
}

/// Halves a raster by averaging each 2x2 block's valid cells.
///
/// `mean` averages the valid cells of a block, given row by row, and is only
/// asked for blocks that have one. A block without a valid cell stays empty.
pub fn downsample_half<T: Copy, M>(raster: &Grid<T>, mean: &M) -> (half: Grid<T>) where
    M: Fn(Option<T>, Option<T>, Option<T>, Option<T>) -> Option<T>,

    requires
        raster.wf(),
        forall|a: Option<T>, b: Option<T>, c: Option<T>, d: Option<T>|
            call_requires(*mean, (a, b, c, d)),
    ensures
        halved(*raster, half, *mean),
{
    let rows: usize = div_ceil(raster.rows, 2);
    let cols: usize = div_ceil(raster.cols, 2);
    let have: usize = raster.cells.len();
    proof {
        lemma_ceil_div(raster.rows as int, 2);
        lemma_ceil_div(raster.cols as int, 2);
        assert(rows * cols <= raster.rows * raster.cols) by (nonlinear_arith)
            requires
                0 <= rows <= raster.rows,
                0 <= cols <= raster.cols,
        ;
        assert(have == raster.rows * raster.cols);
    }
    let n: usize = rows * cols;
    let mut cells: Vec<Option<T>> = Vec::new();
    for k in 0..n
        invariant
            n == rows * cols,
            raster.wf(),
            rows == ceil_div(raster.rows as int, 2),
            cols == ceil_div(raster.cols as int, 2),
            forall|a: Option<T>, b: Option<T>, c: Option<T>, d: Option<T>|
                call_requires(*mean, (a, b, c, d)),
            cells@.len() == k,
            forall|i: int|
                0 <= i < k ==> ({
                    let r = i / cols as int;
                    let c = i % cols as int;
                    block_mean(
                        *mean,
                        raster.cell(2 * r, 2 * c),
                        raster.cell(2 * r, 2 * c + 1),
                        raster.cell(2 * r + 1, 2 * c),
                        raster.cell(2 * r + 1, 2 * c + 1),
                        #[trigger] cells@[i],
                    )
                }),
    {
        proof {
            lemma_row_col(k as int, rows as int, cols as int);
            lemma_ceil_div(raster.rows as int, 2);
            lemma_ceil_div(raster.cols as int, 2);
        }
        let r: usize = 2 * (k / cols);
        let c: usize = 2 * (k % cols);
        let nw: Option<T> = raster.get(r, c);
        let ne: Option<T> = if c + 1 < raster.cols {
            raster.get(r, c + 1)
        } else {
            None
        };
        let sw: Option<T> = if r + 1 < raster.rows {
            raster.get(r + 1, c)
        } else {
            None
        };
        let se: Option<T> = if r + 1 < raster.rows && c + 1 < raster.cols {
            raster.get(r + 1, c + 1)
        } else {
            None
        };
        if nw.is_none() && ne.is_none() && sw.is_none() && se.is_none() {
            cells.push(None);
        } else {
            cells.push(mean(nw, ne, sw, se));
        }
    }
    let half = Grid { rows, cols, cells };
    proof {
        assert forall|r: int, c: int| 0 <= r < half.rows && 0 <= c < half.cols implies block_mean(
            *mean,
            raster.cell(2 * r, 2 * c),
            raster.cell(2 * r, 2 * c + 1),
            raster.cell(2 * r + 1, 2 * c),
            raster.cell(2 * r + 1, 2 * c + 1),
            #[trigger] half.cell(r, c),
        ) by {
            lemma_position(r, c, rows as int, cols as int);
        }
    }
    half
}

/// A level is reduced further while an edge is longer than a tile.
pub open spec fn needs_overview<T>(grid: Grid<T>, tile_size: u32) -> bool {
    grid.rows > tile_size || grid.cols > tile_size
}

/// Level `k` of a raster and its overviews, the raster itself being level 0.
pub open spec fn level_grid<T>(raster: Grid<T>, overviews: Seq<Grid<T>>, k: int) -> Grid<T> {
    if k <= 0 {
        raster
    } else {
        overviews[k - 1]
    }
}

/// Overview `k` halves the level before it, which is larger than one tile.
pub open spec fn is_overview<T: Copy, M>(
    raster: Grid<T>,
    overviews: Seq<Grid<T>>,
    tile_size: u32,
    mean: M,
    k: int,
) -> bool where M: Fn(Option<T>, Option<T>, Option<T>, Option<T>) -> Option<T> {
    &&& needs_overview(level_grid(raster, overviews, k), tile_size)
    &&& halved(level_grid(raster, overviews, k), overviews[k], mean)
}

/// `overviews` halve the raster again and again, just until it fits one tile.
pub open spec fn is_pyramid<T: Copy, M>(
    raster: Grid<T>,
    overviews: Seq<Grid<T>>,
    tile_size: u32,
    mean: M,
) -> bool where M: Fn(Option<T>, Option<T>, Option<T>, Option<T>) -> Option<T> {
    &&& forall|k: int|
        0 <= k < overviews.len() ==> #[trigger] is_overview(raster, overviews, tile_size, mean, k)
    &&& !needs_overview(level_grid(raster, overviews, overviews.len() as int), tile_size)
}

/// The overviews of a raster, from fine to coarse.
pub fn build_overviews<T: Copy, M>(raster: &Grid<T>, tile_size: u32, mean: &M) -> (overviews: Vec<
    Grid<T>,
>) where M: Fn(Option<T>, Option<T>, Option<T>, Option<T>) -> Option<T>
    requires
        raster.wf(),
        raster.rows > 0,
        raster.cols > 0,
        tile_size > 0,
        forall|a: Option<T>, b: Option<T>, c: Option<T>, d: Option<T>|
            call_requires(*mean, (a, b, c, d)),
    ensures
        is_pyramid(*raster, overviews@, tile_size, *mean),
        forall|k: int|
            0 <= k < overviews@.len() ==> {
                &&& (#[trigger] overviews@[k]).wf()
                &&& 0 < overviews@[k].rows <= raster.rows
                &&& 0 < overviews@[k].cols <= raster.cols
            },
{
    let mut overviews: Vec<Grid<T>> = Vec::new();
    let mut rows: usize = raster.rows;
    let mut cols: usize = raster.cols;
    while rows as u64 > tile_size as u64 || cols as u64 > tile_size as u64
        invariant
            raster.wf(),
            tile_size > 0,
            0 < rows <= raster.rows,
            0 < cols <= raster.cols,
            forall|a: Option<T>, b: Option<T>, c: Option<T>, d: Option<T>|
                call_requires(*mean, (a, b, c, d)),
            rows == level_grid(*raster, overviews@, overviews@.len() as int).rows,
            cols == level_grid(*raster, overviews@, overviews@.len() as int).cols,
            forall|k: int|
                0 <= k < overviews@.len() ==> {
                    &&& (#[trigger] overviews@[k]).wf()
                    &&& 0 < overviews@[k].rows <= raster.rows
                    &&& 0 < overviews@[k].cols <= raster.cols
                },
            forall|k: int|
                0 <= k < overviews@.len() ==> #[trigger] is_overview(
                    *raster,
                    overviews@,
                    tile_size,
                    *mean,
                    k,
                ),
        decreases rows + cols,
    {
        let ghost before = overviews@;
        let n: usize = overviews.len();
        let half: Grid<T> = if n == 0 {
            downsample_half(raster, mean)
        } else {
            downsample_half(&overviews[n - 1], mean)
        };
        proof {
            lemma_ceil_div(rows as int, 2);
            lemma_ceil_div(cols as int, 2);
        }
        rows = half.rows;
        cols = half.cols;
        overviews.push(half);
        proof {
            assert forall|k: int| 0 <= k < overviews@.len() implies #[trigger] is_overview(
                *raster,
                overviews@,
                tile_size,
                *mean,
                k,
            ) by {
                assert(level_grid(*raster, overviews@, k) == level_grid(*raster, before, k));
                if k < n {
                    assert(is_overview(*raster, before, tile_size, *mean, k));
                }
            }
        }
    }
    overviews
}

/// A level as Float32 samples, each given by its bit pattern, row by row.
pub struct Image {
    pub rows: usize,
    pub cols: usize,
    pub values: Vec<u32>,
}

/// A level as Float32 samples, each given by its bit pattern, row by row.
pub struct ImageModel {
    pub rows: int,
    pub cols: int,
    pub values: Seq<u32>,
}

impl View for Image {
    type V = ImageModel;

    open spec fn view(&self) -> ImageModel {
        ImageModel { rows: self.rows as int, cols: self.cols as int, values: self.values@ }
    }
}

/// The samples fill a rectangle that has a cell, with edges that a directory
/// can tell.
pub open spec fn image_wf(image: ImageModel) -> bool {
    &&& 0 < image.rows <= u32::MAX
    &&& 0 < image.cols <= u32::MAX
    &&& image.values.len() == image.rows * image.cols
}

/// The sample at a row and column, `fill` outside the image.
pub open spec fn sample_at(image: ImageModel, row: int, col: int, fill: u32) -> u32 {
    if 0 <= row < image.rows && 0 <= col < image.cols {
        image.values[row * image.cols + col]
    } else {
        fill
    }
}

/// `image` holds a sample of each valid cell and `fill` in place of the
/// others.
pub open spec fn image_of<T: Copy, E>(
    grid: Grid<T>,
    image: ImageModel,
    fill: u32,
    sample: E,
) -> bool where E: Fn(T) -> u32 {
    &&& image.rows == grid.rows
    &&& image.cols == grid.cols
    &&& image.values.len() == grid.cells@.len()
    &&& forall|k: int|
        0 <= k < grid.cells@.len() ==> match grid.cells@[k] {
            Some(v) => call_ensures(sample, (v,), #[trigger] image.values[k]),
            None => image.values[k] == fill,
        }
}

/// Turns the cells of a level into samples.
pub fn make_image<T: Copy, E>(grid: &Grid<T>, fill: u32, sample: &E) -> (image: Image) where
    E: Fn(T) -> u32,

    requires
        grid.wf(),
        forall|v: T| call_requires(*sample, (v,)),
    ensures
        image_of(*grid, image@, fill, *sample),
{
    let mut values: Vec<u32> = Vec::new();
    for k in 0..grid.cells.len()
        invariant
            forall|v: T| call_requires(*sample, (v,)),
            values@.len() == k,
            forall|i: int|
                0 <= i < k ==> match grid.cells@[i] {
                    Some(v) => call_ensures(*sample, (v,), #[trigger] values@[i]),
                    None => values@[i] == fill,
                },
    {
        let value: u32 = match grid.cells[k] {
            Some(v) => sample(v),
            None => fill,
        };
        values.push(value);
    }
    Image { rows: grid.rows, cols: grid.cols, values }
}

/// The samples of the tile in row `ty` and column `tx`, padded with `fill`.
pub open spec fn tile_samples(image: ImageModel, fill: u32, ts: int, ty: int, tx: int) -> Seq<
    u32,
> {
    Seq::new(
        (ts * ts) as nat,
        |k: int| sample_at(image, ty * ts + k / ts, tx * ts + k % ts, fill),
    )
}

/// What is stored of a tile's bytes; `None` where compression fails.
pub open spec fn stored(raw: Seq<u8>, compression: CogCompression) -> Option<Seq<u8>> {
    match compression {
        CogCompression::Deflate => zlib_compressed(raw),
        CogCompression::Uncompressed => Some(raw),
    }
}

/// The number of tiles in a row.
pub open spec fn tiles_across(image: ImageModel, ts: int) -> int {
    ceil_div(image.cols, ts)
}

/// The number of tiles in all rows.
pub open spec fn tile_count(image: ImageModel, ts: int) -> int {
    ceil_div(image.rows, ts) * tiles_across(image, ts)
}

/// What is stored of tile `i`, counted row by row.
pub open spec fn stored_tile(
    image: ImageModel,
    fill: u32,
    ts: int,
    compression: CogCompression,
    i: int,
) -> Option<Seq<u8>> {
    let across = tiles_across(image, ts);
    stored(long_bytes(tile_samples(image, fill, ts, i / across, i % across)), compression)
}

/// A tile edge that the index arithmetic can carry for this image.
pub open spec fn edge_fits(image: ImageModel, ts: int) -> bool {
    &&& ts > 0
    &&& 4 * (ts * ts) <= usize::MAX
    &&& image.rows + ts <= usize::MAX
    &&& image.cols + ts <= usize::MAX
}

/// The padded bytes of one tile.
fn tile_bytes(image: &Image, fill: u32, ts: usize, ty: usize, tx: usize) -> (raw: Vec<u8>)
    requires
        image_wf(image@),
        edge_fits(image@, ts as int),
        ty < ceil_div(image@.rows, ts as int),
        tx < tiles_across(image@, ts as int),
    ensures
        raw@ == long_bytes(tile_samples(image@, fill, ts as int, ty as int, tx as int)),
{
    let ghost samples = tile_samples(image@, fill, ts as int, ty as int, tx as int);
    let have: usize = image.values.len();
    proof {
        lemma_ceil_div(image@.rows, ts as int);
        lemma_ceil_div(image@.cols, ts as int);
        assert(ty * ts <= (ceil_div(image@.rows, ts as int) - 1) * ts) by (nonlinear_arith)
            requires
                ty <= ceil_div(image@.rows, ts as int) - 1,
                ts > 0,
        ;
        assert(tx * ts <= (ceil_div(image@.cols, ts as int) - 1) * ts) by (nonlinear_arith)
            requires
                tx <= ceil_div(image@.cols, ts as int) - 1,
                ts > 0,
        ;
        assert(0 <= ty * ts) by (nonlinear_arith);
        assert(0 <= tx * ts) by (nonlinear_arith);
    }
    let top: usize = ty * ts;
    let left: usize = tx * ts;
    let n: usize = ts * ts;
    let mut raw: Vec<u8> = Vec::new();
    for k in 0..n
        invariant
            n == ts * ts,
            ts > 0,
            image_wf(image@),
            have == image@.values.len(),
            top == ty * ts,
            left == tx * ts,
            top + ts <= usize::MAX,
            left + ts <= usize::MAX,
            samples == tile_samples(image@, fill, ts as int, ty as int, tx as int),
            raw@ == long_bytes(samples.take(k as int)),
    {
        proof {
            lemma_row_col(k as int, ts as int, ts as int);
        }
        let row: usize = top + k / ts;
        let col: usize = left + k % ts;
        let value: u32 = if row < image.rows && col < image.cols {
            proof {
                lemma_position(row as int, col as int, image@.rows, image@.cols);
                assert(row * image.cols + col < have);
            }
            image.values[row * image.cols + col]
        } else {
            fill
        };
        crate::bytes::push_le32(&mut raw, value);
        assert(value == samples[k as int]);
        assert(samples.take(k + 1).drop_last() =~= samples.take(k as int));
    }
    assert(samples.take(n as int) =~= samples);
    raw
}

/// Cuts one level into padded square tiles and compresses them.
pub fn encode_level_tiles(
    image: &Image,
    fill: u32,
    tile_size: u32,
    compression: CogCompression,
) -> (tiles: Result<Vec<Vec<u8>>, Error>)
    requires
        image_wf(image@),
        edge_fits(image@, tile_size as int),
    ensures
        match tiles {
            Ok(v) => {
                &&& v@.len() == tile_count(image@, tile_size as int)
                &&& forall|i: int|
                    0 <= i < v@.len() ==> stored_tile(
                        image@,
                        fill,
                        tile_size as int,
                        compression,
                        i,
                    ) == Some((#[trigger] v@[i])@)
            },
            Err(e) => {
                &&& e == Error::Encode(EncodeStep::Deflate)
                &&& exists|i: int|
                    0 <= i < tile_count(image@, tile_size as int) && #[trigger] stored_tile(
                        image@,
                        fill,
                        tile_size as int,
                        compression,
                        i,
                    ) is None
            },
        },
{
    let ts: usize = tile_size as usize;
    let across: usize = div_ceil(image.cols, ts);
    let down: usize = div_ceil(image.rows, ts);
    let have: usize = image.values.len();
    proof {
        lemma_ceil_div(image@.rows, ts as int);
        lemma_ceil_div(image@.cols, ts as int);
        assert(down * across <= image@.rows * image@.cols) by (nonlinear_arith)
            requires
                0 <= down <= image@.rows,
                0 <= across <= image@.cols,
        ;
    }
    let n: usize = down * across;
    let mut tiles: Vec<Vec<u8>> = Vec::new();
    for i in 0..n
        invariant
            n == down * across,
            ts == tile_size,
            image_wf(image@),
            edge_fits(image@, ts as int),
            across == tiles_across(image@, ts as int),
            down == ceil_div(image@.rows, ts as int),
            tiles@.len() == i,
            forall|j: int|
                0 <= j < i ==> stored_tile(image@, fill, tile_size as int, compression, j) == Some(
                    (#[trigger] tiles@[j])@,
                ),
    {
        proof {
            lemma_row_col(i as int, down as int, across as int);
        }
        let raw: Vec<u8> = tile_bytes(image, fill, ts, i / across, i % across);
        let tile: Vec<u8> = match compression {
            CogCompression::Uncompressed => raw,
            CogCompression::Deflate => match zlib(raw.as_slice()) {
                Some(v) => v,
                None => {
                    assert(stored_tile(image@, fill, tile_size as int, compression, i as int)
                        is None);
                    return Err(Error::Encode(EncodeStep::Deflate));
                },
            },
        };
        tiles.push(tile);
    }
    Ok(tiles)
}

/// Every tile of the image can be stored.
pub open spec fn compresses(
    image: ImageModel,
    fill: u32,
    ts: int,
    compression: CogCompression,
) -> bool {
    forall|i: int|
        0 <= i < tile_count(image, ts) ==> #[trigger] stored_tile(image, fill, ts, compression, i)
            is Some
}

/// The level that an image becomes.
pub open spec fn level_of(
    image: ImageModel,
    fill: u32,
    ts: int,
    compression: CogCompression,
) -> LevelModel {
    LevelModel {
        width: image.cols as u32,
        height: image.rows as u32,
        tiles: Seq::new(
            tile_count(image, ts) as nat,
            |i: int| stored_tile(image, fill, ts, compression, i)->Some_0,
        ),
    }
}

/// The levels that images become.
pub open spec fn levels_of(
    images: Seq<ImageModel>,
    fill: u32,
    ts: int,
    compression: CogCompression,
) -> Seq<LevelModel> {
    images.map_values(|image: ImageModel| level_of(image, fill, ts, compression))
}

/// The models of a list of images.
pub open spec fn image_models(images: Seq<Image>) -> Seq<ImageModel> {
    images.map_values(|image: Image| image@)
}

/// There is an image, and each can be cut into tiles of this edge.
pub open spec fn images_wf(images: Seq<ImageModel>, ts: int) -> bool {
    &&& images.len() > 0
    &&& forall|k: int|
        0 <= k < images.len() ==> image_wf(#[trigger] images[k]) && edge_fits(images[k], ts)
}

/// `outcome` is the file of these images, or why there is none.
pub open spec fn encoded_as(
    images: Seq<ImageModel>,
    fill: u32,
    tags: TagsModel,
    outcome: Result<(Vec<u8>, CogInfo), Error>,
) -> bool {
    let levels = levels_of(images, fill, tags.tile_size as int, tags.compression);
    if exists|k: int|
        0 <= k < images.len() && !compresses(
            #[trigger] images[k],
            fill,
            tags.tile_size as int,
            tags.compression,
        ) {
        outcome == Err::<(Vec<u8>, CogInfo), Error>(Error::Encode(EncodeStep::Deflate))
    } else if cog_size(levels, tags) > u32::MAX {
        outcome == Err::<(Vec<u8>, CogInfo), Error>(Error::InvalidInput(Invalid::FileTooLarge))
    } else {
        &&& outcome matches Ok((file, info))
        &&& file@ == cog_bytes(levels, tags)
        &&& info.levels == images.len()
        &&& info.tiles == tile_total(levels, images.len() as int)
        &&& info.file_size == file@.len()
    }
}

/// Encodes the levels of a raster, from fine to coarse, as one file.
pub fn encode_cog(images: &Vec<Image>, fill: u32, tags: &CogTags) -> (outcome: Result<
    (Vec<u8>, CogInfo),
    Error,
>)
    requires
        images_wf(image_models(images@), tags.tile_size as int),
    ensures
        encoded_as(image_models(images@), fill, tags@, outcome),
{
    let ghost m = image_models(images@);
    let ghost ts = tags.tile_size as int;
    let ghost want = levels_of(m, fill, ts, tags.compression);
    let mut levels: Vec<Level> = Vec::new();
    for k in 0..images.len()
        invariant
            m == image_models(images@),
            ts == tags.tile_size,
            images_wf(m, ts),
            want == levels_of(m, fill, ts, tags.compression),
            levels@.len() == k,
            forall|j: int|
                0 <= j < k ==> compresses(#[trigger] m[j], fill, ts, tags.compression),
            forall|j: int| 0 <= j < k ==> (#[trigger] levels@[j])@ == want[j],
            forall|j: int| 0 <= j < k ==> (#[trigger] want[j]).tiles.len() > 0,
    {
        let image = &images[k];
        assert(m[k as int] == image@);
        match encode_level_tiles(image, fill, tags.tile_size, tags.compression) {
            Ok(tiles) => {
                let level = Level { width: image.cols as u32, height: image.rows as u32, tiles };
                proof {
                    let got = level@.tiles;
                    let ghost w = want[k as int].tiles;
                    lemma_tile_count(image@, ts);
                    assert(got =~= w) by {
                        assert forall|i: int| 0 <= i < got.len() implies got[i] == w[i] by {
                            assert(got[i] == level.tiles@[i]@);
                        }
                    }
                    assert forall|i: int| 0 <= i < tile_count(image@, ts) implies #[trigger]
                        stored_tile(image@, fill, ts, tags.compression, i) is Some by {
                        assert(stored_tile(image@, fill, ts, tags.compression, i) == Some(
                            level.tiles@[i]@,
                        ));
                    }
                    assert(compresses(m[k as int], fill, ts, tags.compression));
                }
                levels.push(level);
            },
            Err(e) => {
                assert(!compresses(m[k as int], fill, ts, tags.compression));
                return Err(e);
            },
        }
    }
    assert(level_models(levels@) =~= want);
    match assemble_cog(&levels, tags) {
        Some(file) => {
            let mut tiles: u64 = 0;
            for k in 0..levels.len()
                invariant
                    want == level_models(levels@),
                    levels_wf(want),
                    cog_size(want, tags@) <= u32::MAX,
                    tiles == tile_total(want, k as int),
            {
                proof {
                    assert(want[k as int] == levels@[k as int]@);
                    lemma_tile_total(want, tags@, k + 1);
                }
                tiles = tiles + levels[k].tiles.len() as u64;
            }
            let info = CogInfo { levels: levels.len(), tiles, file_size: file.len() as u64 };
            Ok((file, info))
        },
        None => Err(Error::InvalidInput(Invalid::FileTooLarge)),
    }
}

/// What [`write_cog`] needs to know of a raster besides its cells.
pub struct RasterInfo {
    /// The EPSG code of the raster's CRS.
    pub epsg: Option<u32>,
    pub georef: GeoRef,
    /// The nodata value as text.
    pub nodata: String,
    /// The bit pattern of the Float32 sample that stands for a missing one.
    pub fill: u32,
}

/// The levels of a raster as images: the raster itself and its overviews.
pub open spec fn images_of<T: Copy, M, E>(
    raster: Grid<T>,
    images: Seq<ImageModel>,
    tile_size: u32,
    fill: u32,
    mean: M,
    sample: E,
) -> bool where
    M: Fn(Option<T>, Option<T>, Option<T>, Option<T>) -> Option<T>,
    E: Fn(T) -> u32,
 {
    exists|overviews: Seq<Grid<T>>|
        {
            &&& #[trigger] is_pyramid(raster, overviews, tile_size, mean)
            &&& images.len() == overviews.len() + 1
            &&& forall|k: int|
                0 <= k < images.len() ==> image_of(
                    level_grid(raster, overviews, k),
                    #[trigger] images[k],
                    fill,
                    sample,
                )
        }
}

/// The raster and its overviews as images.
pub fn build_images<T: Copy, M, E>(
    raster: &Grid<T>,
    tile_size: u32,
    fill: u32,
    mean: &M,
    sample: &E,
) -> (images: Vec<Image>) where
    M: Fn(Option<T>, Option<T>, Option<T>, Option<T>) -> Option<T>,
    E: Fn(T) -> u32,

    requires
        raster.wf(),
        0 < raster.rows <= u32::MAX,
        0 < raster.cols <= u32::MAX,
        tile_size > 0,
        forall|a: Option<T>, b: Option<T>, c: Option<T>, d: Option<T>|
            call_requires(*mean, (a, b, c, d)),
        forall|v: T| call_requires(*sample, (v,)),
    ensures
        images_of(*raster, image_models(images@), tile_size, fill, *mean, *sample),
        forall|k: int|
            0 <= k < images@.len() ==> {
                &&& image_wf((#[trigger] images@[k])@)
                &&& images@[k].rows <= raster.rows
                &&& images@[k].cols <= raster.cols
            },
{
    let overviews: Vec<Grid<T>> = build_overviews(raster, tile_size, mean);
    let mut images: Vec<Image> = Vec::new();
    images.push(make_image(raster, fill, sample));
    for k in 0..overviews.len()
        invariant
            forall|v: T| call_requires(*sample, (v,)),
            raster.rows <= u32::MAX,
            raster.cols <= u32::MAX,
            forall|j: int|
                0 <= j < overviews@.len() ==> {
                    &&& (#[trigger] overviews@[j]).wf()
                    &&& 0 < overviews@[j].rows <= raster.rows
                    &&& 0 < overviews@[j].cols <= raster.cols
                },
            images@.len() == k + 1,
            forall|j: int|
                0 <= j < images@.len() ==> image_of(
                    level_grid(*raster, overviews@, j),
                    (#[trigger] images@[j])@,
                    fill,
                    *sample,
                ),
            forall|j: int|
                0 <= j < images@.len() ==> {
                    &&& image_wf((#[trigger] images@[j])@)
                    &&& images@[j].rows <= raster.rows
                    &&& images@[j].cols <= raster.cols
                },
    {
        assert(overviews@[k as int].wf());
        images.push(make_image(&overviews[k], fill, sample));
    }
    proof {
        let m = image_models(images@);
        assert(is_pyramid(*raster, overviews@, tile_size, *mean));
        assert forall|k: int| 0 <= k < m.len() implies image_of(
            level_grid(*raster, overviews@, k),
            #[trigger] m[k],
            fill,
            *sample,
        ) by {
            assert(m[k] == images@[k]@);
        }
    }
    images
}

/// Encodes `raster` as a Cloud Optimized GeoTIFF.
///
/// The CRS must be EPSG:4326 or EPSG:3857 (the raster's own or set via
/// [`CogOptions::crs`]). `mean` averages the valid cells of a 2x2 block and
/// `sample` gives the bit pattern of a cell's Float32 sample.
pub fn write_cog<T: Copy, M, E>(
    raster: &Grid<T>,
    about: &RasterInfo,
    opts: &CogOptions,
    mean: &M,
    sample: &E,
) -> (outcome: Result<(Vec<u8>, CogInfo), Error>) where
    M: Fn(Option<T>, Option<T>, Option<T>, Option<T>) -> Option<T>,
    E: Fn(T) -> u32,

    requires
        raster.wf(),
        raster.rows <= u32::MAX,
        raster.cols <= u32::MAX,
        4 * (opts.tile_size * opts.tile_size) <= usize::MAX,
        raster.rows + opts.tile_size <= usize::MAX,
        raster.cols + opts.tile_size <= usize::MAX,
        forall|a: Option<T>, b: Option<T>, c: Option<T>, d: Option<T>|
            call_requires(*mean, (a, b, c, d)),
        forall|v: T| call_requires(*sample, (v,)),
    ensures
        if raster.rows == 0 || raster.cols == 0 {
            outcome == Err::<(Vec<u8>, CogInfo), Error>(Error::InvalidInput(Invalid::EmptyRaster))
        } else if opts.tile_size == 0 || opts.tile_size % 16 != 0 {
            outcome == Err::<(Vec<u8>, CogInfo), Error>(
                Error::InvalidInput(Invalid::TileSize(opts.tile_size)),
            )
        } else {
            match output_crs_spec(opts.crs, about.epsg) {
                Err(e) => outcome == Err::<(Vec<u8>, CogInfo), Error>(e),
                Ok(crs) => exists|images: Seq<ImageModel>|
                    {
                        &&& #[trigger] images_of(
                            *raster,
                            images,
                            opts.tile_size,
                            about.fill,
                            *mean,
                            *sample,
                        )
                        &&& encoded_as(
                            images,
                            about.fill,
                            TagsModel {
                                tile_size: opts.tile_size,
                                compression: opts.compression,
                                georef: about.georef,
                                crs,
                                nodata: about.nodata@,
                            },
                            outcome,
                        )
                    },
            }
        },
{
    if raster.rows == 0 || raster.cols == 0 {
        return Err(Error::InvalidInput(Invalid::EmptyRaster));
    }
    if opts.tile_size == 0 || opts.tile_size % 16 != 0 {
        return Err(Error::InvalidInput(Invalid::TileSize(opts.tile_size)));
    }
    let crs: SourceCrs = match output_crs(opts.crs, about.epsg) {
        Ok(crs) => crs,
        Err(e) => {
            return Err(e);
        },
    };
    let images: Vec<Image> = build_images(raster, opts.tile_size, about.fill, mean, sample);
    let tags = CogTags {
        tile_size: opts.tile_size,
        compression: opts.compression,
        georef: about.georef,
        crs,
        nodata: about.nodata.clone(),
    };
    proof {
        let m = image_models(images@);
        assert forall|k: int| 0 <= k < m.len() implies image_wf(#[trigger] m[k]) && edge_fits(
            m[k],
            tags.tile_size as int,
        ) by {
            assert(m[k] == images@[k]@);
        }
        assert(m.len() > 0);
    }
    encode_cog(&images, about.fill, &tags)
}

/// Every cell of an image stands in the tile that its row and column lead to,
/// at its place there.
pub proof fn cells_stand_in_their_tiles(image: ImageModel, fill: u32, ts: int, row: int, col: int)
    requires
        image_wf(image),
        ts > 0,
        0 <= row < image.rows,
        0 <= col < image.cols,
    ensures
        ({
            let across = tiles_across(image, ts);
            let i = (row / ts) * across + col / ts;
            let k = (row % ts) * ts + col % ts;
            &&& 0 <= i < tile_count(image, ts)
            &&& 0 <= k < ts * ts
            &&& i / across == row / ts && i % across == col / ts
            &&& tile_samples(image, fill, ts, row / ts, col / ts)[k] == image.values[row
                * image.cols + col]
        }),
{
    let across = tiles_across(image, ts);
    let down = ceil_div(image.rows, ts);
    let (y, x) = (row / ts, col / ts);
    lemma_cell_of_tile(row, image.rows, ts);
    lemma_cell_of_tile(col, image.cols, ts);
    vstd::arithmetic::div_mod::lemma_fundamental_div_mod(row, ts);
    vstd::arithmetic::div_mod::lemma_fundamental_div_mod(col, ts);
    lemma_position(y, x, down, across);
    lemma_position(row % ts, col % ts, ts, ts);
    assert(ts * y == y * ts) by (nonlinear_arith);
    assert(ts * x == x * ts) by (nonlinear_arith);
}

/// `chunk` holds the part of a tile that lies in the image; `decode` tells what
/// a stored sample stands for.
pub open spec fn is_tile_chunk<T>(
    image: ImageModel,
    fill: u32,
    ts: int,
    ty: int,
    tx: int,
    decode: spec_fn(u32) -> Option<T>,
    chunk: Chunk<T>,
) -> bool {
    &&& chunk.height == if image.rows - ty * ts < ts {
        image.rows - ty * ts
    } else {
        ts
    }
    &&& chunk.width == if image.cols - tx * ts < ts {
        image.cols - tx * ts
    } else {
        ts
    }
    &&& forall|y: int, x: int|
        0 <= y < chunk.height && 0 <= x < chunk.width ==> #[trigger] chunk_cell(chunk, 1, 0, y, x)
            == decode(tile_samples(image, fill, ts, ty, tx)[y * ts + x])
}

/// What is written is read back: where the chunks of a file hold the tiles of
/// an image, each cell that a window reads is the image's own, and its chunk
/// has the number that its tile was written under.
pub proof fn written_cells_are_read_back<T>(
    image: ImageModel,
    fill: u32,
    ts: int,
    decode: spec_fn(u32) -> Option<T>,
    l: ChunkLayout,
    chunks: Map<(int, int), Chunk<T>>,
    row: int,
    col: int,
)
    requires
        image_wf(image),
        l.tiled,
        l.samples_per_pixel == 1,
        l.rows == image.rows,
        l.cols == image.cols,
        l.chunk_width == ts,
        l.chunk_height == ts,
        ts > 0,
        forall|ty: int, tx: int|
            0 <= ty < ceil_div(image.rows, ts) && 0 <= tx < ceil_div(image.cols, ts)
                ==> is_tile_chunk(image, fill, ts, ty, tx, decode, #[trigger] chunks[(ty, tx)]),
        0 <= row < image.rows,
        0 <= col < image.cols,
    ensures
        file_cell(l, chunks, 0, row, col) == decode(image.values[row * image.cols + col]),
        chunk_index(l, row / ts, col / ts) == (row / ts) * tiles_across(image, ts) + col / ts,
        chunk_index(l, row / ts, col / ts) < tile_count(image, ts),
{
    cells_stand_in_their_tiles(image, fill, ts, row, col);
    let (y, x) = (row / ts, col / ts);
    lemma_cell_of_tile(row, image.rows, ts);
    lemma_cell_of_tile(col, image.cols, ts);
    assert(is_tile_chunk(image, fill, ts, y, x, decode, chunks[(y, x)]));
    assert(chunk_cell(chunks[(y, x)], 1, 0, row % ts, col % ts) == decode(
        tile_samples(image, fill, ts, y, x)[(row % ts) * ts + col % ts],
    ));
}

proof fn lemma_cell_of_tile(v: int, n: int, ts: int)
    requires
        0 <= v < n,
        ts > 0,
    ensures
        0 <= v / ts < ceil_div(n, ts),
        0 <= v % ts < ts,
        v % ts < n - (v / ts) * ts,
{
    lemma_ceil_div(n, ts);
    vstd::arithmetic::div_mod::lemma_fundamental_div_mod(v, ts);
    vstd::arithmetic::div_mod::lemma_div_pos_is_pos(v, ts);
    let y = v / ts;
    assert(y < ceil_div(n, ts)) by (nonlinear_arith)
        requires
            ts * y <= v,
            v < n,
            ceil_div(n, ts) * ts >= n,
            ts > 0,
    ;
    assert(ts * y == y * ts) by (nonlinear_arith);
}

/// Every sample of every level of an uncompressed file can be read back: it
/// stands in the tile that its row and column lead to, where the directory of
/// its level says.
pub proof fn samples_are_readable(
    images: Seq<ImageModel>,
    fill: u32,
    tags: TagsModel,
    k: int,
    row: int,
    col: int,
)
    requires
        images_wf(images, tags.tile_size as int),
        tags.compression == CogCompression::Uncompressed,
        ({
            let levels = levels_of(images, fill, tags.tile_size as int, tags.compression);
            cog_size(levels, tags) <= u32::MAX
        }),
        0 <= k < images.len(),
        0 <= row < images[k].rows,
        0 <= col < images[k].cols,
    ensures
        ({
            let ts = tags.tile_size as int;
            let levels = levels_of(images, fill, ts, tags.compression);
            let tile = (row / ts) * tiles_across(images[k], ts) + col / ts;
            let place = (row % ts) * ts + col % ts;
            let at = u32_at(cog_entries(levels, tags, k)[9].value, 4 * tile);
            u32_at(cog_bytes(levels, tags), at + 4 * place) == images[k].values[row * images[k].cols
                + col]
        }),
{
    let ts = tags.tile_size as int;
    let levels = levels_of(images, fill, ts, tags.compression);
    let image = images[k];
    let across = tiles_across(image, ts);
    let tile = (row / ts) * across + col / ts;
    let place = (row % ts) * ts + col % ts;
    assert(image_wf(image) && edge_fits(image, ts));
    cells_stand_in_their_tiles(image, fill, ts, row, col);
    assert forall|j: int| 0 <= j < levels.len() implies (#[trigger] levels[j]).tiles.len() > 0 by {
        lemma_tile_count(images[j], ts);
    }
    let samples = tile_samples(image, fill, ts, row / ts, col / ts);
    lemma_long_bytes_at(samples, place);
    let bytes = levels[k].tiles[tile];
    assert(bytes == long_bytes(samples));
    tiles_are_readable(levels, tags, k, tile);
    let file = cog_bytes(levels, tags);
    let at = u32_at(cog_entries(levels, tags, k)[9].value, 4 * tile);
    let len = u32_at(cog_entries(levels, tags, k)[10].value, 4 * tile);
    assert(file.subrange(at, at + len) == bytes);
    assert(file.subrange(at, at + len).len() == len);
    lemma_slice_of_slice(file, at, bytes, 4 * place, 4 * place + 4);
    lemma_le32_at(file, at + 4 * place, samples[place]);
}

pub(crate) proof fn lemma_tile_count(image: ImageModel, ts: int)
    requires
        image_wf(image),
        ts > 0,
    ensures
        tile_count(image, ts) > 0,
{
    lemma_ceil_div(image.rows, ts);
    lemma_ceil_div(image.cols, ts);
    assert(tile_count(image, ts) > 0) by (nonlinear_arith)
        requires
            ceil_div(image.rows, ts) >= 1,
            tiles_across(image, ts) >= 1,
            tile_count(image, ts) == ceil_div(image.rows, ts) * tiles_across(image, ts),
    ;
}

/// A raster is written with the CRS that it would be read with: a code that tells
/// a CRS on reading tells the same one on writing, and one that tells none is
/// refused, by its number. The CRS that is asked for goes before.
pub proof fn rasters_keep_their_crs(asked: Option<SourceCrs>, epsg: Option<u32>)
    ensures
        asked matches Some(crs) ==> output_crs_spec(asked, epsg) == Ok::<SourceCrs, Error>(crs),
        asked is None ==> (epsg matches Some(code) ==> {
            &&& crs_of_epsg(code) is Ok ==> output_crs_spec(asked, epsg) == crs_of_epsg(code)
            &&& crs_of_epsg(code) is Err ==> output_crs_spec(asked, epsg) == Err::<
                SourceCrs,
                Error,
            >(Error::InvalidInput(Invalid::OutputCrs(code)))
        }),
        asked is None && epsg is None ==> output_crs_spec(asked, epsg) == Err::<SourceCrs, Error>(
            Error::InvalidInput(Invalid::OutputCrsMissing),
        ),
{
}

/// Each cell of a raster at half the resolution stands for four of the raster:
/// those of two neighbouring rows and two neighbouring columns, beginning with
/// twice its own row and column. It is empty where all four are, else what the
/// mean makes of them, row by row. At an odd edge the cells beyond count as empty.
pub proof fn halved_cells_stand_for_four<T: Copy, M>(
    full: Grid<T>,
    half: Grid<T>,
    mean: M,
    row: int,
    col: int,
) where M: Fn(Option<T>, Option<T>, Option<T>, Option<T>) -> Option<T>
    requires
        full.wf(),
        halved(full, half, mean),
        0 <= row < half.rows,
        0 <= col < half.cols,
    ensures
        half.cells@.len() == half.rows * half.cols,
        full.rows <= 2 * half.rows <= full.rows + 1,
        full.cols <= 2 * half.cols <= full.cols + 1,
        2 * row < full.rows,
        2 * col < full.cols,
        ({
            let w = full.cols as int;
            let top = (2 * row) * w + 2 * col;
            let below = (2 * row + 1) * w + 2 * col;
            let a = full.cells@[top];
            let b = if 2 * col + 1 < w {
                full.cells@[top + 1]
            } else {
                None
            };
            let c = if 2 * row + 1 < full.rows {
                full.cells@[below]
            } else {
                None
            };
            let d = if 2 * row + 1 < full.rows && 2 * col + 1 < w {
                full.cells@[below + 1]
            } else {
                None
            };
            let cell = half.cells@[row * half.cols + col];
            &&& a is None && b is None && c is None && d is None ==> cell is None
            &&& a is Some || b is Some || c is Some || d is Some ==> call_ensures(
                mean,
                (a, b, c, d),
                cell,
            )
        }),
{
    lemma_ceil_div(full.rows as int, 2);
    lemma_ceil_div(full.cols as int, 2);
    let w = full.cols as int;
    assert(half.cell(row, col) == half.cells@[row * half.cols + col]);
    assert((2 * row) * w + (2 * col + 1) == (2 * row) * w + 2 * col + 1);
}

/// The overviews of a raster halve it just until it fits one tile: there is none
/// where the raster does, every level but the last is larger than a tile, the last
/// is not, and each has half the rows and columns of the one before it, rounded up.
pub proof fn overviews_halve_until_one_tile<T: Copy, M>(
    raster: Grid<T>,
    overviews: Seq<Grid<T>>,
    tile_size: u32,
    mean: M,
    k: int,
) where M: Fn(Option<T>, Option<T>, Option<T>, Option<T>) -> Option<T>
    requires
        is_pyramid(raster, overviews, tile_size, mean),
        0 <= k < overviews.len(),
    ensures
        raster.rows > tile_size || raster.cols > tile_size,
        overviews.last().rows <= tile_size,
        overviews.last().cols <= tile_size,
        k > 0 ==> overviews[k - 1].rows > tile_size || overviews[k - 1].cols > tile_size,
        k == 0 ==> halved(raster, overviews[0], mean) && overviews[0].rows == (raster.rows + 1) / 2
            && overviews[0].cols == (raster.cols + 1) / 2,
        k > 0 ==> halved(overviews[k - 1], overviews[k], mean) && overviews[k].rows == (overviews[k
            - 1].rows + 1) / 2 && overviews[k].cols == (overviews[k - 1].cols + 1) / 2,
{
    assert(is_overview(raster, overviews, tile_size, mean, 0));
    assert(is_overview(raster, overviews, tile_size, mean, k));
}

/// A raster that fits one tile has no overview.
pub proof fn small_rasters_have_no_overview<T: Copy, M>(
    raster: Grid<T>,
    overviews: Seq<Grid<T>>,
    tile_size: u32,
    mean: M,
) where M: Fn(Option<T>, Option<T>, Option<T>, Option<T>) -> Option<T>
    requires
        is_pyramid(raster, overviews, tile_size, mean),
    ensures
        overviews.len() == 0 <==> raster.rows <= tile_size && raster.cols <= tile_size,
{
    if overviews.len() > 0 {
        assert(is_overview(raster, overviews, tile_size, mean, 0));
    }
}

/// The samples of an image stand where the cells of its raster stand: that of a
/// row and column is what is sampled of the cell there, or the fill where the cell
/// has none.
pub proof fn images_keep_cells_in_place<T: Copy, E>(
    grid: Grid<T>,
    image: ImageModel,
    fill: u32,
    sample: E,
    row: int,
    col: int,
) where E: Fn(T) -> u32
    requires
        grid.wf(),
        image_of(grid, image, fill, sample),
        0 <= row < grid.rows,
        0 <= col < grid.cols,
    ensures
        image.rows == grid.rows,
        image.cols == grid.cols,
        image.values.len() == grid.rows * grid.cols,
        grid.cells@[row * grid.cols + col] matches Some(v) ==> call_ensures(
            sample,
            (v,),
            image.values[row * grid.cols + col],
        ),
        grid.cells@[row * grid.cols + col] is None ==> image.values[row * grid.cols + col] == fill,
{
    lemma_position(row, col, grid.rows as int, grid.cols as int);
    let k = row * grid.cols + col;
    assert(match grid.cells@[k] {
        Some(v) => call_ensures(sample, (v,), image.values[k]),
        None => image.values[k] == fill,
    });
}

/// The four bytes at place `y * ts + x` of a tile are the sample of row `ty * ts +
/// y` and column `tx * ts + x`, and the fill where the image has no such cell.
pub open spec fn holds_cell(
    raw: Seq<u8>,
    image: ImageModel,
    fill: u32,
    ts: int,
    ty: int,
    tx: int,
    y: int,
    x: int,
) -> bool {
    let (row, col) = (ty * ts + y, tx * ts + x);
    u32_at(raw, 4 * (y * ts + x)) == if row < image.rows && col < image.cols {
        image.values[row * image.cols + col]
    } else {
        fill
    }
}

/// Tiles are counted row by row. The tile in row `ty` and column `tx` is stored as
/// its cells, four bytes each, row by row, deflated where that is asked for.
pub proof fn tiles_hold_their_cells(
    image: ImageModel,
    fill: u32,
    ts: int,
    compression: CogCompression,
    ty: int,
    tx: int,
)
    requires
        image_wf(image),
        ts > 0,
        0 <= ty < ceil_div(image.rows, ts),
        0 <= tx < ceil_div(image.cols, ts),
    ensures
        0 <= ty * ceil_div(image.cols, ts) + tx < tile_count(image, ts),
        exists|raw: Seq<u8>|
            {
                &&& raw.len() == 4 * (ts * ts)
                &&& forall|y: int, x: int|
                    0 <= y < ts && 0 <= x < ts ==> #[trigger] holds_cell(
                        raw,
                        image,
                        fill,
                        ts,
                        ty,
                        tx,
                        y,
                        x,
                    )
                &&& match compression {
                    CogCompression::Deflate => stored_tile(
                        image,
                        fill,
                        ts,
                        compression,
                        ty * ceil_div(image.cols, ts) + tx,
                    ) == #[trigger] zlib_compressed(raw),
                    CogCompression::Uncompressed => stored_tile(
                        image,
                        fill,
                        ts,
                        compression,
                        ty * ceil_div(image.cols, ts) + tx,
                    ) == Some(raw),
                }
            },
{
    let across = ceil_div(image.cols, ts);
    lemma_position(ty, tx, ceil_div(image.rows, ts), across);
    let samples = tile_samples(image, fill, ts, ty, tx);
    let raw = long_bytes(samples);
    assert(ts * ts > 0) by (nonlinear_arith)
        requires
            ts > 0,
    ;
    longs_are_read_back(samples, 0);
    assert(ty * ts >= 0) by (nonlinear_arith)
        requires
            ty >= 0,
            ts > 0,
    ;
    assert(tx * ts >= 0) by (nonlinear_arith)
        requires
            tx >= 0,
            ts > 0,
    ;
    assert forall|y: int, x: int| 0 <= y < ts && 0 <= x < ts implies #[trigger] holds_cell(
        raw,
        image,
        fill,
        ts,
        ty,
        tx,
        y,
        x,
    ) by {
        lemma_position(y, x, ts, ts);
        longs_are_read_back(samples, y * ts + x);
    }
    let z = zlib_compressed(raw);
}

/// A reader of the file of these images finds each as a level: its columns as the
/// width and its rows as the height, in the order from fine to coarse.
pub proof fn images_are_described(images: Seq<ImageModel>, fill: u32, tags: TagsModel, k: int)
    requires
        images_wf(images, tags.tile_size as int),
        cog_size(levels_of(images, fill, tags.tile_size as int, tags.compression), tags)
            <= u32::MAX,
        0 <= k < images.len(),
    ensures
        ({
            let file = cog_bytes(
                levels_of(images, fill, tags.tile_size as int, tags.compression),
                tags,
            );
            &&& holds_long(file, directory_at(file, k), 256, images[k].cols)
            &&& holds_long(file, directory_at(file, k), 257, images[k].rows)
        }),
{
    let ts = tags.tile_size as int;
    let levels = levels_of(images, fill, ts, tags.compression);
    assert forall|j: int| 0 <= j < levels.len() implies (#[trigger] levels[j]).tiles.len() > 0 by {
        assert(image_wf(images[j]) && edge_fits(images[j], ts));
        lemma_tile_count(images[j], ts);
    }
    assert(image_wf(images[k]));
    levels_are_described(levels, tags, k);
}

/// A reader of an uncompressed file finds every sample of every level, in the tile
/// that its row and column lead to.
pub proof fn samples_are_found(
    images: Seq<ImageModel>,
    fill: u32,
    tags: TagsModel,
    k: int,
    row: int,
    col: int,
)
    requires
        images_wf(images, tags.tile_size as int),
        tags.compression == CogCompression::Uncompressed,
        cog_size(levels_of(images, fill, tags.tile_size as int, tags.compression), tags)
            <= u32::MAX,
        0 <= k < images.len(),
        0 <= row < images[k].rows,
        0 <= col < images[k].cols,
    ensures
        ({
            let ts = tags.tile_size as int;
            let file = cog_bytes(levels_of(images, fill, ts, tags.compression), tags);
            let dir = directory_at(file, k);
            let across = (images[k].cols + ts - 1) / ts;
            let n = ((images[k].rows + ts - 1) / ts) * across;
            let tile = (row / ts) * across + col / ts;
            exists|i: int|
                {
                    let at = u32_at(file, values_at(file, dir, i, 4) + 4 * tile);
                    &&& #[trigger] is_entry(file, dir, i, 324, 4, n)
                    &&& u32_at(file, at + 4 * ((row % ts) * ts + col % ts)) == images[k].values[row
                        * images[k].cols + col]
                }
        }),
{
    let ts = tags.tile_size as int;
    let levels = levels_of(images, fill, ts, tags.compression);
    let image = images[k];
    let across = tiles_across(image, ts);
    let tile = (row / ts) * across + col / ts;
    let place = (row % ts) * ts + col % ts;
    assert(image_wf(image) && edge_fits(image, ts));
    cells_stand_in_their_tiles(image, fill, ts, row, col);
    assert forall|j: int| 0 <= j < levels.len() implies (#[trigger] levels[j]).tiles.len() > 0 by {
        assert(image_wf(images[j]) && edge_fits(images[j], ts));
        lemma_tile_count(images[j], ts);
    }
    let samples = tile_samples(image, fill, ts, row / ts, col / ts);
    let bytes = levels[k].tiles[tile];
    assert(bytes == long_bytes(samples));
    longs_are_read_back(samples, place);
    tiles_are_found(levels, tags, k, tile);
    let file = cog_bytes(levels, tags);
    let dir = directory_at(file, k);
    let n = levels[k].tiles.len() as int;
    let (i, j) = choose|i: int, j: int|
        {
            let at = u32_at(file, values_at(file, dir, i, 4) + 4 * tile);
            let len = u32_at(file, values_at(file, dir, j, 4) + 4 * tile);
            &&& #[trigger] is_entry(file, dir, i, 324, 4, n)
            &&& #[trigger] is_entry(file, dir, j, 325, 4, n)
            &&& len == levels[k].tiles[tile].len()
            &&& at + len <= file.len()
            &&& file.subrange(at, at + len) == levels[k].tiles[tile]
        };
    let at = u32_at(file, values_at(file, dir, i, 4) + 4 * tile);
    let s = file.subrange(at, at + bytes.len());
    assert forall|b: int| 4 * place <= b < 4 * place + 4 implies #[trigger] s[b] == file[at + b] by {}
    assert(is_entry(file, dir, i, 324, 4, n));
}

/// What is told of a written file is so: as many levels as images, as many tiles
/// as they are cut into together, and as many bytes as the file has.
pub proof fn files_are_as_told(
    images: Seq<ImageModel>,
    fill: u32,
    tags: TagsModel,
    file: Vec<u8>,
    info: CogInfo,
)
    requires
        images_wf(images, tags.tile_size as int),
        encoded_as(images, fill, tags, Ok((file, info))),
    ensures
        info.levels == images.len(),
        info.file_size == file@.len(),
        file@.len() <= u32::MAX,
        info.tiles == tile_total(
            levels_of(images, fill, tags.tile_size as int, tags.compression),
            images.len() as int,
        ),
{
    let ts = tags.tile_size as int;
    let levels = levels_of(images, fill, ts, tags.compression);
    assert forall|j: int| 0 <= j < levels.len() implies (#[trigger] levels[j]).tiles.len() > 0 by {
        assert(image_wf(images[j]) && edge_fits(images[j], ts));
        lemma_tile_count(images[j], ts);
    }
    file_size_is_planned(levels, tags);
}

/// The tiles of all levels are counted level by level, each as the rows of tiles
/// times the columns of tiles that its image needs.
pub proof fn every_tile_is_counted(
    images: Seq<ImageModel>,
    fill: u32,
    ts: int,
    compression: CogCompression,
    k: int,
)
    requires
        ts > 0,
        0 <= k < images.len(),
        image_wf(images[k]),
    ensures
        tile_total(levels_of(images, fill, ts, compression), 0) == 0,
        tile_total(levels_of(images, fill, ts, compression), k + 1) == tile_total(
            levels_of(images, fill, ts, compression),
            k,
        ) + ((images[k].rows + ts - 1) / ts) * ((images[k].cols + ts - 1) / ts),
{
    lemma_tile_count(images[k], ts);
    let levels = levels_of(images, fill, ts, compression);
    assert(levels[k].tiles.len() == tile_count(images[k], ts));
}

/// The first image of a raster is the raster itself, cell by cell. Each further
/// one has half the rows and columns of the one before, rounded up, and there are
/// further ones just while an edge is longer than a tile.
pub proof fn images_begin_with_the_raster<T: Copy, M, E>(
    raster: Grid<T>,
    images: Seq<ImageModel>,
    tile_size: u32,
    fill: u32,
    mean: M,
    sample: E,
    row: int,
    col: int,
    k: int,
) where
    M: Fn(Option<T>, Option<T>, Option<T>, Option<T>) -> Option<T>,
    E: Fn(T) -> u32,

    requires
        raster.wf(),
        images_of(raster, images, tile_size, fill, mean, sample),
        0 <= row < raster.rows,
        0 <= col < raster.cols,
        0 <= k < images.len(),
    ensures
        images[0].rows == raster.rows,
        images[0].cols == raster.cols,
        raster.cells@[row * raster.cols + col] matches Some(v) ==> call_ensures(
            sample,
            (v,),
            images[0].values[row * raster.cols + col],
        ),
        raster.cells@[row * raster.cols + col] is None ==> images[0].values[row * raster.cols + col]
            == fill,
        k > 0 ==> images[k].rows == (images[k - 1].rows + 1) / 2,
        k > 0 ==> images[k].cols == (images[k - 1].cols + 1) / 2,
        k + 1 < images.len() <==> images[k].rows > tile_size || images[k].cols > tile_size,
{
    let overviews = choose|overviews: Seq<Grid<T>>|
        {
            &&& #[trigger] is_pyramid(raster, overviews, tile_size, mean)
            &&& images.len() == overviews.len() + 1
            &&& forall|k: int|
                0 <= k < images.len() ==> image_of(
                    level_grid(raster, overviews, k),
                    #[trigger] images[k],
                    fill,
                    sample,
                )
        };
    assert(image_of(level_grid(raster, overviews, 0), images[0], fill, sample));
    images_keep_cells_in_place(raster, images[0], fill, sample, row, col);
    assert(image_of(level_grid(raster, overviews, k), images[k], fill, sample));
    if k > 0 {
        assert(image_of(level_grid(raster, overviews, k - 1), images[k - 1], fill, sample));
        overviews_halve_until_one_tile(raster, overviews, tile_size, mean, k - 1);
    }
    if k < overviews.len() {
        assert(is_overview(raster, overviews, tile_size, mean, k));
    }
}

/// Writing a file fails only where a tile cannot be compressed, which an
/// uncompressed one always can, or where the file would be longer than an offset
/// can tell. Where neither is so it is written.
pub proof fn files_fail_for_a_reason(
    images: Seq<ImageModel>,
    fill: u32,
    tags: TagsModel,
    outcome: Result<(Vec<u8>, CogInfo), Error>,
)
    requires
        images_wf(images, tags.tile_size as int),
        encoded_as(images, fill, tags, outcome),
    ensures
        ({
            let ts = tags.tile_size as int;
            let levels = levels_of(images, fill, ts, tags.compression);
            match outcome {
                Ok((file, _)) => file@ == cog_bytes(levels, tags) && file@.len() <= u32::MAX,
                Err(e) => {
                    ||| {
                        &&& e == Error::Encode(EncodeStep::Deflate)
                        &&& tags.compression == CogCompression::Deflate
                        &&& exists|k: int, i: int|
                            #![trigger stored_tile(images[k], fill, ts, tags.compression, i)]
                            0 <= k < images.len() && 0 <= i < tile_count(images[k], ts)
                                && stored_tile(images[k], fill, ts, tags.compression, i) is None
                    }
                    ||| {
                        &&& e == Error::InvalidInput(Invalid::FileTooLarge)
                        &&& cog_bytes(levels, tags).len() > u32::MAX
                    }
                },
            }
        }),
{
    let ts = tags.tile_size as int;
    let levels = levels_of(images, fill, ts, tags.compression);
    assert forall|j: int| 0 <= j < levels.len() implies (#[trigger] levels[j]).tiles.len() > 0 by {
        assert(image_wf(images[j]) && edge_fits(images[j], ts));
        lemma_tile_count(images[j], ts);
    }
    file_size_is_planned(levels, tags);
    if exists|k: int|
        0 <= k < images.len() && !compresses(#[trigger] images[k], fill, ts, tags.compression) {
        let k = choose|k: int|
            0 <= k < images.len() && !compresses(#[trigger] images[k], fill, ts, tags.compression);
        let i = choose|i: int|
            0 <= i < tile_count(images[k], ts) && !(#[trigger] stored_tile(
                images[k],
                fill,
                ts,
                tags.compression,
                i,
            ) is Some);
        assert(stored_tile(images[k], fill, ts, tags.compression, i) is None);
    }
}

/// Images are seen as they are, each in its place.
pub proof fn images_are_seen_as_they_are(images: Seq<Image>, k: int)
    requires
        0 <= k < images.len(),
    ensures
        image_models(images).len() == images.len(),
        image_models(images)[k].rows == images[k].rows,
        image_models(images)[k].cols == images[k].cols,
        image_models(images)[k].values == images[k].values@,
{
}

} // verus!
