//! What holds of reading rasters, said of what goes in and what comes out.

use vstd::prelude::*;

use crate::error::Error;
use crate::grid::{ceil_div, Grid};
use crate::source::{
    bands_that_are_taken_match, crs_is_told_in_order, detect_crs, is_band_check, is_made,
    sources_hold_the_cells_of_their_bands, windows_hold_just_what_a_tile_reads, Band, CrsHints,
    FileSource, PixelBox, RasterSource, SourceCrs, SourceData, Window,
};
use crate::window::{
    all_keys, are_extremes, are_scanned, area_cells, area_samples, areas_add_up, band_minmax,
    bands_are_taken_as_asked, clip_window, extremes, extremes_are_least_and_greatest,
    holds_pixel, layout_wf, lemma_key_in_all, lemma_scan_home, read_band_window, read_epsg,
    scan_starts, scan_windows, scan_windows_hold_each_cell_once, select_bands, tells_system,
    the_first_system_key_tells_the_code, window_cells_come_from_their_chunks,
    windows_hold_what_was_asked_for, AreaSample, CellRect, Chunk, ChunkLayout,
};

verus! {

/// The four cells around a point are the one asked for, its neighbour to the east,
/// the one to the south and the one to the south-east.
pub proof fn neighbours_are_east_south_and_south_east<T: Copy, X>(
    source: &RasterSource<T, X>,
    bands: Vec<Band<T, X>>,
    band: usize,
    row: i64,
    col: i64,
    cells: (Option<T>, Option<T>, Option<T>, Option<T>),
)
    requires
        source.data == SourceData::<T, X>::Memory(bands),
        band < bands@.len(),
        0 <= row,
        0 <= col,
        row + 1 < bands@[band as int].grid.rows,
        col + 1 < bands@[band as int].grid.cols,
        call_ensures(RasterSource::<T, X>::bilinear_cells, (source, band, row, col), cells),
    ensures
        ({
            let grid = bands@[band as int].grid;
            let at = row * grid.cols + col;
            &&& cells.0 == grid.cells@[at]
            &&& cells.1 == grid.cells@[at + 1]
            &&& cells.2 == grid.cells@[(row + 1) * grid.cols + col]
            &&& cells.3 == grid.cells@[(row + 1) * grid.cols + col + 1]
        }),
{
}

/// A cell is that of the band at its row and column; there is none outside the
/// raster, nor of a band that is not there.
pub proof fn cells_are_those_of_their_band<T: Copy, X>(
    source: &RasterSource<T, X>,
    bands: Vec<Band<T, X>>,
    band: usize,
    row: i64,
    col: i64,
    cell: Option<T>,
)
    requires
        source.data == SourceData::<T, X>::Memory(bands),
        call_ensures(RasterSource::<T, X>::valid_at, (source, band, row, col), cell),
    ensures
        ({
            let grid = bands@[band as int].grid;
            let there = band < bands@.len() && 0 <= row < grid.rows && 0 <= col < grid.cols;
            &&& there ==> cell == grid.cells@[row * grid.cols + col]
            &&& !there ==> cell is None
        }),
{
}

/// The window that a tile reads of a file holds just the cells of the raster within
/// two cells of the tile.
pub proof fn tiles_read_what_is_near<T: Copy, X>(
    source: &RasterSource<T, X>,
    file: FileSource<X>,
    at: PixelBox,
    window: Option<Window>,
    row: int,
    col: int,
)
    requires
        source.data == SourceData::<T, X>::File(file),
        call_ensures(RasterSource::<T, X>::window_rect, (source, Some(at)), window),
    ensures
        ({
            let near = {
                &&& 0 <= row < file.rows
                &&& 0 <= col < file.cols
                &&& at.row_low - 2 <= row < at.row_high + 2
                &&& at.col_low - 2 <= col < at.col_high + 2
            };
            match window {
                Some(w) => near <==> w.row0 <= row < w.row0 + w.height && w.col0 <= col < w.col0
                    + w.width,
                None => !near,
            }
        }),
{
    windows_hold_just_what_a_tile_reads(*source, file, at, window, row, col);
}

/// A window takes eight bytes for each cell of each band.
pub proof fn windows_take_eight_bytes_for_each_sample<T: Copy, X>(
    source: &RasterSource<T, X>,
    window: Option<Window>,
    bytes: Option<usize>,
)
    requires
        window matches Some(w) ==> 0 <= w.width * w.height * source.bands() * 8 <= usize::MAX,
        call_ensures(RasterSource::<T, X>::window_bytes, (source, window), bytes),
    ensures
        window is None ==> bytes is None,
        window matches Some(w) ==> bytes matches Some(n) && n == 8 * (w.width * w.height
            * source.bands()),
{
}

/// The CRS that is asked for goes before the EPSG code, and this before the bounds.
pub proof fn crs_is_asked_for_or_told(
    asked: Option<SourceCrs>,
    hints: CrsHints,
    crs: Result<SourceCrs, Error>,
)
    requires
        call_ensures(detect_crs, (asked, hints), crs),
    ensures
        asked is Some ==> crs == Ok::<SourceCrs, Error>(asked->Some_0),
        asked is None && hints.epsg == Some(4326u32) ==> crs == Ok::<SourceCrs, Error>(
            SourceCrs::LonLat,
        ),
        asked is None && (hints.epsg == Some(3857u32) || hints.epsg == Some(900913u32)) ==> crs
            == Ok::<SourceCrs, Error>(SourceCrs::Mercator),
        asked is None && hints.epsg is Some && hints.epsg != Some(4326u32) && hints.epsg != Some(
            3857u32,
        ) && hints.epsg != Some(900913u32) ==> crs is Err,
        asked is None && hints.epsg is None && hints.looks_geographic ==> crs == Ok::<
            SourceCrs,
            Error,
        >(SourceCrs::LonLat),
        asked is None && hints.epsg is None && !hints.looks_geographic && hints.looks_mercator
            ==> crs == Ok::<SourceCrs, Error>(SourceCrs::Mercator),
        asked is None && hints.epsg is None && !hints.looks_geographic && !hints.looks_mercator
            ==> crs is Err,
{
    crs_is_told_in_order(asked, hints, hints);
}

/// A window that is read from a file has the cells of the raster that were asked
/// for, each the band's sample of its pixel in the chunk that holds it.
pub proof fn windows_hold_the_samples_of_their_chunks<T: Copy, D>(
    l: &ChunkLayout,
    band: usize,
    col0: i64,
    row0: i64,
    width: usize,
    height: usize,
    read: &D,
    grid: Grid<T>,
    row: int,
    col: int,
    number: u32,
) where D: Fn(u32) -> Result<Chunk<T>, Error>
    requires
        layout_wf(*l),
        band < l.samples_per_pixel,
        0 <= row0,
        0 <= col0,
        row0 + height <= l.rows,
        col0 + width <= l.cols,
        call_ensures(
            read_band_window::<T, D>,
            (l, band, col0, row0, width, height, read),
            Ok(grid),
        ),
        row0 <= row < row0 + height,
        col0 <= col < col0 + width,
        holds_pixel(*l, number, row, col),
    ensures
        grid.rows == height,
        grid.cols == width,
        ({
            let (ch, cw) = (l.chunk_height as int, l.chunk_width as int);
            let cell = grid.cells@[(row - row0) * width + (col - col0)];
            exists|chunk: Chunk<T>|
                {
                    let pixel = (row % ch) * chunk.width + col % cw;
                    &&& #[trigger] call_ensures(*read, (number,), Ok::<Chunk<T>, Error>(chunk))
                    &&& row % ch < chunk.height && col % cw < chunk.width ==> cell
                        == chunk.samples@[pixel * l.samples_per_pixel + band]
                    &&& row % ch >= chunk.height || col % cw >= chunk.width ==> cell is None
                }
        }),
{
    windows_hold_what_was_asked_for(
        *l,
        col0 as int,
        row0 as int,
        width as int,
        height as int,
        row,
        col,
    );
    let rect = (row0 as int, col0 as int, row0 + height, col0 + width);
    window_cells_come_from_their_chunks(*l, rect, band as int, *read, grid, row, col, number);
}

/// A window is cut to the cells that the raster has; there is none exactly where it
/// has none of them.
pub proof fn cut_windows_hold_what_was_asked_for(
    l: &ChunkLayout,
    col0: i64,
    row0: i64,
    width: usize,
    height: usize,
    rect: Option<CellRect>,
    row: int,
    col: int,
)
    requires
        call_ensures(clip_window, (l, col0, row0, width, height), rect),
    ensures
        ({
            let asked = {
                &&& 0 <= row < l.rows
                &&& 0 <= col < l.cols
                &&& row0 <= row < row0 + height
                &&& col0 <= col < col0 + width
            };
            match rect {
                Some(r) => asked <==> r.row0 <= row < r.row1 && r.col0 <= col < r.col1,
                None => !asked,
            }
        }),
{
    windows_hold_what_was_asked_for(
        *l,
        col0 as int,
        row0 as int,
        width as int,
        height as int,
        row,
        col,
    );
}

/// Every cell of a raster lies in exactly one of the windows in which it is
/// scanned, each of 1024 rows and columns.
pub proof fn scans_meet_each_cell_once(
    rows: usize,
    cols: usize,
    starts: Vec<(usize, usize)>,
    row: int,
    col: int,
    i: int,
    j: int,
)
    requires
        call_ensures(scan_windows, (rows, cols), starts),
        0 <= row < rows,
        0 <= col < cols,
        0 <= i < starts@.len(),
        0 <= j < starts@.len(),
        starts@[i].0 <= row < starts@[i].0 + 1024,
        starts@[i].1 <= col < starts@[i].1 + 1024,
        starts@[j].0 <= row < starts@[j].0 + 1024,
        starts@[j].1 <= col < starts@[j].1 + 1024,
    ensures
        i == j,
{
    scan_windows_hold_each_cell_once(rows as int, cols as int, row, col, i);
    scan_windows_hold_each_cell_once(rows as int, cols as int, row, col, j);
}

/// Every cell of a raster lies in one of the windows in which it is scanned.
pub proof fn scans_meet_every_cell(
    rows: usize,
    cols: usize,
    starts: Vec<(usize, usize)>,
    row: int,
    col: int,
)
    requires
        call_ensures(scan_windows, (rows, cols), starts),
        0 <= row < rows,
        0 <= col < cols,
    ensures
        exists|k: int|
            0 <= k < starts@.len() && (#[trigger] starts@[k]).0 <= row < starts@[k].0 + 1024
                && starts@[k].1 <= col < starts@[k].1 + 1024,
{
    let across = ceil_div(cols as int, 1024);
    let home = (row / 1024) * across + col / 1024;
    lemma_scan_home(rows as int, cols as int, row, col);
    scan_windows_hold_each_cell_once(rows as int, cols as int, row, col, home);
    assert(starts@[home].0 <= row);
}

/// What an output pixel averages of one row of cells is the samples of the cells
/// between its first column and its last, each once and in order, as far as the
/// raster has them: one cell gives its sample, and more cells theirs one after the
/// other.
pub proof fn averages_take_each_sample_once<T: Copy, X>(
    source: &RasterSource<T, X>,
    bands: Vec<Band<T, X>>,
    band: usize,
    row_start: i64,
    row_end: i64,
    col_start: i64,
    col_end: i64,
    cells: Vec<T>,
    cut: int,
)
    requires
        source.data == SourceData::<T, X>::Memory(bands),
        band < bands@.len(),
        row_start <= cut <= row_end,
        col_start <= col_end,
        call_ensures(
            area_cells::<T, X>,
            (source, band, row_start, row_end, col_start, col_end),
            Some(AreaSample::Cells(cells)),
        ),
    ensures
        cells@ == area_samples(
            bands@[band as int].grid,
            row_start as int,
            cut,
            col_start as int,
            col_end as int,
        ) + area_samples(
            bands@[band as int].grid,
            cut + 1,
            row_end as int,
            col_start as int,
            col_end as int,
        ),
        row_start == row_end && col_start == col_end && 0 <= row_start
            < bands@[band as int].grid.rows && 0 <= col_start < bands@[band as int].grid.cols ==> {
            let grid = bands@[band as int].grid;
            match grid.cells@[row_start * grid.cols + col_start] {
                Some(v) => cells@ == seq![v],
                None => cells@.len() == 0,
            }
        },
{
    areas_add_up(
        bands@[band as int].grid,
        row_start as int,
        cut,
        row_end as int,
        col_start as int,
        col_end as int,
        row_start as int,
        col_start as int,
    );
}

/// The extremes that are found are the least and the greatest of the numbers that
/// are there, in whatever order they stand.
pub proof fn found_extremes_bound_every_number(
    keys: &Vec<Option<u64>>,
    found: Option<(u64, u64)>,
    i: int,
)
    requires
        call_ensures(extremes, (keys,), found),
        0 <= i < keys@.len(),
    ensures
        keys@[i] matches Some(v) ==> found matches Some((lo, hi)) && lo <= v <= hi,
        found matches Some((lo, hi)) ==> keys@.contains(Some(lo)) && keys@.contains(Some(hi)) && lo
            <= hi,
{
    extremes_are_least_and_greatest(keys@, keys@, found, found);
}

/// The EPSG code that is read of GeoTIFF keys is that of the first entry that tells
/// a coordinate system, and there is none where no entry does.
pub proof fn codes_are_those_of_the_first_system_key(keys: &Vec<u16>, epsg: Option<u32>)
    requires
        keys@.len() >= 4,
        keys@.len() >= 4 + 4 * keys@[3],
        call_ensures(read_epsg, (keys,), epsg),
    ensures
        match epsg {
            Some(code) => exists|i: int|
                {
                    &&& 0 <= i < keys@[3]
                    &&& #[trigger] tells_system(keys@, i)
                    &&& keys@[4 + 4 * i + 3] == code
                    &&& forall|j: int| 0 <= j < i ==> !#[trigger] tells_system(keys@, j)
                },
            None => forall|j: int| 0 <= j < keys@[3] ==> !#[trigger] tells_system(keys@, j),
        },
{
    the_first_system_key_tells_the_code(keys@);
}

/// The extremes of a band bound every number of every window in which it is
/// scanned.
pub proof fn band_extremes_bound_every_window<R>(
    rows: usize,
    cols: usize,
    read: &R,
    found: Option<(u64, u64)>,
    starts: Vec<(usize, usize)>,
    k: int,
) where R: Fn(Window) -> Result<Vec<Option<u64>>, Error>
    requires
        call_ensures(band_minmax::<R>, (rows, cols, read), Ok(found)),
        call_ensures(scan_windows, (rows, cols), starts),
        0 <= k < starts@.len(),
    ensures
        exists|keys: Vec<Option<u64>>|
            {
                &&& #[trigger] call_ensures(
                    *read,
                    (
                        Window {
                            col0: starts@[k].1 as i64,
                            row0: starts@[k].0 as i64,
                            width: 1024,
                            height: 1024,
                        },
                    ),
                    Ok::<Vec<Option<u64>>, Error>(keys),
                )
                &&& forall|i: int|
                    0 <= i < keys@.len() ==> ((#[trigger] keys@[i]) matches Some(v) ==> found
                        matches Some((lo, hi)) && lo <= v <= hi)
            },
{
    let all = scan_starts(rows as int, cols as int);
    let parts = choose|parts: Seq<Vec<Option<u64>>>|
        {
            &&& #[trigger] are_scanned(all, *read, parts)
            &&& parts.len() == all.len() && are_extremes(all_keys(parts), found)
        };
    let keys = parts[k];
    assert forall|i: int| 0 <= i < keys@.len() implies ((#[trigger] keys@[i]) matches Some(v)
        ==> found matches Some((lo, hi)) && lo <= v <= hi) by {
        lemma_key_in_all(parts, k, i);
        let a = choose|a: int| 0 <= a < all_keys(parts).len() && all_keys(parts)[a] == keys@[i];
        assert(all_keys(parts)[a] == keys@[i]);
    }
    assert(call_ensures(
        *read,
        (
            Window {
                col0: starts@[k].1 as i64,
                row0: starts@[k].0 as i64,
                width: 1024,
                height: 1024,
            },
        ),
        Ok::<Vec<Option<u64>>, Error>(keys),
    ));
}

/// Bands are taken as they are asked for, counted from 1: each by its number, in the
/// order of the list.
pub proof fn selected_bands_are_those_asked_for(
    list: Option<&Vec<usize>>,
    count: usize,
    bands: Vec<usize>,
    i: int,
)
    requires
        call_ensures(select_bands, (list, count), Ok(bands)),
        0 <= i < bands@.len(),
    ensures
        list is Some && list->Some_0@.len() > 0 ==> bands@.len() == list->Some_0@.len()
            && bands@[i] + 1 == list->Some_0@[i] && bands@[i] < count,
        list is None || list->Some_0@.len() == 0 ==> bands@.len() == count && bands@[i] == i,
{
    let view = match list {
        Some(v) => Some(v@),
        None => None,
    };
    bands_are_taken_as_asked(view, count);
}

/// A source of bands in memory is taken only where they are one, three or four, of
/// one shape, and gives the cells of each, at its row and column.
pub proof fn sources_give_the_cells_of_their_bands<T: Copy, X, N, A>(
    bands: Vec<Band<T, X>>,
    crs_override: Option<SourceCrs>,
    hints: CrsHints,
    north_up: &N,
    aligned: &A,
    source: RasterSource<T, X>,
    b: int,
    row: int,
    col: int,
) where N: Fn(&X) -> bool, A: Fn(&X, &X) -> bool
    requires
        call_ensures(
            RasterSource::<T, X>::new_multi::<N, A>,
            (bands, crs_override, hints, north_up, aligned),
            Ok(source),
        ),
        0 <= b < bands@.len(),
        0 <= row < bands@[b].grid.rows,
        0 <= col < bands@[b].grid.cols,
    ensures
        bands@.len() == 1 || bands@.len() == 3 || bands@.len() == 4,
        bands@[b].grid.rows == bands@[0].grid.rows,
        bands@[b].grid.cols == bands@[0].grid.cols,
        source.bands() == bands@.len(),
        source.cell(b, row, col) == bands@[b].grid.cells@[row * bands@[b].grid.cols + col],
        crs_override is Some ==> crs_override == Some(source.crs),
{
    let check = choose|check: Result<(), Error>|
        {
            &&& #[trigger] is_band_check(bands@, *north_up, *aligned, check)
            &&& is_made(bands@, crs_override, hints, check, Ok(source))
        };
    assert(check is Ok);
    assert(is_band_check(bands@, *north_up, *aligned, Ok(())));
    assert(is_made(bands@, crs_override, hints, Ok(()), Ok(source)));
    crs_is_told_in_order(crs_override, hints, hints);
    sources_hold_the_cells_of_their_bands(
        bands@,
        crs_override,
        hints,
        source,
        b,
        row,
        col,
    );
    if b > 0 {
        bands_that_are_taken_match(bands@, *north_up, *aligned, b);
    }
}

} // verus!
