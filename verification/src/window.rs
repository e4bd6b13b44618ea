//! Reading rectangles of a raster: from memory, and from the chunks (strips or
//! tiles) of a file.

use vstd::arithmetic::div_mod::{
    lemma_div_is_ordered, lemma_div_pos_is_pos, lemma_fundamental_div_mod,
    lemma_fundamental_div_mod_converse, lemma_mod_bound,
};
use vstd::prelude::*;

use crate::cog_layout::geo_keys;
use crate::error::{Error, Invalid};
use crate::grid::{ceil_div, div_ceil, lemma_ceil_div, lemma_position, lemma_row_col, Grid};
use crate::source::{
    crs_of_epsg, has_margin, window_of, Band, FileSource, PixelBox, RasterSource, SourceCrs,
    SourceData, Window, MARGIN,
};

verus! {

/// The valid samples among the first `n` cells of a rectangle, row by row.
pub open spec fn gathered<T: Copy>(
    grid: Grid<T>,
    row0: int,
    col0: int,
    width: int,
    n: int,
) -> Seq<T>
    decreases n,
{
    if n <= 0 {
        Seq::empty()
    } else {
        let before = gathered(grid, row0, col0, width, n - 1);
        match grid.cell(row0 + (n - 1) / width, col0 + (n - 1) % width) {
            Some(v) => before.push(v),
            None => before,
        }
    }
}

/// The valid samples of the cells between two rows and two columns, ends
/// included.
pub open spec fn samples_between<T: Copy>(
    grid: Grid<T>,
    row0: int,
    row1: int,
    col0: int,
    col1: int,
) -> Seq<T> {
    let width = col1 - col0 + 1;
    if row0 > row1 || col0 > col1 {
        Seq::empty()
    } else {
        gathered(grid, row0, col0, width, (row1 - row0 + 1) * width)
    }
}

/// `v`, or 0 where it is below.
pub open spec fn from_zero(v: int) -> int {
    if v < 0 {
        0
    } else {
        v
    }
}

/// `v`, or the last index below `n` where it is not below `n`.
pub open spec fn up_to(v: int, n: int) -> int {
    if v >= n {
        n - 1
    } else {
        v
    }
}

/// The valid samples of the cells between two rows and two columns, ends
/// included, as far as the grid holds them.
pub open spec fn area_samples<T: Copy>(
    grid: Grid<T>,
    row_start: int,
    row_end: int,
    col_start: int,
    col_end: int,
) -> Seq<T> {
    samples_between(
        grid,
        from_zero(row_start),
        up_to(row_end, grid.rows as int),
        from_zero(col_start),
        up_to(col_end, grid.cols as int),
    )
}

/// What an output pixel is made of.
pub enum AreaSample<T> {
    /// Its footprint holds no cell center: it is sampled as a point.
    Point,
    /// The valid samples of the cells whose centers its footprint holds.
    Cells(Vec<T>),
}

/// `v`, brought into `lo..=hi`, from below first.
pub open spec fn limited(lo: int, hi: int, v: int) -> int {
    if v < lo {
        lo
    } else if v > hi {
        hi
    } else {
        v
    }
}

/// The samples that an output pixel averages. The cells whose centers its
/// footprint holds are those of the given rows and columns, ends included;
/// those outside the raster do not count. `None` where the source has no such
/// band in memory.
pub fn area_cells<T: Copy, X>(
    source: &RasterSource<T, X>,
    band: usize,
    row_start: i64,
    row_end: i64,
    col_start: i64,
    col_end: i64,
) -> (area: Option<AreaSample<T>>)
    requires
        source.wf(),
    ensures
        match source.memory_band(band as int) {
            None => area is None,
            Some(b) => if col_start > col_end || row_start > row_end {
                area == Some(AreaSample::<T>::Point)
            } else {
                &&& area matches Some(AreaSample::Cells(v))
                &&& v@ == area_samples(
                    b.grid,
                    row_start as int,
                    row_end as int,
                    col_start as int,
                    col_end as int,
                )
            },
        },
{
    let grid: &Grid<T> = match source.band_opt(band) {
        None => {
            return None;
        },
        Some(b) => &b.grid,
    };
    if col_start > col_end || row_start > row_end {
        return Some(AreaSample::Point);
    }
    let mut out: Vec<T> = Vec::new();
    if col_end < 0 || row_end < 0 || grid.rows == 0 || grid.cols == 0 {
        return Some(AreaSample::Cells(out));
    }
    let r0: u64 = if row_start < 0 {
        0
    } else {
        row_start as u64
    };
    let c0: u64 = if col_start < 0 {
        0
    } else {
        col_start as u64
    };
    let r1: u64 = if row_end as u64 >= grid.rows as u64 {
        (grid.rows - 1) as u64
    } else {
        row_end as u64
    };
    let c1: u64 = if col_end as u64 >= grid.cols as u64 {
        (grid.cols - 1) as u64
    } else {
        col_end as u64
    };
    if r0 > r1 || c0 > c1 {
        return Some(AreaSample::Cells(out));
    }
    let top: usize = r0 as usize;
    let left: usize = c0 as usize;
    let height: usize = (r1 - r0) as usize + 1;
    let width: usize = (c1 - c0) as usize + 1;
    let have: usize = grid.cells.len();
    proof {
        assert(height * width <= grid.rows * grid.cols) by (nonlinear_arith)
            requires
                0 <= height <= grid.rows,
                0 <= width <= grid.cols,
        ;
    }
    let n: usize = height * width;
    for k in 0..n
        invariant
            n == height * width,
            grid.wf(),
            top + height <= grid.rows,
            left + width <= grid.cols,
            out@ == gathered(*grid, top as int, left as int, width as int, k as int),
    {
        proof {
            lemma_row_col(k as int, height as int, width as int);
        }
        match grid.get(top + k / width, left + k % width) {
            Some(v) => {
                out.push(v);
            },
            None => {},
        }
    }
    Some(AreaSample::Cells(out))
}

/// How the pixels of a file are stored: in tiles, or in strips that span the
/// width.
#[derive(Debug, Clone, Copy, PartialEq, Eq, Structural)]
pub struct ChunkLayout {
    pub rows: usize,
    pub cols: usize,
    pub samples_per_pixel: usize,
    pub chunk_width: usize,
    pub chunk_height: usize,
    pub tiled: bool,
}

/// The chunks have an extent, and each has a 32-bit number.
pub open spec fn layout_wf(l: ChunkLayout) -> bool {
    &&& l.rows > 0
    &&& l.cols > 0
    &&& l.chunk_width > 0
    &&& l.chunk_height > 0
    &&& l.samples_per_pixel > 0
    &&& !l.tiled ==> l.chunk_width == l.cols
    &&& ceil_div(l.rows as int, l.chunk_height as int) * ceil_div(
        l.cols as int,
        l.chunk_width as int,
    ) <= u32::MAX
    &&& l.rows <= i64::MAX && l.cols <= i64::MAX
}

/// The number of the chunk in a row and a column of chunks.
pub open spec fn chunk_index(l: ChunkLayout, tr: int, tc: int) -> int {
    if l.tiled {
        tr * ceil_div(l.cols as int, l.chunk_width as int) + tc
    } else {
        tr
    }
}

/// A decoded chunk: the pixels that it holds, `samples_per_pixel` samples
/// each, row by row.
pub struct Chunk<T> {
    pub width: usize,
    pub height: usize,
    pub samples: Vec<Option<T>>,
}

/// The sample of a band at a row and column of a chunk; `None` outside it.
pub open spec fn chunk_cell<T>(
    chunk: Chunk<T>,
    samples_per_pixel: int,
    band: int,
    row: int,
    col: int,
) -> Option<T> {
    if 0 <= row < chunk.height && 0 <= col < chunk.width {
        chunk.samples@[(row * chunk.width + col) * samples_per_pixel + band]
    } else {
        None
    }
}

/// The chunk has the sample of a band at a row and column of it.
pub open spec fn has_sample<T>(
    chunk: Chunk<T>,
    samples_per_pixel: int,
    band: int,
    row: int,
    col: int,
) -> bool {
    (row * chunk.width + col) * samples_per_pixel + band < chunk.samples@.len()
}

/// The sample of a band at a row and column of the file, read from its chunk.
pub open spec fn file_cell<T>(
    l: ChunkLayout,
    chunks: Map<(int, int), Chunk<T>>,
    band: int,
    row: int,
    col: int,
) -> Option<T> {
    chunk_cell(
        chunks[(row / l.chunk_height as int, col / l.chunk_width as int)],
        l.samples_per_pixel as int,
        band,
        row % l.chunk_height as int,
        col % l.chunk_width as int,
    )
}

/// A rectangle of cells, ends excluded.
#[derive(Debug, Clone, Copy, PartialEq, Eq, Structural)]
pub struct CellRect {
    pub row0: usize,
    pub col0: usize,
    pub row1: usize,
    pub col1: usize,
}

/// The part of a window that lies in the raster; `None` where there is none.
pub open spec fn clipped_window(
    l: ChunkLayout,
    col0: int,
    row0: int,
    width: int,
    height: int,
) -> Option<(int, int, int, int)> {
    let c0 = limited(0, l.cols as int, col0);
    let r0 = limited(0, l.rows as int, row0);
    let c1 = limited(0, l.cols as int, col0 + width);
    let r1 = limited(0, l.rows as int, row0 + height);
    if c0 == c1 || r0 == r1 {
        None
    } else {
        Some((r0, c0, r1, c1))
    }
}

fn limit(hi: i64, v: i64) -> (r: i64)
    requires
        hi >= 0,
    ensures
        r == limited(0, hi as int, v as int),
{
    if v < 0 {
        0
    } else if v > hi {
        hi
    } else {
        v
    }
}

/// The part of a window that lies in the raster; `None` where there is none.
pub fn clip_window(l: &ChunkLayout, col0: i64, row0: i64, width: usize, height: usize) -> (rect:
    Option<CellRect>)
    requires
        layout_wf(*l),
        col0 + width <= i64::MAX,
        row0 + height <= i64::MAX,
        width <= i64::MAX,
        height <= i64::MAX,
    ensures
        match rect {
            Some(r) => {
                &&& clipped_window(
                    *l,
                    col0 as int,
                    row0 as int,
                    width as int,
                    height as int,
                ) == Some((r.row0 as int, r.col0 as int, r.row1 as int, r.col1 as int))
                &&& r.row0 < r.row1 <= l.rows
                &&& r.col0 < r.col1 <= l.cols
            },
            None => clipped_window(
                *l,
                col0 as int,
                row0 as int,
                width as int,
                height as int,
            ) is None,
        },
{
    let cols: i64 = l.cols as i64;
    let rows: i64 = l.rows as i64;
    let c0: i64 = limit(cols, col0);
    let r0: i64 = limit(rows, row0);
    let c1: i64 = limit(cols, col0 + width as i64);
    let r1: i64 = limit(rows, row0 + height as i64);
    if c0 == c1 || r0 == r1 {
        None
    } else {
        Some(
            CellRect {
                row0: r0 as usize,
                col0: c0 as usize,
                row1: r1 as usize,
                col1: c1 as usize,
            },
        )
    }
}

/// The chunk is no larger than the layout says.
pub open spec fn chunk_in_layout<T>(l: ChunkLayout, chunk: Chunk<T>) -> bool {
    chunk.width <= l.chunk_width && chunk.height <= l.chunk_height
}

/// The chunk in a row and a column of chunks is no larger than the layout says,
/// and has a sample for each cell of the rectangle that it holds.
pub open spec fn chunk_ok<T>(
    l: ChunkLayout,
    rect: (int, int, int, int),
    band: int,
    tr: int,
    tc: int,
    chunk: Chunk<T>,
) -> bool {
    &&& chunk_in_layout(l, chunk)
    &&& forall|row: int, col: int|
        0 <= row < chunk.height && 0 <= col < chunk.width && rect.0 <= tr * l.chunk_height + row
            < rect.2 && rect.1 <= tc * l.chunk_width + col < rect.3 ==> #[trigger] has_sample(
            chunk,
            l.samples_per_pixel as int,
            band,
            row,
            col,
        )
}

/// The row and column of chunks that holds a cell.
pub open spec fn chunk_of(l: ChunkLayout, row: int, col: int) -> (int, int) {
    (row / l.chunk_height as int, col / l.chunk_width as int)
}

/// Cell `k` of a rectangle, counted row by row, as row and column of the file.
pub open spec fn rect_cell(rect: CellRect, k: int) -> (int, int) {
    let width = rect.col1 - rect.col0;
    (rect.row0 + k / width, rect.col0 + k % width)
}

/// The number of cells of a rectangle.
pub open spec fn rect_len(rect: CellRect) -> int {
    (rect.row1 - rect.row0) * (rect.col1 - rect.col0)
}

proof fn lemma_in_chunk(v: int, size: int, chunk: int)
    requires
        size > 0,
        0 <= chunk,
        0 <= v,
    ensures
        v / size == chunk <==> chunk * size <= v < chunk * size + size,
        v / size == chunk ==> v % size == v - chunk * size,
{
    lemma_fundamental_div_mod(v, size);
    lemma_mod_bound(v, size);
    assert(size * (v / size) == (v / size) * size) by (nonlinear_arith);
    if chunk * size <= v < chunk * size + size {
        lemma_fundamental_div_mod_converse(v, size, chunk, v - chunk * size);
    }
}

/// Copies the samples of one chunk to their places in a rectangle; `false` where
/// the chunk lacks one.
fn paste_chunk<T: Copy>(
    cells: &mut Vec<Option<T>>,
    rect: CellRect,
    l: &ChunkLayout,
    band: usize,
    tr: usize,
    tc: usize,
    chunk: &Chunk<T>,
) -> (whole: bool)
    requires
        old(cells)@.len() == rect_len(rect),
        rect.row0 < rect.row1 <= l.rows,
        rect.col0 < rect.col1 <= l.cols,
        band < l.samples_per_pixel,
        l.chunk_width > 0,
        l.chunk_height > 0,
        chunk_in_layout(*l, *chunk),
        tr * l.chunk_height < rect.row1,
        tc * l.chunk_width < rect.col1,
        forall|k: int|
            0 <= k < old(cells)@.len() && chunk_of(
                *l,
                rect_cell(rect, k).0,
                rect_cell(rect, k).1,
            ) == (tr as int, tc as int) ==> (#[trigger] old(cells)@[k]) is None,
    ensures
        final(cells)@.len() == old(cells)@.len(),
        whole == chunk_ok(
            *l,
            (rect.row0 as int, rect.col0 as int, rect.row1 as int, rect.col1 as int),
            band as int,
            tr as int,
            tc as int,
            *chunk,
        ),
        whole ==> forall|k: int|
            0 <= k < old(cells)@.len() ==> #[trigger] final(cells)@[k] == {
                let at = rect_cell(rect, k);
                if chunk_of(*l, at.0, at.1) == (tr as int, tc as int) {
                    chunk_cell(
                        *chunk,
                        l.samples_per_pixel as int,
                        band as int,
                        at.0 % l.chunk_height as int,
                        at.1 % l.chunk_width as int,
                    )
                } else {
                    old(cells)@[k]
                }
            },
{
    let ghost before = cells@;
    let count: usize = cells.len();
    let width: usize = rect.col1 - rect.col0;
    proof {
        assert(0 <= tr * l.chunk_height) by (nonlinear_arith);
        assert(0 <= tc * l.chunk_width) by (nonlinear_arith);
    }
    let br: usize = tr * l.chunk_height;
    let bc: usize = tc * l.chunk_width;
    let y0: usize = if br > rect.row0 {
        br
    } else {
        rect.row0
    };
    let x0: usize = if bc > rect.col0 {
        bc
    } else {
        rect.col0
    };
    let y1: usize = if chunk.height < rect.row1 - br {
        br + chunk.height
    } else {
        rect.row1
    };
    let x1: usize = if chunk.width < rect.col1 - bc {
        bc + chunk.width
    } else {
        rect.col1
    };
    let mut y: usize = y0;
    while y < y1
        invariant
            br == tr * l.chunk_height,
            bc == tc * l.chunk_width,
            rect.row0 < rect.row1 <= l.rows,
            rect.col0 < rect.col1 <= l.cols,
            width == rect.col1 - rect.col0,
            band < l.samples_per_pixel,
            chunk_in_layout(*l, *chunk),
            before == old(cells)@,
            count == before.len(),
            cells@.len() == before.len(),
            before.len() == rect_len(rect),
            rect.row0 <= y0,
            rect.col0 <= x0,
            br <= y0,
            bc <= x0,
            y1 <= rect.row1,
            x1 <= rect.col1,
            y1 <= br + chunk.height,
            x1 <= bc + chunk.width,
            y0 <= y,
            y <= y1 || y == y0,
            forall|row: int, col: int|
                y0 - br <= row < y - br && x0 - bc <= col < x1 - bc ==> #[trigger] has_sample(
                    *chunk,
                    l.samples_per_pixel as int,
                    band as int,
                    row,
                    col,
                ),
            forall|k: int|
                0 <= k < before.len() ==> #[trigger] cells@[k] == {
                    let at = rect_cell(rect, k);
                    if y0 <= at.0 < y && x0 <= at.1 < x1 {
                        chunk_cell(
                            *chunk,
                            l.samples_per_pixel as int,
                            band as int,
                            at.0 - br,
                            at.1 - bc,
                        )
                    } else {
                        before[k]
                    }
                },
        decreases y1 - y,
    {
        let mut x: usize = x0;
        while x < x1
            invariant
                br == tr * l.chunk_height,
                bc == tc * l.chunk_width,
                rect.row0 < rect.row1 <= l.rows,
                rect.col0 < rect.col1 <= l.cols,
                width == rect.col1 - rect.col0,
                band < l.samples_per_pixel,
                chunk_in_layout(*l, *chunk),
                before == old(cells)@,
                count == before.len(),
                cells@.len() == before.len(),
                before.len() == rect_len(rect),
                rect.row0 <= y0 <= y < y1,
                rect.col0 <= x0,
                br <= y0,
                bc <= x0,
                y1 <= rect.row1,
                x1 <= rect.col1,
                y1 <= br + chunk.height,
                x1 <= bc + chunk.width,
                x0 <= x,
                x <= x1 || x == x0,
                forall|row: int, col: int|
                    (y0 - br <= row < y - br && x0 - bc <= col < x1 - bc) || (row == y - br && x0
                        - bc <= col < x - bc) ==> #[trigger] has_sample(
                        *chunk,
                        l.samples_per_pixel as int,
                        band as int,
                        row,
                        col,
                    ),
                forall|k: int|
                    0 <= k < before.len() ==> #[trigger] cells@[k] == {
                        let at = rect_cell(rect, k);
                        if (y0 <= at.0 < y && x0 <= at.1 < x1) || (at.0 == y && x0 <= at.1 < x) {
                            chunk_cell(
                                *chunk,
                                l.samples_per_pixel as int,
                                band as int,
                                at.0 - br,
                                at.1 - bc,
                            )
                        } else {
                            before[k]
                        }
                    },
            decreases x1 - x,
        {
            let ghost now = cells@;
            let row: usize = y - br;
            let col: usize = x - bc;
            let up: usize = y - rect.row0;
            let left: usize = x - rect.col0;
            proof {
                lemma_position(up as int, left as int, rect.row1 - rect.row0, width as int);
                assert(0 <= up * width) by (nonlinear_arith);
            }
            let idx: usize = match sample_index(chunk, l.samples_per_pixel, band, row, col) {
                Some(i) => i,
                None => {
                    assert(!has_sample(
                        *chunk,
                        l.samples_per_pixel as int,
                        band as int,
                        row as int,
                        col as int,
                    ));
                    return false;
                },
            };
            let dst: usize = up * width + left;
            let v: Option<T> = chunk.samples[idx];
            cells[dst] = v;
            proof {
                assert forall|k: int| 0 <= k < before.len() implies #[trigger] cells@[k] == {
                    let at = rect_cell(rect, k);
                    if (y0 <= at.0 < y && x0 <= at.1 < x1) || (at.0 == y && x0 <= at.1 < x + 1) {
                        chunk_cell(
                            *chunk,
                            l.samples_per_pixel as int,
                            band as int,
                            at.0 - br,
                            at.1 - bc,
                        )
                    } else {
                        before[k]
                    }
                } by {
                    lemma_row_col(k, rect.row1 - rect.row0, width as int);
                    if k != dst {
                        assert(cells@[k] == now[k]);
                        let at = rect_cell(rect, k);
                        if at.0 == y && at.1 == x {
                            assert(k == up * width + left);
                        }
                    }
                }
            }
            x = x + 1;
        }
        y = y + 1;
    }
    proof {
        assert forall|k: int| 0 <= k < before.len() implies #[trigger] cells@[k] == {
            let at = rect_cell(rect, k);
            if chunk_of(*l, at.0, at.1) == (tr as int, tc as int) {
                chunk_cell(
                    *chunk,
                    l.samples_per_pixel as int,
                    band as int,
                    at.0 % l.chunk_height as int,
                    at.1 % l.chunk_width as int,
                )
            } else {
                before[k]
            }
        } by {
            lemma_row_col(k, rect.row1 - rect.row0, width as int);
            let at = rect_cell(rect, k);
            lemma_in_chunk(at.0, l.chunk_height as int, tr as int);
            lemma_in_chunk(at.1, l.chunk_width as int, tc as int);
        }
    }
    true
}

/// The place of a band's sample at a row and column of a chunk; `None` where
/// the chunk does not have it.
fn sample_index<T>(
    chunk: &Chunk<T>,
    samples_per_pixel: usize,
    band: usize,
    row: usize,
    col: usize,
) -> (index: Option<usize>)
    requires
        band < samples_per_pixel,
    ensures
        index is Some <==> has_sample(
            *chunk,
            samples_per_pixel as int,
            band as int,
            row as int,
            col as int,
        ),
        index matches Some(i) ==> i == (row * chunk.width + col) * samples_per_pixel + band,
{
    let have: usize = chunk.samples.len();
    proof {
        let p = row * chunk.width + col;
        assert(0 <= row * chunk.width) by (nonlinear_arith);
        assert(p <= p * samples_per_pixel) by (nonlinear_arith)
            requires
                0 <= p,
                1 <= samples_per_pixel,
        ;
    }
    match row.checked_mul(chunk.width) {
        Some(above) => match above.checked_add(col) {
            Some(pixel) => match pixel.checked_mul(samples_per_pixel) {
                Some(first) => match first.checked_add(band) {
                    Some(index) => if index < have {
                        Some(index)
                    } else {
                        None
                    },
                    None => None,
                },
                None => None,
            },
            None => None,
        },
        None => None,
    }
}

/// The chunk in a row and a column of chunks meets the rectangle.
pub open spec fn meets(l: ChunkLayout, rect: (int, int, int, int), tr: int, tc: int) -> bool {
    let ch = l.chunk_height as int;
    let cw = l.chunk_width as int;
    rect.0 / ch <= tr < ceil_div(rect.2, ch) && rect.1 / cw <= tc < ceil_div(rect.3, cw)
}

/// Chunk `at` comes before the one in row `tr` and column `tc`, row by row.
pub open spec fn comes_earlier(at: (int, int), tr: int, tc: int) -> bool {
    at.0 < tr || (at.0 == tr && at.1 < tc)
}

/// Reading the chunk in a row and a column of chunks gave `chunk`, which has
/// what the rectangle needs of it.
pub open spec fn is_chunk_read<T, D>(
    l: ChunkLayout,
    rect: (int, int, int, int),
    band: int,
    read: D,
    tr: int,
    tc: int,
    chunk: Chunk<T>,
) -> bool where D: Fn(u32) -> Result<Chunk<T>, Error> {
    &&& call_ensures(
        read,
        (chunk_index(l, tr, tc) as u32,),
        Ok::<Chunk<T>, Error>(chunk),
    )
    &&& chunk_ok(l, rect, band, tr, tc, chunk)
}

/// `chunks` are what reading each chunk gave that meets the rectangle.
pub open spec fn are_read<T, D>(
    l: ChunkLayout,
    rect: (int, int, int, int),
    band: int,
    read: D,
    chunks: Map<(int, int), Chunk<T>>,
) -> bool where D: Fn(u32) -> Result<Chunk<T>, Error> {
    forall|a: int, b: int|
        meets(l, rect, a, b) ==> is_chunk_read(
            l,
            rect,
            band,
            read,
            a,
            b,
            #[trigger] chunks[(a, b)],
        )
}

/// `chunks` are what reading each chunk gave that meets the rectangle and comes
/// before the one in row `tr` and column `tc`, row by row.
pub open spec fn are_read_before<T, D>(
    l: ChunkLayout,
    rect: (int, int, int, int),
    band: int,
    read: D,
    chunks: Map<(int, int), Chunk<T>>,
    tr: int,
    tc: int,
) -> bool where D: Fn(u32) -> Result<Chunk<T>, Error> {
    forall|a: int, b: int|
        meets(l, rect, a, b) && comes_earlier((a, b), tr, tc) ==> is_chunk_read(
            l,
            rect,
            band,
            read,
            a,
            b,
            #[trigger] chunks[(a, b)],
        )
}

/// `grid` is the rectangle of a band: it has its extent, and each cell is the
/// sample that its chunk holds.
pub open spec fn is_read_window<T: Copy, D>(
    l: ChunkLayout,
    rect: (int, int, int, int),
    band: int,
    read: D,
    grid: Grid<T>,
) -> bool where D: Fn(u32) -> Result<Chunk<T>, Error> {
    &&& grid.rows == rect.2 - rect.0
    &&& grid.cols == rect.3 - rect.1
    &&& exists|chunks: Map<(int, int), Chunk<T>>|
        {
            &&& #[trigger] are_read(l, rect, band, read, chunks)
            &&& forall|r: int, c: int|
                0 <= r < grid.rows && 0 <= c < grid.cols ==> #[trigger] grid.cell(r, c)
                    == file_cell(l, chunks, band, rect.0 + r, rect.1 + c)
        }
}

/// Reading a chunk failed with `e`, or gave one that lacks what the rectangle
/// needs of it.
pub open spec fn chunk_failed<T, D>(
    l: ChunkLayout,
    rect: (int, int, int, int),
    band: int,
    read: D,
    tr: int,
    tc: int,
    e: Error,
) -> bool where D: Fn(u32) -> Result<Chunk<T>, Error> {
    ||| call_ensures(read, (chunk_index(l, tr, tc) as u32,), Err::<Chunk<T>, Error>(e))
    ||| e == Error::InvalidInput(Invalid::BadChunk) && exists|chunk: Chunk<T>| #[trigger]
        call_ensures(read, (chunk_index(l, tr, tc) as u32,), Ok::<Chunk<T>, Error>(chunk))
            && !chunk_ok(l, rect, band, tr, tc, chunk)
}

/// `e` is the error of the first chunk, row by row, that meets the rectangle and
/// failed: each before it was read.
pub open spec fn is_first_failure<T, D>(
    l: ChunkLayout,
    rect: (int, int, int, int),
    band: int,
    read: D,
    e: Error,
) -> bool where D: Fn(u32) -> Result<Chunk<T>, Error> {
    exists|tr: int, tc: int, chunks: Map<(int, int), Chunk<T>>|
        {
            &&& meets(l, rect, tr, tc)
            &&& chunk_failed(l, rect, band, read, tr, tc, e)
            &&& #[trigger] are_read_before(l, rect, band, read, chunks, tr, tc)
        }
}

proof fn lemma_cell_meets(l: ChunkLayout, rect: (int, int, int, int), row: int, col: int)
    requires
        l.chunk_width > 0,
        l.chunk_height > 0,
        0 <= rect.0 <= row < rect.2,
        0 <= rect.1 <= col < rect.3,
    ensures
        meets(l, rect, chunk_of(l, row, col).0, chunk_of(l, row, col).1),
{
    lemma_axis_meets(rect.0, row, rect.2, l.chunk_height as int);
    lemma_axis_meets(rect.1, col, rect.3, l.chunk_width as int);
}

proof fn lemma_axis_meets(lo: int, v: int, hi: int, size: int)
    requires
        size > 0,
        0 <= lo <= v < hi,
    ensures
        lo / size <= v / size < ceil_div(hi, size),
{
    lemma_div_is_ordered(lo, v, size);
    lemma_ceil_div(hi, size);
    lemma_fundamental_div_mod(v, size);
    lemma_mod_bound(v, size);
    let q = v / size;
    let n = ceil_div(hi, size);
    assert(q < n) by (nonlinear_arith)
        requires
            size * q <= v,
            v < hi,
            n * size >= hi,
            size > 0,
    ;
}

proof fn lemma_chunk_number(l: ChunkLayout, rect: (int, int, int, int), tr: int, tc: int)
    requires
        layout_wf(l),
        0 <= rect.0 < rect.2 <= l.rows,
        0 <= rect.1 < rect.3 <= l.cols,
        meets(l, rect, tr, tc),
    ensures
        0 <= tr,
        0 <= tc,
        tr * l.chunk_height < rect.2,
        tc * l.chunk_width < rect.3,
        tr < ceil_div(l.rows as int, l.chunk_height as int),
        tc < ceil_div(l.cols as int, l.chunk_width as int),
        0 <= chunk_index(l, tr, tc) < u32::MAX + 1,
        l.tiled ==> tr * ceil_div(l.cols as int, l.chunk_width as int) <= u32::MAX,
{
    let ch = l.chunk_height as int;
    let cw = l.chunk_width as int;
    let down = ceil_div(l.rows as int, ch);
    let across = ceil_div(l.cols as int, cw);
    lemma_div_pos_is_pos(rect.0, ch);
    lemma_div_pos_is_pos(rect.1, cw);
    lemma_ceil_div(rect.2, ch);
    lemma_ceil_div(rect.3, cw);
    lemma_div_is_ordered(rect.2 + ch - 1, l.rows + ch - 1, ch);
    lemma_div_is_ordered(rect.3 + cw - 1, l.cols + cw - 1, cw);
    lemma_ceil_div(l.cols as int, cw);
    assert(tr * ch <= (ceil_div(rect.2, ch) - 1) * ch) by (nonlinear_arith)
        requires
            tr <= ceil_div(rect.2, ch) - 1,
            ch > 0,
    ;
    assert(tc * cw <= (ceil_div(rect.3, cw) - 1) * cw) by (nonlinear_arith)
        requires
            tc <= ceil_div(rect.3, cw) - 1,
            cw > 0,
    ;
    lemma_position(tr, tc, down, across);
    assert(0 <= tr * across) by (nonlinear_arith)
        requires
            0 <= tr,
            0 <= across,
    ;
    assert(tr <= tr * across) by (nonlinear_arith)
        requires
            0 <= tr,
            1 <= across,
    ;
}

/// Reads a rectangle of one band, decoding only the chunks that meet it, each
/// once.
///
/// The window is clipped to the raster: a request that pokes outside gives the
/// part inside, and one that lies outside is an error.
pub fn read_band_window<T: Copy, D>(
    l: &ChunkLayout,
    band: usize,
    col0: i64,
    row0: i64,
    width: usize,
    height: usize,
    read: &D,
) -> (window: Result<Grid<T>, Error>) where D: Fn(u32) -> Result<Chunk<T>, Error>
    requires
        layout_wf(*l),
        band < l.samples_per_pixel,
        col0 + width <= i64::MAX,
        row0 + height <= i64::MAX,
        width <= i64::MAX,
        height <= i64::MAX,
        l.rows * l.cols <= usize::MAX,
        forall|i: u32| call_requires(*read, (i,)),
    ensures
        match clipped_window(*l, col0 as int, row0 as int, width as int, height as int) {
            None => window == Err::<Grid<T>, Error>(Error::InvalidInput(Invalid::WindowOutside)),
            Some(rect) => match window {
                Ok(grid) => grid.wf() && is_read_window(*l, rect, band as int, *read, grid),
                Err(e) => is_first_failure::<T, D>(*l, rect, band as int, *read, e),
            },
        },
{
    let rect: CellRect = match clip_window(l, col0, row0, width, height) {
        Some(r) => r,
        None => {
            return Err(Error::InvalidInput(Invalid::WindowOutside));
        },
    };
    let ghost area = (rect.row0 as int, rect.col0 as int, rect.row1 as int, rect.col1 as int);
    let h: usize = rect.row1 - rect.row0;
    let w: usize = rect.col1 - rect.col0;
    proof {
        assert(0 <= h * w <= l.rows * l.cols) by (nonlinear_arith)
            requires
                0 <= h <= l.rows,
                0 <= w <= l.cols,
        ;
    }
    let n: usize = h * w;
    let mut cells: Vec<Option<T>> = Vec::new();
    for k in 0..n
        invariant
            cells@.len() == k,
            forall|i: int| 0 <= i < k ==> (#[trigger] cells@[i]) is None,
    {
        cells.push(None);
    }
    let across: usize = div_ceil(l.cols, l.chunk_width);
    let first_r: usize = rect.row0 / l.chunk_height;
    let first_c: usize = rect.col0 / l.chunk_width;
    let last_r: usize = div_ceil(rect.row1, l.chunk_height);
    let last_c: usize = div_ceil(rect.col1, l.chunk_width);
    let ghost mut chunks: Map<(int, int), Chunk<T>> = Map::empty();
    proof {
        lemma_cell_meets(*l, area, rect.row0 as int, rect.col0 as int);
        assert forall|k: int| 0 <= k < cells@.len() implies #[trigger] cells@[k]
            == if comes_earlier(
            chunk_of(*l, rect_cell(rect, k).0, rect_cell(rect, k).1),
            first_r as int,
            first_c as int,
        ) {
            file_cell(
                *l,
                chunks,
                band as int,
                rect_cell(rect, k).0,
                rect_cell(rect, k).1,
            )
        } else {
            None
        } by {
            lemma_row_col(k, h as int, w as int);
            lemma_cell_meets(*l, area, rect_cell(rect, k).0, rect_cell(rect, k).1);
        }
    }
    let mut tr: usize = first_r;
    while tr < last_r
        invariant
            layout_wf(*l),
            band < l.samples_per_pixel,
            forall|i: u32| call_requires(*read, (i,)),
            area == (rect.row0 as int, rect.col0 as int, rect.row1 as int, rect.col1 as int),
            Some(area) == clipped_window(
                *l,
                col0 as int,
                row0 as int,
                width as int,
                height as int,
            ),
            rect.row0 < rect.row1 <= l.rows,
            rect.col0 < rect.col1 <= l.cols,
            h == rect.row1 - rect.row0,
            w == rect.col1 - rect.col0,
            n == h * w,
            cells@.len() == n,
            across == ceil_div(l.cols as int, l.chunk_width as int),
            first_r == area.0 / l.chunk_height as int,
            first_c == area.1 / l.chunk_width as int,
            last_r == ceil_div(area.2, l.chunk_height as int),
            last_c == ceil_div(area.3, l.chunk_width as int),
            first_c < last_c,
            first_r <= tr <= last_r,
            are_read_before(*l, area, band as int, *read, chunks, tr as int, first_c as int),
            forall|k: int|
                0 <= k < cells@.len() ==> #[trigger] cells@[k] == if comes_earlier(
                    chunk_of(*l, rect_cell(rect, k).0, rect_cell(rect, k).1),
                    tr as int,
                    first_c as int,
                ) {
                    file_cell(
                        *l,
                        chunks,
                        band as int,
                        rect_cell(rect, k).0,
                        rect_cell(rect, k).1,
                    )
                } else {
                    None
                },
        decreases last_r - tr,
    {
        let mut tc: usize = first_c;
        while tc < last_c
            invariant
                layout_wf(*l),
                band < l.samples_per_pixel,
                forall|i: u32| call_requires(*read, (i,)),
                area == (rect.row0 as int, rect.col0 as int, rect.row1 as int, rect.col1 as int),
                Some(area) == clipped_window(
                    *l,
                    col0 as int,
                    row0 as int,
                    width as int,
                    height as int,
                ),
                rect.row0 < rect.row1 <= l.rows,
                rect.col0 < rect.col1 <= l.cols,
                h == rect.row1 - rect.row0,
                w == rect.col1 - rect.col0,
                n == h * w,
                cells@.len() == n,
                across == ceil_div(l.cols as int, l.chunk_width as int),
                first_r == area.0 / l.chunk_height as int,
                first_c == area.1 / l.chunk_width as int,
                last_r == ceil_div(area.2, l.chunk_height as int),
                last_c == ceil_div(area.3, l.chunk_width as int),
                first_r <= tr < last_r,
                first_c <= tc <= last_c,
                are_read_before(*l, area, band as int, *read, chunks, tr as int, tc as int),
                forall|k: int|
                    0 <= k < cells@.len() ==> #[trigger] cells@[k] == if comes_earlier(
                        chunk_of(*l, rect_cell(rect, k).0, rect_cell(rect, k).1),
                        tr as int,
                        tc as int,
                    ) {
                        file_cell(
                            *l,
                            chunks,
                            band as int,
                            rect_cell(rect, k).0,
                            rect_cell(rect, k).1,
                        )
                    } else {
                        None
                    },
            decreases last_c - tc,
        {
            proof {
                assert(meets(*l, area, tr as int, tc as int));
                lemma_chunk_number(*l, area, tr as int, tc as int);
            }
            let idx: u32 = if l.tiled {
                (tr * across + tc) as u32
            } else {
                tr as u32
            };
            let chunk: Chunk<T> = match read(idx) {
                Ok(c) => c,
                Err(e) => {
                    assert(chunk_failed::<T, D>(
                        *l,
                        area,
                        band as int,
                        *read,
                        tr as int,
                        tc as int,
                        e,
                    ));
                    return Err(e);
                },
            };
            let ghost known = chunks;
            let ghost before = cells@;
            if chunk.width > l.chunk_width || chunk.height > l.chunk_height || !paste_chunk(
                &mut cells,
                rect,
                l,
                band,
                tr,
                tc,
                &chunk,
            ) {
                assert(chunk_failed::<T, D>(
                    *l,
                    area,
                    band as int,
                    *read,
                    tr as int,
                    tc as int,
                    Error::InvalidInput(Invalid::BadChunk),
                ));
                return Err(Error::InvalidInput(Invalid::BadChunk));
            }
            proof {
                chunks = known.insert((tr as int, tc as int), chunk);
                assert forall|k: int| 0 <= k < cells@.len() implies #[trigger] cells@[k]
                    == if comes_earlier(
                    chunk_of(*l, rect_cell(rect, k).0, rect_cell(rect, k).1),
                    tr as int,
                    tc + 1,
                ) {
                    file_cell(
                        *l,
                        chunks,
                        band as int,
                        rect_cell(rect, k).0,
                        rect_cell(rect, k).1,
                    )
                } else {
                    None
                } by {
                    let at = rect_cell(rect, k);
                    let c = chunk_of(*l, at.0, at.1);
                    assert(before[k] == if comes_earlier(c, tr as int, tc as int) {
                        file_cell(*l, known, band as int, at.0, at.1)
                    } else {
                        None
                    });
                    if c == (tr as int, tc as int) {
                        assert(chunks[c] == chunk);
                    } else {
                        assert(comes_earlier(c, tr as int, tc + 1) == comes_earlier(
                            c,
                            tr as int,
                            tc as int,
                        ));
                    }
                }
                assert forall|a: int, b: int|
                    meets(*l, area, a, b) && comes_earlier(
                        (a, b),
                        tr as int,
                        tc + 1,
                    ) implies is_chunk_read(
                    *l,
                    area,
                    band as int,
                    *read,
                    a,
                    b,
                    #[trigger] chunks[(a, b)],
                ) by {
                    if (a, b) != (tr as int, tc as int) {
                        assert(comes_earlier((a, b), tr as int, tc as int));
                        assert(chunks[(a, b)] == known[(a, b)]);
                    }
                }
            }
            tc = tc + 1;
        }
        proof {
            assert forall|k: int| 0 <= k < cells@.len() implies #[trigger] cells@[k]
                == if comes_earlier(
                chunk_of(*l, rect_cell(rect, k).0, rect_cell(rect, k).1),
                tr + 1,
                first_c as int,
            ) {
                file_cell(
                    *l,
                    chunks,
                    band as int,
                    rect_cell(rect, k).0,
                    rect_cell(rect, k).1,
                )
            } else {
                None
            } by {
                lemma_row_col(k, h as int, w as int);
                lemma_cell_meets(*l, area, rect_cell(rect, k).0, rect_cell(rect, k).1);
            }
            assert forall|a: int, b: int|
                meets(*l, area, a, b) && comes_earlier(
                    (a, b),
                    tr + 1,
                    first_c as int,
                ) implies is_chunk_read(
                *l,
                area,
                band as int,
                *read,
                a,
                b,
                #[trigger] chunks[(a, b)],
            ) by {
                assert(comes_earlier((a, b), tr as int, last_c as int));
            }
        }
        tr = tr + 1;
    }
    let grid = Grid { rows: h, cols: w, cells };
    proof {
        assert(are_read(*l, area, band as int, *read, chunks)) by {
            assert forall|a: int, b: int| meets(*l, area, a, b) implies is_chunk_read(
                *l,
                area,
                band as int,
                *read,
                a,
                b,
                #[trigger] chunks[(a, b)],
            ) by {
                assert(comes_earlier((a, b), last_r as int, first_c as int));
            }
        }
        assert forall|r: int, c: int| 0 <= r < grid.rows && 0 <= c < grid.cols implies #[trigger]
        grid.cell(r, c) == file_cell(*l, chunks, band as int, area.0 + r, area.1 + c) by {
            lemma_position(r, c, h as int, w as int);
            let k = r * w + c;
            assert(rect_cell(rect, k) == (area.0 + r, area.1 + c));
            lemma_cell_meets(*l, area, area.0 + r, area.1 + c);
            assert(grid.cells@[k] == file_cell(*l, chunks, band as int, area.0 + r, area.1 + c));
        }
    }
    Ok(grid)
}

/// A window is cut to its intersection with the raster, and there is none where
/// the two do not meet.
pub proof fn windows_are_cut_to_the_raster(
    l: ChunkLayout,
    col0: int,
    row0: int,
    width: int,
    height: int,
)
    requires
        0 <= width,
        0 <= height,
    ensures
        ({
            let top = from_zero(row0);
            let left = from_zero(col0);
            let bottom = up_to(row0 + height, l.rows + 1);
            let right = up_to(col0 + width, l.cols + 1);
            clipped_window(l, col0, row0, width, height) == if top < bottom && left < right {
                Some((top, left, bottom, right))
            } else {
                None
            }
        }),
{
}

/// A window read from a file has, cell by cell, what the whole raster has that
/// is read from the same chunks.
pub proof fn windows_read_the_cells_of_the_whole<T: Copy, D>(
    l: ChunkLayout,
    rect: (int, int, int, int),
    band: int,
    read: D,
    part: Grid<T>,
    whole: Grid<T>,
    row: int,
    col: int,
) where D: Fn(u32) -> Result<Chunk<T>, Error>
    requires
        layout_wf(l),
        0 <= rect.0 && rect.2 <= l.rows,
        0 <= rect.1 && rect.3 <= l.cols,
        is_read_window(l, rect, band, read, part),
        is_read_window(l, (0, 0, l.rows as int, l.cols as int), band, read, whole),
        forall|i: u32, a: Chunk<T>, b: Chunk<T>|
            call_ensures(read, (i,), Ok::<Chunk<T>, Error>(a)) && call_ensures(
                read,
                (i,),
                Ok::<Chunk<T>, Error>(b),
            ) ==> a == b,
        0 <= row < part.rows,
        0 <= col < part.cols,
    ensures
        part.cell(row, col) == whole.cell(rect.0 + row, rect.1 + col),
{
    let all = (0int, 0int, l.rows as int, l.cols as int);
    let some = choose|chunks: Map<(int, int), Chunk<T>>|
        {
            &&& #[trigger] are_read(l, rect, band, read, chunks)
            &&& forall|r: int, c: int|
                0 <= r < part.rows && 0 <= c < part.cols ==> #[trigger] part.cell(r, c)
                    == file_cell(l, chunks, band, rect.0 + r, rect.1 + c)
        };
    let every = choose|chunks: Map<(int, int), Chunk<T>>|
        {
            &&& #[trigger] are_read(l, all, band, read, chunks)
            &&& forall|r: int, c: int|
                0 <= r < whole.rows && 0 <= c < whole.cols ==> #[trigger] whole.cell(r, c)
                    == file_cell(l, chunks, band, all.0 + r, all.1 + c)
        };
    let (y, x) = (rect.0 + row, rect.1 + col);
    lemma_cell_meets(l, rect, y, x);
    lemma_cell_meets(l, all, y, x);
    let at = chunk_of(l, y, x);
    let i = chunk_index(l, at.0, at.1) as u32;
    assert(call_ensures(read, (i,), Ok::<Chunk<T>, Error>(some[(at.0, at.1)])));
    assert(call_ensures(read, (i,), Ok::<Chunk<T>, Error>(every[(at.0, at.1)])));
    assert(part.cell(row, col) == file_cell(l, some, band, y, x));
    assert(whole.cell(y, x) == file_cell(l, every, band, 0 + y, 0 + x));
}

/// `source` is the window of a file as a source in memory: nothing of a source
/// that is in memory already, no band where the tile does not meet the file,
/// else each of its bands.
pub open spec fn is_part<T: Copy, X, R>(
    file: RasterSource<T, X>,
    window: Option<Window>,
    read: R,
    source: Result<Option<RasterSource<T, X>>, Error>,
) -> bool where R: Fn(usize, Window) -> Result<Band<T, X>, Error> {
    match file.data {
        SourceData::Memory(_) => source == Ok::<Option<RasterSource<T, X>>, Error>(None),
        SourceData::File(f) => match window {
            None => {
                &&& source matches Ok(Some(s))
                &&& s.crs == file.crs
                &&& s.data matches SourceData::Memory(v)
                &&& v@.len() == 0
            },
            Some(w) => match source {
                Ok(s) => {
                    &&& s matches Some(m)
                    &&& m.crs == file.crs
                    &&& m.data matches SourceData::Memory(v)
                    &&& v@.len() == f.bands@.len()
                    &&& forall|i: int|
                        0 <= i < v@.len() ==> call_ensures(
                            read,
                            (f.bands@[i], w),
                            Ok::<Band<T, X>, Error>(#[trigger] v@[i]),
                        )
                },
                Err(e) => band_failed(f.bands@, w, read, e),
            },
        },
    }
}

/// `source` is what a tile needs of a file, as a source in memory: the window
/// that the tile reads. See [`is_part`].
pub open spec fn is_window_source<T: Copy, X, R>(
    file: RasterSource<T, X>,
    at: Option<PixelBox>,
    read: R,
    source: Result<Option<RasterSource<T, X>>, Error>,
) -> bool where R: Fn(usize, Window) -> Result<Band<T, X>, Error> {
    exists|window: Option<Window>|
        #[trigger] file.is_tile_window(at, window) && is_part(file, window, read, source)
}

/// `got` are the windows of the first bands.
pub open spec fn are_bands_read<T, X, R>(
    bands: Seq<usize>,
    window: Window,
    read: R,
    got: Seq<Band<T, X>>,
) -> bool where R: Fn(usize, Window) -> Result<Band<T, X>, Error> {
    &&& got.len() <= bands.len()
    &&& forall|i: int|
        0 <= i < got.len() ==> call_ensures(
            read,
            (bands[i], window),
            Ok::<Band<T, X>, Error>(#[trigger] got[i]),
        )
}

/// `e` is the error of the first band whose window could not be read: each
/// before it was read.
pub open spec fn band_failed<T, X, R>(bands: Seq<usize>, window: Window, read: R, e: Error) -> bool
    where R: Fn(usize, Window) -> Result<Band<T, X>, Error>
{
    exists|got: Seq<Band<T, X>>|
        {
            &&& #[trigger] are_bands_read(bands, window, read, got)
            &&& got.len() < bands.len()
            &&& call_ensures(
                read,
                (bands[got.len() as int], window),
                Err::<Band<T, X>, Error>(e),
            )
        }
}

/// Brings the window of source pixels that a tile needs into memory, with
/// `read` for each band of a file. A source in memory needs none. `at` is where
/// the tile's edges lie in the source, `None` where that cannot be told.
pub fn window_source<T: Copy, X, R>(
    file: &RasterSource<T, X>,
    at: Option<PixelBox>,
    read: &R,
) -> (source: Result<Option<RasterSource<T, X>>, Error>) where
    R: Fn(usize, Window) -> Result<Band<T, X>, Error>,

    requires
        has_margin(at),
        file.has_extent(),
        forall|b: usize, w: Window| call_requires(*read, (b, w)),
        forall|b: usize, w: Window, got: Band<T, X>| #[trigger]
            call_ensures(*read, (b, w), Ok::<Band<T, X>, Error>(got)) ==> got.grid.wf(),
    ensures
        is_window_source(*file, at, *read, source),
        source matches Ok(Some(s)) ==> s.wf(),
{
    let window: Option<Window> = file.window_rect(at);
    assert(file.is_tile_window(at, window));
    match &file.data {
        SourceData::Memory(_) => Ok(None),
        SourceData::File(f) => {
            let mut bands: Vec<Band<T, X>> = Vec::new();
            if let Some(w) = window {
                for i in 0..f.bands.len()
                    invariant
                        file.data == SourceData::<T, X>::File(*f),
                        window == Some(w),
                        file.is_tile_window(at, window),
                        forall|b: usize, u: Window| call_requires(*read, (b, u)),
                        forall|b: usize, u: Window, got: Band<T, X>| #[trigger]
                            call_ensures(*read, (b, u), Ok::<Band<T, X>, Error>(got))
                                ==> got.grid.wf(),
                        bands@.len() == i,
                        forall|j: int|
                            0 <= j < i ==> call_ensures(
                                *read,
                                (f.bands@[j], w),
                                Ok::<Band<T, X>, Error>(#[trigger] bands@[j]),
                            ),
                        forall|j: int| 0 <= j < i ==> (#[trigger] bands@[j]).grid.wf(),
                {
                    match read(f.bands[i], w) {
                        Ok(band) => {
                            bands.push(band);
                        },
                        Err(e) => {
                            assert(are_bands_read(f.bands@, w, *read, bands@));
                            assert(band_failed::<T, X, R>(f.bands@, w, *read, e));
                            return Err(e);
                        },
                    }
                }
            }
            Ok(Some(RasterSource { data: SourceData::Memory(bands), crs: file.crs }))
        },
    }
}

/// `part` is the window of `whole`: it has the window's extent and the cells
/// that stand there.
pub open spec fn is_window_of<T: Copy>(whole: Grid<T>, w: Window, part: Grid<T>) -> bool {
    &&& part.rows == w.height
    &&& part.cols == w.width
    &&& forall|row: int, col: int|
        0 <= row < part.rows && 0 <= col < part.cols ==> #[trigger] part.cell(row, col)
            == whole.cell(w.row0 + row, w.col0 + col)
}

/// The tile at `at` reads window `w` of a raster of this extent.
pub open spec fn is_window_at(at: PixelBox, rows: int, cols: int, w: Window) -> bool {
    window_of(at, rows, cols) == Some(
        (w.col0 as int, w.row0 as int, w.width as int, w.height as int),
    )
}

/// The cells that a tile may read: those of its own and a margin, whether or
/// not the raster holds them.
pub open spec fn is_near(at: PixelBox, row: int, col: int) -> bool {
    &&& at.row_low - MARGIN <= row < at.row_high + MARGIN
    &&& at.col_low - MARGIN <= col < at.col_high + MARGIN
}

/// A cell that a tile reads from its window is the cell of the whole raster;
/// where the one has no sample, the other has none.
pub proof fn windows_have_the_cells_of_the_whole<T: Copy>(
    whole: Grid<T>,
    at: PixelBox,
    w: Window,
    part: Grid<T>,
    row: int,
    col: int,
)
    requires
        is_window_at(at, whole.rows as int, whole.cols as int, w),
        is_window_of(whole, w, part),
        is_near(at, row, col),
    ensures
        part.cell(row - w.row0, col - w.col0) == whole.cell(row, col),
{
    let (r, c) = (row - w.row0, col - w.col0);
    if 0 <= r < part.rows && 0 <= c < part.cols {
        assert(part.cell(r, c) == whole.cell(w.row0 + r, w.col0 + c));
    }
}

/// `whole` is the raster of a file: it has its extent, and each window that
/// `read` gives is a window of it.
pub open spec fn is_raster_of<T: Copy, X, R>(
    file: RasterSource<T, X>,
    read: R,
    whole: RasterSource<T, X>,
) -> bool where R: Fn(usize, Window) -> Result<Band<T, X>, Error> {
    &&& file.data matches SourceData::File(f)
    &&& whole.data matches SourceData::Memory(bands)
    &&& bands@.len() == f.bands@.len()
    &&& forall|i: int|
        0 <= i < bands@.len() ==> (#[trigger] bands@[i]).grid.rows == f.rows
            && bands@[i].grid.cols == f.cols
    &&& forall|i: int, w: Window, got: Band<T, X>|
        #![trigger bands@[i], call_ensures(read, (f.bands@[i], w), Ok::<Band<T, X>, Error>(got))]
        0 <= i < bands@.len() && call_ensures(
            read,
            (f.bands@[i], w),
            Ok::<Band<T, X>, Error>(got),
        ) ==> is_window_of(bands@[i].grid, w, got.grid)
}

/// A tile at `at` sees the same in `part`, the window `w` of a raster, as in the
/// raster: each cell that it may read has the same sample, or none in both.
pub open spec fn seen_alike<T: Copy, X>(
    whole: RasterSource<T, X>,
    part: RasterSource<T, X>,
    at: PixelBox,
    w: Window,
) -> bool {
    &&& part.bands() == whole.bands()
    &&& part.data is Memory
    &&& forall|b: int, row: int, col: int|
        0 <= b < whole.bands() && is_near(at, row, col) ==> part.cell(
            b,
            row - w.row0,
            col - w.col0,
        ) == #[trigger] whole.cell(b, row, col)
}

/// A tile of a file reads what the tile of the same raster in memory reads: the
/// window that is brought into memory has, band by band, the raster's cells.
pub proof fn files_have_the_cells_of_the_raster<T: Copy, X, R>(
    file: RasterSource<T, X>,
    whole: RasterSource<T, X>,
    at: PixelBox,
    w: Window,
    read: R,
    part: RasterSource<T, X>,
) where R: Fn(usize, Window) -> Result<Band<T, X>, Error>
    requires
        is_raster_of(file, read, whole),
        file.is_tile_window(Some(at), Some(w)),
        is_window_source(
            file,
            Some(at),
            read,
            Ok::<Option<RasterSource<T, X>>, Error>(Some(part)),
        ),
    ensures
        seen_alike(whole, part, at, w),
{
    let window = choose|window: Option<Window>|
        #[trigger] file.is_tile_window(Some(at), window) && is_part(
            file,
            window,
            read,
            Ok::<Option<RasterSource<T, X>>, Error>(Some(part)),
        );
    assert(window == Some(w));
    let f = file.data->File_0;
    let all = whole.data->Memory_0;
    let bands = part.data->Memory_0;
    assert forall|b: int, row: int, col: int|
        0 <= b < whole.bands() && is_near(at, row, col) implies part.cell(
        b,
        row - w.row0,
        col - w.col0,
    ) == #[trigger] whole.cell(b, row, col) by {
        assert(call_ensures(
            read,
            (f.bands@[b], w),
            Ok::<Band<T, X>, Error>(bands@[b]),
        ));
        assert(all@[b].grid.rows == f.rows && all@[b].grid.cols == f.cols);
        assert(is_window_of(all@[b].grid, w, bands@[b].grid));
        windows_have_the_cells_of_the_whole(all@[b].grid, at, w, bands@[b].grid, row, col);
    }
}

/// A tile that does not meet a raster sees no sample of it.
pub proof fn tiles_clear_of_the_raster_see_nothing<T: Copy>(
    whole: Grid<T>,
    at: PixelBox,
    row: int,
    col: int,
)
    requires
        window_of(at, whole.rows as int, whole.cols as int) is None,
        is_near(at, row, col),
    ensures
        whole.cell(row, col) is None,
{
}

proof fn lemma_gathered_shifts<T: Copy>(
    whole: Grid<T>,
    w: Window,
    part: Grid<T>,
    row0: int,
    col0: int,
    height: int,
    width: int,
    n: int,
)
    requires
        is_window_of(whole, w, part),
        w.row0 <= row0 && row0 + height <= w.row0 + w.height,
        w.col0 <= col0 && col0 + width <= w.col0 + w.width,
        0 < width,
        0 < height,
        0 <= n <= height * width,
    ensures
        gathered(part, row0 - w.row0, col0 - w.col0, width, n) == gathered(
            whole,
            row0,
            col0,
            width,
            n,
        ),
    decreases n,
{
    if n > 0 {
        lemma_gathered_shifts(whole, w, part, row0, col0, height, width, n - 1);
        lemma_row_col(n - 1, height, width);
        let (r, c) = (row0 - w.row0 + (n - 1) / width, col0 - w.col0 + (n - 1) % width);
        assert(part.cell(r, c) == whole.cell(w.row0 + r, w.col0 + c));
    }
}

/// An average that a tile takes over its window is made of the samples that it
/// is made of over the whole raster.
pub proof fn windows_have_the_areas_of_the_whole<T: Copy>(
    whole: Grid<T>,
    at: PixelBox,
    w: Window,
    part: Grid<T>,
    row_start: int,
    row_end: int,
    col_start: int,
    col_end: int,
)
    requires
        is_window_at(at, whole.rows as int, whole.cols as int, w),
        is_window_of(whole, w, part),
        row_start <= row_end,
        col_start <= col_end,
        is_near(at, row_start, col_start),
        is_near(at, row_end, col_end),
    ensures
        area_samples(
            part,
            row_start - w.row0,
            row_end - w.row0,
            col_start - w.col0,
            col_end - w.col0,
        ) == area_samples(whole, row_start, row_end, col_start, col_end),
{
    let r0 = from_zero(row_start);
    let r1 = up_to(row_end, whole.rows as int);
    let c0 = from_zero(col_start);
    let c1 = up_to(col_end, whole.cols as int);
    assert(from_zero(row_start - w.row0) == r0 - w.row0);
    assert(from_zero(col_start - w.col0) == c0 - w.col0);
    assert(up_to(row_end - w.row0, part.rows as int) == r1 - w.row0);
    assert(up_to(col_end - w.col0, part.cols as int) == c1 - w.col0);
    if r0 <= r1 && c0 <= c1 {
        let (height, width) = (r1 - r0 + 1, c1 - c0 + 1);
        assert(0 <= height * width) by (nonlinear_arith)
            requires
                0 < height,
                0 < width,
        ;
        lemma_gathered_shifts(whole, w, part, r0, c0, height, width, height * width);
    }
}

/// The edge of the windows in which a file is scanned.
pub const SCAN_STEP: usize = 1024;

/// The row and column at which each scan window of a raster begins, row by
/// row.
pub open spec fn scan_starts(rows: int, cols: int) -> Seq<(usize, usize)> {
    let across = ceil_div(cols, SCAN_STEP as int);
    Seq::new(
        (ceil_div(rows, SCAN_STEP as int) * across) as nat,
        |k: int| (((k / across) * SCAN_STEP) as usize, ((k % across) * SCAN_STEP) as usize),
    )
}

/// The row and column at which each scan window of a raster begins, row by
/// row.
pub fn scan_windows(rows: usize, cols: usize) -> (starts: Vec<(usize, usize)>)
    requires
        rows * cols <= usize::MAX,
    ensures
        starts@ == scan_starts(rows as int, cols as int),
{
    let down: usize = div_ceil(rows, SCAN_STEP);
    let across: usize = div_ceil(cols, SCAN_STEP);
    proof {
        lemma_ceil_div(rows as int, SCAN_STEP as int);
        lemma_ceil_div(cols as int, SCAN_STEP as int);
        assert(0 <= down * across <= rows * cols) by (nonlinear_arith)
            requires
                0 <= down <= rows,
                0 <= across <= cols,
        ;
    }
    let n: usize = down * across;
    let mut starts: Vec<(usize, usize)> = Vec::new();
    for k in 0..n
        invariant
            n == down * across,
            down == ceil_div(rows as int, SCAN_STEP as int),
            across == ceil_div(cols as int, SCAN_STEP as int),
            starts@ == scan_starts(rows as int, cols as int).take(k as int),
    {
        proof {
            lemma_row_col(k as int, down as int, across as int);
            lemma_ceil_div(rows as int, SCAN_STEP as int);
            lemma_ceil_div(cols as int, SCAN_STEP as int);
        }
        starts.push(((k / across) * SCAN_STEP, (k % across) * SCAN_STEP));
        assert(starts@ =~= scan_starts(rows as int, cols as int).take(k + 1));
    }
    assert(starts@ =~= scan_starts(rows as int, cols as int));
    starts
}

/// Every cell lies in exactly one scan window.
pub proof fn scan_windows_hold_each_cell_once(rows: int, cols: int, row: int, col: int, k: int)
    requires
        0 <= row < rows <= usize::MAX,
        0 <= col < cols <= usize::MAX,
        0 <= k < scan_starts(rows, cols).len(),
    ensures
        ({
            let across = ceil_div(cols, SCAN_STEP as int);
            let home = (row / SCAN_STEP as int) * across + col / SCAN_STEP as int;
            let start = scan_starts(rows, cols)[k];
            &&& 0 <= home < scan_starts(rows, cols).len()
            &&& (start.0 <= row < start.0 + SCAN_STEP && start.1 <= col < start.1 + SCAN_STEP) <==> k
                == home
        }),
{
    let step = SCAN_STEP as int;
    let down = ceil_div(rows, step);
    let across = ceil_div(cols, step);
    lemma_axis_meets(0, row, rows, step);
    lemma_axis_meets(0, col, cols, step);
    lemma_position(row / step, col / step, down, across);
    lemma_row_col(k, down, across);
    lemma_in_chunk(row, step, k / across);
    lemma_in_chunk(col, step, k % across);
    lemma_ceil_div(rows, step);
    lemma_ceil_div(cols, step);
}

/// `lo` and `hi` are the least and the greatest of the keys that are there.
pub open spec fn are_extremes(keys: Seq<Option<u64>>, extremes: Option<(u64, u64)>) -> bool {
    match extremes {
        None => forall|i: int| 0 <= i < keys.len() ==> (#[trigger] keys[i]) is None,
        Some((lo, hi)) => {
            &&& keys.contains(Some(lo)) && keys.contains(Some(hi))
            &&& forall|i: int|
                0 <= i < keys.len() ==> ((#[trigger] keys[i]) matches Some(v) ==> lo <= v <= hi)
        },
    }
}

/// The least and the greatest of the keys that are there.
pub fn extremes(keys: &Vec<Option<u64>>) -> (found: Option<(u64, u64)>)
    ensures
        are_extremes(keys@, found),
{
    let mut found: Option<(u64, u64)> = None;
    for i in 0..keys.len()
        invariant
            are_extremes(keys@.take(i as int), found),
    {
        let ghost before = found;
        if let Some(v) = keys[i] {
            found = match found {
                None => Some((v, v)),
                Some((lo, hi)) => Some(
                    (
                        if v < lo {
                            v
                        } else {
                            lo
                        },
                        if v > hi {
                            v
                        } else {
                            hi
                        },
                    ),
                ),
            };
        }
        proof {
            let now = keys@.take(i + 1);
            let old_keys = keys@.take(i as int);
            assert(now[i as int] == keys@[i as int]);
            assert forall|j: int| 0 <= j < i implies now[j] == old_keys[j] by {}
            if let Some((lo, hi)) = before {
                let a = choose|a: int| 0 <= a < old_keys.len() && old_keys[a] == Some(lo);
                let b = choose|b: int| 0 <= b < old_keys.len() && old_keys[b] == Some(hi);
                assert(now[a] == Some(lo) && now[b] == Some(hi));
            }
            assert forall|j: int| 0 <= j < now.len() implies ((#[trigger] now[j]) matches Some(v)
                ==> found is Some && found->Some_0.0 <= v <= found->Some_0.1) by {
                if j < i {
                    assert(now[j] == old_keys[j]);
                }
            }
        }
    }
    assert(keys@.take(keys@.len() as int) =~= keys@);
    found
}

/// The extremes of two lists of keys together.
pub open spec fn joined_extremes(a: Option<(u64, u64)>, b: Option<(u64, u64)>) -> Option<
    (u64, u64),
> {
    match (a, b) {
        (None, _) => b,
        (_, None) => a,
        (Some((lo, hi)), Some((low, high))) => Some(
            (
                if low < lo {
                    low
                } else {
                    lo
                },
                if high > hi {
                    high
                } else {
                    hi
                },
            ),
        ),
    }
}

fn join_extremes(a: Option<(u64, u64)>, b: Option<(u64, u64)>) -> (both: Option<(u64, u64)>)
    ensures
        both == joined_extremes(a, b),
{
    match (a, b) {
        (None, _) => b,
        (_, None) => a,
        (Some((lo, hi)), Some((low, high))) => Some(
            (
                if low < lo {
                    low
                } else {
                    lo
                },
                if high > hi {
                    high
                } else {
                    hi
                },
            ),
        ),
    }
}

proof fn lemma_joined_extremes(
    a: Seq<Option<u64>>,
    b: Seq<Option<u64>>,
    x: Option<(u64, u64)>,
    y: Option<(u64, u64)>,
)
    requires
        are_extremes(a, x),
        are_extremes(b, y),
    ensures
        are_extremes(a + b, joined_extremes(x, y)),
{
    let all = a + b;
    assert forall|k: Option<u64>| a.contains(k) || b.contains(k) implies #[trigger] all.contains(
        k,
    ) by {
        if a.contains(k) {
            let i = choose|i: int| 0 <= i < a.len() && a[i] == k;
            assert(all[i] == k);
        } else {
            let i = choose|i: int| 0 <= i < b.len() && b[i] == k;
            assert(all[a.len() + i] == k);
        }
    }
    if let Some((lo, hi)) = x {
        assert(all.contains(Some(lo)) && all.contains(Some(hi)));
    }
    if let Some((lo, hi)) = y {
        assert(all.contains(Some(lo)) && all.contains(Some(hi)));
    }
    assert forall|i: int| 0 <= i < all.len() implies ((#[trigger] all[i]) matches Some(v)
        ==> joined_extremes(x, y) is Some && joined_extremes(x, y)->Some_0.0 <= v
        <= joined_extremes(x, y)->Some_0.1) by {
        if i < a.len() {
            assert(all[i] == a[i]);
        } else {
            assert(all[i] == b[i - a.len()]);
        }
    }
}

/// The scan window that begins at a row and a column.
pub open spec fn scan_window(start: (usize, usize)) -> Window {
    Window {
        col0: start.1 as i64,
        row0: start.0 as i64,
        width: SCAN_STEP,
        height: SCAN_STEP,
    }
}

/// `parts` are the keys that `read` gave for the first scan windows.
pub open spec fn are_scanned<R>(
    starts: Seq<(usize, usize)>,
    read: R,
    parts: Seq<Vec<Option<u64>>>,
) -> bool where R: Fn(Window) -> Result<Vec<Option<u64>>, Error> {
    &&& parts.len() <= starts.len()
    &&& forall|i: int|
        0 <= i < parts.len() ==> call_ensures(
            read,
            (scan_window(starts[i]),),
            Ok::<Vec<Option<u64>>, Error>(#[trigger] parts[i]),
        )
}

/// The keys of all parts, one after the other.
pub open spec fn all_keys(parts: Seq<Vec<Option<u64>>>) -> Seq<Option<u64>>
    decreases parts.len(),
{
    if parts.len() == 0 {
        Seq::empty()
    } else {
        all_keys(parts.drop_last()) + parts.last()@
    }
}

/// `found` are the extremes of all scan windows, or the error of the first
/// window that could not be read.
pub open spec fn is_scan<R>(
    starts: Seq<(usize, usize)>,
    read: R,
    found: Result<Option<(u64, u64)>, Error>,
) -> bool where R: Fn(Window) -> Result<Vec<Option<u64>>, Error> {
    exists|parts: Seq<Vec<Option<u64>>>|
        {
            &&& #[trigger] are_scanned(starts, read, parts)
            &&& match found {
                Ok(x) => parts.len() == starts.len() && are_extremes(all_keys(parts), x),
                Err(e) => parts.len() < starts.len() && call_ensures(
                    read,
                    (scan_window(starts[parts.len() as int]),),
                    Err::<Vec<Option<u64>>, Error>(e),
                ),
            }
        }
}

/// The least and the greatest value of a band, `None` where it has none.
///
/// The band is scanned window by window, so memory stays bounded. `read` gives
/// a number for each cell of a window, which orders as the cells do, and none
/// for a cell without a finite value.
pub fn band_minmax<R>(rows: usize, cols: usize, read: &R) -> (found: Result<
    Option<(u64, u64)>,
    Error,
>) where R: Fn(Window) -> Result<Vec<Option<u64>>, Error>
    requires
        rows * cols <= usize::MAX,
        rows <= i64::MAX,
        cols <= i64::MAX,
        forall|w: Window| call_requires(*read, (w,)),
    ensures
        is_scan(scan_starts(rows as int, cols as int), *read, found),
{
    let starts: Vec<(usize, usize)> = scan_windows(rows, cols);
    let ghost mut parts: Seq<Vec<Option<u64>>> = Seq::empty();
    let mut found: Option<(u64, u64)> = None;
    for k in 0..starts.len()
        invariant
            starts@ == scan_starts(rows as int, cols as int),
            rows <= i64::MAX,
            cols <= i64::MAX,
            forall|w: Window| call_requires(*read, (w,)),
            parts.len() == k,
            are_scanned(starts@, *read, parts),
            are_extremes(all_keys(parts), found),
    {
        let (row, col): (usize, usize) = starts[k];
        let w = Window { col0: col as i64, row0: row as i64, width: SCAN_STEP, height: SCAN_STEP };
        assert(w == scan_window(starts@[k as int]));
        match read(w) {
            Err(e) => {
                return Err(e);
            },
            Ok(keys) => {
                let part: Option<(u64, u64)> = extremes(&keys);
                proof {
                    lemma_joined_extremes(all_keys(parts), keys@, found, part);
                    assert(parts.push(keys).drop_last() =~= parts);
                    parts = parts.push(keys);
                }
                found = join_extremes(found, part);
            },
        }
    }
    Ok(found)
}

/// The band indices, counted from 0, that a list of band numbers, counted from
/// 1, selects: all where there is no list or it is empty.
pub open spec fn selected_bands(list: Option<Seq<usize>>, count: int) -> Result<Seq<usize>, Error> {
    match list {
        Some(numbers) => if numbers.len() == 0 {
            Ok(Seq::new(count as nat, |i: int| i as usize))
        } else if exists|i: int|
            0 <= i < numbers.len() && !(1 <= #[trigger] numbers[i] <= count) {
            Err(Error::InvalidInput(Invalid::BandNumber))
        } else {
            Ok(numbers.map_values(|b: usize| (b - 1) as usize))
        },
        None => Ok(Seq::new(count as nat, |i: int| i as usize)),
    }
}

/// The band indices, counted from 0, that a list of band numbers, counted from
/// 1, selects: all where there is no list or it is empty.
pub fn select_bands(list: Option<&Vec<usize>>, count: usize) -> (indices: Result<
    Vec<usize>,
    Error,
>)
    ensures
        ({
            let want = selected_bands(
                match list {
                    Some(v) => Some(v@),
                    None => None,
                },
                count as int,
            );
            match indices {
                Ok(v) => want == Ok::<Seq<usize>, Error>(v@),
                Err(e) => want == Err::<Seq<usize>, Error>(e),
            }
        }),
{
    let mut out: Vec<usize> = Vec::new();
    if let Some(numbers) = list {
        if numbers.len() > 0 {
            let ghost want = numbers@.map_values(|b: usize| (b - 1) as usize);
            for i in 0..numbers.len()
                invariant
                    list == Some(numbers),
                    numbers@.len() > 0,
                    want == numbers@.map_values(|b: usize| (b - 1) as usize),
                    out@ == want.take(i as int),
                    forall|j: int| 0 <= j < i ==> 1 <= #[trigger] numbers@[j] <= count,
            {
                let b: usize = numbers[i];
                if b == 0 || b > count {
                    assert(!(1 <= numbers@[i as int] <= count));
                    return Err(Error::InvalidInput(Invalid::BandNumber));
                }
                out.push(b - 1);
                assert(out@ =~= want.take(i + 1));
            }
            assert(out@ =~= want);
            return Ok(out);
        }
    }
    for i in 0..count
        invariant
            out@ == Seq::new(i as nat, |j: int| j as usize),
    {
        out.push(i);
        assert(out@ =~= Seq::new((i + 1) as nat, |j: int| j as usize));
    }
    Ok(out)
}

/// The EPSG code that entry `i` of GeoTIFF keys, or one behind it, gives: the
/// value of the first geographic or projected CRS key that is not 0.
pub open spec fn epsg_from(keys: Seq<u16>, n: int, i: int) -> Option<u32>
    decreases n - i,
{
    if i >= n || 4 + i * 4 + 3 >= keys.len() {
        None
    } else if (keys[4 + i * 4] == 3072 || keys[4 + i * 4] == 2048) && keys[4 + i * 4 + 3] > 0 {
        Some(keys[4 + i * 4 + 3] as u32)
    } else {
        epsg_from(keys, n, i + 1)
    }
}

/// The EPSG code that GeoTIFF keys give. A header of four numbers, of which
/// the last is the number of entries, stands before entries of four numbers: a
/// key, two that tell where its value is, and the value.
pub open spec fn epsg_of_keys(keys: Seq<u16>) -> Option<u32> {
    if keys.len() < 4 {
        None
    } else {
        epsg_from(keys, keys[3] as int, 0)
    }
}

/// The EPSG code that GeoTIFF keys give.
pub fn read_epsg(keys: &Vec<u16>) -> (epsg: Option<u32>)
    ensures
        epsg == epsg_of_keys(keys@),
{
    if keys.len() < 4 {
        return None;
    }
    let n: usize = keys[3] as usize;
    let mut i: usize = 0;
    while i < n
        invariant
            i <= n <= u16::MAX,
            epsg_of_keys(keys@) == epsg_from(keys@, n as int, i as int),
        decreases n - i,
    {
        let base: usize = 4 + i * 4;
        if base + 3 >= keys.len() {
            return None;
        }
        let key: u16 = keys[base];
        let value: u16 = keys[base + 3];
        if (key == 3072 || key == 2048) && value > 0 {
            return Some(value as u32);
        }
        i = i + 1;
    }
    None
}

/// The CRS that a COG records is the one that is read from it.
pub proof fn recorded_crs_is_read_back(crs: SourceCrs)
    ensures
        epsg_of_keys(geo_keys(crs)) == Some(
            match crs {
                SourceCrs::LonLat => 4326u32,
                SourceCrs::Mercator => 3857u32,
            },
        ),
        crs_of_epsg(epsg_of_keys(geo_keys(crs))->Some_0) == Ok::<SourceCrs, Error>(crs),
{
    reveal_with_fuel(epsg_from, 4);
}

proof fn lemma_gathered_split<T: Copy>(
    grid: Grid<T>,
    row0: int,
    col0: int,
    width: int,
    a: int,
    n: int,
)
    requires
        width > 0,
        a >= 0,
        n >= 0,
    ensures
        gathered(grid, row0, col0, width, a * width + n) == gathered(
            grid,
            row0,
            col0,
            width,
            a * width,
        ) + gathered(grid, row0 + a, col0, width, n),
    decreases n,
{
    let head = gathered(grid, row0, col0, width, a * width);
    assert(a * width >= 0) by (nonlinear_arith)
        requires
            a >= 0,
            width > 0,
    ;
    if n == 0 {
        assert(head + gathered(grid, row0 + a, col0, width, 0) =~= head);
    } else {
        lemma_gathered_split(grid, row0, col0, width, a, n - 1);
        let m = a * width + (n - 1);
        vstd::arithmetic::div_mod::lemma_hoist_over_denominator(n - 1, a, width as nat);
        vstd::arithmetic::div_mod::lemma_mod_multiples_vanish(a, n - 1, width);
        assert(width * a == a * width) by (nonlinear_arith);
        assert(m / width == a + (n - 1) / width);
        assert(m % width == (n - 1) % width);
        assert(gathered(grid, row0, col0, width, m + 1) =~= head + gathered(
            grid,
            row0 + a,
            col0,
            width,
            n,
        ));
    }
}

proof fn lemma_gathered_row<T: Copy>(grid: Grid<T>, row: int, col0: int, width: int, a: int, n: int)
    requires
        0 <= a,
        0 <= n,
        a + n <= width,
    ensures
        gathered(grid, row, col0, width, a + n) == gathered(grid, row, col0, a, a) + gathered(
            grid,
            row,
            col0 + a,
            n,
            n,
        ),
    decreases a + n,
{
    if a + n > 0 {
        let k = a + n - 1;
        assert(k / width == 0 && k % width == k) by (nonlinear_arith)
            requires
                0 <= k < width,
        ;
        if n > 0 {
            lemma_gathered_row(grid, row, col0, width, a, n - 1);
            assert((n - 1) / n == 0 && (n - 1) % n == n - 1) by (nonlinear_arith)
                requires
                    n > 0,
            ;
            lemma_gathered_width(grid, row, col0 + a, n, n - 1);
            assert(gathered(grid, row, col0, width, a + n) =~= gathered(grid, row, col0, a, a)
                + gathered(grid, row, col0 + a, n, n));
        } else {
            lemma_gathered_width(grid, row, col0, width, a);
            assert(gathered(grid, row, col0, a, a) + gathered(grid, row, col0 + a, 0, 0)
                =~= gathered(grid, row, col0, a, a));
        }
    } else {
        assert(gathered(grid, row, col0, a, a) + gathered(grid, row, col0 + a, n, n)
            =~= Seq::empty());
    }
}

proof fn lemma_gathered_width<T: Copy>(grid: Grid<T>, row: int, col0: int, width: int, n: int)
    requires
        0 <= n <= width,
    ensures
        gathered(grid, row, col0, width, n) == gathered(grid, row, col0, n, n),
    decreases n,
{
    if n > 0 {
        lemma_gathered_width(grid, row, col0, width, n - 1);
        lemma_gathered_width(grid, row, col0, n, n - 1);
        assert((n - 1) / width == 0 && (n - 1) % width == n - 1) by (nonlinear_arith)
            requires
                0 < n <= width,
        ;
        assert((n - 1) / n == 0 && (n - 1) % n == n - 1) by (nonlinear_arith)
            requires
                0 < n,
        ;
    }
}

/// The samples of an area are those of its upper rows and then those of its lower
/// ones, wherever it is cut; those of a single row are those of its left columns
/// and then those of its right ones; and those of a single cell are the sample that
/// it has, or none. So an area has each sample of the raster that lies in it once,
/// row by row, and no other.
pub proof fn areas_add_up<T: Copy>(
    grid: Grid<T>,
    row_start: int,
    cut: int,
    row_end: int,
    col_start: int,
    col_end: int,
    row: int,
    col: int,
)
    requires
        row_start <= cut <= row_end,
        col_start <= col <= col_end,
    ensures
        area_samples(grid, row_start, row_end, col_start, col_end) == area_samples(
            grid,
            row_start,
            cut,
            col_start,
            col_end,
        ) + area_samples(grid, cut + 1, row_end, col_start, col_end),
        area_samples(grid, row, row, col_start, col_end) == area_samples(
            grid,
            row,
            row,
            col_start,
            col,
        ) + area_samples(grid, row, row, col + 1, col_end),
        0 <= row < grid.rows && 0 <= col < grid.cols ==> area_samples(grid, row, row, col, col)
            == match grid.cells@[row * grid.cols + col] {
            Some(v) => seq![v],
            None => Seq::<T>::empty(),
        },
        row < 0 || row >= grid.rows || col < 0 || col >= grid.cols ==> area_samples(
            grid,
            row,
            row,
            col,
            col,
        ) == Seq::<T>::empty(),
{
    lemma_rows_add_up(grid, row_start, cut, row_end, col_start, col_end);
    lemma_columns_add_up(grid, row, col_start, col, col_end);
    if 0 <= row < grid.rows && 0 <= col < grid.cols {
        assert((row - row + 1) * (col - col + 1) == 1) by (nonlinear_arith);
        assert(area_samples(grid, row, row, col, col) == gathered(grid, row, col, 1, 1));
        assert(gathered(grid, row, col, 1, 0) =~= Seq::<T>::empty());
        assert(0int / 1 == 0 && 0int % 1 == 0);
        assert(grid.cell(row, col) == grid.cells@[row * grid.cols + col]);
        match grid.cells@[row * grid.cols + col] {
            Some(v) => {
                assert(Seq::<T>::empty().push(v) =~= seq![v]);
            },
            None => {},
        }
    }
}

proof fn lemma_rows_add_up<T: Copy>(
    grid: Grid<T>,
    row_start: int,
    cut: int,
    row_end: int,
    col_start: int,
    col_end: int,
)
    requires
        row_start <= cut <= row_end,
    ensures
        area_samples(grid, row_start, row_end, col_start, col_end) == area_samples(
            grid,
            row_start,
            cut,
            col_start,
            col_end,
        ) + area_samples(grid, cut + 1, row_end, col_start, col_end),
{
    let rows = grid.rows as int;
    let (c0, c1) = (from_zero(col_start), up_to(col_end, grid.cols as int));
    let width = c1 - c0 + 1;
    let all = area_samples(grid, row_start, row_end, col_start, col_end);
    let top = area_samples(grid, row_start, cut, col_start, col_end);
    let bottom = area_samples(grid, cut + 1, row_end, col_start, col_end);
    if c0 > c1 {
        assert(all =~= top + bottom);
    } else if cut < 0 {
        assert(top =~= Seq::<T>::empty());
        assert(all =~= top + bottom);
    } else if cut + 1 >= rows {
        assert(bottom =~= Seq::<T>::empty());
        assert(all =~= top + bottom);
    } else if cut == row_end {
        assert(bottom =~= Seq::<T>::empty());
        assert(all =~= top + bottom);
    } else {
        let r0 = from_zero(row_start);
        let r1 = up_to(row_end, rows);
        let a = cut - r0 + 1;
        let b = r1 - cut;
        assert((a + b) * width == a * width + b * width) by (nonlinear_arith);
        assert(b * width >= 0) by (nonlinear_arith)
            requires
                b >= 0,
                width > 0,
        ;
        lemma_gathered_split(grid, r0, c0, width, a, b * width);
        assert(r1 - r0 + 1 == a + b);
        assert(r1 - (cut + 1) + 1 == b);
    }
}

proof fn lemma_columns_add_up<T: Copy>(
    grid: Grid<T>,
    row: int,
    col_start: int,
    cut: int,
    col_end: int,
)
    requires
        col_start <= cut <= col_end,
    ensures
        area_samples(grid, row, row, col_start, col_end) == area_samples(
            grid,
            row,
            row,
            col_start,
            cut,
        ) + area_samples(grid, row, row, cut + 1, col_end),
{
    let cols = grid.cols as int;
    let all = area_samples(grid, row, row, col_start, col_end);
    let left = area_samples(grid, row, row, col_start, cut);
    let right = area_samples(grid, row, row, cut + 1, col_end);
    if row < 0 || row >= grid.rows {
        assert(all =~= left + right);
    } else if cut < 0 {
        assert(left =~= Seq::<T>::empty());
        assert(all =~= left + right);
    } else if cut + 1 >= cols || cut == col_end {
        assert(right =~= Seq::<T>::empty());
        assert(all =~= left + right);
    } else {
        let c0 = from_zero(col_start);
        let c1 = up_to(col_end, cols);
        let a = cut - c0 + 1;
        let b = c1 - cut;
        lemma_gathered_row(grid, row, c0, a + b, a, b);
        assert(c1 - c0 + 1 == a + b);
        assert((row - row + 1) * (a + b) == a + b) by (nonlinear_arith);
        assert((row - row + 1) * a == a) by (nonlinear_arith);
        assert((row - row + 1) * b == b) by (nonlinear_arith);
    }
}

/// A window that is read holds just the cells of the raster that were asked for:
/// there is none exactly where no cell was.
pub proof fn windows_hold_what_was_asked_for(
    l: ChunkLayout,
    col0: int,
    row0: int,
    width: int,
    height: int,
    row: int,
    col: int,
)
    requires
        0 <= width,
        0 <= height,
    ensures
        ({
            let asked = {
                &&& 0 <= row < l.rows
                &&& 0 <= col < l.cols
                &&& row0 <= row < row0 + height
                &&& col0 <= col < col0 + width
            };
            match clipped_window(l, col0, row0, width, height) {
                Some((top, left, bottom, right)) => {
                    &&& asked <==> top <= row < bottom && left <= col < right
                    &&& 0 <= top < bottom <= l.rows
                    &&& 0 <= left < right <= l.cols
                },
                None => !asked,
            }
        }),
{
}

/// Each cell of a window that is read is the band's sample of its pixel in the
/// chunk that holds it: the tile in its row and column of tiles, counted row by
/// row, or the strip of its row. Pixels stand row by row in a chunk, and the
/// samples of a pixel next to each other. A chunk that ends before the pixel gives
/// none.
pub proof fn window_cells_come_from_their_chunks<T: Copy, D>(
    l: ChunkLayout,
    rect: (int, int, int, int),
    band: int,
    read: D,
    grid: Grid<T>,
    row: int,
    col: int,
    number: u32,
) where D: Fn(u32) -> Result<Chunk<T>, Error>
    requires
        layout_wf(l),
        0 <= rect.0 && rect.2 <= l.rows,
        0 <= rect.1 && rect.3 <= l.cols,
        0 <= band < l.samples_per_pixel,
        l.tiled ==> number == (row / l.chunk_height as int) * ceil_div(
            l.cols as int,
            l.chunk_width as int,
        ) + col / l.chunk_width as int,
        !l.tiled ==> number == row / l.chunk_height as int,
        grid.wf(),
        is_read_window(l, rect, band, read, grid),
        rect.0 <= row < rect.2,
        rect.1 <= col < rect.3,
    ensures
        grid.rows == rect.2 - rect.0,
        grid.cols == rect.3 - rect.1,
        ({
            let (ch, cw) = (l.chunk_height as int, l.chunk_width as int);
            let cell = grid.cells@[(row - rect.0) * grid.cols + (col - rect.1)];
            exists|chunk: Chunk<T>|
                {
                    let pixel = (row % ch) * chunk.width + col % cw;
                    &&& #[trigger] call_ensures(read, (number,), Ok::<Chunk<T>, Error>(chunk))
                    &&& row % ch < chunk.height && col % cw < chunk.width ==> cell
                        == chunk.samples@[pixel * l.samples_per_pixel + band]
                    &&& row % ch >= chunk.height || col % cw >= chunk.width ==> cell is None
                }
        }),
{
    let chunks = choose|chunks: Map<(int, int), Chunk<T>>|
        {
            &&& #[trigger] are_read(l, rect, band, read, chunks)
            &&& forall|r: int, c: int|
                0 <= r < grid.rows && 0 <= c < grid.cols ==> #[trigger] grid.cell(r, c)
                    == file_cell(l, chunks, band, rect.0 + r, rect.1 + c)
        };
    lemma_cell_meets(l, rect, row, col);
    let at = chunk_of(l, row, col);
    let chunk = chunks[(at.0, at.1)];
    assert(is_chunk_read(l, rect, band, read, at.0, at.1, chunk));
    assert(grid.cell(row - rect.0, col - rect.1) == file_cell(l, chunks, band, row, col));
    assert(chunk_index(l, at.0, at.1) == number);
    assert(call_ensures(read, (number,), Ok::<Chunk<T>, Error>(chunk)));
    lemma_mod_bound(row, l.chunk_height as int);
    lemma_mod_bound(col, l.chunk_width as int);
}

/// Only chunks that hold a cell of the window are read.
pub proof fn no_other_chunk_is_read(l: ChunkLayout, rect: (int, int, int, int), tr: int, tc: int)
    requires
        layout_wf(l),
        0 <= rect.0 < rect.2,
        0 <= rect.1 < rect.3,
    ensures
        meets(l, rect, tr, tc) <==> exists|row: int, col: int|
            rect.0 <= row < rect.2 && rect.1 <= col < rect.3 && #[trigger] chunk_of(l, row, col) == (
                tr,
                tc,
            ),
        forall|row: int, col: int|
            #![trigger chunk_of(l, row, col)]
            chunk_of(l, row, col) == (tr, tc) <==> tr == row / l.chunk_height as int && tc == col
                / l.chunk_width as int,
{
    let (ch, cw) = (l.chunk_height as int, l.chunk_width as int);
    if meets(l, rect, tr, tc) {
        let row = if rect.0 / ch == tr {
            rect.0
        } else {
            tr * ch
        };
        let col = if rect.1 / cw == tc {
            rect.1
        } else {
            tc * cw
        };
        lemma_axis_first(rect.0, rect.2, ch, tr);
        lemma_axis_first(rect.1, rect.3, cw, tc);
        assert(chunk_of(l, row, col) == (tr, tc));
    }
    if exists|row: int, col: int|
        rect.0 <= row < rect.2 && rect.1 <= col < rect.3 && #[trigger] chunk_of(l, row, col) == (
            tr,
            tc,
        ) {
        let (row, col) = choose|row: int, col: int|
            rect.0 <= row < rect.2 && rect.1 <= col < rect.3 && #[trigger] chunk_of(l, row, col)
                == (tr, tc);
        lemma_cell_meets(l, rect, row, col);
    }
}

proof fn lemma_axis_first(lo: int, hi: int, size: int, t: int)
    requires
        size > 0,
        0 <= lo < hi,
        lo / size <= t < ceil_div(hi, size),
    ensures
        lo / size != t ==> lo <= t * size < hi && (t * size) / size == t,
{
    lemma_ceil_div(hi, size);
    lemma_fundamental_div_mod(lo, size);
    lemma_mod_bound(lo, size);
    if lo / size != t {
        let q = lo / size;
        assert(t * size >= q * size + size) by (nonlinear_arith)
            requires
                t >= q + 1,
                size > 0,
        ;
        assert(size * q == q * size) by (nonlinear_arith);
        let n = ceil_div(hi, size);
        assert(t * size <= (n - 1) * size) by (nonlinear_arith)
            requires
                t <= n - 1,
                size > 0,
        ;
        lemma_fundamental_div_mod_converse(t * size, size, t, 0);
    }
}

/// The extremes of numbers are the least and the greatest of those that are there,
/// wherever these stand; there are none where no number is there.
pub proof fn extremes_are_least_and_greatest(
    keys: Seq<Option<u64>>,
    other: Seq<Option<u64>>,
    x: Option<(u64, u64)>,
    y: Option<(u64, u64)>,
)
    requires
        are_extremes(keys, x),
        are_extremes(other, y),
    ensures
        x is None <==> forall|i: int| 0 <= i < keys.len() ==> (#[trigger] keys[i]) is None,
        x matches Some((lo, hi)) ==> lo <= hi,
        forall|i: int|
            0 <= i < keys.len() ==> ((#[trigger] keys[i]) matches Some(v) ==> x is Some
                && x->Some_0.0 <= v <= x->Some_0.1),
        x matches Some((lo, hi)) ==> exists|i: int|
            0 <= i < keys.len() && #[trigger] keys[i] == Some(lo),
        x matches Some((lo, hi)) ==> exists|i: int|
            0 <= i < keys.len() && #[trigger] keys[i] == Some(hi),
        (forall|v: u64| #[trigger] keys.contains(Some(v)) <==> other.contains(Some(v))) ==> x == y,
{
    if let Some((lo, hi)) = x {
        let i = choose|i: int| 0 <= i < keys.len() && keys[i] == Some(lo);
        assert(keys[i] == Some(lo));
        let j = choose|j: int| 0 <= j < keys.len() && keys[j] == Some(hi);
        assert(keys[j] == Some(hi));
        if forall|v: u64| #[trigger] keys.contains(Some(v)) <==> other.contains(Some(v)) {
            assert(other.contains(Some(lo)) && other.contains(Some(hi)));
            let a = choose|a: int| 0 <= a < other.len() && other[a] == Some(lo);
            let b = choose|b: int| 0 <= b < other.len() && other[b] == Some(hi);
            assert(other[a] == Some(lo) && other[b] == Some(hi));
            let (low, high) = y->Some_0;
            assert(keys.contains(Some(low)) && keys.contains(Some(high)));
            let c = choose|c: int| 0 <= c < keys.len() && keys[c] == Some(low);
            let d = choose|d: int| 0 <= d < keys.len() && keys[d] == Some(high);
            assert(keys[c] == Some(low) && keys[d] == Some(high));
        }
    } else if forall|v: u64| #[trigger] keys.contains(Some(v)) <==> other.contains(Some(v)) {
        if let Some((low, high)) = y {
            assert(other.contains(Some(low)));
            assert(keys.contains(Some(low)));
        }
    }
}

pub(crate) proof fn lemma_key_in_all(parts: Seq<Vec<Option<u64>>>, k: int, i: int)
    requires
        0 <= k < parts.len(),
        0 <= i < parts[k]@.len(),
    ensures
        all_keys(parts).contains(parts[k]@[i]),
    decreases parts.len(),
{
    let rest = all_keys(parts.drop_last());
    if k < parts.len() - 1 {
        lemma_key_in_all(parts.drop_last(), k, i);
        let a = choose|a: int| 0 <= a < rest.len() && rest[a] == parts[k]@[i];
        assert(all_keys(parts)[a] == parts[k]@[i]);
    } else {
        assert(all_keys(parts)[rest.len() + i] == parts[k]@[i]);
    }
}

proof fn lemma_key_from_part(parts: Seq<Vec<Option<u64>>>, a: int) -> (at: (int, int))
    requires
        0 <= a < all_keys(parts).len(),
    ensures
        0 <= at.0 < parts.len(),
        0 <= at.1 < parts[at.0]@.len(),
        parts[at.0]@[at.1] == all_keys(parts)[a],
    decreases parts.len(),
{
    let rest = all_keys(parts.drop_last());
    if a < rest.len() {
        lemma_key_from_part(parts.drop_last(), a)
    } else {
        (parts.len() - 1, a - rest.len())
    }
}

/// The extremes of a band lie around every number that a scan of it gives, window
/// by window: the window of each start has its row and column as its corner and
/// 1024 rows and columns. Each of the two is one of the numbers, and there are none
/// where no window gives one.
pub proof fn scans_find_the_extremes<R>(
    rows: int,
    cols: int,
    read: R,
    found: Option<(u64, u64)>,
) where R: Fn(Window) -> Result<Vec<Option<u64>>, Error>
    requires
        is_scan(scan_starts(rows, cols), read, Ok(found)),
    ensures
        exists|parts: Seq<Vec<Option<u64>>>|
            #![trigger all_keys(parts)]
            {
                &&& parts.len() == scan_starts(rows, cols).len()
                &&& forall|k: int|
                    0 <= k < parts.len() ==> call_ensures(
                        read,
                        (
                            Window {
                                col0: scan_starts(rows, cols)[k].1 as i64,
                                row0: scan_starts(rows, cols)[k].0 as i64,
                                width: 1024,
                                height: 1024,
                            },
                        ),
                        Ok::<Vec<Option<u64>>, Error>(#[trigger] parts[k]),
                    )
                &&& found is None ==> forall|k: int, i: int|
                    0 <= k < parts.len() && 0 <= i < parts[k]@.len() ==> (#[trigger] parts[k]@[i])
                        is None
                &&& found is Some ==> {
                    &&& forall|k: int, i: int|
                        0 <= k < parts.len() && 0 <= i < parts[k]@.len() ==> ((
                        #[trigger] parts[k]@[i]) matches Some(v) ==> found->Some_0.0 <= v
                            <= found->Some_0.1)
                    &&& exists|k: int, i: int|
                        0 <= k < parts.len() && 0 <= i < parts[k]@.len()
                            && #[trigger] parts[k]@[i] == Some(found->Some_0.0)
                    &&& exists|k: int, i: int|
                        0 <= k < parts.len() && 0 <= i < parts[k]@.len()
                            && #[trigger] parts[k]@[i] == Some(found->Some_0.1)
                }
            },
{
    let starts = scan_starts(rows, cols);
    let parts = choose|parts: Seq<Vec<Option<u64>>>|
        {
            &&& #[trigger] are_scanned(starts, read, parts)
            &&& parts.len() == starts.len() && are_extremes(all_keys(parts), found)
        };
    let keys = all_keys(parts);
    assert(keys.len() >= 0);
    assert forall|k: int, i: int|
        0 <= k < parts.len() && 0 <= i < parts[k]@.len() implies keys.contains(
        #[trigger] parts[k]@[i],
    ) by {
        lemma_key_in_all(parts, k, i);
    }
    if let Some((lo, hi)) = found {
        let a = choose|a: int| 0 <= a < keys.len() && keys[a] == Some(lo);
        let (k, i) = lemma_key_from_part(parts, a);
        assert(parts[k]@[i] == Some(lo));
        let b = choose|b: int| 0 <= b < keys.len() && keys[b] == Some(hi);
        let (m, j) = lemma_key_from_part(parts, b);
        assert(parts[m]@[j] == Some(hi));
    }
}

/// Bands are counted from 1 where they are asked for and from 0 where they are
/// read: each one asked for is taken, in the order asked for, and all in their
/// order where none is named. A list with a number that no band has is refused.
pub proof fn bands_are_taken_as_asked(list: Option<Seq<usize>>, count: usize)
    ensures
        match selected_bands(list, count as int) {
            Ok(bands) => match list {
                Some(numbers) => if numbers.len() > 0 {
                    &&& bands.len() == numbers.len()
                    &&& forall|i: int|
                        0 <= i < numbers.len() ==> (#[trigger] bands[i]) + 1 == numbers[i]
                            && bands[i] < count
                } else {
                    bands.len() == count && forall|i: int|
                        0 <= i < count ==> #[trigger] bands[i] == i
                },
                None => bands.len() == count && forall|i: int|
                    0 <= i < count ==> #[trigger] bands[i] == i,
            },
            Err(e) => list is Some && exists|i: int|
                0 <= i < list->Some_0.len() && ((#[trigger] list->Some_0[i]) == 0
                    || list->Some_0[i] > count),
        },
{
    if let Ok(bands) = selected_bands(list, count as int) {
        if let Some(numbers) = list {
            if numbers.len() > 0 {
                assert forall|i: int| 0 <= i < numbers.len() implies (#[trigger] bands[i]) + 1
                    == numbers[i] && bands[i] < count by {
                    assert(1 <= numbers[i] <= count);
                }
            }
        }
    }
}

/// The EPSG code of GeoTIFF keys is the value of the first of the entries that
/// tells a geographic or a projected system and is not 0: every entry before it
/// tells none. There is no code where no entry does.
pub proof fn the_first_system_key_tells_the_code(keys: Seq<u16>)
    requires
        keys.len() >= 4,
        keys.len() >= 4 + 4 * keys[3],
    ensures
        match epsg_of_keys(keys) {
            Some(code) => exists|i: int|
                {
                    &&& 0 <= i < keys[3]
                    &&& #[trigger] tells_system(keys, i)
                    &&& keys[4 + 4 * i + 3] == code
                    &&& forall|j: int| 0 <= j < i ==> !#[trigger] tells_system(keys, j)
                },
            None => forall|j: int| 0 <= j < keys[3] ==> !#[trigger] tells_system(keys, j),
        },
{
    lemma_epsg_from(keys, keys[3] as int, 0);
}

/// Entry `i` of GeoTIFF keys tells a coordinate system: its key is that of a
/// geographic (2048) or a projected one (3072), and its value is not 0.
pub open spec fn tells_system(keys: Seq<u16>, i: int) -> bool {
    &&& keys[4 + 4 * i] == 2048 || keys[4 + 4 * i] == 3072
    &&& keys[4 + 4 * i + 3] != 0
}

proof fn lemma_epsg_from(keys: Seq<u16>, n: int, i: int)
    requires
        0 <= i <= n,
        keys.len() >= 4 + 4 * n,
        forall|j: int| 0 <= j < i ==> !#[trigger] tells_system(keys, j),
    ensures
        match epsg_from(keys, n, i) {
            Some(code) => exists|k: int|
                {
                    &&& 0 <= k < n
                    &&& #[trigger] tells_system(keys, k)
                    &&& keys[4 + 4 * k + 3] == code
                    &&& forall|j: int| 0 <= j < k ==> !#[trigger] tells_system(keys, j)
                },
            None => forall|j: int| 0 <= j < n ==> !#[trigger] tells_system(keys, j),
        },
    decreases n - i,
{
    if i < n {
        if tells_system(keys, i) {
            assert(epsg_from(keys, n, i) == Some(keys[4 + 4 * i + 3] as u32));
        } else {
            lemma_epsg_from(keys, n, i + 1);
        }
    }
}

/// Reading the window of a file fails as the first of its bands whose window cannot
/// be read; those before it were read.
pub proof fn failed_bands_are_named<T, X, R>(
    bands: Seq<usize>,
    window: Window,
    read: R,
    e: Error,
) -> (i: int) where R: Fn(usize, Window) -> Result<Band<T, X>, Error>
    requires
        band_failed::<T, X, R>(bands, window, read, e),
    ensures
        0 <= i < bands.len(),
        call_ensures(read, (bands[i], window), Err::<Band<T, X>, Error>(e)),
        forall|j: int|
            #![trigger bands[j]]
            0 <= j < i ==> exists|got: Band<T, X>| #[trigger]
                call_ensures(read, (bands[j], window), Ok::<Band<T, X>, Error>(got)),
{
    let got = choose|got: Seq<Band<T, X>>|
        {
            &&& #[trigger] are_bands_read(bands, window, read, got)
            &&& got.len() < bands.len()
            &&& call_ensures(
                read,
                (bands[got.len() as int], window),
                Err::<Band<T, X>, Error>(e),
            )
        };
    assert forall|j: int|
        #![trigger bands[j]]
        0 <= j < got.len() implies exists|one: Band<T, X>| #[trigger]
        call_ensures(read, (bands[j], window), Ok::<Band<T, X>, Error>(one)) by {
        assert(call_ensures(read, (bands[j], window), Ok::<Band<T, X>, Error>(got[j])));
    }
    got.len() as int
}

/// The window of a file that is brought into memory has each of the file's bands,
/// in their order, as it was read, and the file's CRS.
pub proof fn windows_have_the_bands_of_the_file<T: Copy, X, R>(
    file: RasterSource<T, X>,
    f: FileSource<X>,
    window: Window,
    read: R,
    part: RasterSource<T, X>,
    i: int,
) where R: Fn(usize, Window) -> Result<Band<T, X>, Error>
    requires
        file.data == SourceData::<T, X>::File(f),
        is_part(file, Some(window), read, Ok(Some(part))),
        0 <= i < f.bands@.len(),
    ensures
        part.crs == file.crs,
        part.bands() == f.bands@.len(),
        part.memory_band(i) is Some,
        call_ensures(
            read,
            (f.bands@[i], window),
            Ok::<Band<T, X>, Error>(part.memory_band(i)->Some_0),
        ),
{
    let bands = part.data->Memory_0;
    assert(call_ensures(read, (f.bands@[i], window), Ok::<Band<T, X>, Error>(bands@[i])));
}

/// A chunk that is no larger than its layout says and has all samples of its pixels
/// is taken, whatever window needs it.
pub proof fn whole_chunks_are_taken<T>(
    l: ChunkLayout,
    rect: (int, int, int, int),
    band: int,
    tr: int,
    tc: int,
    chunk: Chunk<T>,
)
    requires
        0 <= band < l.samples_per_pixel,
        chunk.width <= l.chunk_width,
        chunk.height <= l.chunk_height,
        chunk.samples@.len() == (chunk.height * chunk.width) * l.samples_per_pixel,
    ensures
        chunk_ok(l, rect, band, tr, tc, chunk),
{
    let s = l.samples_per_pixel as int;
    assert forall|row: int, col: int|
        0 <= row < chunk.height && 0 <= col < chunk.width && rect.0 <= tr * l.chunk_height + row
            < rect.2 && rect.1 <= tc * l.chunk_width + col < rect.3 implies #[trigger] has_sample(
        chunk,
        s,
        band,
        row,
        col,
    ) by {
        lemma_position(row, col, chunk.height as int, chunk.width as int);
        let p = row * chunk.width + col;
        let n = chunk.height * chunk.width;
        lemma_position(p, band, n, s);
    }
}

/// Reading a window fails only for a chunk that it needs: as the chunk could not be
/// read, or as it is larger than its layout says or lacks a sample.
pub proof fn windows_fail_for_a_chunk<T, D>(
    l: ChunkLayout,
    rect: (int, int, int, int),
    band: int,
    read: D,
    e: Error,
) where D: Fn(u32) -> Result<Chunk<T>, Error>
    requires
        layout_wf(l),
        0 <= rect.0 < rect.2 <= l.rows,
        0 <= rect.1 < rect.3 <= l.cols,
        0 <= band < l.samples_per_pixel,
        is_first_failure::<T, D>(l, rect, band, read, e),
    ensures
        exists|number: u32, row: int, col: int|
            {
                &&& rect.0 <= row < rect.2
                &&& rect.1 <= col < rect.3
                &&& #[trigger] holds_pixel(l, number, row, col)
                &&& {
                    ||| call_ensures(read, (number,), Err::<Chunk<T>, Error>(e))
                    ||| e == Error::InvalidInput(Invalid::BadChunk) && exists|chunk: Chunk<T>|
                        {
                            &&& #[trigger] call_ensures(
                                read,
                                (number,),
                                Ok::<Chunk<T>, Error>(chunk),
                            )
                            &&& chunk.width > l.chunk_width || chunk.height > l.chunk_height
                                || chunk.samples@.len() != (chunk.height * chunk.width)
                                * l.samples_per_pixel
                        }
                }
            },
{
    let (tr, tc, chunks) = choose|tr: int, tc: int, chunks: Map<(int, int), Chunk<T>>|
        {
            &&& meets(l, rect, tr, tc)
            &&& chunk_failed(l, rect, band, read, tr, tc, e)
            &&& #[trigger] are_read_before(l, rect, band, read, chunks, tr, tc)
        };
    no_other_chunk_is_read(l, rect, tr, tc);
    let (row, col) = choose|row: int, col: int|
        rect.0 <= row < rect.2 && rect.1 <= col < rect.3 && #[trigger] chunk_of(l, row, col) == (
            tr,
            tc,
        );
    lemma_chunk_number(l, rect, tr, tc);
    let number = chunk_index(l, tr, tc) as u32;
    assert(holds_pixel(l, number, row, col));
    if !call_ensures(read, (number,), Err::<Chunk<T>, Error>(e)) {
        let chunk = choose|chunk: Chunk<T>| #[trigger]
            call_ensures(read, (number,), Ok::<Chunk<T>, Error>(chunk)) && !chunk_ok(
                l,
                rect,
                band,
                tr,
                tc,
                chunk,
            );
        if chunk.width <= l.chunk_width && chunk.height <= l.chunk_height && chunk.samples@.len()
            == (chunk.height * chunk.width) * l.samples_per_pixel {
            whole_chunks_are_taken(l, rect, band, tr, tc, chunk);
        }
    }
}

/// The chunk of this number holds the pixel at a row and column: the tile in its
/// row and column of tiles, counted row by row, or the strip of its row.
pub open spec fn holds_pixel(l: ChunkLayout, number: u32, row: int, col: int) -> bool {
    if l.tiled {
        number == (row / l.chunk_height as int) * ceil_div(l.cols as int, l.chunk_width as int)
            + col / l.chunk_width as int
    } else {
        number == row / l.chunk_height as int
    }
}

/// The scan window that a cell lies in is one of those of its raster.
pub proof fn lemma_scan_home(rows: int, cols: int, row: int, col: int)
    requires
        0 <= row < rows,
        0 <= col < cols,
    ensures
        0 <= (row / 1024) * ceil_div(cols, 1024) + col / 1024 < scan_starts(rows, cols).len(),
{
    let step = SCAN_STEP as int;
    lemma_axis_meets(0, row, rows, step);
    lemma_axis_meets(0, col, cols, step);
    lemma_position(row / step, col / step, ceil_div(rows, step), ceil_div(cols, step));
}

} // verus!
