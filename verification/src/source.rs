//! Raster sources: what bands make one, which CRS it has, and which of its
//! cells a tile reads.
//!
//! `T` is the sample type and `X` the georeference of a band, both left open.

use vstd::prelude::*;

use crate::error::{Error, Invalid};
use crate::grid::Grid;

verus! {

/// The coordinate reference systems that a source may have.
#[derive(Debug, Clone, Copy, PartialEq, Eq, Structural)]
pub enum SourceCrs {
    /// Longitude and latitude in degrees (EPSG:4326).
    LonLat,
    /// Spherical Web Mercator meters (EPSG:3857).
    Mercator,
}

/// How a source is sampled.
#[derive(Debug, Clone, Copy, PartialEq, Eq, Structural)]
pub enum Resampling {
    /// Nearest neighbour, for categorical data.
    Nearest,
    /// Bilinear over valid neighbours, for continuous data. Default.
    Bilinear,
}

impl Default for Resampling {
    fn default() -> (resampling: Resampling)
        ensures
            resampling == Resampling::Bilinear,
    {
        Resampling::Bilinear
    }
}

/// One georeferenced band in memory.
pub struct Band<T, X> {
    pub grid: Grid<T>,
    pub transform: X,
}

/// What is known of a file whose pixels are read window by window.
pub struct FileSource<X> {
    pub path: String,
    /// The bands served, counted from 0.
    pub bands: Vec<usize>,
    pub rows: usize,
    pub cols: usize,
    pub transform: X,
}

/// Where a source's pixels are.
pub enum SourceData<T, X> {
    /// In memory.
    Memory(Vec<Band<T, X>>),
    /// In a file.
    File(FileSource<X>),
}

/// A raster that can be tiled: one band (gray), three (RGB) or four (RGBA).
pub struct RasterSource<T, X> {
    pub data: SourceData<T, X>,
    pub crs: SourceCrs,
}

/// What tells the CRS of a raster: the EPSG code of its metadata, and whether
/// its bounds look like degrees or like Web Mercator meters.
#[derive(Debug, Clone, Copy, PartialEq, Eq, Structural)]
pub struct CrsHints {
    pub epsg: Option<u32>,
    pub looks_geographic: bool,
    pub looks_mercator: bool,
}

/// The CRS that an EPSG code stands for.
pub open spec fn crs_of_epsg(code: u32) -> Result<SourceCrs, Error> {
    if code == 4326 {
        Ok(SourceCrs::LonLat)
    } else if code == 3857 || code == 900913 {
        Ok(SourceCrs::Mercator)
    } else {
        Err(Error::InvalidInput(Invalid::SourceCrs(code)))
    }
}

/// The CRS of a raster: the one asked for, else the one of its EPSG code,
/// else the one that its bounds look like.
pub open spec fn detected_crs(asked: Option<SourceCrs>, hints: CrsHints) -> Result<
    SourceCrs,
    Error,
> {
    match asked {
        Some(crs) => Ok(crs),
        None => match hints.epsg {
            Some(code) => crs_of_epsg(code),
            None => if hints.looks_geographic {
                Ok(SourceCrs::LonLat)
            } else if hints.looks_mercator {
                Ok(SourceCrs::Mercator)
            } else {
                Err(Error::InvalidInput(Invalid::AmbiguousCrs))
            },
        },
    }
}

fn epsg_crs(code: u32) -> (crs: Result<SourceCrs, Error>)
    ensures
        crs == crs_of_epsg(code),
{
    match code {
        4326 => Ok(SourceCrs::LonLat),
        3857 | 900913 => Ok(SourceCrs::Mercator),
        other => Err(Error::InvalidInput(Invalid::SourceCrs(other))),
    }
}

/// The CRS of a raster: the one asked for, else the one of its EPSG code,
/// else the one that its bounds look like.
pub fn detect_crs(asked: Option<SourceCrs>, hints: CrsHints) -> (crs: Result<SourceCrs, Error>)
    ensures
        crs == detected_crs(asked, hints),
{
    match asked {
        Some(crs) => Ok(crs),
        None => match hints.epsg {
            Some(code) => epsg_crs(code),
            None => if hints.looks_geographic {
                Ok(SourceCrs::LonLat)
            } else if hints.looks_mercator {
                Ok(SourceCrs::Mercator)
            } else {
                Err(Error::InvalidInput(Invalid::AmbiguousCrs))
            },
        },
    }
}

/// What is wrong with the bands of a source, the first thing first.
pub open spec fn is_band_check<T, X, N, A>(
    bands: Seq<Band<T, X>>,
    north_up: N,
    aligned: A,
    check: Result<(), Error>,
) -> bool where N: Fn(&X) -> bool, A: Fn(&X, &X) -> bool {
    if bands.len() != 1 && bands.len() != 3 && bands.len() != 4 {
        check == Err::<(), Error>(Error::InvalidInput(Invalid::BandCount))
    } else if bands[0].grid.rows == 0 || bands[0].grid.cols == 0 {
        check == Err::<(), Error>(Error::InvalidInput(Invalid::EmptyRaster))
    } else {
        ||| {
            &&& call_ensures(north_up, (&bands[0].transform,), false)
            &&& check == Err::<(), Error>(Error::InvalidInput(Invalid::Rotated))
        }
        ||| {
            &&& call_ensures(north_up, (&bands[0].transform,), true)
            &&& match check {
                Ok(_) => bands_match(bands, aligned, bands.len() as int),
                Err(e) => exists|i: int|
                    {
                        &&& 1 <= i < bands.len()
                        &&& #[trigger] bands_match(bands, aligned, i)
                        &&& if !same_shape(bands[i], bands[0]) {
                            e == Error::InvalidInput(Invalid::BandShape((i + 1) as usize))
                        } else {
                            &&& call_ensures(
                                aligned,
                                (&bands[i].transform, &bands[0].transform),
                                false,
                            )
                            &&& e == Error::InvalidInput(Invalid::BandTransform((i + 1) as usize))
                        }
                    },
            }
        }
    }
}

/// Two bands have as many rows and columns.
pub open spec fn same_shape<T, X>(a: Band<T, X>, b: Band<T, X>) -> bool {
    a.grid.rows == b.grid.rows && a.grid.cols == b.grid.cols
}

/// The first `n` bands match the first one in shape and georeference.
pub open spec fn bands_match<T, X, A>(bands: Seq<Band<T, X>>, aligned: A, n: int) -> bool where
    A: Fn(&X, &X) -> bool,
 {
    forall|j: int|
        1 <= j < n ==> {
            &&& same_shape(#[trigger] bands[j], bands[0])
            &&& call_ensures(aligned, (&bands[j].transform, &bands[0].transform), true)
        }
}

fn check_bands<T: Copy, X, N, A>(bands: &Vec<Band<T, X>>, north_up: &N, aligned: &A) -> (check:
    Result<(), Error>) where N: Fn(&X) -> bool, A: Fn(&X, &X) -> bool
    requires
        forall|x: &X| call_requires(*north_up, (x,)),
        forall|x: &X, y: &X| call_requires(*aligned, (x, y)),
    ensures
        is_band_check(bands@, *north_up, *aligned, check),
{
    let n: usize = bands.len();
    if n != 1 && n != 3 && n != 4 {
        return Err(Error::InvalidInput(Invalid::BandCount));
    }
    if bands[0].grid.rows == 0 || bands[0].grid.cols == 0 {
        return Err(Error::InvalidInput(Invalid::EmptyRaster));
    }
    if !north_up(&bands[0].transform) {
        return Err(Error::InvalidInput(Invalid::Rotated));
    }
    for i in 1..n
        invariant
            n == bands@.len(),
            1 <= n <= 4,
            n == 1 || n == 3 || n == 4,
            bands@[0].grid.rows > 0,
            bands@[0].grid.cols > 0,
            forall|x: &X, y: &X| call_requires(*aligned, (x, y)),
            call_ensures(*north_up, (&bands@[0].transform,), true),
            bands_match(bands@, *aligned, i as int),
    {
        assert(bands_match(bands@, *aligned, i as int));
        if bands[i].grid.rows != bands[0].grid.rows || bands[i].grid.cols != bands[0].grid.cols {
            return Err(Error::InvalidInput(Invalid::BandShape(i + 1)));
        }
        if !aligned(&bands[i].transform, &bands[0].transform) {
            return Err(Error::InvalidInput(Invalid::BandTransform(i + 1)));
        }
    }
    Ok(())
}

/// A tile reads this many cells beyond its edges.
pub const MARGIN: i64 = 2;

/// The pixel coordinates that a tile's edges have in the source, rounded down
/// at the low ends and up at the high ends.
#[derive(Debug, Clone, Copy, PartialEq, Eq, Structural)]
pub struct PixelBox {
    pub col_low: i64,
    pub row_low: i64,
    pub col_high: i64,
    pub row_high: i64,
}

/// A rectangle of source cells.
#[derive(Debug, Clone, Copy, PartialEq, Eq, Structural)]
pub struct Window {
    pub col0: i64,
    pub row0: i64,
    pub width: usize,
    pub height: usize,
}

/// From where to where a tile reads along one axis of `len` cells.
pub open spec fn reach(low: int, high: int, len: int) -> (int, int) {
    (
        if low - MARGIN < 0 {
            0
        } else {
            low - MARGIN
        },
        if high + MARGIN > len {
            len
        } else {
            high + MARGIN
        },
    )
}

/// The cells of a `rows` x `cols` raster that a tile reads; `None` where it
/// does not meet the raster.
pub open spec fn window_of(at: PixelBox, rows: int, cols: int) -> Option<(int, int, int, int)> {
    let c = reach(at.col_low as int, at.col_high as int, cols);
    let r = reach(at.row_low as int, at.row_high as int, rows);
    if c.1 <= c.0 || r.1 <= r.0 {
        None
    } else {
        Some((c.0, r.0, c.1 - c.0, r.1 - r.0))
    }
}

/// The box and a margin around it have 64-bit coordinates.
pub open spec fn has_margin(at: Option<PixelBox>) -> bool {
    at matches Some(p) ==> {
        &&& p.col_low >= i64::MIN + MARGIN
        &&& p.row_low >= i64::MIN + MARGIN
        &&& p.col_high <= i64::MAX - MARGIN
        &&& p.row_high <= i64::MAX - MARGIN
    }
}

/// `source` is a file as a source, or why it is none: the number of bands is
/// looked at first, then whether the georeference is rotated, then the CRS.
pub open spec fn is_opened<T, X>(
    file: FileSource<X>,
    asked: Option<SourceCrs>,
    north_up: bool,
    hints: CrsHints,
    source: Result<RasterSource<T, X>, Error>,
) -> bool {
    let n = file.bands@.len();
    if n != 1 && n != 3 && n != 4 {
        source == Err::<RasterSource<T, X>, Error>(Error::InvalidInput(Invalid::BandCount))
    } else if !north_up {
        source == Err::<RasterSource<T, X>, Error>(Error::InvalidInput(Invalid::Rotated))
    } else {
        match detected_crs(asked, hints) {
            Err(e) => source == Err::<RasterSource<T, X>, Error>(e),
            Ok(crs) => source == Ok::<RasterSource<T, X>, Error>(
                RasterSource { data: SourceData::File(file), crs },
            ),
        }
    }
}

impl<T: Copy, X> RasterSource<T, X> {
    /// The bands' cells fill their rectangles.
    pub open spec fn wf(&self) -> bool {
        self.data matches SourceData::Memory(bands) ==> forall|i: int|
            0 <= i < bands@.len() ==> (#[trigger] bands@[i]).grid.wf()
    }

    /// A single-band source. See [`RasterSource::new_multi`].
    pub fn new<N, A>(
        band: Band<T, X>,
        crs_override: Option<SourceCrs>,
        hints: CrsHints,
        north_up: &N,
        aligned: &A,
    ) -> (source: Result<RasterSource<T, X>, Error>) where
        N: Fn(&X) -> bool,
        A: Fn(&X, &X) -> bool,

        requires
            band.grid.wf(),
            forall|x: &X| call_requires(*north_up, (x,)),
            forall|x: &X, y: &X| call_requires(*aligned, (x, y)),
        ensures
            exists|check: Result<(), Error>|
                {
                    &&& #[trigger] is_band_check(seq![band], *north_up, *aligned, check)
                    &&& is_made(seq![band], crs_override, hints, check, source)
                },
            source matches Ok(s) ==> s.wf(),
    {
        let ghost one = band;
        let mut bands: Vec<Band<T, X>> = Vec::new();
        bands.push(band);
        assert(bands@ =~= seq![one]);
        RasterSource::new_multi(bands, crs_override, hints, north_up, aligned)
    }

    /// A source of one, three or four co-registered bands (gray, RGB, RGBA).
    ///
    /// All bands must share shape and georeference. `north_up` tells whether a
    /// georeference is not rotated, `aligned` whether two are the same.
    pub fn new_multi<N, A>(
        bands: Vec<Band<T, X>>,
        crs_override: Option<SourceCrs>,
        hints: CrsHints,
        north_up: &N,
        aligned: &A,
    ) -> (source: Result<RasterSource<T, X>, Error>) where
        N: Fn(&X) -> bool,
        A: Fn(&X, &X) -> bool,

        requires
            forall|i: int| 0 <= i < bands@.len() ==> (#[trigger] bands@[i]).grid.wf(),
            forall|x: &X| call_requires(*north_up, (x,)),
            forall|x: &X, y: &X| call_requires(*aligned, (x, y)),
        ensures
            exists|check: Result<(), Error>|
                {
                    &&& #[trigger] is_band_check(bands@, *north_up, *aligned, check)
                    &&& is_made(bands@, crs_override, hints, check, source)
                },
            source matches Ok(s) ==> s.wf(),
    {
        let check: Result<(), Error> = check_bands(&bands, north_up, aligned);
        assert(is_band_check(bands@, *north_up, *aligned, check));
        match check {
            Err(e) => Err(e),
            Ok(_) => match detect_crs(crs_override, hints) {
                Err(e) => Err(e),
                Ok(crs) => Ok(RasterSource { data: SourceData::Memory(bands), crs }),
            },
        }
    }

    /// A source whose pixels are read from a file, window by window.
    ///
    /// `bands` counts from 0. `north_up` tells whether the georeference is not
    /// rotated. The CRS is found as that of a source in memory.
    pub fn open_file(
        file: FileSource<X>,
        crs_override: Option<SourceCrs>,
        north_up: bool,
        hints: CrsHints,
    ) -> (source: Result<RasterSource<T, X>, Error>)
        ensures
            is_opened(file, crs_override, north_up, hints, source),
    {
        let n: usize = file.bands.len();
        if n != 1 && n != 3 && n != 4 {
            return Err(Error::InvalidInput(Invalid::BandCount));
        }
        if !north_up {
            return Err(Error::InvalidInput(Invalid::Rotated));
        }
        let crs: SourceCrs = match detect_crs(crs_override, hints) {
            Ok(crs) => crs,
            Err(e) => {
                return Err(e);
            },
        };
        Ok(RasterSource { data: SourceData::File(file), crs })
    }

    /// The number of bands.
    pub open spec fn bands(&self) -> nat {
        match self.data {
            SourceData::Memory(bands) => bands@.len(),
            SourceData::File(f) => f.bands@.len(),
        }
    }

    /// The number of bands.
    pub fn band_count(&self) -> (n: usize)
        ensures
            n == self.bands(),
    {
        match &self.data {
            SourceData::Memory(bands) => bands.len(),
            SourceData::File(f) => f.bands.len(),
        }
    }

    /// Whether pixels are read from a file per tile rather than held in
    /// memory.
    pub fn is_file_backed(&self) -> (b: bool)
        ensures
            b == (self.data is File),
    {
        match &self.data {
            SourceData::Memory(_) => false,
            SourceData::File(_) => true,
        }
    }

    /// The CRS.
    pub fn crs(&self) -> (crs: SourceCrs)
        ensures
            crs == self.crs,
    {
        self.crs
    }

    /// A band in memory.
    pub open spec fn memory_band(&self, b: int) -> Option<Band<T, X>> {
        match self.data {
            SourceData::Memory(bands) => if 0 <= b < bands@.len() {
                Some(bands@[b])
            } else {
                None
            },
            SourceData::File(_) => None,
        }
    }

    /// The first band of a source in memory.
    pub fn raster(&self) -> (band: &Band<T, X>)
        requires
            self.memory_band(0) is Some,
        ensures
            Some(*band) == self.memory_band(0),
    {
        self.band(0)
    }

    /// A band of a source in memory, counted from 0.
    pub fn band(&self, b: usize) -> (band: &Band<T, X>)
        requires
            self.memory_band(b as int) is Some,
        ensures
            Some(*band) == self.memory_band(b as int),
    {
        match &self.data {
            SourceData::Memory(bands) => &bands[b],
            SourceData::File(_) => {
                assert(false);
                vstd::pervasive::unreached()
            },
        }
    }

    /// A band, where the source is in memory and has it.
    pub fn band_opt(&self, b: usize) -> (band: Option<&Band<T, X>>)
        ensures
            match band {
                Some(v) => Some(*v) == self.memory_band(b as int),
                None => self.memory_band(b as int) is None,
            },
    {
        match &self.data {
            SourceData::Memory(bands) => if b < bands.len() {
                Some(&bands[b])
            } else {
                None
            },
            SourceData::File(_) => None,
        }
    }

    /// The sample of a band at a row and column; `None` outside the raster,
    /// where the cell has no valid sample, and where there is no such band in
    /// memory.
    pub open spec fn cell(&self, b: int, row: int, col: int) -> Option<T> {
        match self.memory_band(b) {
            Some(band) => band.grid.cell(row, col),
            None => None,
        }
    }

    /// The sample of a band at a row and column; `None` outside the raster,
    /// where the cell has no valid sample, and where there is no such band in
    /// memory.
    pub fn valid_at(&self, band: usize, row: i64, col: i64) -> (cell: Option<T>)
        requires
            self.wf(),
        ensures
            cell == self.cell(band as int, row as int, col as int),
    {
        match self.band_opt(band) {
            None => None,
            Some(b) => {
                if row < 0 || col < 0 || row as u64 >= b.grid.rows as u64 || col as u64
                    >= b.grid.cols as u64 {
                    None
                } else {
                    b.grid.get(row as usize, col as usize)
                }
            },
        }
    }

    /// The four cells around a point between pixel centers: the cell at a row
    /// and column, its neighbour to the east, and the two to the south.
    pub fn bilinear_cells(&self, band: usize, row: i64, col: i64) -> (cells: (
        Option<T>,
        Option<T>,
        Option<T>,
        Option<T>,
    ))
        requires
            self.wf(),
            row < i64::MAX,
            col < i64::MAX,
        ensures
            cells.0 == self.cell(band as int, row as int, col as int),
            cells.1 == self.cell(band as int, row as int, col + 1),
            cells.2 == self.cell(band as int, row + 1, col as int),
            cells.3 == self.cell(band as int, row + 1, col + 1),
    {
        (
            self.valid_at(band, row, col),
            self.valid_at(band, row, col + 1),
            self.valid_at(band, row + 1, col),
            self.valid_at(band, row + 1, col + 1),
        )
    }

    /// The rows and columns of a file have 64-bit numbers.
    pub open spec fn has_extent(&self) -> bool {
        self.data matches SourceData::File(f) ==> f.rows <= i64::MAX && f.cols <= i64::MAX
    }

    /// `window` is what a tile reads of the source, nothing of one in memory.
    pub open spec fn is_tile_window(&self, at: Option<PixelBox>, window: Option<Window>) -> bool {
        let want = match (self.data, at) {
            (SourceData::File(f), Some(p)) => window_of(p, f.rows as int, f.cols as int),
            _ => None,
        };
        match window {
            Some(w) => want == Some(
                (w.col0 as int, w.row0 as int, w.width as int, w.height as int),
            ),
            None => want is None,
        }
    }

    /// The source window that a tile reads; `None` if the tile does not meet
    /// the source or the source is in memory. `at` is where the tile's edges
    /// lie in the source, `None` where that cannot be told.
    pub fn window_rect(&self, at: Option<PixelBox>) -> (window: Option<Window>)
        requires
            has_margin(at),
            self.has_extent(),
        ensures
            self.is_tile_window(at, window),
    {
        match (&self.data, at) {
            (SourceData::File(f), Some(p)) => {
                let cols: i64 = f.cols as i64;
                let rows: i64 = f.rows as i64;
                let col0: i64 = if p.col_low - MARGIN < 0 {
                    0
                } else {
                    p.col_low - MARGIN
                };
                let row0: i64 = if p.row_low - MARGIN < 0 {
                    0
                } else {
                    p.row_low - MARGIN
                };
                let col1: i64 = if p.col_high + MARGIN > cols {
                    cols
                } else {
                    p.col_high + MARGIN
                };
                let row1: i64 = if p.row_high + MARGIN > rows {
                    rows
                } else {
                    p.row_high + MARGIN
                };
                if col1 <= col0 || row1 <= row0 {
                    None
                } else {
                    Some(
                        Window {
                            col0,
                            row0,
                            width: (col1 - col0) as usize,
                            height: (row1 - row0) as usize,
                        },
                    )
                }
            },
            _ => None,
        }
    }

    /// Estimated bytes in memory of a source window, eight for each sample.
    pub fn window_bytes(&self, window: Option<Window>) -> (bytes: Option<usize>)
        requires
            window matches Some(w) ==> w.width * w.height * self.bands() * 8 <= usize::MAX,
        ensures
            bytes is Some <==> window is Some,
            window matches Some(w) ==> bytes == Some(
                (w.width * w.height * self.bands() * 8) as usize,
            ),
    {
        match window {
            None => None,
            Some(w) => {
                let n: usize = self.band_count();
                proof {
                    let cells = w.width * w.height;
                    assert(0 <= cells) by (nonlinear_arith)
                        requires
                            cells == w.width * w.height,
                    ;
                    if n > 0 {
                        assert(cells <= cells * n) by (nonlinear_arith)
                            requires
                                0 <= cells,
                                n >= 1,
                        ;
                    }
                    assert(0 <= cells * n) by (nonlinear_arith)
                        requires
                            0 <= cells,
                            0 <= n,
                    ;
                }
                if n == 0 {
                    assert(w.width * w.height * 0 == 0) by (nonlinear_arith);
                    Some(0)
                } else {
                    Some(w.width * w.height * n * 8)
                }
            },
        }
    }
}

/// `source` is what becomes of checked bands.
pub open spec fn is_made<T, X>(
    bands: Seq<Band<T, X>>,
    asked: Option<SourceCrs>,
    hints: CrsHints,
    check: Result<(), Error>,
    source: Result<RasterSource<T, X>, Error>,
) -> bool {
    match check {
        Err(e) => source == Err::<RasterSource<T, X>, Error>(e),
        Ok(_) => match detected_crs(asked, hints) {
            Err(e) => source == Err::<RasterSource<T, X>, Error>(e),
            Ok(crs) => {
                &&& source matches Ok(s)
                &&& s.crs == crs
                &&& s.data matches SourceData::Memory(v)
                &&& v@ == bands
            },
        },
    }
}

/// A file is taken where the same raster in memory is, and found to have the
/// same CRS.
pub proof fn files_are_taken_as_rasters_are<T: Copy, X, N, A>(
    file: FileSource<X>,
    bands: Seq<Band<T, X>>,
    asked: Option<SourceCrs>,
    hints: CrsHints,
    up: bool,
    north_up: N,
    aligned: A,
    check: Result<(), Error>,
    opened: Result<RasterSource<T, X>, Error>,
    made: Result<RasterSource<T, X>, Error>,
) where N: Fn(&X) -> bool, A: Fn(&X, &X) -> bool
    requires
        bands.len() == file.bands@.len(),
        file.rows > 0,
        file.cols > 0,
        forall|i: int|
            0 <= i < bands.len() ==> (#[trigger] bands[i]).grid.rows == file.rows
                && bands[i].grid.cols == file.cols,
        forall|i: int|
            1 <= i < bands.len() ==> !call_ensures(
                aligned,
                (&(#[trigger] bands[i]).transform, &bands[0].transform),
                false,
            ),
        forall|r: bool| #[trigger]
            call_ensures(north_up, (&bands[0].transform,), r) ==> r == up,
        is_opened(file, asked, up, hints, opened),
        is_band_check(bands, north_up, aligned, check),
        is_made(bands, asked, hints, check, made),
    ensures
        opened is Ok <==> made is Ok,
        opened is Ok ==> opened->Ok_0.crs == made->Ok_0.crs,
{
}

/// A window lies in the raster and has a cell.
pub proof fn windows_lie_in_the_raster(at: PixelBox, rows: int, cols: int)
    requires
        0 <= rows,
        0 <= cols,
    ensures
        window_of(at, rows, cols) matches Some((col0, row0, width, height)) ==> {
            &&& 0 <= col0 && 0 < width && col0 + width <= cols
            &&& 0 <= row0 && 0 < height && row0 + height <= rows
        },
{
}

/// A window holds every cell of the raster within the margin of a tile.
pub proof fn windows_hold_what_a_tile_reads(
    at: PixelBox,
    rows: int,
    cols: int,
    row: int,
    col: int,
)
    requires
        0 <= row < rows,
        0 <= col < cols,
        at.row_low - MARGIN <= row < at.row_high + MARGIN,
        at.col_low - MARGIN <= col < at.col_high + MARGIN,
    ensures
        window_of(at, rows, cols) matches Some((col0, row0, width, height)) && row0 <= row < row0
            + height && col0 <= col < col0 + width,
{
}

/// The CRS that is asked for goes before all else, and an EPSG code before what
/// the bounds look like: 4326 is geographic, 3857 and 900913 are Web Mercator, and
/// any other is refused by its number. Without a code, bounds that look like
/// degrees are taken for degrees, whatever else they look like.
pub proof fn crs_is_told_in_order(
    asked: Option<SourceCrs>,
    hints: CrsHints,
    other: CrsHints,
)
    ensures
        asked matches Some(crs) ==> detected_crs(asked, hints) == Ok::<SourceCrs, Error>(crs),
        hints.epsg is Some && hints.epsg == other.epsg ==> detected_crs(asked, hints)
            == detected_crs(asked, other),
        asked is None && hints.epsg == Some(4326u32) ==> detected_crs(asked, hints) == Ok::<
            SourceCrs,
            Error,
        >(SourceCrs::LonLat),
        asked is None && (hints.epsg == Some(3857u32) || hints.epsg == Some(900913u32))
            ==> detected_crs(asked, hints) == Ok::<SourceCrs, Error>(SourceCrs::Mercator),
        asked is None ==> (hints.epsg matches Some(code) ==> (code != 4326 && code != 3857 && code
            != 900913 ==> detected_crs(asked, hints) == Err::<SourceCrs, Error>(
            Error::InvalidInput(Invalid::SourceCrs(code)),
        ))),
        asked is None && hints.epsg is None && hints.looks_geographic ==> detected_crs(asked, hints)
            == Ok::<SourceCrs, Error>(SourceCrs::LonLat),
        asked is None && hints.epsg is None && !hints.looks_geographic && hints.looks_mercator
            ==> detected_crs(asked, hints) == Ok::<SourceCrs, Error>(SourceCrs::Mercator),
        asked is None && hints.epsg is None && !hints.looks_geographic && !hints.looks_mercator
            ==> detected_crs(asked, hints) is Err,
{
}

/// Bands that are taken are one, three or four, have cells, and all have as many
/// rows and as many columns as the first and the same georeference, which is not
/// rotated.
pub proof fn bands_that_are_taken_match<T, X, N, A>(
    bands: Seq<Band<T, X>>,
    north_up: N,
    aligned: A,
    i: int,
) where N: Fn(&X) -> bool, A: Fn(&X, &X) -> bool
    requires
        is_band_check(bands, north_up, aligned, Ok(())),
        1 <= i < bands.len(),
    ensures
        bands.len() == 3 || bands.len() == 4,
        bands[0].grid.rows > 0,
        bands[0].grid.cols > 0,
        call_ensures(north_up, (&bands[0].transform,), true),
        bands[i].grid.rows == bands[0].grid.rows,
        bands[i].grid.cols == bands[0].grid.cols,
        call_ensures(aligned, (&bands[i].transform, &bands[0].transform), true),
{
}

/// Bands are refused for their number where they are not one, three or four, else
/// for being empty, else for being rotated; else the first band, counted from 1,
/// that differs from the first one is named, for its shape before its
/// georeference. Where nothing is wrong they are taken.
pub proof fn bands_are_refused_for_what_is_wrong<T, X, N, A>(
    bands: Seq<Band<T, X>>,
    north_up: N,
    aligned: A,
    check: Result<(), Error>,
) where N: Fn(&X) -> bool, A: Fn(&X, &X) -> bool
    requires
        is_band_check(bands, north_up, aligned, check),
    ensures
        bands.len() == 0 || bands.len() == 2 || bands.len() > 4 <==> check == Err::<(), Error>(
            Error::InvalidInput(Invalid::BandCount),
        ),
        bands.len() == 1 && bands[0].grid.rows > 0 && bands[0].grid.cols > 0 && !call_ensures(
            north_up,
            (&bands[0].transform,),
            false,
        ) ==> check is Ok,
        check == Err::<(), Error>(Error::InvalidInput(Invalid::EmptyRaster)) ==> bands[0].grid.rows
            == 0 || bands[0].grid.cols == 0,
        check == Err::<(), Error>(Error::InvalidInput(Invalid::Rotated)) ==> call_ensures(
            north_up,
            (&bands[0].transform,),
            false,
        ),
        check matches Err(Error::InvalidInput(Invalid::BandShape(n))) ==> {
                &&& 2 <= n <= bands.len()
                &&& bands[n - 1].grid.rows != bands[0].grid.rows || bands[n - 1].grid.cols
                    != bands[0].grid.cols
                &&& forall|j: int|
                    1 <= j < n - 1 ==> (#[trigger] bands[j]).grid.rows == bands[0].grid.rows
                        && bands[j].grid.cols == bands[0].grid.cols
            },
        check matches Err(Error::InvalidInput(Invalid::BandTransform(n))) ==> {
                &&& 2 <= n <= bands.len()
                &&& call_ensures(
                    aligned,
                    (&bands[n - 1].transform, &bands[0].transform),
                    false,
                )
                &&& forall|j: int|
                    1 <= j < n ==> (#[trigger] bands[j]).grid.rows == bands[0].grid.rows
                        && bands[j].grid.cols == bands[0].grid.cols
            },
{
    if bands.len() == 1 || bands.len() == 3 || bands.len() == 4 {
        if bands[0].grid.rows > 0 && bands[0].grid.cols > 0 && check is Err && check != Err::<
            (),
            Error,
        >(Error::InvalidInput(Invalid::Rotated)) {
            let e = check->Err_0;
            let i = choose|i: int|
                {
                    &&& 1 <= i < bands.len()
                    &&& #[trigger] bands_match(bands, aligned, i)
                    &&& if !same_shape(bands[i], bands[0]) {
                        e == Error::InvalidInput(Invalid::BandShape((i + 1) as usize))
                    } else {
                        &&& call_ensures(
                            aligned,
                            (&bands[i].transform, &bands[0].transform),
                            false,
                        )
                        &&& e == Error::InvalidInput(Invalid::BandTransform((i + 1) as usize))
                    }
                };
            assert forall|j: int| 1 <= j < i implies (#[trigger] bands[j]).grid.rows
                == bands[0].grid.rows && bands[j].grid.cols == bands[0].grid.cols by {
                assert(same_shape(bands[j], bands[0]));
            }
        }
    }
}

/// A source in memory gives, of each band, the cells of that band, each at its
/// row and column, and nothing elsewhere.
pub proof fn sources_hold_the_cells_of_their_bands<T: Copy, X>(
    bands: Seq<Band<T, X>>,
    asked: Option<SourceCrs>,
    hints: CrsHints,
    source: RasterSource<T, X>,
    b: int,
    row: int,
    col: int,
)
    requires
        is_made(bands, asked, hints, Ok(()), Ok(source)),
    ensures
        source.bands() == bands.len(),
        detected_crs(asked, hints) == Ok::<SourceCrs, Error>(source.crs),
        0 <= b < bands.len() && 0 <= row < bands[b].grid.rows && 0 <= col < bands[b].grid.cols
            ==> source.cell(b, row, col) == bands[b].grid.cells@[row * bands[b].grid.cols + col],
        b < 0 || b >= bands.len() || row < 0 || row >= bands[b].grid.rows || col < 0 || col
            >= bands[b].grid.cols ==> source.cell(b, row, col) is None,
{
}

/// What a tile reads of a file is, to the cell, what lies within two cells of the
/// tile: a cell is in the window exactly where it is in the raster and that near.
/// There is no window exactly where no cell is.
pub proof fn windows_hold_just_what_a_tile_reads<T: Copy, X>(
    source: RasterSource<T, X>,
    file: FileSource<X>,
    at: PixelBox,
    window: Option<Window>,
    row: int,
    col: int,
)
    requires
        source.data == SourceData::<T, X>::File(file),
        source.is_tile_window(Some(at), window),
    ensures
        ({
            let near = {
                &&& 0 <= row < file.rows
                &&& 0 <= col < file.cols
                &&& at.row_low - 2 <= row < at.row_high + 2
                &&& at.col_low - 2 <= col < at.col_high + 2
            };
            match window {
                Some(w) => {
                    &&& near <==> w.row0 <= row < w.row0 + w.height && w.col0 <= col < w.col0
                        + w.width
                    &&& w.width > 0
                    &&& w.height > 0
                },
                None => !near,
            }
        }),
{
}

/// Nothing is read of a source in memory, nor for a tile of which it cannot be
/// told where it lies.
pub proof fn memory_has_no_window<T: Copy, X>(
    source: RasterSource<T, X>,
    at: Option<PixelBox>,
    window: Option<Window>,
)
    requires
        source.is_tile_window(at, window),
        source.data is Memory || at is None,
    ensures
        window is None,
{
}

} // verus!
