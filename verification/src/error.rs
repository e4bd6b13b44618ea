//! What can go wrong.

use vstd::prelude::*;

use crate::images::TileFormat;

verus! {

/// Why an input cannot be tiled.
#[derive(Debug, Clone, Copy, PartialEq, Eq, Structural)]
pub enum Invalid {
    /// The raster has no cell.
    EmptyRaster,
    /// The tile size is no positive multiple of 16.
    TileSize(u32),
    /// A source has one, three or four bands.
    BandCount,
    /// There is no band of this number.
    BandNumber,
    /// Rotated rasters are not supported.
    Rotated,
    /// The shape of this band, counted from 1, differs from the first one's.
    BandShape(usize),
    /// The georeference of this band, counted from 1, differs from the first
    /// one's.
    BandTransform(usize),
    /// Only EPSG:4326 and EPSG:3857 can be tiled, not this EPSG code.
    SourceCrs(u32),
    /// The source has no CRS, and its bounds do not tell.
    AmbiguousCrs,
    /// Only EPSG:4326 and EPSG:3857 can be recorded, not this EPSG code.
    OutputCrs(u32),
    /// The raster has no CRS and none was given.
    OutputCrsMissing,
    /// The file would be longer than a 32-bit offset can tell.
    FileTooLarge,
    /// The window lies outside the raster.
    WindowOutside,
    /// A chunk of the file is not as large as its layout says.
    BadChunk,
    /// The CRS of vector coordinates cannot be told from their extent.
    VectorCrs,
    /// No feature of the input can be tiled.
    NoFeatures,
    /// The header of the archive is written already.
    AlreadyOpen,
    /// The header of the archive is not written yet.
    NotPrepared,
    /// The archive is for another tile format.
    FormatMismatch,
    /// A layer text has no path.
    EmptyPath,
    /// There is no colour scheme of this name.
    UnknownScheme,
    /// The lowest zoom is above the highest.
    ZoomRange(u8, u8),
    /// The extent of vector tiles is 0.
    Extent,
    /// The low end of the stretch is not below its high end.
    Stretch,
    /// The low end of a band's stretch is not below its high end.
    BandStretch,
    /// A layer of this name is there already.
    DuplicateLayer,
}

/// Why a tile could not be encoded.
#[derive(Debug, Clone, Copy, PartialEq, Eq, Structural)]
pub enum EncodeStep {
    /// The deflate compressor failed.
    Deflate,
    /// The area of a ring is past 64 bits.
    RingArea,
    /// A coordinate or a count is past what a vector tile holds.
    Geometry,
    /// The tile could not be serialised.
    Tile,
    /// The image could not be encoded in this format.
    Image(TileFormat),
    /// The tile's address lies outside the world.
    Address,
    /// The gzip compressor failed.
    Gzip,
}

/// Errors of tiling and packaging.
#[derive(Debug, Clone, Copy, PartialEq, Eq, Structural)]
pub enum Error {
    /// The input cannot be tiled.
    InvalidInput(Invalid),
    /// A tile could not be encoded.
    Encode(EncodeStep),
    /// The source could not be read; its reader knows why.
    Read,
    /// A tile could not be stored; its sink knows why.
    Sink,
}

} // verus!
