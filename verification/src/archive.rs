//! PMTiles archives: what is written, and in which order.
//!
//! The header and the metadata of an archive stand before any tile, so the
//! metadata must be known before the first tile is put. Tile coordinates are
//! passed on as they are: the archive has the orientation of the XYZ scheme.

use vstd::arithmetic::power2::pow2;
use vstd::prelude::*;

use crate::error::{EncodeStep, Error, Invalid};
use crate::images::TileFormat;
use crate::mercator::TileCoord;
use crate::pyramid::PyramidMetadata;
use crate::text::same_text;

verus! {

/// The address lies in the world at a zoom of 31 at most.
pub open spec fn lies_in_world(z: u8, x: u32, y: u32) -> bool {
    z <= 31 && x < pow2(z as nat) && y < pow2(z as nat)
}

/// `pmtiles::TileCoord::new`: an address, with its zoom, column and row, if it
/// lies in the world at a zoom of 31 at most.
#[verifier::external_body]
fn new_address(z: u8, x: u32, y: u32) -> (address: Option<(u8, u32, u32)>)
    ensures
        address is Some <==> lies_in_world(z, x, y),
        address is Some ==> address->Some_0 == (z, x, y),
{
    pmtiles::TileCoord::new(z, x, y).ok().map(|c| (c.z(), c.x(), c.y()))
}

/// The tile type that an archive declares.
#[derive(Debug, Clone, Copy, PartialEq, Eq, Structural)]
pub enum ArchiveTile {
    Png,
    Webp,
    Jpeg,
    Mvt,
    Unknown,
}

/// The tile type of a format ("png", "webp", "jpeg", "pbf" or "mvt").
pub open spec fn tile_type_spec(format: Seq<char>) -> ArchiveTile {
    if format == "png"@ {
        ArchiveTile::Png
    } else if format == "webp"@ {
        ArchiveTile::Webp
    } else if format == "jpeg"@ {
        ArchiveTile::Jpeg
    } else if format == "pbf"@ || format == "mvt"@ {
        ArchiveTile::Mvt
    } else {
        ArchiveTile::Unknown
    }
}

/// The tile type of a format ("png", "webp", "jpeg", "pbf" or "mvt").
pub fn tile_type_for(format: &str) -> (tile: ArchiveTile)
    ensures
        tile == tile_type_spec(format@),
{
    if same_text(format, "png") {
        ArchiveTile::Png
    } else if same_text(format, "webp") {
        ArchiveTile::Webp
    } else if same_text(format, "jpeg") {
        ArchiveTile::Jpeg
    } else if same_text(format, "pbf") || same_text(format, "mvt") {
        ArchiveTile::Mvt
    } else {
        ArchiveTile::Unknown
    }
}

/// What the header of an archive says.
pub struct ArchiveHeader {
    pub tile: ArchiveTile,
    /// Vector tiles are gzipped already: gzip is declared, and tiles are
    /// written as they are. Images are final bytes.
    pub gzip: bool,
    pub min_zoom: u8,
    pub max_zoom: u8,
    /// The zoom at which a viewer starts.
    pub center_zoom: u8,
    /// West, south, east and north in degrees, each the bit pattern of a
    /// double.
    pub bounds_lonlat: (u64, u64, u64, u64),
    /// The metadata.
    pub json: String,
}

/// The metadata of an archive: the description of the vector layers, or a
/// summary where there is none.
pub open spec fn archive_json(name: Seq<char>, json: Option<Seq<char>>) -> Seq<char> {
    match json {
        Some(j) => j,
        None => "{\"name\":\""@ + name + "\",\"type\":\"overlay\",\"version\":\"1.0.0\"}"@,
    }
}

/// The header says what the metadata say.
pub open spec fn is_header(meta: PyramidMetadata, header: ArchiveHeader) -> bool {
    &&& header.tile == tile_type_spec(meta.format@)
    &&& header.gzip == (header.tile == ArchiveTile::Mvt)
    &&& header.min_zoom == meta.min_zoom
    &&& header.max_zoom == meta.max_zoom
    &&& header.center_zoom == meta.min_zoom
    &&& header.bounds_lonlat == meta.bounds_lonlat
    &&& header.json@ == archive_json(
        meta.name@,
        match meta.json {
            Some(j) => Some(j@),
            None => None,
        },
    )
}

/// The state of an archive that is being written.
pub struct PmtilesSink {
    /// The tile format, fixed when the archive is created.
    pub format: String,
    /// Whether the header is written.
    pub open: bool,
}

/// Where a tile goes.
pub struct ArchivePut {
    /// Zoom, column and row.
    pub address: (u8, u32, u32),
}

impl PmtilesSink {
    /// An archive for tiles of a format, of which nothing is written.
    pub fn create(format: &str) -> (sink: PmtilesSink)
        ensures
            sink.format@ == format@,
            !sink.open,
    {
        PmtilesSink { format: format.to_owned(), open: false }
    }

    /// The header to write. It can be written once, and only with metadata of
    /// the archive's own format.
    pub fn prepare(&self, meta: &PyramidMetadata) -> (header: Result<ArchiveHeader, Error>)
        ensures
            if self.open {
                header == Err::<ArchiveHeader, Error>(Error::InvalidInput(Invalid::AlreadyOpen))
            } else if meta.format@ != self.format@ {
                header == Err::<ArchiveHeader, Error>(Error::InvalidInput(Invalid::FormatMismatch))
            } else {
                header matches Ok(h) && is_header(*meta, h)
            },
    {
        if self.open {
            return Err(Error::InvalidInput(Invalid::AlreadyOpen));
        }
        if !same_text(meta.format, self.format.as_str()) {
            return Err(Error::InvalidInput(Invalid::FormatMismatch));
        }
        let json: String = match &meta.json {
            Some(layers) => layers.clone(),
            None => {
                let mut out: String = "{\"name\":\"".to_owned();
                out.append(meta.name.as_str());
                out.append("\",\"type\":\"overlay\",\"version\":\"1.0.0\"}");
                out
            },
        };
        let tile: ArchiveTile = tile_type_for(meta.format);
        Ok(
            ArchiveHeader {
                tile,
                gzip: tile == ArchiveTile::Mvt,
                min_zoom: meta.min_zoom,
                max_zoom: meta.max_zoom,
                center_zoom: meta.min_zoom,
                bounds_lonlat: meta.bounds_lonlat,
                json,
            },
        )
    }

    /// Notes that the header is written.
    pub fn opened(&mut self)
        ensures
            final(self).open,
            final(self).format@ == old(self).format@,
    {
        self.open = true;
    }

    /// Where a tile goes. The header must be written, and the address must lie
    /// in the world.
    pub fn put(&self, coord: TileCoord) -> (put: Result<ArchivePut, Error>)
        ensures
            if !self.open {
                put == Err::<ArchivePut, Error>(Error::InvalidInput(Invalid::NotPrepared))
            } else if !coord.valid() {
                put == Err::<ArchivePut, Error>(Error::Encode(EncodeStep::Address))
            } else {
                &&& put matches Ok(p)
                &&& p.address == (coord.z, coord.x, coord.y)
            },
    {
        if !self.open {
            return Err(Error::InvalidInput(Invalid::NotPrepared));
        }
        match new_address(coord.z, coord.x, coord.y) {
            Some(address) => Ok(ArchivePut { address }),
            None => Err(Error::Encode(EncodeStep::Address)),
        }
    }

    /// What is left to write before the archive is closed: the header where no
    /// tile was put, which still makes a valid archive.
    pub fn finish(&self, meta: &PyramidMetadata) -> (header: Result<Option<ArchiveHeader>, Error>)
        ensures
            if self.open {
                header == Ok::<Option<ArchiveHeader>, Error>(None)
            } else if meta.format@ != self.format@ {
                header == Err::<Option<ArchiveHeader>, Error>(
                    Error::InvalidInput(Invalid::FormatMismatch),
                )
            } else {
                header matches Ok(Some(h)) && is_header(*meta, h)
            },
    {
        if self.open {
            return Ok(None);
        }
        match self.prepare(meta) {
            Ok(h) => Ok(Some(h)),
            Err(e) => Err(e),
        }
    }

    /// Notes that the archive is closed.
    pub fn closed(&mut self)
        ensures
            !final(self).open,
            final(self).format@ == old(self).format@,
    {
        self.open = false;
    }
}

/// Tiles of each image format are declared as what they are, and so are vector
/// tiles under either name; an archive of any other format declares none.
pub proof fn archives_declare_their_format(format: Seq<char>)
    ensures
        tile_type_spec(format) == ArchiveTile::Png <==> format == TileFormat::Png.name(),
        tile_type_spec(format) == ArchiveTile::Webp <==> format == TileFormat::WebP.name(),
        tile_type_spec(format) == ArchiveTile::Jpeg <==> format == TileFormat::Jpeg.name(),
        tile_type_spec(format) == ArchiveTile::Mvt <==> format == "pbf"@ || format == "mvt"@,
{
    reveal_strlit("png");
    reveal_strlit("webp");
    reveal_strlit("jpeg");
    reveal_strlit("pbf");
    reveal_strlit("mvt");
    assert("png"@[0] == 'p' && "png"@[1] == 'n');
    assert("webp"@[0] == 'w' && "jpeg"@[0] == 'j');
    assert("pbf"@[0] == 'p' && "pbf"@[1] == 'b');
    assert("mvt"@[0] == 'm');
    assert("png"@ != "pbf"@ && "png"@ != "mvt"@ && "webp"@ != "jpeg"@);
    assert("png"@.len() == 3 && "webp"@.len() == 4);
}

/// The header of an archive says what the pyramid is: its zooms, with the lowest as
/// the one to start at, and its bounds. Only vector tiles are declared to be
/// gzipped. Where layers are described, that is all of its metadata.
pub proof fn headers_say_what_the_pyramid_is(meta: PyramidMetadata, header: ArchiveHeader)
    requires
        is_header(meta, header),
    ensures
        header.min_zoom == meta.min_zoom,
        header.max_zoom == meta.max_zoom,
        header.center_zoom == meta.min_zoom,
        header.bounds_lonlat == meta.bounds_lonlat,
        header.gzip <==> meta.format@ == "pbf"@ || meta.format@ == "mvt"@,
        header.tile == tile_type_spec(meta.format@),
        meta.json matches Some(j) ==> header.json@ == j@,
        meta.json is None ==> header.json@ == "{\"name\":\""@ + meta.name@
            + "\",\"type\":\"overlay\",\"version\":\"1.0.0\"}"@,
{
    archives_declare_their_format(meta.format@);
}

} // verus!
