//! Compressed byte strings.

use flate2::write::{GzEncoder, ZlibEncoder};
use std::io::Write;
use vstd::prelude::*;

verus! {

/// What `flate2`'s zlib encoder makes of `raw` at its default level; `None`
/// where it fails.
pub uninterp spec fn zlib_compressed(raw: Seq<u8>) -> Option<Seq<u8>>;

/// Compresses with `flate2::write::ZlibEncoder` at the default level.
///
/// Trusted: the outcome depends on the bytes alone.
#[verifier::external_body]
pub(crate) fn zlib(raw: &[u8]) -> (packed: Option<Vec<u8>>)
    ensures
        match packed {
            Some(v) => zlib_compressed(raw@) == Some(v@),
            None => zlib_compressed(raw@) is None,
        },
{
    let mut enc = ZlibEncoder::new(Vec::new(), flate2::Compression::default());
    enc.write_all(raw).ok()?;
    enc.finish().ok()
}

/// What `flate2`'s gzip encoder makes of `raw` at its default level; `None`
/// where it fails.
pub uninterp spec fn gzip_compressed(raw: Seq<u8>) -> Option<Seq<u8>>;

/// Compresses with `flate2::write::GzEncoder` at the default level.
///
/// Trusted: the outcome depends on the bytes alone; the header holds no time
/// stamp.
#[verifier::external_body]
pub(crate) fn gzip(raw: &[u8]) -> (packed: Option<Vec<u8>>)
    ensures
        match packed {
            Some(v) => gzip_compressed(raw@) == Some(v@),
            None => gzip_compressed(raw@) is None,
        },
{
    let mut enc = GzEncoder::new(Vec::new(), flate2::Compression::default());
    enc.write_all(raw).ok()?;
    enc.finish().ok()
}

} // verus!
