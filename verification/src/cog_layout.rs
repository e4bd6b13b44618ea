//! The byte layout of a Cloud Optimized GeoTIFF.
//!
//! A classic little-endian TIFF: all directories stand at the start of the
//! file, the tile data behind them with overview levels before the full
//! resolution, so that a range reader gets the header and the smallest
//! overview cheaply.

use vstd::prelude::*;
use vstd::utf8::encode_utf8;

use crate::bytes::{
    concat, le16, le32, lemma_concat_len, lemma_concat_part, lemma_le16_at, lemma_le32_at, push_all,
    push_le16, push_le32, total_len, u16_at, u32_at, u64_at, views,
};
use crate::source::SourceCrs;
use crate::tiff::{
    dir_size, double_bytes, doubles_are_read_back, entries_bytes, entries_wf, entry_reads,
    ifd_bytes, ifd_size, lemma_double_bytes_len, lemma_entry_reads, lemma_ifd_len,
    lemma_ifd_reads, lemma_long_bytes_at, lemma_long_bytes_len, lemma_payload_prefix,
    lemma_short_bytes_len, lemma_slice_of_slice, long_bytes, longs_are_read_back, models, padded,
    payload_bytes, payload_len, payload_total, short_bytes, shorts_are_read_back, Entry,
    EntryModel, TYPE_ASCII, TYPE_DOUBLE, TYPE_LONG, TYPE_SHORT,
};

verus! {

pub const T_NEW_SUBFILE_TYPE: u16 = 254;

pub const T_IMAGE_WIDTH: u16 = 256;

pub const T_IMAGE_LENGTH: u16 = 257;

pub const T_BITS_PER_SAMPLE: u16 = 258;

pub const T_COMPRESSION: u16 = 259;

pub const T_PHOTOMETRIC: u16 = 262;

pub const T_SAMPLES_PER_PIXEL: u16 = 277;

pub const T_TILE_WIDTH: u16 = 322;

pub const T_TILE_LENGTH: u16 = 323;

pub const T_TILE_OFFSETS: u16 = 324;

pub const T_TILE_BYTE_COUNTS: u16 = 325;

pub const T_SAMPLE_FORMAT: u16 = 339;

pub const T_MODEL_PIXEL_SCALE: u16 = 33550;

pub const T_MODEL_TIEPOINT: u16 = 33922;

pub const T_GEO_KEY_DIRECTORY: u16 = 34735;

pub const T_GDAL_NODATA: u16 = 42113;

/// Tile data compression.
#[derive(Debug, Clone, Copy, PartialEq, Eq, Structural)]
pub enum CogCompression {
    /// Zlib/Adobe deflate (TIFF compression 8).
    Deflate,
    /// No compression.
    Uncompressed,
}

impl Default for CogCompression {
    fn default() -> (compression: CogCompression)
        ensures
            compression == CogCompression::Deflate,
    {
        CogCompression::Deflate
    }
}

/// The value of the compression tag.
pub open spec fn compression_code(compression: CogCompression) -> u16 {
    match compression {
        CogCompression::Deflate => 8,
        CogCompression::Uncompressed => 1,
    }
}

/// A north-up affine transform. Each number is the bit pattern of a double.
#[derive(Debug, Clone, Copy, PartialEq, Eq, Structural)]
pub struct GeoRef {
    /// Ground width of a cell.
    pub pixel_width: u64,
    /// Ground height of a cell, taken positive.
    pub pixel_height: u64,
    /// The west edge.
    pub origin_x: u64,
    /// The north edge.
    pub origin_y: u64,
}

/// What the directories record besides the tiles.
pub struct CogTags {
    pub tile_size: u32,
    pub compression: CogCompression,
    pub georef: GeoRef,
    pub crs: SourceCrs,
    /// The nodata value as text.
    pub nodata: String,
}

/// What the directories record besides the tiles.
pub struct TagsModel {
    pub tile_size: u32,
    pub compression: CogCompression,
    pub georef: GeoRef,
    pub crs: SourceCrs,
    pub nodata: Seq<char>,
}

impl View for CogTags {
    type V = TagsModel;

    open spec fn view(&self) -> TagsModel {
        TagsModel {
            tile_size: self.tile_size,
            compression: self.compression,
            georef: self.georef,
            crs: self.crs,
            nodata: self.nodata@,
        }
    }
}

/// One resolution level with its encoded tiles, row by row.
pub struct Level {
    pub width: u32,
    pub height: u32,
    pub tiles: Vec<Vec<u8>>,
}

/// One resolution level with its encoded tiles, row by row.
pub struct LevelModel {
    pub width: u32,
    pub height: u32,
    pub tiles: Seq<Seq<u8>>,
}

impl View for Level {
    type V = LevelModel;

    open spec fn view(&self) -> LevelModel {
        LevelModel { width: self.width, height: self.height, tiles: views(self.tiles@) }
    }
}

/// The models of a list of levels.
pub open spec fn level_models(levels: Seq<Level>) -> Seq<LevelModel> {
    levels.map_values(|level: Level| level@)
}

/// The GeoTIFF keys of a CRS: a header (version 1.1.0, three keys), then each
/// key with its location, count and value, ordered by key.
pub open spec fn geo_keys(crs: SourceCrs) -> Seq<u16> {
    match crs {
        // A geographic model, pixels as areas, GCS 4326.
        SourceCrs::LonLat => seq![
            1u16, 1, 0, 3, 1024, 0, 1, 2, 1025, 0, 1, 1, 2048, 0, 1, 4326,
        ],
        // A projected model, pixels as areas, PCS 3857.
        SourceCrs::Mercator => seq![
            1u16, 1, 0, 3, 1024, 0, 1, 1, 1025, 0, 1, 1, 3072, 0, 1, 3857,
        ],
    }
}

/// The GeoTIFF keys of a CRS.
pub fn geo_key_directory(crs: SourceCrs) -> (keys: Vec<u16>)
    ensures
        keys@ == geo_keys(crs),
{
    match crs {
        SourceCrs::LonLat => vec![1, 1, 0, 3, 1024, 0, 1, 2, 1025, 0, 1, 1, 2048, 0, 1, 4326],
        SourceCrs::Mercator => vec![1, 1, 0, 3, 1024, 0, 1, 1, 1025, 0, 1, 1, 3072, 0, 1, 3857],
    }
}

/// An entry with one 32-bit value.
pub open spec fn long_entry(tag: u16, v: u32) -> EntryModel {
    EntryModel { tag, typ: TYPE_LONG, count: 1, value: le32(v) }
}

/// An entry with one 16-bit value.
pub open spec fn short_entry(tag: u16, v: u16) -> EntryModel {
    EntryModel { tag, typ: TYPE_SHORT, count: 1, value: padded(le16(v)) }
}

/// An entry with an array of 32-bit values.
pub open spec fn longs_entry(tag: u16, vs: Seq<u32>) -> EntryModel {
    EntryModel { tag, typ: TYPE_LONG, count: vs.len() as int, value: long_bytes(vs) }
}

/// The number of bytes of each tile.
pub open spec fn tile_lengths(tiles: Seq<Seq<u8>>) -> Seq<u32> {
    tiles.map_values(|tile: Seq<u8>| tile.len() as u32)
}

/// The entries of every level's directory.
#[verifier::opaque]
pub open spec fn image_entries(
    level: LevelModel,
    full: bool,
    offsets: Seq<u32>,
    tags: TagsModel,
) -> Seq<EntryModel> {
    seq![
        long_entry(T_NEW_SUBFILE_TYPE, if full { 0 } else { 1 }),
        long_entry(T_IMAGE_WIDTH, level.width),
        long_entry(T_IMAGE_LENGTH, level.height),
        short_entry(T_BITS_PER_SAMPLE, 32),
        short_entry(T_COMPRESSION, compression_code(tags.compression)),
        short_entry(T_PHOTOMETRIC, 1),
        short_entry(T_SAMPLES_PER_PIXEL, 1),
        long_entry(T_TILE_WIDTH, tags.tile_size),
        long_entry(T_TILE_LENGTH, tags.tile_size),
        longs_entry(T_TILE_OFFSETS, offsets),
        longs_entry(T_TILE_BYTE_COUNTS, tile_lengths(level.tiles)),
        short_entry(T_SAMPLE_FORMAT, 3),
    ]
}

/// The entries that georeference the full resolution.
#[verifier::opaque]
pub open spec fn geo_entries(tags: TagsModel) -> Seq<EntryModel> {
    seq![
        EntryModel {
            tag: T_MODEL_PIXEL_SCALE,
            typ: TYPE_DOUBLE,
            count: 3,
            value: double_bytes(seq![tags.georef.pixel_width, tags.georef.pixel_height, 0]),
        },
        EntryModel {
            tag: T_MODEL_TIEPOINT,
            typ: TYPE_DOUBLE,
            count: 6,
            value: double_bytes(seq![0, 0, 0, tags.georef.origin_x, tags.georef.origin_y, 0]),
        },
        EntryModel {
            tag: T_GEO_KEY_DIRECTORY,
            typ: TYPE_SHORT,
            count: 16,
            value: padded(short_bytes(geo_keys(tags.crs))),
        },
        EntryModel {
            tag: T_GDAL_NODATA,
            typ: TYPE_ASCII,
            count: encode_utf8(tags.nodata).len() as int + 1,
            value: padded(encode_utf8(tags.nodata).push(0)),
        },
    ]
}

/// The directory of a level whose tiles stand at `offsets`.
pub open spec fn level_entries(
    level: LevelModel,
    full: bool,
    offsets: Seq<u32>,
    tags: TagsModel,
) -> Seq<EntryModel> {
    if full {
        image_entries(level, full, offsets, tags) + geo_entries(tags)
    } else {
        image_entries(level, full, offsets, tags)
    }
}

/// The entries of a directory stand in ascending order of their tags, each
/// tag once.
pub proof fn directory_is_sorted(
    level: LevelModel,
    full: bool,
    offsets: Seq<u32>,
    tags: TagsModel,
    i: int,
    j: int,
)
    requires
        0 <= i < j < level_entries(level, full, offsets, tags).len(),
    ensures
        level_entries(level, full, offsets, tags)[i].tag < level_entries(
            level,
            full,
            offsets,
            tags,
        )[j].tag,
{
    reveal(image_entries);
    reveal(geo_entries);
}

/// As many zeros as the level has tiles.
pub open spec fn blank_offsets(level: LevelModel) -> Seq<u32> {
    Seq::new(level.tiles.len(), |i: int| 0u32)
}

/// The number of bytes of a level's directory, which no tile offset changes.
pub open spec fn level_ifd_size(level: LevelModel, full: bool, tags: TagsModel) -> int {
    ifd_size(level_entries(level, full, blank_offsets(level), tags))
}

/// Where the directory of level `k` begins; behind the last one, where the
/// tile data begins.
pub open spec fn ifd_offset(levels: Seq<LevelModel>, tags: TagsModel, k: int) -> int
    decreases k,
{
    if k <= 0 {
        8
    } else {
        ifd_offset(levels, tags, k - 1) + level_ifd_size(levels[k - 1], k - 1 == 0, tags)
    }
}

/// Where the data of level `k` begins: behind all coarser levels.
pub open spec fn level_offset(levels: Seq<LevelModel>, tags: TagsModel, k: int) -> int
    decreases levels.len() - k,
{
    if k + 1 >= levels.len() {
        ifd_offset(levels, tags, levels.len() as int)
    } else {
        level_offset(levels, tags, k + 1) + total_len(levels[k + 1].tiles)
    }
}

/// Where tile `t` of level `k` begins.
pub open spec fn tile_offset(levels: Seq<LevelModel>, tags: TagsModel, k: int, t: int) -> int {
    level_offset(levels, tags, k) + total_len(levels[k].tiles.take(t))
}

/// Where each tile of level `k` begins.
pub open spec fn tile_offsets(levels: Seq<LevelModel>, tags: TagsModel, k: int) -> Seq<u32> {
    Seq::new(levels[k].tiles.len(), |t: int| tile_offset(levels, tags, k, t) as u32)
}

/// The number of bytes of the whole file.
pub open spec fn cog_size(levels: Seq<LevelModel>, tags: TagsModel) -> int {
    level_offset(levels, tags, 0) + total_len(levels[0].tiles)
}

/// The directory of level `k`.
pub open spec fn cog_entries(levels: Seq<LevelModel>, tags: TagsModel, k: int) -> Seq<
    EntryModel,
> {
    level_entries(levels[k], k == 0, tile_offsets(levels, tags, k), tags)
}

/// The place that the directory of level `k` gives for the next one; 0 in the
/// last one.
pub open spec fn next_ifd(levels: Seq<LevelModel>, tags: TagsModel, k: int) -> int {
    if k + 1 < levels.len() {
        ifd_offset(levels, tags, k + 1)
    } else {
        0
    }
}

/// The directory of level `k` as bytes.
pub open spec fn cog_ifd(levels: Seq<LevelModel>, tags: TagsModel, k: int) -> Seq<u8> {
    ifd_bytes(
        cog_entries(levels, tags, k),
        ifd_offset(levels, tags, k),
        next_ifd(levels, tags, k),
    )
}

/// The directories of the first `k` levels.
pub open spec fn ifds_bytes(levels: Seq<LevelModel>, tags: TagsModel, k: int) -> Seq<u8>
    decreases k,
{
    if k <= 0 {
        Seq::empty()
    } else {
        ifds_bytes(levels, tags, k - 1) + cog_ifd(levels, tags, k - 1)
    }
}

/// The tile data of level `k` and of all coarser levels, coarsest first.
pub open spec fn data_bytes(levels: Seq<LevelModel>, k: int) -> Seq<u8>
    decreases levels.len() - k,
{
    if k >= levels.len() {
        Seq::empty()
    } else {
        data_bytes(levels, k + 1) + concat(levels[k].tiles)
    }
}

/// Byte order, magic number and the place of the first directory.
pub open spec fn header_bytes() -> Seq<u8> {
    seq![73u8, 73u8] + le16(42) + le32(8)
}

/// The whole file.
pub open spec fn cog_bytes(levels: Seq<LevelModel>, tags: TagsModel) -> Seq<u8> {
    header_bytes() + (ifds_bytes(levels, tags, levels.len() as int) + data_bytes(levels, 0))
}

/// There is a level, and each has a tile.
pub open spec fn levels_wf(levels: Seq<LevelModel>) -> bool {
    &&& levels.len() > 0
    &&& forall|k: int| 0 <= k < levels.len() ==> (#[trigger] levels[k]).tiles.len() > 0
}

proof fn lemma_payload_total_same(a: Seq<EntryModel>, b: Seq<EntryModel>)
    requires
        a.len() == b.len(),
        forall|i: int|
            #![trigger a[i]]
            #![trigger b[i]]
            0 <= i < a.len() ==> payload_len(a[i]) == payload_len(b[i]),
    ensures
        payload_total(a) == payload_total(b),
    decreases a.len(),
{
    if a.len() > 0 {
        lemma_payload_total_same(a.drop_last(), b.drop_last());
    }
}

/// The size of a level's directory depends on no tile offset, and holds a
/// field for each tile and the nodata text.
proof fn lemma_level_ifd_size(
    level: LevelModel,
    full: bool,
    offsets: Seq<u32>,
    tags: TagsModel,
)
    requires
        offsets.len() == level.tiles.len(),
        level.tiles.len() > 0,
    ensures
        entries_wf(level_entries(level, full, offsets, tags)),
        ifd_size(level_entries(level, full, offsets, tags)) == level_ifd_size(level, full, tags),
        level.tiles.len() < level_ifd_size(level, full, tags),
        full ==> encode_utf8(tags.nodata).len() < level_ifd_size(level, full, tags),
        level_entries(level, full, offsets, tags).len() <= u16::MAX,
        level_ifd_size(level, full, tags) <= u32::MAX ==> forall|i: int|
            0 <= i < level_entries(level, full, offsets, tags).len() ==> 0 <= (
            #[trigger] level_entries(level, full, offsets, tags)[i]).count <= u32::MAX,
{
    reveal(image_entries);
    reveal(geo_entries);
    let a = level_entries(level, full, offsets, tags);
    let b = level_entries(level, full, blank_offsets(level), tags);
    lemma_long_bytes_len(offsets);
    lemma_long_bytes_len(blank_offsets(level));
    lemma_long_bytes_len(tile_lengths(level.tiles));
    lemma_double_bytes_len(seq![tags.georef.pixel_width, tags.georef.pixel_height, 0]);
    lemma_double_bytes_len(seq![0, 0, 0, tags.georef.origin_x, tags.georef.origin_y, 0]);
    lemma_short_bytes_len(geo_keys(tags.crs));
    lemma_payload_total_same(a, b);
    lemma_payload_prefix(b, 9);
    if full {
        lemma_payload_prefix(b, 15);
    }
}

proof fn lemma_ifd_offset_monotonic(levels: Seq<LevelModel>, tags: TagsModel, i: int, j: int)
    requires
        levels_wf(levels),
        0 <= i <= j <= levels.len(),
    ensures
        8 <= ifd_offset(levels, tags, i) <= ifd_offset(levels, tags, j),
    decreases j,
{
    if i < j {
        lemma_level_ifd_size(levels[j - 1], j - 1 == 0, blank_offsets(levels[j - 1]), tags);
        lemma_ifd_offset_monotonic(levels, tags, i, j - 1);
    } else if j > 0 {
        lemma_level_ifd_size(levels[j - 1], j - 1 == 0, blank_offsets(levels[j - 1]), tags);
        lemma_ifd_offset_monotonic(levels, tags, i - 1, j - 1);
    }
}

proof fn lemma_level_offset_monotonic(levels: Seq<LevelModel>, tags: TagsModel, k: int)
    requires
        levels_wf(levels),
        0 <= k < levels.len(),
    ensures
        ifd_offset(levels, tags, levels.len() as int) <= level_offset(levels, tags, k),
        level_offset(levels, tags, k) + total_len(levels[k].tiles) <= cog_size(levels, tags),
    decreases k + levels.len(),
{
    if k > 0 {
        lemma_level_offset_monotonic(levels, tags, k - 1);
    }
    lemma_level_offset_above(levels, tags, k);
}

proof fn lemma_level_offset_above(levels: Seq<LevelModel>, tags: TagsModel, k: int)
    requires
        0 <= k < levels.len(),
    ensures
        ifd_offset(levels, tags, levels.len() as int) <= level_offset(levels, tags, k),
    decreases levels.len() - k,
{
    if k + 1 < levels.len() {
        lemma_level_offset_above(levels, tags, k + 1);
    }
}

proof fn lemma_total_len_take(tiles: Seq<Seq<u8>>, t: int)
    requires
        0 <= t < tiles.len(),
    ensures
        total_len(tiles.take(t + 1)) == total_len(tiles.take(t)) + tiles[t].len(),
        total_len(tiles.take(t + 1)) <= total_len(tiles),
        concat(tiles.take(t + 1)) == concat(tiles.take(t)) + tiles[t],
{
    assert(tiles.take(t + 1).drop_last() =~= tiles.take(t));
    lemma_concat_part(tiles, t);
}

/// Appends a directory that stands at `base`, with its payloads.
fn write_ifd(out: &mut Vec<u8>, entries: &Vec<Entry>, base: u32, next: u32)
    requires
        entries@.len() <= u16::MAX,
        entries_wf(models(entries@)),
        base + ifd_size(models(entries@)) <= u32::MAX,
    ensures
        final(out)@ == old(out)@ + ifd_bytes(models(entries@), base as int, next as int),
{
    let ghost m = models(entries@);
    let ghost before = out@;
    push_le16(out, entries.len() as u16);
    let payload_base: u32 = base + 2 + 12 * (entries.len() as u32) + 4;
    let mut cursor: u32 = payload_base;
    for i in 0..entries.len()
        invariant
            m == models(entries@),
            entries_wf(m),
            payload_base == base + dir_size(m),
            base + ifd_size(m) <= u32::MAX,
            cursor == payload_base + payload_total(m.take(i as int)),
            out@ == before + le16(m.len() as u16) + entries_bytes(
                m.take(i as int),
                payload_base as int,
            ),
    {
        let e = &entries[i];
        proof {
            assert(m[i as int] == e@);
            assert(m.take(i + 1).drop_last() =~= m.take(i as int));
            lemma_payload_prefix(m, i as int);
        }
        push_le16(out, e.tag);
        push_le16(out, e.typ);
        push_le32(out, e.count);
        if e.value.len() > 4 {
            push_le32(out, cursor);
            cursor = cursor + e.value.len() as u32;
        } else {
            push_all(out, e.value.as_slice());
        }
        assert(out@ =~= before + le16(m.len() as u16) + entries_bytes(
            m.take(i + 1),
            payload_base as int,
        ));
    }
    assert(m.take(m.len() as int) =~= m);
    push_le32(out, next);
    let ghost dir = out@;
    for i in 0..entries.len()
        invariant
            m == models(entries@),
            out@ == dir + payload_bytes(m.take(i as int)),
    {
        proof {
            assert(m[i as int] == entries@[i as int]@);
            assert(m.take(i + 1).drop_last() =~= m.take(i as int));
        }
        if entries[i].value.len() > 4 {
            push_all(out, entries[i].value.as_slice());
        }
        assert(out@ =~= dir + payload_bytes(m.take(i + 1)));
    }
    assert(out@ =~= before + ifd_bytes(m, base as int, next as int));
}

/// Builds the directory of a level whose tiles stand at `offsets`.
fn build_entries(level: &Level, full: bool, offsets: &Vec<u32>, tags: &CogTags) -> (entries: Vec<
    Entry,
>)
    requires
        offsets@.len() == level@.tiles.len(),
        level@.tiles.len() > 0,
        level_ifd_size(level@, full, tags@) <= u32::MAX,
    ensures
        models(entries@) == level_entries(level@, full, offsets@, tags@),
{
    proof {
        lemma_level_ifd_size(level@, full, offsets@, tags@);
    }
    let mut lengths: Vec<u32> = Vec::new();
    for i in 0..level.tiles.len()
        invariant
            lengths@ == tile_lengths(level@.tiles).take(i as int),
    {
        let len: u32 = #[verifier::truncate]
        (level.tiles[i].len() as u32);
        lengths.push(len);
        assert(level@.tiles[i as int].len() as u32 == len);
        assert(lengths@ =~= tile_lengths(level@.tiles).take(i + 1));
    }
    assert(lengths@ =~= tile_lengths(level@.tiles));
    let code: u16 = match tags.compression {
        CogCompression::Deflate => 8,
        CogCompression::Uncompressed => 1,
    };
    let kind: u32 = if full {
        0
    } else {
        1
    };
    let mut entries: Vec<Entry> = Vec::new();
    entries.push(Entry::long(T_NEW_SUBFILE_TYPE, kind));
    entries.push(Entry::long(T_IMAGE_WIDTH, level.width));
    entries.push(Entry::long(T_IMAGE_LENGTH, level.height));
    entries.push(Entry::short(T_BITS_PER_SAMPLE, 32));
    entries.push(Entry::short(T_COMPRESSION, code));
    entries.push(Entry::short(T_PHOTOMETRIC, 1));
    entries.push(Entry::short(T_SAMPLES_PER_PIXEL, 1));
    entries.push(Entry::long(T_TILE_WIDTH, tags.tile_size));
    entries.push(Entry::long(T_TILE_LENGTH, tags.tile_size));
    entries.push(Entry::longs(T_TILE_OFFSETS, offsets.as_slice()));
    entries.push(Entry::longs(T_TILE_BYTE_COUNTS, lengths.as_slice()));
    entries.push(Entry::short(T_SAMPLE_FORMAT, 3));
    proof {
        reveal(image_entries);
        reveal(geo_entries);
    }
    assert(models(entries@) =~= image_entries(level@, full, offsets@, tags@));
    if full {
        let scale: Vec<u64> = vec![tags.georef.pixel_width, tags.georef.pixel_height, 0];
        assert(scale@ =~= seq![tags.georef.pixel_width, tags.georef.pixel_height, 0]);
        let tie: Vec<u64> = vec![0, 0, 0, tags.georef.origin_x, tags.georef.origin_y, 0];
        assert(tie@ =~= seq![0, 0, 0, tags.georef.origin_x, tags.georef.origin_y, 0]);
        let keys: Vec<u16> = geo_key_directory(tags.crs);
        entries.push(Entry::doubles(T_MODEL_PIXEL_SCALE, scale.as_slice()));
        entries.push(Entry::doubles(T_MODEL_TIEPOINT, tie.as_slice()));
        entries.push(Entry::shorts(T_GEO_KEY_DIRECTORY, keys.as_slice()));
        entries.push(Entry::ascii(T_GDAL_NODATA, tags.nodata.as_str()));
        assert(models(entries@) =~= image_entries(level@, full, offsets@, tags@) + geo_entries(
            tags@,
        ));
    }
    entries
}

/// The number of bytes of a directory, from what its size depends on.
pub open spec fn directory_size(tiles: int, nodata_bytes: int, full: bool) -> int {
    let arrays = if tiles > 1 {
        8 * tiles
    } else {
        0
    };
    let text = if nodata_bytes + 1 > 4 {
        nodata_bytes + 1
    } else {
        0
    };
    if full {
        198 + arrays + 104 + text
    } else {
        150 + arrays
    }
}

proof fn lemma_directory_size(level: LevelModel, full: bool, tags: TagsModel)
    ensures
        level_ifd_size(level, full, tags) == directory_size(
            level.tiles.len() as int,
            encode_utf8(tags.nodata).len() as int,
            full,
        ),
{
    reveal(image_entries);
    reveal(geo_entries);
    let b = level_entries(level, full, blank_offsets(level), tags);
    lemma_long_bytes_len(blank_offsets(level));
    lemma_long_bytes_len(tile_lengths(level.tiles));
    lemma_double_bytes_len(seq![tags.georef.pixel_width, tags.georef.pixel_height, 0]);
    lemma_double_bytes_len(seq![0, 0, 0, tags.georef.origin_x, tags.georef.origin_y, 0]);
    lemma_short_bytes_len(geo_keys(tags.crs));
    lemma_payload_prefix(b, 0);
    lemma_payload_prefix(b, 1);
    lemma_payload_prefix(b, 2);
    lemma_payload_prefix(b, 3);
    lemma_payload_prefix(b, 4);
    lemma_payload_prefix(b, 5);
    lemma_payload_prefix(b, 6);
    lemma_payload_prefix(b, 7);
    lemma_payload_prefix(b, 8);
    lemma_payload_prefix(b, 9);
    lemma_payload_prefix(b, 10);
    lemma_payload_prefix(b, 11);
    if full {
        lemma_payload_prefix(b, 12);
        lemma_payload_prefix(b, 13);
        lemma_payload_prefix(b, 14);
        lemma_payload_prefix(b, 15);
    }
    assert(b.take(b.len() as int) =~= b);
}

/// The number of bytes of a level's directory, or `None` where it is past
/// what an offset can tell.
fn directory_len(level: &Level, full: bool, tags: &CogTags) -> (size: Option<u32>)
    ensures
        size is Some <==> level_ifd_size(level@, full, tags@) <= u32::MAX,
        size matches Some(n) ==> n == level_ifd_size(level@, full, tags@),
{
    proof {
        lemma_directory_size(level@, full, tags@);
    }
    let tiles: usize = level.tiles.len();
    let nodata: usize = tags.nodata.as_str().as_bytes().len();
    let arrays: u128 = if tiles > 1 {
        8 * (tiles as u128)
    } else {
        0
    };
    let mut size: u128 = 150 + arrays;
    if full {
        size = size + 152;
        if nodata >= 4 {
            size = size + nodata as u128 + 1;
        }
    }
    if size <= 0xffff_ffff {
        Some(size as u32)
    } else {
        None
    }
}

/// Where the directory of each level begins and, last, where the tile data
/// begins; `None` where the file is past what an offset can tell.
fn plan_ifds(levels: &Vec<Level>, tags: &CogTags) -> (offsets: Option<Vec<u32>>)
    requires
        levels_wf(level_models(levels@)),
    ensures
        offsets is None ==> cog_size(level_models(levels@), tags@) > u32::MAX,
        offsets matches Some(v) ==> {
            &&& v@.len() == levels@.len() + 1
            &&& forall|k: int|
                0 <= k <= levels@.len() ==> #[trigger] v@[k] == ifd_offset(
                    level_models(levels@),
                    tags@,
                    k,
                )
        },
{
    let ghost m = level_models(levels@);
    let mut offsets: Vec<u32> = Vec::new();
    let mut offset: u32 = 8;
    for k in 0..levels.len()
        invariant
            m == level_models(levels@),
            levels_wf(m),
            offset == ifd_offset(m, tags@, k as int),
            offsets@.len() == k,
            forall|i: int| 0 <= i < k ==> #[trigger] offsets@[i] == ifd_offset(m, tags@, i),
    {
        offsets.push(offset);
        assert(m[k as int] == levels@[k as int]@);
        proof {
            lemma_ifd_offset_monotonic(m, tags@, k as int, k + 1);
            lemma_ifd_offset_monotonic(m, tags@, k + 1, m.len() as int);
            lemma_level_offset_monotonic(m, tags@, 0);
        }
        match directory_len(&levels[k], k == 0, tags) {
            Some(len) => {
                match offset.checked_add(len) {
                    Some(next) => {
                        offset = next;
                    },
                    None => {
                        return None;
                    },
                }
            },
            None => {
                return None;
            },
        }
    }
    offsets.push(offset);
    Some(offsets)
}

/// Where each tile of level `k` begins, and where its data ends; `None` where
/// the file is past what an offset can tell.
fn plan_tiles(levels: &Vec<Level>, tags: &CogTags, k: usize, start: u32) -> (plan: Option<
    (Vec<u32>, u32),
>)
    requires
        levels_wf(level_models(levels@)),
        k < levels@.len(),
        start == level_offset(level_models(levels@), tags@, k as int),
    ensures
        plan is None ==> cog_size(level_models(levels@), tags@) > u32::MAX,
        plan matches Some((offsets, end)) ==> {
            &&& offsets@ == tile_offsets(level_models(levels@), tags@, k as int)
            &&& end == start + total_len(levels@[k as int]@.tiles)
        },
{
    let ghost m = level_models(levels@);
    let ghost tiles = m[k as int].tiles;
    assert(tiles == levels@[k as int]@.tiles);
    proof {
        lemma_level_offset_monotonic(m, tags@, k as int);
    }
    let level = &levels[k];
    let mut offsets: Vec<u32> = Vec::new();
    let mut offset: u32 = start;
    for t in 0..level.tiles.len()
        invariant
            k < m.len(),
            level@.tiles == tiles,
            tiles == m[k as int].tiles,
            start == level_offset(m, tags@, k as int),
            start + total_len(tiles) <= cog_size(m, tags@),
            offset == tile_offset(m, tags@, k as int, t as int),
            offsets@ == tile_offsets(m, tags@, k as int).take(t as int),
            m == level_models(levels@),
    {
        offsets.push(offset);
        proof {
            assert(tiles[t as int] == level.tiles@[t as int]@);
            lemma_total_len_take(tiles, t as int);
            assert(offsets@ =~= tile_offsets(m, tags@, k as int).take(t + 1));
        }
        let len: usize = level.tiles[t].len();
        if len > (u32::MAX - offset) as usize {
            return None;
        }
        offset = offset + len as u32;
    }
    assert(tiles.take(tiles.len() as int) =~= tiles);
    assert(offsets@ =~= tile_offsets(m, tags@, k as int));
    Some((offsets, offset))
}

/// Appends the directory of level `k`.
fn write_level_ifd(
    out: &mut Vec<u8>,
    levels: &Vec<Level>,
    tags: &CogTags,
    k: usize,
    base: u32,
    next: u32,
    offsets: &Vec<u32>,
)
    requires
        levels_wf(level_models(levels@)),
        k < levels@.len(),
        cog_size(level_models(levels@), tags@) <= u32::MAX,
        base == ifd_offset(level_models(levels@), tags@, k as int),
        next == next_ifd(level_models(levels@), tags@, k as int),
        offsets@ == tile_offsets(level_models(levels@), tags@, k as int),
    ensures
        final(out)@ == old(out)@ + cog_ifd(level_models(levels@), tags@, k as int),
{
    let ghost m = level_models(levels@);
    proof {
        assert(m[k as int] == levels@[k as int]@);
        lemma_level_ifd_size(m[k as int], k == 0, offsets@, tags@);
        lemma_ifd_offset_monotonic(m, tags@, k + 1, m.len() as int);
        lemma_level_offset_monotonic(m, tags@, 0);
    }
    let entries: Vec<Entry> = build_entries(&levels[k], k == 0, offsets, tags);
    assert(models(entries@) == cog_entries(m, tags@, k as int));
    assert(entries@.len() == models(entries@).len());
    write_ifd(out, &entries, base, next);
}

proof fn lemma_append_ifd(before: Seq<u8>, levels: Seq<LevelModel>, tags: TagsModel, k: int)
    requires
        before == header_bytes() + ifds_bytes(levels, tags, k),
        k >= 0,
    ensures
        before + cog_ifd(levels, tags, k) == header_bytes() + ifds_bytes(levels, tags, k + 1),
{
    assert(before + cog_ifd(levels, tags, k) =~= header_bytes() + (ifds_bytes(levels, tags, k)
        + cog_ifd(levels, tags, k)));
}

/// Lays a file out: directories first, tile data behind them, coarsest level
/// first. `None` where the file would be past what an offset can tell.
pub fn assemble_cog(levels: &Vec<Level>, tags: &CogTags) -> (file: Option<Vec<u8>>)
    requires
        levels_wf(level_models(levels@)),
    ensures
        file is Some <==> cog_size(level_models(levels@), tags@) <= u32::MAX,
        file matches Some(v) ==> v@ == cog_bytes(level_models(levels@), tags@),
{
    let ghost m = level_models(levels@);
    let n: usize = levels.len();
    let ifd_offsets: Vec<u32> = match plan_ifds(levels, tags) {
        Some(v) => v,
        None => {
            return None;
        },
    };
    let mut offsets: Vec<Vec<u32>> = Vec::new();
    let mut offset: u32 = ifd_offsets[n];
    for j in 0..n
        invariant
            m == level_models(levels@),
            levels_wf(m),
            n == levels@.len(),
            offset == if j == 0 {
                ifd_offset(m, tags@, n as int)
            } else {
                level_offset(m, tags@, n - j) + total_len(m[n - j].tiles)
            },
            offsets@.len() == j,
            forall|i: int|
                0 <= i < j ==> (#[trigger] offsets@[i])@ == tile_offsets(m, tags@, n - 1 - i),
    {
        let k: usize = n - 1 - j;
        assert(offset == level_offset(m, tags@, k as int));
        match plan_tiles(levels, tags, k, offset) {
            Some((v, end)) => {
                offsets.push(v);
                offset = end;
            },
            None => {
                return None;
            },
        }
    }
    assert(offset == cog_size(m, tags@));
    let mut out: Vec<u8> = Vec::new();
    out.push(73);
    out.push(73);
    push_le16(&mut out, 42);
    push_le32(&mut out, ifd_offsets[0]);
    assert(out@ =~= header_bytes());
    for k in 0..n
        invariant
            m == level_models(levels@),
            levels_wf(m),
            n == levels@.len(),
            offsets@.len() == n,
            ifd_offsets@.len() == n + 1,
            cog_size(m, tags@) <= u32::MAX,
            forall|i: int|
                0 <= i <= n ==> #[trigger] ifd_offsets@[i] == ifd_offset(m, tags@, i),
            forall|i: int|
                0 <= i < n ==> (#[trigger] offsets@[i])@ == tile_offsets(m, tags@, n - 1 - i),
            out@ == header_bytes() + ifds_bytes(m, tags@, k as int),
    {
        let next: u32 = if k + 1 < n {
            ifd_offsets[k + 1]
        } else {
            0
        };
        assert(offsets@[n - 1 - k]@ == tile_offsets(m, tags@, k as int));
        let ghost before = out@;
        write_level_ifd(&mut out, levels, tags, k, ifd_offsets[k], next, &offsets[n - 1 - k]);
        proof {
            lemma_append_ifd(before, m, tags@, k as int);
        }
    }
    let ghost dirs = out@;
    for j in 0..n
        invariant
            m == level_models(levels@),
            n == levels@.len(),
            out@ == dirs + data_bytes(m, n - j),
    {
        let level = &levels[n - 1 - j];
        let ghost before = out@;
        let ghost tiles = m[n - 1 - j].tiles;
        assert(tiles == level@.tiles);
        for t in 0..level.tiles.len()
            invariant
                level@.tiles == tiles,
                out@ == before + concat(tiles.take(t as int)),
        {
            proof {
                assert(tiles[t as int] == level.tiles@[t as int]@);
                lemma_total_len_take(tiles, t as int);
            }
            push_all(&mut out, level.tiles[t].as_slice());
            assert(out@ =~= before + concat(tiles.take(t + 1)));
        }
        assert(tiles.take(tiles.len() as int) =~= tiles);
        assert(out@ =~= dirs + data_bytes(m, n - (j + 1)));
    }
    assert(out@ =~= cog_bytes(m, tags@));
    Some(out)
}

proof fn lemma_ifds_len(levels: Seq<LevelModel>, tags: TagsModel, k: int)
    requires
        levels_wf(levels),
        0 <= k <= levels.len(),
    ensures
        8 + ifds_bytes(levels, tags, k).len() == ifd_offset(levels, tags, k),
    decreases k,
{
    if k > 0 {
        lemma_ifds_len(levels, tags, k - 1);
        lemma_level_ifd_size(levels[k - 1], k - 1 == 0, tile_offsets(levels, tags, k - 1), tags);
        lemma_ifd_len(
            cog_entries(levels, tags, k - 1),
            ifd_offset(levels, tags, k - 1),
            next_ifd(levels, tags, k - 1),
        );
    }
}

proof fn lemma_data_len(levels: Seq<LevelModel>, tags: TagsModel, k: int)
    requires
        0 <= k < levels.len(),
    ensures
        ifd_offset(levels, tags, levels.len() as int) + data_bytes(levels, k).len()
            == level_offset(levels, tags, k) + total_len(levels[k].tiles),
    decreases levels.len() - k,
{
    lemma_concat_len(levels[k].tiles);
    if k + 1 < levels.len() {
        lemma_data_len(levels, tags, k + 1);
    } else {
        assert(data_bytes(levels, k + 1).len() == 0);
    }
}

/// The planned size is the size of the file.
pub proof fn file_size_is_planned(levels: Seq<LevelModel>, tags: TagsModel)
    requires
        levels_wf(levels),
    ensures
        cog_bytes(levels, tags).len() == cog_size(levels, tags),
{
    lemma_ifds_len(levels, tags, levels.len() as int);
    lemma_data_len(levels, tags, 0);
}

/// Every directory, with its payloads, ends before any tile data begins.
pub proof fn ifds_precede_tile_data(
    levels: Seq<LevelModel>,
    tags: TagsModel,
    k: int,
    l: int,
    t: int,
)
    requires
        levels_wf(levels),
        0 <= k < levels.len(),
        0 <= l < levels.len(),
        0 <= t < levels[l].tiles.len(),
    ensures
        ifd_offset(levels, tags, k) + ifd_size(cog_entries(levels, tags, k)) <= tile_offset(
            levels,
            tags,
            l,
            t,
        ),
{
    lemma_level_ifd_size(levels[k], k == 0, tile_offsets(levels, tags, k), tags);
    lemma_ifd_offset_monotonic(levels, tags, k + 1, levels.len() as int);
    lemma_level_offset_above(levels, tags, l);
}

/// The data of a coarser level ends before that of a finer one begins.
pub proof fn overviews_precede_finer_levels(
    levels: Seq<LevelModel>,
    tags: TagsModel,
    fine: int,
    coarse: int,
)
    requires
        0 <= fine < coarse < levels.len(),
    ensures
        level_offset(levels, tags, coarse) + total_len(levels[coarse].tiles) <= level_offset(
            levels,
            tags,
            fine,
        ),
    decreases coarse - fine,
{
    if fine + 1 < coarse {
        overviews_precede_finer_levels(levels, tags, fine + 1, coarse);
    }
}

proof fn lemma_ifds_part(levels: Seq<LevelModel>, tags: TagsModel, n: int, k: int)
    requires
        levels_wf(levels),
        0 <= k < n <= levels.len(),
    ensures
        8 + ifds_bytes(levels, tags, n).len() == ifd_offset(levels, tags, n),
        0 <= ifd_offset(levels, tags, k) - 8 <= ifd_offset(levels, tags, k + 1) - 8
            <= ifds_bytes(levels, tags, n).len(),
        ifds_bytes(levels, tags, n).subrange(
            ifd_offset(levels, tags, k) - 8,
            ifd_offset(levels, tags, k + 1) - 8,
        ) == cog_ifd(levels, tags, k),
    decreases n,
{
    lemma_ifds_len(levels, tags, n);
    lemma_ifds_len(levels, tags, n - 1);
    lemma_ifds_len(levels, tags, k);
    lemma_ifds_len(levels, tags, k + 1);
    lemma_ifd_offset_monotonic(levels, tags, k, k + 1);
    lemma_ifd_offset_monotonic(levels, tags, k + 1, n);
    let from = ifd_offset(levels, tags, k) - 8;
    let to = ifd_offset(levels, tags, k + 1) - 8;
    if k == n - 1 {
        assert(ifds_bytes(levels, tags, n).subrange(from, to) =~= cog_ifd(levels, tags, k));
    } else {
        lemma_ifds_part(levels, tags, n - 1, k);
        assert(ifds_bytes(levels, tags, n).subrange(from, to) =~= ifds_bytes(
            levels,
            tags,
            n - 1,
        ).subrange(from, to));
    }
}

/// The bytes of directory `k` stand where the plan says.
proof fn lemma_ifd_in_file(levels: Seq<LevelModel>, tags: TagsModel, k: int)
    requires
        levels_wf(levels),
        0 <= k < levels.len(),
    ensures
        8 <= ifd_offset(levels, tags, k) <= ifd_offset(levels, tags, k + 1) <= cog_bytes(
            levels,
            tags,
        ).len(),
        cog_bytes(levels, tags).subrange(
            ifd_offset(levels, tags, k),
            ifd_offset(levels, tags, k + 1),
        ) == cog_ifd(levels, tags, k),
        ifd_offset(levels, tags, k + 1) == ifd_offset(levels, tags, k) + ifd_size(
            cog_entries(levels, tags, k),
        ),
        entries_wf(cog_entries(levels, tags, k)),
{
    let n = levels.len() as int;
    lemma_ifds_part(levels, tags, n, k);
    lemma_level_ifd_size(levels[k], k == 0, tile_offsets(levels, tags, k), tags);
    let dirs = ifds_bytes(levels, tags, n);
    assert(header_bytes().len() == 8);
    assert(cog_bytes(levels, tags).subrange(
        ifd_offset(levels, tags, k),
        ifd_offset(levels, tags, k + 1),
    ) =~= dirs.subrange(ifd_offset(levels, tags, k) - 8, ifd_offset(levels, tags, k + 1) - 8));
}

proof fn lemma_header(file: Seq<u8>, rest: Seq<u8>)
    requires
        file == header_bytes() + rest,
    ensures
        file[0] == 73,
        file[1] == 73,
        u16_at(file, 2) == 42,
        u32_at(file, 4) == 8,
{
    assert(file.subrange(2, 4) =~= le16(42));
    lemma_le16_at(file, 2, 42);
    assert(file.subrange(4, 8) =~= le32(8));
    lemma_le32_at(file, 4, 8);
}

/// The header leads to the first directory, and each directory to the next;
/// the last one says that none follows.
pub proof fn directories_chain(levels: Seq<LevelModel>, tags: TagsModel, k: int)
    requires
        levels_wf(levels),
        cog_size(levels, tags) <= u32::MAX,
        0 <= k < levels.len(),
    ensures
        ({
            let file = cog_bytes(levels, tags);
            let at = ifd_offset(levels, tags, k);
            let n = cog_entries(levels, tags, k).len();
            &&& file[0] == 73 && file[1] == 73 && u16_at(file, 2) == 42
            &&& u32_at(file, 4) == ifd_offset(levels, tags, 0)
            &&& u16_at(file, at) == n
            &&& u32_at(file, at + 2 + 12 * n) == if k + 1 < levels.len() {
                ifd_offset(levels, tags, k + 1)
            } else {
                0
            }
        }),
{
    let file = cog_bytes(levels, tags);
    lemma_ifd_in_file(levels, tags, k);
    file_size_is_planned(levels, tags);
    lemma_header(
        file,
        ifds_bytes(levels, tags, levels.len() as int) + data_bytes(levels, 0),
    );
    if k + 1 < levels.len() {
        lemma_ifd_in_file(levels, tags, k + 1);
    }
    lemma_level_ifd_size(levels[k], k == 0, tile_offsets(levels, tags, k), tags);
    lemma_ifd_reads(
        file,
        ifd_offset(levels, tags, k),
        cog_entries(levels, tags, k),
        next_ifd(levels, tags, k),
    );
}

/// Each entry of each directory can be read back from the file.
pub proof fn entries_are_readable(levels: Seq<LevelModel>, tags: TagsModel, k: int, i: int)
    requires
        levels_wf(levels),
        cog_size(levels, tags) <= u32::MAX,
        0 <= k < levels.len(),
        0 <= i < cog_entries(levels, tags, k).len(),
    ensures
        entry_reads(
            cog_bytes(levels, tags),
            ifd_offset(levels, tags, k) + 2 + 12 * i,
            cog_entries(levels, tags, k)[i],
        ),
{
    lemma_ifd_in_file(levels, tags, k);
    file_size_is_planned(levels, tags);
    lemma_level_ifd_size(levels[k], k == 0, tile_offsets(levels, tags, k), tags);
    lemma_ifd_offset_monotonic(levels, tags, k, k + 1);
    lemma_entry_reads(
        cog_bytes(levels, tags),
        ifd_offset(levels, tags, k),
        cog_entries(levels, tags, k),
        next_ifd(levels, tags, k),
        i,
    );
}

proof fn lemma_data_part(levels: Seq<LevelModel>, tags: TagsModel, from: int, k: int)
    requires
        0 <= from <= k < levels.len(),
    ensures
        ({
            let start = level_offset(levels, tags, k) - ifd_offset(
                levels,
                tags,
                levels.len() as int,
            );
            &&& 0 <= start
            &&& start + total_len(levels[k].tiles) <= data_bytes(levels, from).len()
            &&& data_bytes(levels, from).subrange(start, start + total_len(levels[k].tiles))
                == concat(levels[k].tiles)
        }),
    decreases k - from,
{
    let start = level_offset(levels, tags, k) - ifd_offset(levels, tags, levels.len() as int);
    let len = total_len(levels[k].tiles);
    lemma_concat_len(levels[k].tiles);
    lemma_level_offset_above(levels, tags, k);
    lemma_data_len(levels, tags, from);
    if from == k {
        assert(data_bytes(levels, k + 1).len() == start) by {
            if k + 1 < levels.len() {
                lemma_data_len(levels, tags, k + 1);
            }
        }
        assert(data_bytes(levels, from).subrange(start, start + len) =~= concat(levels[k].tiles));
    } else {
        lemma_data_part(levels, tags, from + 1, k);
        assert(data_bytes(levels, from).subrange(start, start + len) =~= data_bytes(
            levels,
            from + 1,
        ).subrange(start, start + len));
    }
}

proof fn lemma_tile_in_file(levels: Seq<LevelModel>, tags: TagsModel, k: int, t: int)
    requires
        levels_wf(levels),
        0 <= k < levels.len(),
        0 <= t < levels[k].tiles.len(),
    ensures
        0 <= tile_offset(levels, tags, k, t),
        tile_offset(levels, tags, k, t) + levels[k].tiles[t].len() <= cog_bytes(
            levels,
            tags,
        ).len(),
        cog_bytes(levels, tags).subrange(
            tile_offset(levels, tags, k, t),
            tile_offset(levels, tags, k, t) + levels[k].tiles[t].len(),
        ) == levels[k].tiles[t],
{
    let tiles = levels[k].tiles;
    let len = tiles[t].len() as int;
    let n = levels.len() as int;
    let data = data_bytes(levels, 0);
    let start = level_offset(levels, tags, k) - ifd_offset(levels, tags, n);
    let skip = total_len(tiles.take(t)) as int;
    file_size_is_planned(levels, tags);
    lemma_level_offset_monotonic(levels, tags, k);
    lemma_concat_part(tiles, t);
    lemma_concat_len(tiles);
    lemma_data_part(levels, tags, 0, k);
    lemma_ifds_len(levels, tags, n);
    lemma_ifd_offset_monotonic(levels, tags, 0, n);
    lemma_slice_of_slice(data, start, concat(tiles), skip, skip + len);
    let head = header_bytes() + ifds_bytes(levels, tags, n);
    assert(cog_bytes(levels, tags) =~= head + data);
    assert(head.len() == ifd_offset(levels, tags, n));
    assert((head + data).subrange(head.len() as int, (head + data).len() as int) =~= data);
    lemma_slice_of_slice(
        head + data,
        head.len() as int,
        data,
        start + skip,
        start + skip + len,
    );
}

proof fn lemma_tile_entries(levels: Seq<LevelModel>, tags: TagsModel, k: int)
    requires
        0 <= k < levels.len(),
    ensures
        cog_entries(levels, tags, k).len() > 10,
        cog_entries(levels, tags, k)[9] == longs_entry(
            T_TILE_OFFSETS,
            tile_offsets(levels, tags, k),
        ),
        cog_entries(levels, tags, k)[10] == longs_entry(
            T_TILE_BYTE_COUNTS,
            tile_lengths(levels[k].tiles),
        ),
{
    reveal(image_entries);
}

/// The tile that the directory of level `k` lists as tile `t` stands where
/// the tile-offset array says, with the length that the byte-count array
/// says.
pub proof fn tiles_are_readable(levels: Seq<LevelModel>, tags: TagsModel, k: int, t: int)
    requires
        levels_wf(levels),
        cog_size(levels, tags) <= u32::MAX,
        0 <= k < levels.len(),
        0 <= t < levels[k].tiles.len(),
    ensures
        ({
            let offsets = cog_entries(levels, tags, k)[9];
            let counts = cog_entries(levels, tags, k)[10];
            let at = u32_at(offsets.value, 4 * t);
            let len = u32_at(counts.value, 4 * t);
            &&& offsets.tag == T_TILE_OFFSETS && counts.tag == T_TILE_BYTE_COUNTS
            &&& offsets.count == levels[k].tiles.len() && counts.count == levels[k].tiles.len()
            &&& at + len <= cog_bytes(levels, tags).len()
            &&& cog_bytes(levels, tags).subrange(at, at + len) == levels[k].tiles[t]
        }),
{
    file_size_is_planned(levels, tags);
    lemma_tile_entries(levels, tags, k);
    lemma_tile_in_file(levels, tags, k, t);
    let offsets = tile_offsets(levels, tags, k);
    lemma_long_bytes_at(offsets, t);
    lemma_le32_at(long_bytes(offsets), 4 * t, offsets[t]);
    let counts = tile_lengths(levels[k].tiles);
    lemma_long_bytes_at(counts, t);
    lemma_le32_at(long_bytes(counts), 4 * t, counts[t]);
}

/// The number of tiles of the first `k` levels.
pub open spec fn tile_total(levels: Seq<LevelModel>, k: int) -> int
    decreases k,
{
    if k <= 0 {
        0
    } else {
        tile_total(levels, k - 1) + levels[k - 1].tiles.len()
    }
}

/// There are fewer tiles than bytes.
pub proof fn lemma_tile_total(levels: Seq<LevelModel>, tags: TagsModel, k: int)
    requires
        levels_wf(levels),
        0 <= k <= levels.len(),
    ensures
        0 <= tile_total(levels, k) <= cog_size(levels, tags),
{
    lemma_tile_total_ifds(levels, tags, k);
    lemma_ifd_offset_monotonic(levels, tags, k, levels.len() as int);
    lemma_level_offset_monotonic(levels, tags, 0);
}

proof fn lemma_tile_total_ifds(levels: Seq<LevelModel>, tags: TagsModel, k: int)
    requires
        levels_wf(levels),
        0 <= k <= levels.len(),
    ensures
        0 <= tile_total(levels, k) <= ifd_offset(levels, tags, k),
    decreases k,
{
    if k > 0 {
        lemma_tile_total_ifds(levels, tags, k - 1);
        lemma_level_ifd_size(levels[k - 1], k - 1 == 0, blank_offsets(levels[k - 1]), tags);
    }
}

/// Where a reader finds directory `k` of a file: the header gives the place of the
/// first, and each directory, behind its entries, that of the next.
pub open spec fn directory_at(file: Seq<u8>, k: int) -> int
    decreases k,
{
    if k <= 0 {
        u32_at(file, 4)
    } else {
        let before = directory_at(file, k - 1);
        u32_at(file, before + 2 + 12 * u16_at(file, before))
    }
}

/// Where a reader finds the values of entry `i` of a directory at `dir`, each of
/// `size` bytes: in the entry's last four bytes where they hold all of them, else
/// at the place that these give.
pub open spec fn values_at(file: Seq<u8>, dir: int, i: int, size: int) -> int {
    let entry = dir + 2 + 12 * i;
    if u32_at(file, entry + 4) * size > 4 {
        u32_at(file, entry + 8)
    } else {
        entry + 8
    }
}

/// Entry `i` of the directory at `dir` has this tag, and holds so many values of
/// this type.
pub open spec fn is_entry(
    file: Seq<u8>,
    dir: int,
    i: int,
    tag: int,
    typ: int,
    count: int,
) -> bool {
    let entry = dir + 2 + 12 * i;
    &&& 0 <= i < u16_at(file, dir)
    &&& u16_at(file, entry) == tag
    &&& u16_at(file, entry + 2) == typ
    &&& u32_at(file, entry + 4) == count
}

/// A reader that follows the links from the header finds each level's directory.
pub proof fn directories_are_found(levels: Seq<LevelModel>, tags: TagsModel, k: int)
    requires
        levels_wf(levels),
        cog_size(levels, tags) <= u32::MAX,
        0 <= k < levels.len(),
    ensures
        directory_at(cog_bytes(levels, tags), k) == ifd_offset(levels, tags, k),
    decreases k,
{
    if k > 0 {
        directories_are_found(levels, tags, k - 1);
        directories_chain(levels, tags, k - 1);
    } else {
        directories_chain(levels, tags, 0);
    }
}

proof fn lemma_entry_found(
    levels: Seq<LevelModel>,
    tags: TagsModel,
    k: int,
    i: int,
    size: int,
)
    requires
        levels_wf(levels),
        cog_size(levels, tags) <= u32::MAX,
        0 <= k < levels.len(),
        0 <= i < cog_entries(levels, tags, k).len(),
        size > 0,
        cog_entries(levels, tags, k)[i].value == padded(
            cog_entries(levels, tags, k)[i].value.take(cog_entries(levels, tags, k)[i].count * size),
        ),
        0 <= cog_entries(levels, tags, k)[i].count * size <= cog_entries(
            levels,
            tags,
            k,
        )[i].value.len(),
    ensures
        ({
            let file = cog_bytes(levels, tags);
            let dir = directory_at(file, k);
            let entry = cog_entries(levels, tags, k)[i];
            let at = values_at(file, dir, i, size);
            &&& is_entry(file, dir, i, entry.tag as int, entry.typ as int, entry.count)
            &&& 0 <= at
            &&& at + entry.value.len() <= file.len()
            &&& file.subrange(at, at + entry.value.len()) == entry.value
        }),
{
    let file = cog_bytes(levels, tags);
    let dir = directory_at(file, k);
    let entry = cog_entries(levels, tags, k)[i];
    directories_are_found(levels, tags, k);
    directories_chain(levels, tags, k);
    entries_are_readable(levels, tags, k, i);
    lemma_ifd_in_file(levels, tags, k);
    assert(entry.value.len() >= 4);
    assert(dir + 2 + 12 * i + 12 <= file.len());
}

/// The 16-bit value of an entry that holds one, as a reader finds it.
pub open spec fn holds_short(file: Seq<u8>, dir: int, tag: int, v: int) -> bool {
    exists|i: int| #[trigger]
        is_entry(file, dir, i, tag, 3, 1) && u16_at(file, values_at(file, dir, i, 2)) == v
}

/// The 32-bit value of an entry that holds one, as a reader finds it.
pub open spec fn holds_long(file: Seq<u8>, dir: int, tag: int, v: int) -> bool {
    exists|i: int| #[trigger]
        is_entry(file, dir, i, tag, 4, 1) && u32_at(file, values_at(file, dir, i, 4)) == v
}

proof fn lemma_holds_long(levels: Seq<LevelModel>, tags: TagsModel, k: int, i: int, tag: u16, v: u32)
    requires
        levels_wf(levels),
        cog_size(levels, tags) <= u32::MAX,
        0 <= k < levels.len(),
        0 <= i < cog_entries(levels, tags, k).len(),
        cog_entries(levels, tags, k)[i] == long_entry(tag, v),
    ensures
        holds_long(
            cog_bytes(levels, tags),
            directory_at(cog_bytes(levels, tags), k),
            tag as int,
            v as int,
        ),
{
    let file = cog_bytes(levels, tags);
    let dir = directory_at(file, k);
    assert(le32(v).take(4) =~= le32(v));
    lemma_entry_found(levels, tags, k, i, 4);
    lemma_le32_at(file, values_at(file, dir, i, 4), v);
    assert(is_entry(file, dir, i, tag as int, 4, 1));
}

proof fn lemma_holds_short(
    levels: Seq<LevelModel>,
    tags: TagsModel,
    k: int,
    i: int,
    tag: u16,
    v: u16,
)
    requires
        levels_wf(levels),
        cog_size(levels, tags) <= u32::MAX,
        0 <= k < levels.len(),
        0 <= i < cog_entries(levels, tags, k).len(),
        cog_entries(levels, tags, k)[i] == short_entry(tag, v),
    ensures
        holds_short(
            cog_bytes(levels, tags),
            directory_at(cog_bytes(levels, tags), k),
            tag as int,
            v as int,
        ),
{
    let file = cog_bytes(levels, tags);
    let dir = directory_at(file, k);
    let value = padded(le16(v));
    assert(value.take(2) =~= le16(v));
    lemma_entry_found(levels, tags, k, i, 2);
    let at = values_at(file, dir, i, 2);
    assert(file.subrange(at, at + 2) =~= file.subrange(at, at + 4).take(2));
    lemma_le16_at(file, at, v);
    assert(is_entry(file, dir, i, tag as int, 3, 1));
}

proof fn lemma_image_entries(levels: Seq<LevelModel>, tags: TagsModel, k: int)
    requires
        0 <= k < levels.len(),
    ensures
        cog_entries(levels, tags, k).len() >= 12,
        cog_entries(levels, tags, k)[0] == long_entry(254, if k == 0 { 0 } else { 1 }),
        cog_entries(levels, tags, k)[1] == long_entry(256, levels[k].width),
        cog_entries(levels, tags, k)[2] == long_entry(257, levels[k].height),
        cog_entries(levels, tags, k)[3] == short_entry(258, 32),
        cog_entries(levels, tags, k)[4] == short_entry(259, compression_code(tags.compression)),
        cog_entries(levels, tags, k)[5] == short_entry(262, 1),
        cog_entries(levels, tags, k)[6] == short_entry(277, 1),
        cog_entries(levels, tags, k)[7] == long_entry(322, tags.tile_size),
        cog_entries(levels, tags, k)[8] == long_entry(323, tags.tile_size),
        cog_entries(levels, tags, k)[11] == short_entry(339, 3),
{
    reveal(image_entries);
}

/// A reader that follows the links from the header finds in the directory of each
/// level what an image needs: its width and height, tiles of the edge that was
/// asked for, 32-bit floating-point samples, one for each pixel, black at the
/// minimum, and how the tiles are compressed. The first level is the full
/// resolution, all others are marked as reduced.
pub proof fn levels_are_described(levels: Seq<LevelModel>, tags: TagsModel, k: int)
    requires
        levels_wf(levels),
        cog_size(levels, tags) <= u32::MAX,
        0 <= k < levels.len(),
    ensures
        ({
            let file = cog_bytes(levels, tags);
            let dir = directory_at(file, k);
            &&& holds_long(file, dir, 254, if k == 0 { 0 } else { 1 })
            &&& holds_long(file, dir, 256, levels[k].width as int)
            &&& holds_long(file, dir, 257, levels[k].height as int)
            &&& holds_short(file, dir, 258, 32)
            &&& tags.compression == CogCompression::Deflate ==> holds_short(file, dir, 259, 8)
            &&& tags.compression == CogCompression::Uncompressed ==> holds_short(file, dir, 259, 1)
            &&& holds_short(file, dir, 262, 1)
            &&& holds_short(file, dir, 277, 1)
            &&& holds_long(file, dir, 322, tags.tile_size as int)
            &&& holds_long(file, dir, 323, tags.tile_size as int)
            &&& holds_short(file, dir, 339, 3)
        }),
{
    let code = compression_code(tags.compression);
    lemma_image_entries(levels, tags, k);
    lemma_holds_long(levels, tags, k, 0, 254, if k == 0 { 0 } else { 1 });
    lemma_holds_long(levels, tags, k, 1, 256, levels[k].width);
    lemma_holds_long(levels, tags, k, 2, 257, levels[k].height);
    lemma_holds_short(levels, tags, k, 3, 258, 32);
    lemma_holds_short(levels, tags, k, 4, 259, code);
    lemma_holds_short(levels, tags, k, 5, 262, 1);
    lemma_holds_short(levels, tags, k, 6, 277, 1);
    lemma_holds_long(levels, tags, k, 7, 322, tags.tile_size);
    lemma_holds_long(levels, tags, k, 8, 323, tags.tile_size);
    lemma_holds_short(levels, tags, k, 11, 339, 3);
}

/// A reader finds each tile of each level: the directory of the level lists as
/// many places and as many lengths as there are tiles, and tile `t` stands at the
/// `t`-th place, with the `t`-th length.
pub proof fn tiles_are_found(levels: Seq<LevelModel>, tags: TagsModel, k: int, t: int)
    requires
        levels_wf(levels),
        cog_size(levels, tags) <= u32::MAX,
        0 <= k < levels.len(),
        0 <= t < levels[k].tiles.len(),
    ensures
        ({
            let file = cog_bytes(levels, tags);
            let dir = directory_at(file, k);
            let n = levels[k].tiles.len() as int;
            exists|i: int, j: int|
                {
                    let at = u32_at(file, values_at(file, dir, i, 4) + 4 * t);
                    let len = u32_at(file, values_at(file, dir, j, 4) + 4 * t);
                    &&& #[trigger] is_entry(file, dir, i, 324, 4, n)
                    &&& #[trigger] is_entry(file, dir, j, 325, 4, n)
                    &&& len == levels[k].tiles[t].len()
                    &&& at + len <= file.len()
                    &&& file.subrange(at, at + len) == levels[k].tiles[t]
                }
        }),
{
    let file = cog_bytes(levels, tags);
    let dir = directory_at(file, k);
    let n = levels[k].tiles.len() as int;
    lemma_tile_entries(levels, tags, k);
    lemma_tile_in_file(levels, tags, k, t);
    file_size_is_planned(levels, tags);
    let offsets = tile_offsets(levels, tags, k);
    let counts = tile_lengths(levels[k].tiles);
    lemma_long_bytes_len(offsets);
    lemma_long_bytes_len(counts);
    assert(long_bytes(offsets).take(n * 4) =~= long_bytes(offsets));
    assert(long_bytes(counts).take(n * 4) =~= long_bytes(counts));
    lemma_entry_found(levels, tags, k, 9, 4);
    lemma_entry_found(levels, tags, k, 10, 4);
    lemma_long_in_file(file, values_at(file, dir, 9, 4), offsets, t);
    lemma_long_in_file(file, values_at(file, dir, 10, 4), counts, t);
    assert(is_entry(file, dir, 9, 324, 4, n));
    assert(is_entry(file, dir, 10, 325, 4, n));
}

proof fn lemma_long_in_file(file: Seq<u8>, at: int, values: Seq<u32>, t: int)
    requires
        0 <= t < values.len(),
        0 <= at,
        at + long_bytes(values).len() <= file.len(),
        file.subrange(at, at + long_bytes(values).len()) == long_bytes(values),
    ensures
        u32_at(file, at + 4 * t) == values[t],
{
    let all = long_bytes(values);
    longs_are_read_back(values, t);
    let s = file.subrange(at, at + all.len());
    assert forall|b: int| 4 * t <= b < 4 * t + 4 implies #[trigger] s[b] == file[at + b] by {}
}

proof fn lemma_double_in_file(file: Seq<u8>, at: int, values: Seq<u64>, t: int)
    requires
        0 <= t < values.len(),
        0 <= at,
        at + double_bytes(values).len() <= file.len(),
        file.subrange(at, at + double_bytes(values).len()) == double_bytes(values),
    ensures
        u64_at(file, at + 8 * t) == values[t],
{
    let all = double_bytes(values);
    doubles_are_read_back(values, t);
    let s = file.subrange(at, at + all.len());
    assert forall|b: int| 8 * t <= b < 8 * t + 8 implies #[trigger] s[b] == file[at + b] by {}
}

proof fn lemma_short_in_file(file: Seq<u8>, at: int, values: Seq<u16>, t: int)
    requires
        0 <= t < values.len(),
        0 <= at,
        at + short_bytes(values).len() <= file.len(),
        file.subrange(at, at + short_bytes(values).len()) == short_bytes(values),
    ensures
        u16_at(file, at + 2 * t) == values[t],
{
    let all = short_bytes(values);
    shorts_are_read_back(values, t);
    let s = file.subrange(at, at + all.len());
    assert forall|b: int| 2 * t <= b < 2 * t + 2 implies #[trigger] s[b] == file[at + b] by {}
}

proof fn lemma_georef_entries(levels: Seq<LevelModel>, tags: TagsModel)
    requires
        levels.len() > 0,
    ensures
        cog_entries(levels, tags, 0).len() == 16,
        cog_entries(levels, tags, 0)[12].tag == 33550,
        cog_entries(levels, tags, 0)[12].typ == 12,
        cog_entries(levels, tags, 0)[12].count == 3,
        cog_entries(levels, tags, 0)[12].value == double_bytes(
            seq![tags.georef.pixel_width, tags.georef.pixel_height, 0],
        ),
        cog_entries(levels, tags, 0)[13].tag == 33922,
        cog_entries(levels, tags, 0)[13].typ == 12,
        cog_entries(levels, tags, 0)[13].count == 6,
        cog_entries(levels, tags, 0)[13].value == double_bytes(
            seq![0, 0, 0, tags.georef.origin_x, tags.georef.origin_y, 0],
        ),
{
    reveal(image_entries);
    reveal(geo_entries);
}

/// A reader finds the georeference that was handed in: the tie point joins the
/// corner of the first cell, (0, 0, 0), to the west edge and then the north edge,
/// and the scale is a cell's width and then its height.
pub proof fn georeference_is_found(levels: Seq<LevelModel>, tags: TagsModel)
    requires
        levels_wf(levels),
        cog_size(levels, tags) <= u32::MAX,
    ensures
        ({
            let file = cog_bytes(levels, tags);
            let dir = directory_at(file, 0);
            &&& exists|i: int|
                {
                    let at = values_at(file, dir, i, 8);
                    &&& #[trigger] is_entry(file, dir, i, 33922, 12, 6)
                    &&& u64_at(file, at) == 0
                    &&& u64_at(file, at + 8) == 0
                    &&& u64_at(file, at + 16) == 0
                    &&& u64_at(file, at + 24) == tags.georef.origin_x
                    &&& u64_at(file, at + 32) == tags.georef.origin_y
                    &&& u64_at(file, at + 40) == 0
                }
            &&& exists|i: int|
                {
                    let at = values_at(file, dir, i, 8);
                    &&& #[trigger] is_entry(file, dir, i, 33550, 12, 3)
                    &&& u64_at(file, at) == tags.georef.pixel_width
                    &&& u64_at(file, at + 8) == tags.georef.pixel_height
                    &&& u64_at(file, at + 16) == 0
                }
        }),
{
    let file = cog_bytes(levels, tags);
    let dir = directory_at(file, 0);
    let scale = cog_entries(levels, tags, 0)[12];
    let tie = cog_entries(levels, tags, 0)[13];
    let width_height = seq![tags.georef.pixel_width, tags.georef.pixel_height, 0];
    let corner = seq![0, 0, 0, tags.georef.origin_x, tags.georef.origin_y, 0];
    lemma_georef_entries(levels, tags);
    lemma_double_bytes_len(width_height);
    lemma_double_bytes_len(corner);
    assert(scale.value.take(24) =~= scale.value);
    assert(tie.value.take(48) =~= tie.value);
    lemma_entry_found(levels, tags, 0, 12, 8);
    lemma_entry_found(levels, tags, 0, 13, 8);
    let at = values_at(file, dir, 12, 8);
    lemma_double_in_file(file, at, width_height, 0);
    lemma_double_in_file(file, at, width_height, 1);
    lemma_double_in_file(file, at, width_height, 2);
    assert(is_entry(file, dir, 12, 33550, 12, 3));
    let at = values_at(file, dir, 13, 8);
    lemma_double_in_file(file, at, corner, 0);
    lemma_double_in_file(file, at, corner, 1);
    lemma_double_in_file(file, at, corner, 2);
    lemma_double_in_file(file, at, corner, 3);
    lemma_double_in_file(file, at, corner, 4);
    lemma_double_in_file(file, at, corner, 5);
    assert(is_entry(file, dir, 13, 33922, 12, 6));
}

/// Key `m` of a key directory at `at` has this number and this value, which
/// stands in the directory itself.
pub open spec fn is_geo_key(file: Seq<u8>, at: int, m: int, key: int, v: int) -> bool {
    &&& 1 <= m <= u16_at(file, at + 6)
    &&& u16_at(file, at + 8 * m) == key
    &&& u16_at(file, at + 8 * m + 2) == 0
    &&& u16_at(file, at + 8 * m + 4) == 1
    &&& u16_at(file, at + 8 * m + 6) == v
}

/// A reader finds the CRS in the keys: that cells are areas, and a geographic
/// model with system 4326 or a projected one with system 3857. The keys ascend.
pub proof fn crs_is_found(levels: Seq<LevelModel>, tags: TagsModel)
    requires
        levels_wf(levels),
        cog_size(levels, tags) <= u32::MAX,
    ensures
        ({
            let file = cog_bytes(levels, tags);
            let dir = directory_at(file, 0);
            exists|i: int|
                {
                    let at = values_at(file, dir, i, 2);
                    &&& #[trigger] is_entry(file, dir, i, 34735, 3, 16)
                    &&& u16_at(file, at) == 1
                    &&& u16_at(file, at + 2) == 1
                    &&& u16_at(file, at + 4) == 0
                    &&& u16_at(file, at + 6) == 3
                    &&& is_geo_key(file, at, 2, 1025, 1)
                    &&& tags.crs == SourceCrs::LonLat ==> is_geo_key(file, at, 1, 1024, 2)
                        && is_geo_key(file, at, 3, 2048, 4326)
                    &&& tags.crs == SourceCrs::Mercator ==> is_geo_key(file, at, 1, 1024, 1)
                        && is_geo_key(file, at, 3, 3072, 3857)
                }
        }),
{
    let file = cog_bytes(levels, tags);
    let dir = directory_at(file, 0);
    let keys = geo_keys(tags.crs);
    let entry = cog_entries(levels, tags, 0)[14];
    lemma_keys_entry(levels, tags);
    assert(keys.len() == 16);
    lemma_short_bytes_len(keys);
    assert(entry.value.take(32) =~= entry.value);
    lemma_entry_found(levels, tags, 0, 14, 2);
    let at = values_at(file, dir, 14, 2);
    assert(is_entry(file, dir, 14, 34735, 3, 16));
    lemma_keys_in_file(file, at, tags.crs);
}

proof fn lemma_keys_entry(levels: Seq<LevelModel>, tags: TagsModel)
    requires
        levels.len() > 0,
    ensures
        cog_entries(levels, tags, 0).len() == 16,
        cog_entries(levels, tags, 0)[14].tag == 34735,
        cog_entries(levels, tags, 0)[14].typ == 3,
        cog_entries(levels, tags, 0)[14].count == 16,
        cog_entries(levels, tags, 0)[14].value == short_bytes(geo_keys(tags.crs)),
{
    reveal(image_entries);
    reveal(geo_entries);
    lemma_short_bytes_len(geo_keys(tags.crs));
}

proof fn lemma_keys_in_file(file: Seq<u8>, at: int, crs: SourceCrs)
    requires
        0 <= at,
        at + 32 <= file.len(),
        file.subrange(at, at + 32) == short_bytes(geo_keys(crs)),
    ensures
        u16_at(file, at) == 1,
        u16_at(file, at + 2) == 1,
        u16_at(file, at + 4) == 0,
        u16_at(file, at + 6) == 3,
        is_geo_key(file, at, 2, 1025, 1),
        crs == SourceCrs::LonLat ==> is_geo_key(file, at, 1, 1024, 2) && is_geo_key(
            file,
            at,
            3,
            2048,
            4326,
        ),
        crs == SourceCrs::Mercator ==> is_geo_key(file, at, 1, 1024, 1) && is_geo_key(
            file,
            at,
            3,
            3072,
            3857,
        ),
{
    let keys = geo_keys(crs);
    lemma_short_bytes_len(keys);
    lemma_short_in_file(file, at, keys, 0);
    lemma_short_in_file(file, at, keys, 1);
    lemma_short_in_file(file, at, keys, 2);
    lemma_short_in_file(file, at, keys, 3);
    lemma_short_in_file(file, at, keys, 4);
    lemma_short_in_file(file, at, keys, 5);
    lemma_short_in_file(file, at, keys, 6);
    lemma_short_in_file(file, at, keys, 7);
    lemma_short_in_file(file, at, keys, 8);
    lemma_short_in_file(file, at, keys, 9);
    lemma_short_in_file(file, at, keys, 10);
    lemma_short_in_file(file, at, keys, 11);
    lemma_short_in_file(file, at, keys, 12);
    lemma_short_in_file(file, at, keys, 13);
    lemma_short_in_file(file, at, keys, 14);
    lemma_short_in_file(file, at, keys, 15);
}

/// A reader finds the nodata value: its text in UTF-8, closed by a zero byte.
pub proof fn nodata_is_found(levels: Seq<LevelModel>, tags: TagsModel)
    requires
        levels_wf(levels),
        cog_size(levels, tags) <= u32::MAX,
    ensures
        ({
            let file = cog_bytes(levels, tags);
            let dir = directory_at(file, 0);
            let text = encode_utf8(tags.nodata);
            let n = text.len() as int + 1;
            exists|i: int|
                {
                    let at = values_at(file, dir, i, 1);
                    &&& #[trigger] is_entry(file, dir, i, 42113, 2, n)
                    &&& at + text.len() < file.len()
                    &&& file.subrange(at, at + text.len()) == text
                    &&& file[at + text.len()] == 0
                }
        }),
{
    reveal(image_entries);
    reveal(geo_entries);
    let file = cog_bytes(levels, tags);
    let dir = directory_at(file, 0);
    let text = encode_utf8(tags.nodata);
    let entry = cog_entries(levels, tags, 0)[15];
    let closed = text.push(0);
    assert(entry.value == padded(closed));
    assert(entry.value.take(entry.count * 1) =~= closed);
    lemma_entry_found(levels, tags, 0, 15, 1);
    let at = values_at(file, dir, 15, 1);
    let s = file.subrange(at, at + entry.value.len());
    assert(file.subrange(at, at + text.len()) =~= s.take(text.len() as int));
    assert(s.take(text.len() as int) =~= text);
    assert(s[text.len() as int] == file[at + text.len()]);
    assert(is_entry(file, dir, 15, 42113, 2, text.len() as int + 1));
}

/// Tags and levels are seen as they are, each tile in its place.
pub proof fn levels_are_seen_as_they_are(levels: Seq<Level>, tags: CogTags, k: int, t: int)
    requires
        0 <= k < levels.len(),
        0 <= t < levels[k].tiles@.len(),
    ensures
        tags@.tile_size == tags.tile_size,
        tags@.compression == tags.compression,
        tags@.georef == tags.georef,
        tags@.crs == tags.crs,
        tags@.nodata == tags.nodata@,
        level_models(levels).len() == levels.len(),
        level_models(levels)[k].width == levels[k].width,
        level_models(levels)[k].height == levels[k].height,
        level_models(levels)[k].tiles.len() == levels[k].tiles@.len(),
        level_models(levels)[k].tiles[t] == levels[k].tiles@[t]@,
{
}

} // verus!
