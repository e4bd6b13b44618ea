//! Little-endian TIFF directories.

use vstd::prelude::*;
use vstd::utf8::encode_utf8;

use crate::bytes::{
    le16, le32, le64, lemma_le16_at, lemma_le32_at, push_all, push_le16, push_le32, push_le64,
    lemma_le64_at, u16_at, u32_at, u64_at,
};

verus! {

pub const TYPE_ASCII: u16 = 2;

pub const TYPE_SHORT: u16 = 3;

pub const TYPE_LONG: u16 = 4;

pub const TYPE_DOUBLE: u16 = 12;

/// What a directory entry says: the tag, the type and the number of its
/// values, and the bytes of the values, at least four.
pub struct EntryModel {
    pub tag: u16,
    pub typ: u16,
    pub count: int,
    pub value: Seq<u8>,
}

/// One directory entry. A value longer than four bytes stands in a payload
/// behind its directory.
pub struct Entry {
    pub tag: u16,
    pub typ: u16,
    pub count: u32,
    pub value: Vec<u8>,
}

impl View for Entry {
    type V = EntryModel;

    open spec fn view(&self) -> EntryModel {
        EntryModel { tag: self.tag, typ: self.typ, count: self.count as int, value: self.value@ }
    }
}

/// `bytes` followed by zeros up to a length of four.
pub open spec fn padded(bytes: Seq<u8>) -> Seq<u8> {
    if bytes.len() < 4 {
        bytes + Seq::new((4 - bytes.len()) as nat, |i: int| 0u8)
    } else {
        bytes
    }
}

/// Each value's two bytes in turn.
pub open spec fn short_bytes(values: Seq<u16>) -> Seq<u8>
    decreases values.len(),
{
    if values.len() == 0 {
        Seq::empty()
    } else {
        short_bytes(values.drop_last()) + le16(values.last())
    }
}

/// Each value's four bytes in turn.
pub open spec fn long_bytes(values: Seq<u32>) -> Seq<u8>
    decreases values.len(),
{
    if values.len() == 0 {
        Seq::empty()
    } else {
        long_bytes(values.drop_last()) + le32(values.last())
    }
}

/// Each value's eight bytes in turn.
pub open spec fn double_bytes(values: Seq<u64>) -> Seq<u8>
    decreases values.len(),
{
    if values.len() == 0 {
        Seq::empty()
    } else {
        double_bytes(values.drop_last()) + le64(values.last())
    }
}

pub proof fn lemma_short_bytes_len(values: Seq<u16>)
    ensures
        short_bytes(values).len() == 2 * values.len(),
    decreases values.len(),
{
    if values.len() > 0 {
        lemma_short_bytes_len(values.drop_last());
    }
}

pub proof fn lemma_long_bytes_len(values: Seq<u32>)
    ensures
        long_bytes(values).len() == 4 * values.len(),
    decreases values.len(),
{
    if values.len() > 0 {
        lemma_long_bytes_len(values.drop_last());
    }
}

pub proof fn lemma_double_bytes_len(values: Seq<u64>)
    ensures
        double_bytes(values).len() == 8 * values.len(),
    decreases values.len(),
{
    if values.len() > 0 {
        lemma_double_bytes_len(values.drop_last());
    }
}

/// Value `i` of a LONG array stands at four times its index.
pub proof fn lemma_long_bytes_at(values: Seq<u32>, i: int)
    requires
        0 <= i < values.len(),
    ensures
        long_bytes(values).len() == 4 * values.len(),
        long_bytes(values).subrange(4 * i, 4 * i + 4) == le32(values[i]),
    decreases values.len(),
{
    lemma_long_bytes_len(values);
    lemma_long_bytes_len(values.drop_last());
    if i == values.len() - 1 {
        assert(long_bytes(values).subrange(4 * i, 4 * i + 4) =~= le32(values[i]));
    } else {
        lemma_long_bytes_at(values.drop_last(), i);
        assert(long_bytes(values).subrange(4 * i, 4 * i + 4) =~= long_bytes(
            values.drop_last(),
        ).subrange(4 * i, 4 * i + 4));
    }
}

/// Value `i` of an array of 16-bit values is read back at its place.
pub proof fn shorts_are_read_back(values: Seq<u16>, i: int)
    requires
        0 <= i < values.len(),
    ensures
        short_bytes(values).len() == 2 * values.len(),
        u16_at(short_bytes(values), 2 * i) == values[i],
    decreases values.len(),
{
    let all = short_bytes(values);
    lemma_short_bytes_len(values);
    lemma_short_bytes_len(values.drop_last());
    if i == values.len() - 1 {
        assert(all.subrange(2 * i, 2 * i + 2) =~= le16(values[i]));
        lemma_le16_at(all, 2 * i, values[i]);
    } else {
        shorts_are_read_back(values.drop_last(), i);
        let rest = short_bytes(values.drop_last());
        assert(all[2 * i] == rest[2 * i] && all[2 * i + 1] == rest[2 * i + 1]);
    }
}

/// Value `i` of an array of 32-bit values is read back at its place.
pub proof fn longs_are_read_back(values: Seq<u32>, i: int)
    requires
        0 <= i < values.len(),
    ensures
        long_bytes(values).len() == 4 * values.len(),
        u32_at(long_bytes(values), 4 * i) == values[i],
{
    lemma_long_bytes_len(values);
    lemma_long_bytes_at(values, i);
    lemma_le32_at(long_bytes(values), 4 * i, values[i]);
}

/// Value `i` of an array of doubles is read back at its place.
pub proof fn doubles_are_read_back(values: Seq<u64>, i: int)
    requires
        0 <= i < values.len(),
    ensures
        double_bytes(values).len() == 8 * values.len(),
        u64_at(double_bytes(values), 8 * i) == values[i],
    decreases values.len(),
{
    let all = double_bytes(values);
    lemma_double_bytes_len(values);
    lemma_double_bytes_len(values.drop_last());
    if i == values.len() - 1 {
        assert(all.subrange(8 * i, 8 * i + 8) =~= le64(values[i]));
        lemma_le64_at(all, 8 * i, values[i]);
    } else {
        doubles_are_read_back(values.drop_last(), i);
        let rest = double_bytes(values.drop_last());
        assert forall|b: int| 8 * i <= b < 8 * i + 8 implies #[trigger] all[b] == rest[b] by {}
    }
}

/// Appends zeros up to a length of four.
fn pad(value: &mut Vec<u8>)
    ensures
        final(value)@ == padded(old(value)@),
{
    let ghost before = value@;
    while value.len() < 4
        invariant
            value@.len() <= 4 || value@ == before,
            value@.len() >= before.len(),
            before.len() <= 4 ==> value@ == before + Seq::new(
                (value@.len() - before.len()) as nat,
                |i: int| 0u8,
            ),
        decreases 4 - value@.len(),
    {
        value.push(0);
    }
}

impl Entry {
    /// One 16-bit value.
    pub fn short(tag: u16, v: u16) -> (entry: Entry)
        ensures
            entry@ == (EntryModel { tag, typ: TYPE_SHORT, count: 1, value: padded(le16(v)) }),
    {
        let mut value: Vec<u8> = Vec::new();
        push_le16(&mut value, v);
        assert(value@ == le16(v));
        pad(&mut value);
        Entry { tag, typ: TYPE_SHORT, count: 1, value }
    }

    /// One 32-bit value.
    pub fn long(tag: u16, v: u32) -> (entry: Entry)
        ensures
            entry@ == (EntryModel { tag, typ: TYPE_LONG, count: 1, value: le32(v) }),
    {
        let mut value: Vec<u8> = Vec::new();
        push_le32(&mut value, v);
        assert(value@ == le32(v));
        Entry { tag, typ: TYPE_LONG, count: 1, value }
    }

    /// An array of 32-bit values.
    pub fn longs(tag: u16, vs: &[u32]) -> (entry: Entry)
        requires
            vs@.len() <= u32::MAX,
        ensures
            entry@ == (EntryModel {
                tag,
                typ: TYPE_LONG,
                count: vs@.len() as int,
                value: long_bytes(vs@),
            }),
    {
        let mut value: Vec<u8> = Vec::new();
        for i in 0..vs.len()
            invariant
                value@ == long_bytes(vs@.take(i as int)),
        {
            push_le32(&mut value, vs[i]);
            assert(vs@.take(i + 1).drop_last() =~= vs@.take(i as int));
        }
        assert(vs@.take(vs@.len() as int) =~= vs@);
        Entry { tag, typ: TYPE_LONG, count: vs.len() as u32, value }
    }

    /// An array of 16-bit values.
    pub fn shorts(tag: u16, vs: &[u16]) -> (entry: Entry)
        requires
            vs@.len() <= u32::MAX,
        ensures
            entry@ == (EntryModel {
                tag,
                typ: TYPE_SHORT,
                count: vs@.len() as int,
                value: padded(short_bytes(vs@)),
            }),
    {
        let mut value: Vec<u8> = Vec::new();
        for i in 0..vs.len()
            invariant
                value@ == short_bytes(vs@.take(i as int)),
        {
            push_le16(&mut value, vs[i]);
            assert(vs@.take(i + 1).drop_last() =~= vs@.take(i as int));
        }
        assert(vs@.take(vs@.len() as int) =~= vs@);
        pad(&mut value);
        Entry { tag, typ: TYPE_SHORT, count: vs.len() as u32, value }
    }

    /// An array of double-precision values, each given by its bit pattern.
    pub fn doubles(tag: u16, vs: &[u64]) -> (entry: Entry)
        requires
            vs@.len() <= u32::MAX,
        ensures
            entry@ == (EntryModel {
                tag,
                typ: TYPE_DOUBLE,
                count: vs@.len() as int,
                value: double_bytes(vs@),
            }),
    {
        let mut value: Vec<u8> = Vec::new();
        for i in 0..vs.len()
            invariant
                value@ == double_bytes(vs@.take(i as int)),
        {
            push_le64(&mut value, vs[i]);
            assert(vs@.take(i + 1).drop_last() =~= vs@.take(i as int));
        }
        assert(vs@.take(vs@.len() as int) =~= vs@);
        Entry { tag, typ: TYPE_DOUBLE, count: vs.len() as u32, value }
    }

    /// A string and the NUL that ends it.
    pub fn ascii(tag: u16, s: &str) -> (entry: Entry)
        requires
            encode_utf8(s@).len() < u32::MAX,
        ensures
            entry@ == (EntryModel {
                tag,
                typ: TYPE_ASCII,
                count: encode_utf8(s@).len() as int + 1,
                value: padded(encode_utf8(s@).push(0)),
            }),
    {
        let mut value: Vec<u8> = Vec::new();
        push_all(&mut value, s.as_bytes());
        value.push(0);
        assert(value@ =~= encode_utf8(s@).push(0));
        let count: u32 = value.len() as u32;
        pad(&mut value);
        Entry { tag, typ: TYPE_ASCII, count, value }
    }

    /// The number of bytes that stand outside the directory.
    pub fn payload_len(&self) -> (len: usize)
        ensures
            len == payload_len(self@),
    {
        if self.value.len() > 4 {
            self.value.len()
        } else {
            0
        }
    }
}

/// The number of bytes of an entry that stand outside the directory.
pub open spec fn payload_len(entry: EntryModel) -> nat {
    if entry.value.len() > 4 {
        entry.value.len()
    } else {
        0
    }
}

/// The number of bytes of all of `entries` that stand outside the directory.
pub open spec fn payload_total(entries: Seq<EntryModel>) -> nat
    decreases entries.len(),
{
    if entries.len() == 0 {
        0
    } else {
        payload_total(entries.drop_last()) + payload_len(entries.last())
    }
}

/// The bytes of all of `entries` that stand outside the directory.
pub open spec fn payload_bytes(entries: Seq<EntryModel>) -> Seq<u8>
    decreases entries.len(),
{
    if entries.len() == 0 {
        Seq::empty()
    } else if entries.last().value.len() > 4 {
        payload_bytes(entries.drop_last()) + entries.last().value
    } else {
        payload_bytes(entries.drop_last())
    }
}

/// The twelve bytes of an entry: its last field holds the value or, of a
/// longer value, its place in the file.
pub open spec fn entry_bytes(entry: EntryModel, payload_at: int) -> Seq<u8> {
    le16(entry.tag) + le16(entry.typ) + le32(entry.count as u32) + if entry.value.len() > 4 {
        le32(payload_at as u32)
    } else {
        entry.value
    }
}

/// All entries of a directory whose payloads begin at `payload_at`.
pub open spec fn entries_bytes(entries: Seq<EntryModel>, payload_at: int) -> Seq<u8>
    decreases entries.len(),
{
    if entries.len() == 0 {
        Seq::empty()
    } else {
        entries_bytes(entries.drop_last(), payload_at) + entry_bytes(
            entries.last(),
            payload_at + payload_total(entries.drop_last()),
        )
    }
}

/// The number of bytes of a directory without its payloads.
pub open spec fn dir_size(entries: Seq<EntryModel>) -> int {
    (2 + 12 * entries.len() + 4) as int
}

/// The number of bytes of a directory with its payloads.
pub open spec fn ifd_size(entries: Seq<EntryModel>) -> int {
    dir_size(entries) + payload_total(entries)
}

/// A directory at `base` with a pointer to the next one, then its payloads.
pub open spec fn ifd_bytes(entries: Seq<EntryModel>, base: int, next: int) -> Seq<u8> {
    le16(entries.len() as u16) + entries_bytes(entries, base + dir_size(entries)) + le32(
        next as u32,
    ) + payload_bytes(entries)
}

/// The models of a list of entries.
pub open spec fn models(entries: Seq<Entry>) -> Seq<EntryModel> {
    entries.map_values(|e: Entry| e@)
}

/// Every value is long enough for its place.
pub open spec fn entries_wf(entries: Seq<EntryModel>) -> bool {
    forall|i: int| 0 <= i < entries.len() ==> (#[trigger] entries[i]).value.len() >= 4
}

pub proof fn lemma_payload_len(entries: Seq<EntryModel>)
    ensures
        payload_bytes(entries).len() == payload_total(entries),
    decreases entries.len(),
{
    if entries.len() > 0 {
        lemma_payload_len(entries.drop_last());
    }
}

pub proof fn lemma_payload_prefix(entries: Seq<EntryModel>, i: int)
    requires
        0 <= i < entries.len(),
    ensures
        payload_total(entries.take(i)) + payload_len(entries[i]) <= payload_total(entries),
        payload_total(entries.take(i + 1)) == payload_total(entries.take(i)) + payload_len(
            entries[i],
        ),
        entries[i].value.len() > 4 ==> payload_bytes(entries).subrange(
            payload_total(entries.take(i)) as int,
            payload_total(entries.take(i)) as int + payload_len(entries[i]),
        ) == entries[i].value,
    decreases entries.len(),
{
    lemma_payload_len(entries);
    lemma_payload_len(entries.drop_last());
    assert(entries.take(i + 1).drop_last() =~= entries.take(i));
    let from = payload_total(entries.take(i)) as int;
    let to = from + payload_len(entries[i]);
    if i == entries.len() - 1 {
        assert(entries.take(i) =~= entries.drop_last());
        if entries[i].value.len() > 4 {
            assert(payload_bytes(entries).subrange(from, to) =~= entries[i].value);
        }
    } else {
        lemma_payload_prefix(entries.drop_last(), i);
        assert(entries.drop_last().take(i) =~= entries.take(i));
        assert(payload_bytes(entries).subrange(from, to) =~= payload_bytes(
            entries.drop_last(),
        ).subrange(from, to));
    }
}

pub proof fn lemma_entries_bytes(entries: Seq<EntryModel>, payload_at: int, i: int)
    requires
        entries_wf(entries),
        0 <= i < entries.len(),
    ensures
        entries_bytes(entries, payload_at).len() == 12 * entries.len(),
        entries_bytes(entries, payload_at).subrange(12 * i, 12 * i + 12) == entry_bytes(
            entries[i],
            payload_at + payload_total(entries.take(i)),
        ),
    decreases entries.len(),
{
    lemma_entries_bytes_len(entries, payload_at);
    lemma_entries_bytes_len(entries.drop_last(), payload_at);
    if i == entries.len() - 1 {
        assert(entries.take(i) =~= entries.drop_last());
        assert(entries_bytes(entries, payload_at).subrange(12 * i, 12 * i + 12) =~= entry_bytes(
            entries[i],
            payload_at + payload_total(entries.take(i)),
        ));
    } else {
        lemma_entries_bytes(entries.drop_last(), payload_at, i);
        assert(entries.drop_last().take(i) =~= entries.take(i));
        assert(entries_bytes(entries, payload_at).subrange(12 * i, 12 * i + 12) =~= entries_bytes(
            entries.drop_last(),
            payload_at,
        ).subrange(12 * i, 12 * i + 12));
    }
}

pub proof fn lemma_entries_bytes_len(entries: Seq<EntryModel>, payload_at: int)
    requires
        entries_wf(entries),
    ensures
        entries_bytes(entries, payload_at).len() == 12 * entries.len(),
    decreases entries.len(),
{
    if entries.len() > 0 {
        lemma_entries_bytes_len(entries.drop_last(), payload_at);
    }
}

pub proof fn lemma_ifd_len(entries: Seq<EntryModel>, base: int, next: int)
    requires
        entries_wf(entries),
    ensures
        ifd_bytes(entries, base, next).len() == ifd_size(entries),
{
    lemma_entries_bytes_len(entries, base + dir_size(entries));
    lemma_payload_len(entries);
}

/// What a reader finds in a directory at `at`: the number of entries, each
/// entry with its value, and the place of the next directory.
pub proof fn lemma_ifd_reads(
    file: Seq<u8>,
    at: int,
    entries: Seq<EntryModel>,
    next: int,
)
    requires
        entries_wf(entries),
        entries.len() <= u16::MAX,
        0 <= at,
        at + ifd_size(entries) <= file.len(),
        0 <= next <= u32::MAX,
        file.subrange(at, at + ifd_size(entries)) == ifd_bytes(entries, at, next),
    ensures
        u16_at(file, at) == entries.len(),
        u32_at(file, at + 2 + 12 * entries.len()) == next,
{
    let n = entries.len() as int;
    let block = ifd_bytes(entries, at, next);
    lemma_entries_bytes_len(entries, at + dir_size(entries));
    lemma_payload_len(entries);
    assert(block.subrange(0, 2) =~= le16(n as u16));
    assert(file.subrange(at, at + 2) =~= block.subrange(0, 2));
    lemma_le16_at(file, at, n as u16);
    assert(block.subrange(2 + 12 * n, 2 + 12 * n + 4) =~= le32(next as u32));
    assert(file.subrange(at + 2 + 12 * n, at + 2 + 12 * n + 4) =~= block.subrange(
        2 + 12 * n,
        2 + 12 * n + 4,
    ));
    lemma_le32_at(file, at + 2 + 12 * n, next as u32);
}

/// What a reader finds in the file of an entry whose twelve bytes begin at
/// `at`: tag, type and number of values, and the value itself, in the entry
/// or, when longer than four bytes, at the place that the entry gives.
pub open spec fn entry_reads(file: Seq<u8>, at: int, entry: EntryModel) -> bool {
    &&& u16_at(file, at) == entry.tag
    &&& u16_at(file, at + 2) == entry.typ
    &&& u32_at(file, at + 4) == entry.count
    &&& if entry.value.len() > 4 {
        let place = u32_at(file, at + 8);
        &&& 0 <= place <= file.len() - entry.value.len()
        &&& file.subrange(place, place + entry.value.len()) == entry.value
    } else {
        file.subrange(at + 8, at + 12) == entry.value
    }
}

proof fn lemma_entry_fields(file: Seq<u8>, at: int, entry: EntryModel, place: int)
    requires
        0 <= at,
        at + 12 <= file.len(),
        entry.value.len() >= 4,
        0 <= entry.count <= u32::MAX,
        0 <= place <= u32::MAX,
        file.subrange(at, at + 12) == entry_bytes(entry, place),
    ensures
        u16_at(file, at) == entry.tag,
        u16_at(file, at + 2) == entry.typ,
        u32_at(file, at + 4) == entry.count,
        entry.value.len() > 4 ==> u32_at(file, at + 8) == place,
        entry.value.len() <= 4 ==> file.subrange(at + 8, at + 12) == entry.value,
{
    let bytes = entry_bytes(entry, place);
    assert(file.subrange(at, at + 2) =~= bytes.subrange(0, 2));
    assert(bytes.subrange(0, 2) =~= le16(entry.tag));
    lemma_le16_at(file, at, entry.tag);
    assert(file.subrange(at + 2, at + 4) =~= bytes.subrange(2, 4));
    assert(bytes.subrange(2, 4) =~= le16(entry.typ));
    lemma_le16_at(file, at + 2, entry.typ);
    assert(file.subrange(at + 4, at + 8) =~= bytes.subrange(4, 8));
    assert(bytes.subrange(4, 8) =~= le32(entry.count as u32));
    lemma_le32_at(file, at + 4, entry.count as u32);
    assert(file.subrange(at + 8, at + 12) =~= bytes.subrange(8, 12));
    if entry.value.len() > 4 {
        assert(bytes.subrange(8, 12) =~= le32(place as u32));
        lemma_le32_at(file, at + 8, place as u32);
    } else {
        assert(bytes.subrange(8, 12) =~= entry.value);
    }
}

/// A part of a part of the file is a part of the file.
pub proof fn lemma_slice_of_slice(file: Seq<u8>, at: int, block: Seq<u8>, from: int, to: int)
    requires
        0 <= at,
        at + block.len() <= file.len(),
        file.subrange(at, at + block.len()) == block,
        0 <= from <= to <= block.len(),
    ensures
        file.subrange(at + from, at + to) == block.subrange(from, to),
{
    assert(file.subrange(at + from, at + to) =~= block.subrange(from, to));
}

/// Entry `i` of a directory at `at` is readable.
pub proof fn lemma_entry_reads(
    file: Seq<u8>,
    at: int,
    entries: Seq<EntryModel>,
    next: int,
    i: int,
)
    requires
        entries_wf(entries),
        0 <= i < entries.len(),
        0 <= entries[i].count <= u32::MAX,
        0 <= at,
        at + ifd_size(entries) <= file.len() <= u32::MAX,
        file.subrange(at, at + ifd_size(entries)) == ifd_bytes(entries, at, next),
    ensures
        entry_reads(file, at + 2 + 12 * i, entries[i]),
{
    let e = entries[i];
    let n = entries.len() as int;
    let block = ifd_bytes(entries, at, next);
    let base = at + dir_size(entries);
    let skip = payload_total(entries.take(i)) as int;
    let place = base + skip;
    let dir = entries_bytes(entries, base);
    let payload = payload_bytes(entries);
    lemma_entries_bytes(entries, base, i);
    lemma_payload_len(entries);
    lemma_payload_prefix(entries, i);
    assert(block.len() == ifd_size(entries));
    assert(block.subrange(2, 2 + 12 * n) =~= dir);
    lemma_slice_of_slice(block, 2, dir, 12 * i, 12 * i + 12);
    lemma_slice_of_slice(file, at, block, 2 + 12 * i, 2 + 12 * i + 12);
    lemma_entry_fields(file, at + 2 + 12 * i, e, place);
    if e.value.len() > 4 {
        assert(block.subrange(dir_size(entries), block.len() as int) =~= payload);
        lemma_slice_of_slice(
            block,
            dir_size(entries),
            payload,
            skip,
            skip + e.value.len(),
        );
        lemma_slice_of_slice(
            file,
            at,
            block,
            dir_size(entries) + skip,
            dir_size(entries) + skip + e.value.len(),
        );
    }
}

/// An entry is seen as it is.
pub proof fn entries_are_seen_as_they_are(entries: Seq<Entry>, k: int)
    requires
        0 <= k < entries.len(),
    ensures
        models(entries).len() == entries.len(),
        models(entries)[k].tag == entries[k].tag,
        models(entries)[k].typ == entries[k].typ,
        models(entries)[k].count == entries[k].count,
        models(entries)[k].value == entries[k].value@,
{
}

} // verus!
