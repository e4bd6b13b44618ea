//! Little-endian integers and concatenation of byte strings.

use vstd::prelude::*;

verus! {

/// The two bytes of `v`, least significant first.
pub open spec fn le16(v: u16) -> Seq<u8> {
    seq![(v % 256) as u8, (v / 256) as u8]
}

/// The four bytes of `v`, least significant first.
pub open spec fn le32(v: u32) -> Seq<u8> {
    seq![
        (v % 256) as u8,
        ((v / 256) % 256) as u8,
        ((v / 65536) % 256) as u8,
        (v / 16777216) as u8,
    ]
}

/// The eight bytes of `v`, least significant first.
pub open spec fn le64(v: u64) -> Seq<u8> {
    le32((v % 4294967296) as u32) + le32((v / 4294967296) as u32)
}

/// The number whose little-endian bytes stand at `at`.
pub open spec fn u16_at(bytes: Seq<u8>, at: int) -> int {
    bytes[at] + 256 * bytes[at + 1]
}

/// The number whose little-endian bytes stand at `at`.
pub open spec fn u32_at(bytes: Seq<u8>, at: int) -> int {
    bytes[at] + 256 * bytes[at + 1] + 65536 * bytes[at + 2] + 16777216 * bytes[at + 3]
}

/// The number whose little-endian bytes stand at `at`.
pub open spec fn u64_at(bytes: Seq<u8>, at: int) -> int {
    bytes[at] + 256 * bytes[at + 1] + 65536 * bytes[at + 2] + 16777216 * bytes[at + 3] + 4294967296
        * bytes[at + 4] + 1099511627776 * bytes[at + 5] + 281474976710656 * bytes[at + 6]
        + 72057594037927936 * bytes[at + 7]
}

/// All of `parts`, one after the other.
pub open spec fn concat(parts: Seq<Seq<u8>>) -> Seq<u8>
    decreases parts.len(),
{
    if parts.len() == 0 {
        Seq::empty()
    } else {
        concat(parts.drop_last()) + parts.last()
    }
}

/// The number of bytes in all of `parts`.
pub open spec fn total_len(parts: Seq<Seq<u8>>) -> nat
    decreases parts.len(),
{
    if parts.len() == 0 {
        0
    } else {
        total_len(parts.drop_last()) + parts.last().len()
    }
}

/// The byte strings that a list of vectors holds.
pub open spec fn views(parts: Seq<Vec<u8>>) -> Seq<Seq<u8>> {
    parts.map_values(|part: Vec<u8>| part@)
}

/// A concatenation is as long as its parts together.
pub proof fn lemma_concat_len(parts: Seq<Seq<u8>>)
    ensures
        concat(parts).len() == total_len(parts),
    decreases parts.len(),
{
    if parts.len() > 0 {
        lemma_concat_len(parts.drop_last());
    }
}

/// Part `i` of a concatenation stands behind the parts before it.
pub proof fn lemma_concat_part(parts: Seq<Seq<u8>>, i: int)
    requires
        0 <= i < parts.len(),
    ensures
        total_len(parts.take(i)) + parts[i].len() <= total_len(parts),
        concat(parts).subrange(
            total_len(parts.take(i)) as int,
            (total_len(parts.take(i)) + parts[i].len()) as int,
        ) == parts[i],
    decreases parts.len(),
{
    lemma_concat_len(parts);
    lemma_concat_len(parts.drop_last());
    if i == parts.len() - 1 {
        assert(parts.take(i) =~= parts.drop_last());
        assert(concat(parts).subrange(
            total_len(parts.take(i)) as int,
            (total_len(parts.take(i)) + parts[i].len()) as int,
        ) =~= parts[i]);
    } else {
        lemma_concat_part(parts.drop_last(), i);
        assert(parts.drop_last().take(i) =~= parts.take(i));
        let from = total_len(parts.take(i)) as int;
        let to = (total_len(parts.take(i)) + parts[i].len()) as int;
        assert(concat(parts).subrange(from, to) =~= concat(parts.drop_last()).subrange(from, to));
    }
}

/// A number survives being written and read back.
pub proof fn lemma_le16_at(bytes: Seq<u8>, at: int, v: u16)
    requires
        0 <= at <= bytes.len() - 2,
        bytes.subrange(at, at + 2) == le16(v),
    ensures
        u16_at(bytes, at) == v,
{
    let s = bytes.subrange(at, at + 2);
    assert(s[0] == bytes[at] && s[1] == bytes[at + 1]);
}

/// A number survives being written and read back.
pub proof fn lemma_le32_at(bytes: Seq<u8>, at: int, v: u32)
    requires
        0 <= at <= bytes.len() - 4,
        bytes.subrange(at, at + 4) == le32(v),
    ensures
        u32_at(bytes, at) == v,
{
    let s = bytes.subrange(at, at + 4);
    assert(s[0] == bytes[at] && s[1] == bytes[at + 1] && s[2] == bytes[at + 2] && s[3] == bytes[at
        + 3]);
}

/// A number survives being written and read back.
pub proof fn lemma_le64_at(bytes: Seq<u8>, at: int, v: u64)
    requires
        0 <= at <= bytes.len() - 8,
        bytes.subrange(at, at + 8) == le64(v),
    ensures
        u64_at(bytes, at) == v,
{
    let s = bytes.subrange(at, at + 8);
    let (lo, hi) = ((v % 4294967296) as u32, (v / 4294967296) as u32);
    assert(bytes.subrange(at, at + 4) =~= s.subrange(0, 4));
    assert(s.subrange(0, 4) =~= le32(lo));
    lemma_le32_at(bytes, at, lo);
    assert(bytes.subrange(at + 4, at + 8) =~= s.subrange(4, 8));
    assert(s.subrange(4, 8) =~= le32(hi));
    lemma_le32_at(bytes, at + 4, hi);
}

/// Byte strings that are joined stand in their order: those of two lists are the
/// first list's and then the second's, and a single one is as it is.
pub proof fn joined_bytes_add_up(a: Seq<Seq<u8>>, b: Seq<Seq<u8>>)
    ensures
        concat(a + b) == concat(a) + concat(b),
        total_len(a + b) == total_len(a) + total_len(b),
        a.len() == 1 ==> concat(a) == a[0] && total_len(a) == a[0].len(),
    decreases b.len(),
{
    if b.len() == 0 {
        assert(a + b =~= a);
        assert(concat(a) + concat(b) =~= concat(a));
    } else {
        joined_bytes_add_up(a, b.drop_last());
        assert((a + b).drop_last() =~= a + b.drop_last());
        assert(concat(a + b) =~= concat(a) + concat(b));
    }
    if a.len() == 1 {
        assert(a.drop_last() =~= Seq::empty());
        assert(concat(a.drop_last()) =~= Seq::empty());
        assert(total_len(a.drop_last()) == 0);
        assert(concat(a) =~= a[0]);
    }
}

/// Appends `v`, least significant byte first.
pub fn push_le16(out: &mut Vec<u8>, v: u16)
    ensures
        final(out)@ == old(out)@ + le16(v),
{
    out.push((v % 256) as u8);
    out.push((v / 256) as u8);
    assert(out@ =~= old(out)@ + le16(v));
}

/// Appends `v`, least significant byte first.
pub fn push_le32(out: &mut Vec<u8>, v: u32)
    ensures
        final(out)@ == old(out)@ + le32(v),
{
    out.push((v % 256) as u8);
    out.push(((v / 256) % 256) as u8);
    out.push(((v / 65536) % 256) as u8);
    out.push((v / 16777216) as u8);
    assert(out@ =~= old(out)@ + le32(v));
}

/// Appends `v`, least significant byte first.
pub fn push_le64(out: &mut Vec<u8>, v: u64)
    ensures
        final(out)@ == old(out)@ + le64(v),
{
    push_le32(out, (v % 4294967296) as u32);
    push_le32(out, (v / 4294967296) as u32);
    assert(out@ =~= old(out)@ + le64(v));
}

/// Appends all of `part`.
pub fn push_all(out: &mut Vec<u8>, part: &[u8])
    ensures
        final(out)@ == old(out)@ + part@,
{
    out.extend_from_slice(part);
    assert(out@ =~= old(out)@ + part@);
}

} // verus!
