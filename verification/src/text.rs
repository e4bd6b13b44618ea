//! Text: equality, order, numbers and lists.

use vstd::prelude::*;
use vstd::utf8::{encode_utf8, encode_utf8_decode_utf8};

verus! {

pub proof fn lemma_encoding_is_injective(a: Seq<char>, b: Seq<char>)
    requires
        encode_utf8(a) == encode_utf8(b),
    ensures
        a == b,
{
    encode_utf8_decode_utf8(a);
    encode_utf8_decode_utf8(b);
}

/// Whether two texts are equal.
pub fn same_text(a: &str, b: &str) -> (same: bool)
    ensures
        same == (a@ == b@),
{
    let x: &[u8] = a.as_bytes();
    let y: &[u8] = b.as_bytes();
    if x.len() != y.len() {
        return false;
    }
    for i in 0..x.len()
        invariant
            x@ == encode_utf8(a@),
            y@ == encode_utf8(b@),
            x@.len() == y@.len(),
            forall|j: int| 0 <= j < i ==> x@[j] == y@[j],
    {
        if x[i] != y[i] {
            return false;
        }
    }
    assert(x@ =~= y@);
    proof {
        lemma_encoding_is_injective(a@, b@);
    }
    true
}

/// From index `i` on, `a` comes before `b` in the order of bytes.
pub open spec fn bytes_less_from(a: Seq<u8>, b: Seq<u8>, i: int) -> bool
    decreases b.len() - i,
{
    if i >= b.len() {
        false
    } else if i >= a.len() {
        true
    } else if a[i] != b[i] {
        a[i] < b[i]
    } else {
        bytes_less_from(a, b, i + 1)
    }
}

/// Text `a` comes before text `b` in the order of their UTF-8 bytes.
pub open spec fn text_less(a: Seq<char>, b: Seq<char>) -> bool {
    bytes_less_from(encode_utf8(a), encode_utf8(b), 0)
}

/// Whether text `a` comes before text `b` in the order of their UTF-8 bytes.
pub fn comes_before(a: &str, b: &str) -> (less: bool)
    ensures
        less == text_less(a@, b@),
{
    let x: &[u8] = a.as_bytes();
    let y: &[u8] = b.as_bytes();
    let mut i: usize = 0;
    while i < x.len() && i < y.len() && x[i] == y[i]
        invariant
            x@ == encode_utf8(a@),
            y@ == encode_utf8(b@),
            i <= x@.len(),
            i <= y@.len(),
            text_less(a@, b@) == bytes_less_from(x@, y@, i as int),
        decreases x@.len() - i,
    {
        i = i + 1;
    }
    if i >= y.len() {
        false
    } else if i >= x.len() {
        true
    } else {
        x[i] < y[i]
    }
}

proof fn lemma_less_transitive(a: Seq<u8>, b: Seq<u8>, c: Seq<u8>, i: int)
    requires
        bytes_less_from(a, b, i),
        bytes_less_from(b, c, i),
        0 <= i,
    ensures
        bytes_less_from(a, c, i),
    decreases c.len() - i,
{
    if i < a.len() && i < b.len() && i < c.len() && a[i] == b[i] && b[i] == c[i] {
        lemma_less_transitive(a, b, c, i + 1);
    }
}

proof fn lemma_less_total(a: Seq<u8>, b: Seq<u8>, i: int)
    requires
        0 <= i <= a.len(),
        i <= b.len(),
        forall|j: int| 0 <= j < i ==> a[j] == b[j],
    ensures
        bytes_less_from(a, b, i) || bytes_less_from(b, a, i) || a == b,
        !(bytes_less_from(a, b, i) && bytes_less_from(b, a, i)),
    decreases b.len() - i,
{
    if i < a.len() && i < b.len() && a[i] == b[i] {
        lemma_less_total(a, b, i + 1);
    } else if i == a.len() && i == b.len() {
        assert(a =~= b);
    }
}

/// The order of texts is a strict total order.
pub proof fn text_order_is_total(a: Seq<char>, b: Seq<char>, c: Seq<char>)
    ensures
        !text_less(a, a),
        text_less(a, b) || text_less(b, a) || a == b,
        !(text_less(a, b) && text_less(b, a)),
        text_less(a, b) && text_less(b, c) ==> text_less(a, c),
{
    let x = encode_utf8(a);
    let y = encode_utf8(b);
    let z = encode_utf8(c);
    lemma_less_total(x, x, 0);
    lemma_less_total(x, y, 0);
    if x == y {
        lemma_encoding_is_injective(a, b);
    }
    if bytes_less_from(x, y, 0) && bytes_less_from(y, z, 0) {
        lemma_less_transitive(x, y, z, 0);
    }
}

/// `items`, sorted by key, with `item` put behind all that do not come after
/// it.
pub open spec fn inserted<V>(items: Seq<(String, V)>, item: (String, V)) -> Seq<(String, V)>
    decreases items.len(),
{
    if items.len() == 0 || !text_less(item.0@, items.last().0@) {
        items.push(item)
    } else {
        inserted(items.drop_last(), item).push(items.last())
    }
}

/// The items in ascending order of their keys; equal keys stay in order.
pub open spec fn sorted_by_key<V>(items: Seq<(String, V)>) -> Seq<(String, V)>
    decreases items.len(),
{
    if items.len() == 0 {
        items
    } else {
        inserted(sorted_by_key(items.drop_last()), items.last())
    }
}

proof fn lemma_inserted_at<V>(items: Seq<(String, V)>, item: (String, V), p: int)
    requires
        0 <= p <= items.len(),
        forall|i: int| p <= i < items.len() ==> text_less(item.0@, (#[trigger] items[i]).0@),
        p > 0 ==> !text_less(item.0@, items[p - 1].0@),
    ensures
        inserted(items, item) == items.insert(p, item),
    decreases items.len(),
{
    if items.len() == 0 || p == items.len() {
        assert(items.insert(p, item) =~= items.push(item));
    } else {
        lemma_inserted_at(items.drop_last(), item, p);
        assert(items.insert(p, item) =~= items.drop_last().insert(p, item).push(items.last()));
    }
}

/// Sorts items by key, as a stable sort does.
pub fn sort_by_key<V>(items: Vec<(String, V)>) -> (out: Vec<(String, V)>)
    ensures
        out@ == sorted_by_key(items@),
{
    let ghost all = items@;
    let mut out: Vec<(String, V)> = Vec::new();
    assert(all.take(0) =~= Seq::empty());
    for item in it: items
        invariant
            it.seq() == all,
            out@ == sorted_by_key(all.take(it.index() as int)),
    {
        let ghost n = it.index();
        assert(item == all[n as int]);
        let mut p: usize = out.len();
        while p > 0 && comes_before(item.0.as_str(), out[p - 1].0.as_str())
            invariant
                p <= out@.len(),
                forall|i: int|
                    p <= i < out@.len() ==> text_less(item.0@, (#[trigger] out@[i]).0@),
            decreases p,
        {
            p = p - 1;
        }
        proof {
            lemma_inserted_at(out@, item, p as int);
            assert(all.take(n + 1).drop_last() =~= all.take(n as int));
        }
        out.insert(p, item);
    }
    assert(all.take(all.len() as int) =~= all);
    out
}

/// The keys ascend.
pub open spec fn keys_ascend<V>(items: Seq<(String, V)>) -> bool {
    forall|i: int, j: int|
        0 <= i < j < items.len() ==> !text_less(
            (#[trigger] items[j]).0@,
            (#[trigger] items[i]).0@,
        )
}

proof fn lemma_inserted_ascends<V>(items: Seq<(String, V)>, item: (String, V))
    requires
        keys_ascend(items),
    ensures
        keys_ascend(inserted(items, item)),
        inserted(items, item).to_multiset() == items.to_multiset().insert(item),
        inserted(items, item).len() == items.len() + 1,
        forall|k: int|
            0 <= k < inserted(items, item).len() ==> #[trigger] inserted(items, item)[k] == item
                || exists|i: int| 0 <= i < items.len() && items[i] == inserted(items, item)[k],
    decreases items.len(),
{
    broadcast use vstd::seq_lib::group_to_multiset_ensures;

    let got = inserted(items, item);
    if items.len() == 0 || !text_less(item.0@, items.last().0@) {
        assert forall|i: int, j: int| 0 <= i < j < got.len() implies !text_less(
            (#[trigger] got[j]).0@,
            (#[trigger] got[i]).0@,
        ) by {
            if j == items.len() {
                if text_less(item.0@, items[i].0@) {
                    text_order_is_total(items[i].0@, items.last().0@, items.last().0@);
                    text_order_is_total(item.0@, items[i].0@, items.last().0@);
                    assert(!text_less(items.last().0@, items[i].0@)) by {
                        if i == items.len() - 1 {
                            text_order_is_total(items[i].0@, items[i].0@, items[i].0@);
                        }
                    }
                }
            }
        }
    } else {
        let before = items.drop_last();
        lemma_inserted_ascends(before, item);
        let part = inserted(before, item);
        assert(got == part.push(items.last()));
        assert forall|i: int, j: int| 0 <= i < j < got.len() implies !text_less(
            (#[trigger] got[j]).0@,
            (#[trigger] got[i]).0@,
        ) by {
            if j == part.len() {
                text_order_is_total(item.0@, items.last().0@, items.last().0@);
                if part[i] != item {
                    let k = choose|k: int| 0 <= k < before.len() && before[k] == part[i];
                    assert(items[k] == part[i]);
                }
            } else {
                assert(got[j] == part[j] && got[i] == part[i]);
            }
        }
        assert forall|k: int| 0 <= k < got.len() implies #[trigger] got[k] == item || exists|i: int|
            0 <= i < items.len() && items[i] == got[k] by {
            if k < part.len() {
                assert(got[k] == part[k]);
                if part[k] != item {
                    let i = choose|i: int| 0 <= i < before.len() && before[i] == part[k];
                    assert(items[i] == got[k]);
                }
            } else {
                assert(items[items.len() - 1] == got[k]);
            }
        }
        assert(items =~= before.push(items.last()));
        assert(got.to_multiset() =~= part.to_multiset().insert(items.last()));
        assert(items.to_multiset() =~= before.to_multiset().insert(items.last()));
        assert(got.to_multiset() =~= items.to_multiset().insert(item));
    }
}

/// Sorting by key puts the keys in ascending order, and keeps each item.
pub proof fn sorted_keys_ascend<V>(items: Seq<(String, V)>)
    ensures
        keys_ascend(sorted_by_key(items)),
        sorted_by_key(items).to_multiset() == items.to_multiset(),
        sorted_by_key(items).len() == items.len(),
    decreases items.len(),
{
    broadcast use vstd::seq_lib::group_to_multiset_ensures;

    if items.len() > 0 {
        sorted_keys_ascend(items.drop_last());
        lemma_inserted_ascends(sorted_by_key(items.drop_last()), items.last());
        assert(items =~= items.drop_last().push(items.last()));
    }
}

/// The decimal digit of `d`.
pub open spec fn digit(d: int) -> char {
    if d == 0 {
        '0'
    } else if d == 1 {
        '1'
    } else if d == 2 {
        '2'
    } else if d == 3 {
        '3'
    } else if d == 4 {
        '4'
    } else if d == 5 {
        '5'
    } else if d == 6 {
        '6'
    } else if d == 7 {
        '7'
    } else if d == 8 {
        '8'
    } else {
        '9'
    }
}

/// `n` in decimal.
pub open spec fn decimal(n: nat) -> Seq<char>
    decreases n,
{
    if n < 10 {
        seq![digit(n as int)]
    } else {
        decimal(n / 10).push(digit((n % 10) as int))
    }
}

fn push_digit(out: &mut String, d: u8)
    requires
        d < 10,
    ensures
        final(out)@ == old(out)@.push(digit(d as int)),
{
    proof {
        reveal_strlit("0");
        reveal_strlit("1");
        reveal_strlit("2");
        reveal_strlit("3");
        reveal_strlit("4");
        reveal_strlit("5");
        reveal_strlit("6");
        reveal_strlit("7");
        reveal_strlit("8");
        reveal_strlit("9");
    }
    let text: &str = match d {
        0 => "0",
        1 => "1",
        2 => "2",
        3 => "3",
        4 => "4",
        5 => "5",
        6 => "6",
        7 => "7",
        8 => "8",
        _ => "9",
    };
    out.append(text);
    assert(out@ =~= old(out)@.push(digit(d as int)));
}

/// Appends `n` in decimal.
pub fn push_decimal(out: &mut String, n: u64)
    ensures
        final(out)@ == old(out)@ + decimal(n as nat),
    decreases n,
{
    let ghost before = out@;
    if n >= 10 {
        push_decimal(out, n / 10);
    }
    push_digit(out, (n % 10) as u8);
    assert(out@ =~= before + decimal(n as nat));
}

/// The parts, with `sep` between neighbours.
pub open spec fn joined(parts: Seq<Seq<char>>, sep: Seq<char>) -> Seq<char>
    decreases parts.len(),
{
    if parts.len() == 0 {
        Seq::empty()
    } else if parts.len() == 1 {
        parts[0]
    } else {
        joined(parts.drop_last(), sep) + sep + parts.last()
    }
}

/// What `format!("{:?}", text)` makes of a text: quoted and escaped.
pub uninterp spec fn quoted(text: Seq<char>) -> Seq<char>;

/// Quotes and escapes a text with the `Debug` formatting of `str`.
///
/// Trusted: the outcome depends on the text alone.
#[verifier::external_body]
pub(crate) fn quote(text: &str) -> (out: String)
    ensures
        out@ == quoted(text@),
{
    format!("{text:?}")
}

proof fn lemma_less_at(a: Seq<u8>, b: Seq<u8>, i: int, k: int)
    requires
        0 <= i <= k <= a.len(),
        k <= b.len(),
        forall|j: int| i <= j < k ==> a[j] == b[j],
    ensures
        bytes_less_from(a, b, i) == bytes_less_from(a, b, k),
    decreases k - i,
{
    if i < k {
        lemma_less_at(a, b, i + 1, k);
    }
}

/// Of two texts the one comes first whose byte is the smaller where they first
/// differ, and where the one begins with all of the other, the shorter.
pub proof fn texts_go_by_their_first_difference(a: Seq<char>, b: Seq<char>, k: int)
    requires
        0 <= k <= encode_utf8(a).len(),
        k <= encode_utf8(b).len(),
        encode_utf8(a).take(k) == encode_utf8(b).take(k),
    ensures
        k < encode_utf8(a).len() && k < encode_utf8(b).len() && encode_utf8(a)[k] < encode_utf8(
            b,
        )[k] ==> text_less(a, b) && !text_less(b, a),
        k == encode_utf8(a).len() && k < encode_utf8(b).len() ==> text_less(a, b) && !text_less(
            b,
            a,
        ),
{
    let (x, y) = (encode_utf8(a), encode_utf8(b));
    assert forall|j: int| 0 <= j < k implies x[j] == y[j] by {
        assert(x.take(k)[j] == y.take(k)[j]);
    }
    lemma_less_at(x, y, 0, k);
    lemma_less_at(y, x, 0, k);
}

/// Items whose keys ascend stay as they are.
pub proof fn sorted_items_stay<V>(items: Seq<(String, V)>)
    requires
        keys_ascend(items),
    ensures
        sorted_by_key(items) == items,
    decreases items.len(),
{
    if items.len() > 0 {
        let rest = items.drop_last();
        assert forall|i: int, j: int| 0 <= i < j < rest.len() implies !text_less(
            (#[trigger] rest[j]).0@,
            (#[trigger] rest[i]).0@,
        ) by {
            assert(rest[i] == items[i] && rest[j] == items[j]);
        }
        sorted_items_stay(rest);
        if rest.len() > 0 {
            assert(!text_less(items[items.len() - 1].0@, items[items.len() - 2].0@));
        }
        assert(rest.push(items.last()) =~= items);
    }
}

/// The items of one key, in their order.
pub open spec fn with_key<V>(items: Seq<(String, V)>, key: Seq<char>) -> Seq<(String, V)> {
    items.filter(|item: (String, V)| item.0@ == key)
}

proof fn lemma_inserted_with_key<V>(items: Seq<(String, V)>, item: (String, V), key: Seq<char>)
    ensures
        with_key(inserted(items, item), key) == if item.0@ == key {
            with_key(items, key).push(item)
        } else {
            with_key(items, key)
        },
    decreases items.len(),
{
    reveal(Seq::filter);
    if items.len() == 0 || !text_less(item.0@, items.last().0@) {
        assert(items.push(item).drop_last() =~= items);
    } else {
        let before = items.drop_last();
        lemma_inserted_with_key(before, item, key);
        text_order_is_total(item.0@, item.0@, item.0@);
        let part = inserted(before, item);
        assert(part.push(items.last()).drop_last() =~= part);
    }
}

/// Sorting by key is stable: the items of each key keep their order, and all of
/// them stay.
pub proof fn sorting_keeps_items_of_one_key_in_order<V>(items: Seq<(String, V)>, key: Seq<char>)
    ensures
        with_key(sorted_by_key(items), key) == with_key(items, key),
    decreases items.len(),
{
    reveal(Seq::filter);
    if items.len() > 0 {
        sorting_keeps_items_of_one_key_in_order(items.drop_last(), key);
        lemma_inserted_with_key(sorted_by_key(items.drop_last()), items.last(), key);
    }
}

/// A digit is the character whose code is its value behind that of zero.
pub proof fn digits_follow_zero(d: int)
    requires
        0 <= d < 10,
    ensures
        digit(d) as u32 == 48 + d,
{
}

/// The decimal text of a number is that of its tens and then its last digit; it
/// has no leading zero but for 0 itself.
pub proof fn decimals_have_no_leading_zero(n: nat)
    ensures
        decimal(n).len() > 0,
        n > 0 ==> decimal(n)[0] != '0',
        decimal(n).last() as u32 == 48 + n % 10,
        n >= 10 ==> decimal(n).drop_last() == decimal(n / 10),
        n < 10 ==> decimal(n).len() == 1,
    decreases n,
{
    if n >= 10 {
        decimals_have_no_leading_zero(n / 10);
        assert(decimal(n).drop_last() =~= decimal(n / 10));
    }
}

/// Joined parts come in their order with the separator between any two: the first
/// stands before it and the rest behind it.
pub proof fn parts_are_joined_in_order(first: Seq<char>, rest: Seq<Seq<char>>, sep: Seq<char>)
    ensures
        rest.len() == 0 ==> joined(seq![first] + rest, sep) == first,
        rest.len() > 0 ==> joined(seq![first] + rest, sep) == first + sep + joined(rest, sep),
        joined(Seq::<Seq<char>>::empty(), sep) == Seq::<char>::empty(),
    decreases rest.len(),
{
    let all = seq![first] + rest;
    if rest.len() == 1 {
        assert(all.drop_last() =~= seq![first]);
        assert(joined(all.drop_last(), sep) == first);
        assert(all.last() == rest[0]);
    } else if rest.len() > 1 {
        parts_are_joined_in_order(first, rest.drop_last(), sep);
        assert(all.drop_last() =~= seq![first] + rest.drop_last());
        assert(all.last() == rest.last());
        assert(joined(all, sep) =~= first + sep + joined(rest, sep));
    }
}

/// `part` stands somewhere in `text`.
pub open spec fn says(text: Seq<char>, part: Seq<char>) -> bool {
    exists|head: Seq<char>, tail: Seq<char>| #[trigger] (head + part + tail) == text
}

/// A text that is put together around a part says the part.
pub proof fn lemma_says(text: Seq<char>, head: Seq<char>, part: Seq<char>, tail: Seq<char>)
    requires
        text == head + part + tail,
    ensures
        says(text, part),
{
    assert(head + part + tail == text);
}

/// What a part of a text says the text says.
pub proof fn parts_are_said(text: Seq<char>, part: Seq<char>, inner: Seq<char>)
    requires
        says(text, part),
        says(part, inner),
    ensures
        says(text, inner),
{
    let (head, tail) = choose|head: Seq<char>, tail: Seq<char>| #[trigger] (head + part + tail) == text;
    let (first, last) = choose|first: Seq<char>, last: Seq<char>|
        #[trigger] (first + inner + last) == part;
    assert(text =~= (head + first) + inner + (last + tail));
    lemma_says(text, head + first, inner, last + tail);
}

/// Joined parts are all there.
pub proof fn joined_parts_are_said(parts: Seq<Seq<char>>, sep: Seq<char>, k: int)
    requires
        0 <= k < parts.len(),
    ensures
        says(joined(parts, sep), parts[k]),
    decreases parts.len(),
{
    let all = joined(parts, sep);
    let none = Seq::<char>::empty();
    if parts.len() == 1 {
        assert(all =~= none + parts[k] + none);
        lemma_says(all, none, parts[k], none);
    } else {
        let before = joined(parts.drop_last(), sep);
        if k < parts.len() - 1 {
            joined_parts_are_said(parts.drop_last(), sep, k);
            assert(all =~= none + before + (sep + parts.last()));
            lemma_says(all, none, before, sep + parts.last());
            parts_are_said(all, before, parts[k]);
        } else {
            assert(all =~= (before + sep) + parts[k] + none);
            lemma_says(all, before + sep, parts[k], none);
        }
    }
}

} // verus!
