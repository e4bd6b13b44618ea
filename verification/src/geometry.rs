//! Geometry in integer tile coordinates.

use vstd::prelude::*;

use crate::error::{EncodeStep, Error};

verus! {

/// Runs of equal points reduced to one point each.
pub open spec fn deduped(points: Seq<(i64, i64)>) -> Seq<(i64, i64)>
    decreases points.len(),
{
    if points.len() == 0 {
        Seq::empty()
    } else {
        let before = deduped(points.drop_last());
        if before.len() > 0 && before.last() == points.last() {
            before
        } else {
            before.push(points.last())
        }
    }
}

/// Reduces runs of equal points to one point each.
pub fn dedupe(points: &[(i64, i64)]) -> (out: Vec<(i64, i64)>)
    ensures
        out@ == deduped(points@),
{
    let mut out: Vec<(i64, i64)> = Vec::new();
    for i in 0..points.len()
        invariant
            out@ == deduped(points@.take(i as int)),
    {
        assert(points@.take(i + 1).drop_last() =~= points@.take(i as int));
        let p: (i64, i64) = points[i];
        let n: usize = out.len();
        if n == 0 || out[n - 1].0 != p.0 || out[n - 1].1 != p.1 {
            out.push(p);
        }
    }
    assert(points@.take(points@.len() as int) =~= points@);
    out
}

/// No two neighbours are equal.
pub open spec fn no_repeats(points: Seq<(i64, i64)>) -> bool {
    forall|i: int, j: int|
        0 <= i < points.len() && j == i + 1 && j < points.len() ==> #[trigger] points[i]
            != #[trigger] points[j]
}

/// Reducing runs leaves no two equal neighbours, keeps the first and the last
/// point, and adds none.
pub proof fn dedupe_leaves_no_repeats(points: Seq<(i64, i64)>)
    ensures
        no_repeats(deduped(points)),
        deduped(points).len() <= points.len(),
        points.len() > 0 ==> deduped(points).len() > 0 && deduped(points)[0] == points[0]
            && deduped(points).last() == points.last(),
    decreases points.len(),
{
    if points.len() > 0 {
        dedupe_leaves_no_repeats(points.drop_last());
        if points.len() > 1 {
            assert(points.drop_last()[0] == points[0]);
        }
    }
}

/// Points without repeats stay as they are; so reducing twice is reducing
/// once.
pub proof fn dedupe_keeps_points_without_repeats(points: Seq<(i64, i64)>)
    requires
        no_repeats(points),
    ensures
        deduped(points) == points,
    decreases points.len(),
{
    if points.len() > 0 {
        let before = points.drop_last();
        dedupe_keeps_points_without_repeats(before);
        if before.len() > 0 {
            assert(before.last() == points[points.len() - 2]);
        }
        assert(points =~= before.push(points.last()));
    }
}

/// Twice the signed area of the triangle from the origin to `a` and `b`.
pub open spec fn cross(a: (i64, i64), b: (i64, i64)) -> int {
    a.0 * b.1 - b.0 * a.1
}

/// The sum of the cross products along an open chain of points.
pub open spec fn chain_area2(points: Seq<(i64, i64)>) -> int
    decreases points.len(),
{
    if points.len() < 2 {
        0
    } else {
        chain_area2(points.drop_last()) + cross(points[points.len() - 2], points.last())
    }
}

/// Twice the signed area of a ring whose last point leads back to the first.
/// With `y` growing downwards, positive is clockwise on screen.
pub open spec fn ring_area2(points: Seq<(i64, i64)>) -> int {
    if points.len() == 0 {
        0
    } else {
        chain_area2(points) + cross(points.last(), points[0])
    }
}

/// The area's sum for a ring can be formed step by step in 64 bits: each
/// product, each difference and each partial sum fits.
pub open spec fn area_fits(points: Seq<(i64, i64)>) -> bool {
    &&& forall|i: int, j: int|
        0 <= i < points.len() && j == (if i + 1 < points.len() {
            i + 1
        } else {
            0
        }) ==> cross_fits(#[trigger] points[i], #[trigger] points[j])
    &&& forall|k: int|
        0 <= k <= points.len() ==> i64::MIN <= chain_area2(#[trigger] points.take(k)) <= i64::MAX
    &&& i64::MIN <= ring_area2(points) <= i64::MAX
}

/// A cross product can be formed in 64 bits.
pub open spec fn cross_fits(a: (i64, i64), b: (i64, i64)) -> bool {
    &&& i64::MIN <= a.0 * b.1 <= i64::MAX
    &&& i64::MIN <= b.0 * a.1 <= i64::MAX
    &&& i64::MIN <= cross(a, b) <= i64::MAX
}

fn checked_cross(a: (i64, i64), b: (i64, i64)) -> (c: Option<i64>)
    ensures
        c is Some <==> cross_fits(a, b),
        c matches Some(v) ==> v == cross(a, b),
{
    match a.0.checked_mul(b.1) {
        Some(l) => match b.0.checked_mul(a.1) {
            Some(r) => l.checked_sub(r),
            None => None,
        },
        None => None,
    }
}

/// Twice the signed area of a ring, or `None` where 64 bits do not hold a
/// step of the sum.
pub fn checked_area2(points: &[(i64, i64)]) -> (area: Option<i64>)
    ensures
        area is Some <==> area_fits(points@),
        area matches Some(a) ==> a == ring_area2(points@),
{
    let n: usize = points.len();
    if n == 0 {
        assert(points@.take(0) =~= points@);
        return Some(0);
    }
    let mut sum: i64 = 0;
    assert(chain_area2(points@.take(1)) == 0);
    for k in 1..n
        invariant
            n == points@.len(),
            sum == chain_area2(points@.take(k as int)),
            forall|i: int, j: int|
                0 <= i && j == i + 1 && j < k ==> cross_fits(
                    #[trigger] points@[i],
                    #[trigger] points@[j],
                ),
            forall|m: int|
                0 <= m <= k ==> i64::MIN <= chain_area2(#[trigger] points@.take(m)) <= i64::MAX,
    {
        let ghost before = points@.take(k as int);
        let ghost after = points@.take(k + 1);
        assert(after.drop_last() =~= before);
        assert(after[after.len() - 2] == points@[k - 1]);
        match checked_cross(points[k - 1], points[k]) {
            Some(c) => match sum.checked_add(c) {
                Some(s) => {
                    sum = s;
                },
                None => {
                    assert(!(i64::MIN <= chain_area2(points@.take(k + 1)) <= i64::MAX));
                    return None;
                },
            },
            None => {
                assert(!cross_fits(points@[k - 1], points@[k as int]));
                return None;
            },
        }
    }
    assert(points@.take(n as int) =~= points@);
    match checked_cross(points[n - 1], points[0]) {
        Some(c) => {
            sum.checked_add(c)
        },
        None => {
            assert(!cross_fits(points@[n - 1], points@[0]));
            None
        },
    }
}

proof fn lemma_chain_push_front(p: (i64, i64), points: Seq<(i64, i64)>)
    requires
        points.len() > 0,
    ensures
        chain_area2(seq![p] + points) == cross(p, points[0]) + chain_area2(points),
    decreases points.len(),
{
    let all = seq![p] + points;
    if points.len() == 1 {
        assert(all.drop_last() =~= seq![p]);
        assert(chain_area2(all.drop_last()) == 0);
    } else {
        lemma_chain_push_front(p, points.drop_last());
        assert(all.drop_last() =~= seq![p] + points.drop_last());
        assert(all[all.len() - 2] == points[points.len() - 2]);
    }
}

/// `points`, beginning with point `k` and going round.
pub open spec fn rotated(points: Seq<(i64, i64)>, k: int) -> Seq<(i64, i64)> {
    points.subrange(k, points.len() as int) + points.take(k)
}

/// Where a ring begins does not change its area.
pub proof fn rotation_keeps_area(points: Seq<(i64, i64)>, k: int)
    requires
        0 <= k <= points.len(),
    ensures
        ring_area2(rotated(points, k)) == ring_area2(points),
    decreases k,
{
    if k == 0 {
        assert(rotated(points, 0) =~= points);
    } else {
        let before = rotated(points, k - 1);
        rotation_keeps_area(points, k - 1);
        let after = rotated(points, k);
        let first = before[0];
        let rest = before.subrange(1, before.len() as int);
        assert(before =~= seq![first] + rest);
        assert(after =~= rest.push(first));
        if rest.len() == 0 {
            assert(after =~= before);
        } else {
            lemma_chain_push_front(first, rest);
            assert(after.drop_last() =~= rest);
            assert(after[after.len() - 2] == rest.last());
            assert(before.last() == rest.last());
        }
    }
}

proof fn lemma_reverse_chain(points: Seq<(i64, i64)>)
    ensures
        chain_area2(points.reverse()) == -chain_area2(points),
    decreases points.len(),
{
    if points.len() >= 2 {
        let last = points.last();
        let rest = points.drop_last();
        lemma_reverse_chain(rest);
        assert(points.reverse() =~= seq![last] + rest.reverse());
        lemma_chain_push_front(last, rest.reverse());
        assert(rest.reverse()[0] == points[points.len() - 2]);
        assert(cross(last, rest.reverse()[0]) == -cross(points[points.len() - 2], last));
    }
}

/// Walking a ring the other way negates its area.
pub proof fn reversal_negates_area(points: Seq<(i64, i64)>)
    ensures
        ring_area2(points.reverse()) == -ring_area2(points),
{
    lemma_reverse_chain(points);
    if points.len() > 0 {
        assert(points.reverse()[0] == points.last());
        assert(points.reverse().last() == points[0]);
    }
}

/// The points of a ring, each once: runs reduced, the closing point dropped.
pub open spec fn open_ring(points: Seq<(i64, i64)>) -> Seq<(i64, i64)> {
    let d = deduped(points);
    if d.len() >= 2 && d[0] == d.last() {
        d.drop_last()
    } else {
        d
    }
}

/// A ring as a tile holds it: open, with an area, and wound so that an
/// exterior has a positive area and a hole a negative one. `None` where it
/// degenerates.
pub open spec fn quantized_ring(points: Seq<(i64, i64)>, exterior: bool) -> Option<
    Seq<(i64, i64)>,
> {
    let ring = open_ring(points);
    if ring.len() < 3 || ring_area2(ring) == 0 {
        None
    } else if (ring_area2(ring) > 0) != exterior {
        Some(ring.reverse())
    } else {
        Some(ring)
    }
}

/// The ring degenerates, or its area can be formed in 64 bits.
pub open spec fn ring_fits(points: Seq<(i64, i64)>) -> bool {
    open_ring(points).len() < 3 || area_fits(open_ring(points))
}

/// A ring that a tile holds has three points at least, and the winding of its
/// role.
pub proof fn rings_are_wound_by_role(points: Seq<(i64, i64)>, exterior: bool)
    ensures
        quantized_ring(points, exterior) matches Some(ring) ==> {
            &&& ring.len() >= 3
            &&& exterior ==> ring_area2(ring) > 0
            &&& !exterior ==> ring_area2(ring) < 0
        },
{
    reversal_negates_area(open_ring(points));
}

fn reversed(points: &Vec<(i64, i64)>) -> (out: Vec<(i64, i64)>)
    ensures
        out@ == points@.reverse(),
{
    let n: usize = points.len();
    let mut out: Vec<(i64, i64)> = Vec::new();
    for i in 0..n
        invariant
            n == points@.len(),
            out@ == points@.reverse().take(i as int),
    {
        out.push(points[n - 1 - i]);
        assert(out@ =~= points@.reverse().take(i + 1));
    }
    assert(out@ =~= points@.reverse());
    out
}

/// A ring's open form, and whether its area can be formed in 64 bits.
fn check_ring(points: &[(i64, i64)], exterior: bool) -> (ring: Option<Option<Vec<(i64, i64)>>>)
    ensures
        ring is Some <==> ring_fits(points@),
        ring matches Some(r) ==> match r {
            Some(v) => quantized_ring(points@, exterior) == Some(v@),
            None => quantized_ring(points@, exterior) is None,
        },
{
    let mut pts: Vec<(i64, i64)> = dedupe(points);
    let n: usize = pts.len();
    if n >= 2 && pts[0].0 == pts[n - 1].0 && pts[0].1 == pts[n - 1].1 {
        pts.pop();
    }
    assert(pts@ == open_ring(points@));
    if pts.len() < 3 {
        return Some(None);
    }
    match checked_area2(pts.as_slice()) {
        Some(area2) => {
            if area2 == 0 {
                Some(None)
            } else if (area2 > 0) != exterior {
                Some(Some(reversed(&pts)))
            } else {
                Some(Some(pts))
            }
        },
        None => None,
    }
}

/// Opens a ring (the encoder closes it) and normalises its winding: exterior
/// rings have a positive signed area in tile coordinates (`y` down), holes a
/// negative one. `None` where the ring degenerates.
pub fn quantize_ring(points: &[(i64, i64)], exterior: bool) -> (ring: Option<Vec<(i64, i64)>>)
    requires
        ring_fits(points@),
    ensures
        match ring {
            Some(v) => quantized_ring(points@, exterior) == Some(v@),
            None => quantized_ring(points@, exterior) is None,
        },
{
    match check_ring(points, exterior) {
        Some(ring) => ring,
        None => None,
    }
}

/// The point lists that a list of vectors holds.
pub open spec fn part_views(parts: Seq<Vec<(i64, i64)>>) -> Seq<Seq<(i64, i64)>> {
    parts.map_values(|part: Vec<(i64, i64)>| part@)
}

/// The first index at which `part` is not `point`, or its length.
pub open spec fn first_other(part: Seq<(i64, i64)>, point: (i64, i64)) -> int
    decreases part.len(),
{
    if part.len() == 0 || part[0] != point {
        0
    } else {
        1 + first_other(part.subrange(1, part.len() as int), point)
    }
}

/// `part`, changed so as not to begin with `point`: a line turned round, a
/// ring begun elsewhere. It stays as it is where it does not begin there.
pub open spec fn turned(part: Seq<(i64, i64)>, point: (i64, i64), ring: bool) -> Seq<(i64, i64)> {
    if part[0] != point {
        part
    } else if ring {
        rotated(part, first_other(part, point))
    } else {
        part.reverse()
    }
}

/// The parts, each turned so as not to begin where the one before it ends;
/// one that cannot be turned so is left out.
pub open spec fn separated(parts: Seq<Seq<(i64, i64)>>, ring: bool) -> Seq<Seq<(i64, i64)>>
    decreases parts.len(),
{
    if parts.len() == 0 {
        Seq::empty()
    } else {
        let before = separated(parts.drop_last(), ring);
        let part = parts.last();
        if before.len() == 0 {
            before.push(part)
        } else {
            let end = before.last().last();
            if turned(part, end, ring)[0] == end {
                before
            } else {
                before.push(turned(part, end, ring))
            }
        }
    }
}

/// Every part has a point.
pub open spec fn parts_wf(parts: Seq<Seq<(i64, i64)>>) -> bool {
    forall|i: int| 0 <= i < parts.len() ==> (#[trigger] parts[i]).len() > 0
}

proof fn lemma_first_other(part: Seq<(i64, i64)>, point: (i64, i64), k: int)
    requires
        0 <= k <= part.len(),
        forall|i: int| 0 <= i < k ==> part[i] == point,
        k < part.len() ==> part[k] != point,
    ensures
        first_other(part, point) == k,
    decreases k,
{
    if k > 0 {
        let rest = part.subrange(1, part.len() as int);
        assert forall|i: int| 0 <= i < k - 1 implies rest[i] == point by {
            assert(rest[i] == part[i + 1]);
        }
        lemma_first_other(rest, point, k - 1);
    }
}

proof fn lemma_first_other_bounds(part: Seq<(i64, i64)>, point: (i64, i64))
    ensures
        0 <= first_other(part, point) <= part.len(),
        first_other(part, point) < part.len() ==> part[first_other(part, point)] != point,
    decreases part.len(),
{
    if part.len() > 0 && part[0] == point {
        lemma_first_other_bounds(part.subrange(1, part.len() as int), point);
    }
}

proof fn lemma_turned_len(part: Seq<(i64, i64)>, point: (i64, i64), ring: bool)
    ensures
        turned(part, point, ring).len() == part.len(),
{
    lemma_first_other_bounds(part, point);
}

/// No part begins where the one before it ends, and every part has a point.
pub proof fn separated_parts_do_not_touch(parts: Seq<Seq<(i64, i64)>>, ring: bool)
    requires
        parts_wf(parts),
    ensures
        parts_wf(separated(parts, ring)),
        forall|i: int, j: int|
            0 <= i && j == i + 1 && j < separated(parts, ring).len() ==> (#[trigger] separated(
                parts,
                ring,
            )[j])[0] != (#[trigger] separated(parts, ring)[i]).last(),
        separated(parts, ring).len() <= parts.len(),
        parts.len() > 0 ==> separated(parts, ring).len() > 0,
    decreases parts.len(),
{
    if parts.len() > 0 {
        let before = separated(parts.drop_last(), ring);
        separated_parts_do_not_touch(parts.drop_last(), ring);
        if before.len() > 0 {
            lemma_turned_len(parts.last(), before.last().last(), ring);
        }
    }
}

/// Every part that remains is one of the parts given, as it was, turned round
/// (a line) or begun elsewhere (a ring, whose area stays).
pub proof fn separated_parts_come_from_parts(parts: Seq<Seq<(i64, i64)>>, ring: bool, i: int)
    requires
        0 <= i < separated(parts, ring).len(),
    ensures
        exists|j: int|
            0 <= j < parts.len() && is_turn_of(
                #[trigger] parts[j],
                separated(parts, ring)[i],
                ring,
            ),
        ring ==> exists|j: int|
            0 <= j < parts.len() && ring_area2(#[trigger] parts[j]) == ring_area2(
                separated(parts, ring)[i],
            ),
    decreases parts.len(),
{
    let before = separated(parts.drop_last(), ring);
    let last = parts.len() - 1;
    if i < before.len() {
        separated_parts_come_from_parts(parts.drop_last(), ring, i);
        let j = choose|j: int|
            0 <= j < parts.drop_last().len() && is_turn_of(
                #[trigger] parts.drop_last()[j],
                before[i],
                ring,
            );
        assert(is_turn_of(parts[j], separated(parts, ring)[i], ring));
        if ring {
            let k = choose|k: int|
                0 <= k < parts.drop_last().len() && ring_area2(#[trigger] parts.drop_last()[k])
                    == ring_area2(before[i]);
            assert(parts[k] == parts.drop_last()[k]);
        }
    } else {
        let part = parts[last];
        let got = separated(parts, ring)[i];
        if before.len() > 0 {
            let end = before.last().last();
            lemma_first_other_bounds(part, end);
            if ring && part[0] == end {
                rotation_keeps_area(part, first_other(part, end));
                assert(got == rotated(part, first_other(part, end)));
            }
        }
        assert(is_turn_of(part, got, ring));
        assert(ring ==> ring_area2(parts[last]) == ring_area2(got));
    }
}

/// The parts that remain keep their order.
pub proof fn separated_parts_keep_their_order(
    parts: Seq<Seq<(i64, i64)>>,
    ring: bool,
    i: int,
    j: int,
)
    requires
        0 <= i < j < separated(parts, ring).len(),
    ensures
        exists|a: int, b: int|
            0 <= a < b < parts.len() && is_turn_of(
                #[trigger] parts[a],
                separated(parts, ring)[i],
                ring,
            ) && is_turn_of(#[trigger] parts[b], separated(parts, ring)[j], ring),
    decreases parts.len(),
{
    let rest = parts.drop_last();
    let before = separated(rest, ring);
    let last = parts.len() - 1;
    if j < before.len() {
        separated_parts_keep_their_order(rest, ring, i, j);
        let (a, b) = choose|a: int, b: int|
            0 <= a < b < rest.len() && is_turn_of(#[trigger] rest[a], before[i], ring)
                && is_turn_of(#[trigger] rest[b], before[j], ring);
        assert(is_turn_of(parts[a], separated(parts, ring)[i], ring));
        assert(is_turn_of(parts[b], separated(parts, ring)[j], ring));
    } else {
        separated_parts_come_from_parts(rest, ring, i);
        let a = choose|a: int|
            0 <= a < rest.len() && is_turn_of(#[trigger] rest[a], before[i], ring);
        assert(is_turn_of(parts[a], separated(parts, ring)[i], ring));
        let end = before.last().last();
        lemma_first_other_bounds(parts[last], end);
        assert(is_turn_of(parts[last], separated(parts, ring)[j], ring));
    }
}

/// `got` is `part`, or `part` turned round (a line) or begun elsewhere (a
/// ring).
pub open spec fn is_turn_of(part: Seq<(i64, i64)>, got: Seq<(i64, i64)>, ring: bool) -> bool {
    ||| got == part
    ||| !ring && got == part.reverse()
    ||| ring && exists|k: int| 0 <= k <= part.len() && got == #[trigger] rotated(part, k)
}

fn rotate(part: &Vec<(i64, i64)>, k: usize) -> (out: Vec<(i64, i64)>)
    requires
        k <= part@.len(),
    ensures
        out@ == rotated(part@, k as int),
{
    let n: usize = part.len();
    let mut out: Vec<(i64, i64)> = Vec::new();
    for i in k..n
        invariant
            n == part@.len(),
            k <= n,
            out@ == part@.subrange(k as int, i as int),
    {
        out.push(part[i]);
        assert(out@ =~= part@.subrange(k as int, i + 1));
    }
    for i in 0..k
        invariant
            n == part@.len(),
            k <= n,
            out@ == part@.subrange(k as int, n as int) + part@.take(i as int),
    {
        out.push(part[i]);
        assert(out@ =~= part@.subrange(k as int, n as int) + part@.take(i + 1));
    }
    out
}

fn turn(part: &Vec<(i64, i64)>, point: (i64, i64), ring: bool) -> (out: Vec<(i64, i64)>)
    requires
        part@.len() > 0,
        part@[0] == point,
    ensures
        out@ == turned(part@, point, ring),
        out@.len() == part@.len(),
{
    proof {
        lemma_turned_len(part@, point, ring);
    }
    if !ring {
        return reversed(part);
    }
    let mut k: usize = 0;
    while k < part.len() && part[k].0 == point.0 && part[k].1 == point.1
        invariant
            k <= part@.len(),
            forall|i: int| 0 <= i < k ==> part@[i] == point,
        decreases part@.len() - k,
    {
        k = k + 1;
    }
    proof {
        lemma_first_other(part@, point, k as int);
    }
    rotate(part, k)
}

/// Ensures that no part begins exactly where the one before it ended.
///
/// The `mvt` encoder keeps its last point across parts, so a part whose first
/// point equals the last one of the part before it would be encoded as its
/// continuation. Such collisions are broken without loss: lines are reversed,
/// rings begun elsewhere. A part that still collides is dropped.
pub fn avoid_shared_endpoints(parts: &mut Vec<Vec<(i64, i64)>>, ring: bool)
    requires
        parts_wf(part_views(old(parts)@)),
    ensures
        part_views(final(parts)@) == separated(part_views(old(parts)@), ring),
{
    let ghost all = part_views(parts@);
    if parts.len() == 0 {
        assert(part_views(parts@) =~= separated(all, ring));
        return;
    }
    let mut i: usize = 1;
    // How many of the parts given stand before part `i`, kept or dropped.
    let ghost mut done: int = 1;
    assert(all.take(1).drop_last() =~= Seq::empty());
    assert(separated(all.take(1).drop_last(), ring) =~= Seq::empty());
    assert(part_views(parts@).take(1) =~= separated(all.take(1), ring));
    while i < parts.len()
        invariant
            1 <= i <= parts@.len(),
            i <= done <= all.len(),
            parts@.len() - i == all.len() - done,
            parts_wf(all),
            part_views(parts@).take(i as int) == separated(all.take(done), ring),
            forall|k: int|
                #![trigger parts@[i + k]]
                0 <= k < parts@.len() - i ==> parts@[i + k]@ == all[done + k],
        decreases parts@.len() - i,
    {
        let ghost before = part_views(parts@).take(i as int);
        proof {
            assert(parts@[i + 0]@ == all[done + 0]);
            assert(all.take(done + 1).drop_last() =~= all.take(done));
            separated_parts_do_not_touch(all.take(done), ring);
            assert(before[i - 1] == parts@[i - 1]@);
            assert(before[i - 1].len() > 0);
        }
        let m: usize = parts[i - 1].len();
        let end: (i64, i64) = parts[i - 1][m - 1];
        let first: (i64, i64) = parts[i][0];
        let ghost old_parts = parts@;
        if first.0 != end.0 || first.1 != end.1 {
            i = i + 1;
            assert(part_views(parts@).take(i as int) =~= before.push(parts@[i - 1]@));
            assert forall|k: int|
                #![trigger parts@[i + k]]
                0 <= k < parts@.len() - i implies parts@[i + k]@ == all[done + 1 + k] by {
                assert(old_parts[(i - 1) + (k + 1)]@ == all[done + (k + 1)]);
            }
        } else {
            let part: Vec<(i64, i64)> = turn(&parts[i], end, ring);
            if part[0].0 == end.0 && part[0].1 == end.1 {
                let _ = parts.remove(i);
                assert(part_views(parts@).take(i as int) =~= before);
                assert forall|k: int|
                    #![trigger parts@[i + k]]
                    0 <= k < parts@.len() - i implies parts@[i + k]@ == all[done + 1 + k] by {
                    assert(old_parts[i + (k + 1)]@ == all[done + (k + 1)]);
                }
            } else {
                let ghost kept = part@;
                parts[i] = part;
                i = i + 1;
                assert(part_views(parts@).take(i as int) =~= before.push(kept));
                assert forall|k: int|
                    #![trigger parts@[i + k]]
                    0 <= k < parts@.len() - i implies parts@[i + k]@ == all[done + 1 + k] by {
                    assert(old_parts[(i - 1) + (k + 1)]@ == all[done + (k + 1)]);
                }
            }
        }
        proof {
            done = done + 1;
        }
    }
    assert(all.take(done) =~= all);
    assert(part_views(parts@).take(i as int) =~= part_views(parts@));
}

/// The kind of a geometry in a tile.
#[derive(Debug, Clone, Copy, PartialEq, Eq, Structural)]
pub enum GeomKind {
    /// One or more points.
    Point,
    /// One or more lines.
    Linestring,
    /// One or more polygons.
    Polygon,
}

/// A geometry in tile coordinates: its kind and its parts (rings, lines, or
/// one run of points).
pub struct QuantizedGeom {
    pub kind: GeomKind,
    pub parts: Vec<Vec<(i64, i64)>>,
}

/// A polygon's rings in tile coordinates, not yet normalised.
pub struct RawPolygon {
    pub exterior: Vec<(i64, i64)>,
    pub interiors: Vec<Vec<(i64, i64)>>,
}

/// A geometry clipped to a tile, in tile coordinates, not yet normalised.
pub enum Clipped {
    /// The points that lie in the clip rectangle.
    Points(Vec<(i64, i64)>),
    Lines(Vec<Vec<(i64, i64)>>),
    Polygons(Vec<RawPolygon>),
}

/// The rings of a polygon.
pub struct PolygonModel {
    pub exterior: Seq<(i64, i64)>,
    pub interiors: Seq<Seq<(i64, i64)>>,
}

impl View for RawPolygon {
    type V = PolygonModel;

    open spec fn view(&self) -> PolygonModel {
        PolygonModel { exterior: self.exterior@, interiors: part_views(self.interiors@) }
    }
}

/// The models of a list of polygons.
pub open spec fn polygon_models(polygons: Seq<RawPolygon>) -> Seq<PolygonModel> {
    polygons.map_values(|p: RawPolygon| p@)
}

/// A clipped geometry.
pub enum ClippedModel {
    Points(Seq<(i64, i64)>),
    Lines(Seq<Seq<(i64, i64)>>),
    Polygons(Seq<PolygonModel>),
}

impl View for Clipped {
    type V = ClippedModel;

    open spec fn view(&self) -> ClippedModel {
        match self {
            Clipped::Points(points) => ClippedModel::Points(points@),
            Clipped::Lines(lines) => ClippedModel::Lines(part_views(lines@)),
            Clipped::Polygons(polygons) => ClippedModel::Polygons(
                polygon_models(polygons@),
            ),
        }
    }
}

/// The lines with two points at least, runs reduced.
pub open spec fn line_parts(lines: Seq<Seq<(i64, i64)>>) -> Seq<Seq<(i64, i64)>>
    decreases lines.len(),
{
    if lines.len() == 0 {
        Seq::empty()
    } else {
        let before = line_parts(lines.drop_last());
        let points = deduped(lines.last());
        if points.len() >= 2 {
            before.push(points)
        } else {
            before
        }
    }
}

/// The holes that do not degenerate.
pub open spec fn hole_parts(holes: Seq<Seq<(i64, i64)>>) -> Seq<Seq<(i64, i64)>>
    decreases holes.len(),
{
    if holes.len() == 0 {
        Seq::empty()
    } else {
        let before = hole_parts(holes.drop_last());
        match quantized_ring(holes.last(), false) {
            Some(ring) => before.push(ring),
            None => before,
        }
    }
}

/// The rings of the polygons, each exterior followed by its holes. A polygon
/// whose exterior degenerates is left out.
pub open spec fn polygon_parts(polygons: Seq<PolygonModel>) -> Seq<Seq<(i64, i64)>>
    decreases polygons.len(),
{
    if polygons.len() == 0 {
        Seq::empty()
    } else {
        let before = polygon_parts(polygons.drop_last());
        match quantized_ring(polygons.last().exterior, true) {
            Some(ring) => before.push(ring) + hole_parts(polygons.last().interiors),
            None => before,
        }
    }
}

/// The area of each ring that counts can be formed in 64 bits.
pub open spec fn polygon_fits(polygon: PolygonModel) -> bool {
    &&& ring_fits(polygon.exterior)
    &&& quantized_ring(polygon.exterior, true) is Some ==> forall|i: int|
        0 <= i < polygon.interiors.len() ==> ring_fits(#[trigger] polygon.interiors[i])
}

/// The area of each ring that counts can be formed in 64 bits.
pub open spec fn polygons_fit(polygons: Seq<PolygonModel>) -> bool {
    forall|i: int| 0 <= i < polygons.len() ==> polygon_fits(#[trigger] polygons[i])
}

/// The areas of the rings can be formed in 64 bits.
pub open spec fn clipped_fits(clipped: ClippedModel) -> bool {
    match clipped {
        ClippedModel::Polygons(polygons) => polygons_fit(polygons),
        _ => true,
    }
}

/// The kind and the parts of a clipped geometry; `None` where nothing is left
/// of it.
pub open spec fn quantized(clipped: ClippedModel) -> Option<(GeomKind, Seq<Seq<(i64, i64)>>)> {
    match clipped {
        ClippedModel::Points(points) => if points.len() == 0 {
            None
        } else {
            Some((GeomKind::Point, seq![points]))
        },
        ClippedModel::Lines(lines) => {
            let parts = separated(line_parts(lines), false);
            if parts.len() == 0 {
                None
            } else {
                Some((GeomKind::Linestring, parts))
            }
        },
        ClippedModel::Polygons(polygons) => {
            let parts = separated(polygon_parts(polygons), true);
            if parts.len() == 0 {
                None
            } else {
                Some((GeomKind::Polygon, parts))
            }
        },
    }
}

/// `geom` is what is left of a clipped geometry.
pub open spec fn is_quantized(clipped: ClippedModel, geom: Option<QuantizedGeom>) -> bool {
    match geom {
        Some(g) => quantized(clipped) == Some((g.kind, part_views(g.parts@))),
        None => quantized(clipped) is None,
    }
}

/// Normalises lines: reduces runs, drops what has not two points, and keeps
/// parts from touching end to start.
pub fn quantize_lines(lines: &Vec<Vec<(i64, i64)>>) -> (geom: Option<QuantizedGeom>)
    ensures
        is_quantized(ClippedModel::Lines(part_views(lines@)), geom),
{
    let ghost m = part_views(lines@);
    let mut parts: Vec<Vec<(i64, i64)>> = Vec::new();
    assert(part_views(parts@) =~= line_parts(m.take(0)));
    for i in 0..lines.len()
        invariant
            m == part_views(lines@),
            part_views(parts@) == line_parts(m.take(i as int)),
            parts_wf(part_views(parts@)),
    {
        let ghost before = part_views(parts@);
        assert(m.take(i + 1).drop_last() =~= m.take(i as int));
        assert(m[i as int] == lines@[i as int]@);
        let points: Vec<(i64, i64)> = dedupe(lines[i].as_slice());
        if points.len() >= 2 {
            let ghost p = points@;
            parts.push(points);
            assert(part_views(parts@) =~= before.push(p));
        }
    }
    assert(m.take(m.len() as int) =~= m);
    avoid_shared_endpoints(&mut parts, false);
    if parts.len() == 0 {
        None
    } else {
        Some(QuantizedGeom { kind: GeomKind::Linestring, parts })
    }
}

/// Appends the holes that do not degenerate; `false` where an area cannot be
/// formed in 64 bits.
fn push_holes(parts: &mut Vec<Vec<(i64, i64)>>, holes: &Vec<Vec<(i64, i64)>>) -> (fits: bool)
    requires
        parts_wf(part_views(old(parts)@)),
    ensures
        fits <==> forall|i: int|
            0 <= i < part_views(holes@).len() ==> ring_fits(#[trigger] part_views(holes@)[i]),
        fits ==> part_views(final(parts)@) == part_views(old(parts)@) + hole_parts(
            part_views(holes@),
        ),
        fits ==> parts_wf(part_views(final(parts)@)),
{
    let ghost m = part_views(holes@);
    let ghost start = part_views(parts@);
    assert(start =~= start + hole_parts(m.take(0)));
    for i in 0..holes.len()
        invariant
            m == part_views(holes@),
            part_views(parts@) == start + hole_parts(m.take(i as int)),
            parts_wf(part_views(parts@)),
            forall|k: int| 0 <= k < i ==> ring_fits(#[trigger] m[k]),
    {
        let ghost before = part_views(parts@);
        assert(m.take(i + 1).drop_last() =~= m.take(i as int));
        assert(m[i as int] == holes@[i as int]@);
        match check_ring(holes[i].as_slice(), false) {
            Some(Some(ring)) => {
                let ghost r = ring@;
                proof {
                    rings_are_wound_by_role(m[i as int], false);
                }
                parts.push(ring);
                assert(part_views(parts@) =~= before.push(r));
                assert(before.push(r) =~= start + hole_parts(m.take(i + 1)));
            },
            Some(None) => {},
            None => {
                assert(!ring_fits(m[i as int]));
                return false;
            },
        }
    }
    assert(m.take(m.len() as int) =~= m);
    true
}

/// Normalises polygons: opens and winds the rings, drops what degenerates,
/// and keeps parts from touching end to start. An error where an area cannot
/// be formed in 64 bits.
pub fn quantize_polygons(polygons: &Vec<RawPolygon>) -> (geom: Result<
    Option<QuantizedGeom>,
    Error,
>)
    ensures
        ({
            let clipped = ClippedModel::Polygons(polygon_models(polygons@));
            match geom {
                Ok(g) => clipped_fits(clipped) && is_quantized(clipped, g),
                Err(e) => !clipped_fits(clipped) && e == Error::Encode(EncodeStep::RingArea),
            }
        }),
{
    let ghost m = polygon_models(polygons@);
    let mut parts: Vec<Vec<(i64, i64)>> = Vec::new();
    assert(part_views(parts@) =~= polygon_parts(m.take(0)));
    for i in 0..polygons.len()
        invariant
            m == polygon_models(polygons@),
            part_views(parts@) == polygon_parts(m.take(i as int)),
            parts_wf(part_views(parts@)),
            forall|k: int| 0 <= k < i ==> polygon_fits(#[trigger] m[k]),
    {
        let ghost before = part_views(parts@);
        assert(m.take(i + 1).drop_last() =~= m.take(i as int));
        assert(m[i as int] == polygons@[i as int]@);
        match check_ring(polygons[i].exterior.as_slice(), true) {
            Some(Some(ring)) => {
                let ghost r = ring@;
                proof {
                    rings_are_wound_by_role(m[i as int].exterior, true);
                }
                parts.push(ring);
                assert(part_views(parts@) =~= before.push(r));
                let ghost holes = m[i as int].interiors;
                assert(holes == part_views(polygons@[i as int].interiors@));
                if !push_holes(&mut parts, &polygons[i].interiors) {
                    proof {
                        let k = choose|k: int|
                            0 <= k < holes.len() && !ring_fits(#[trigger] holes[k]);
                        assert(!ring_fits(m[i as int].interiors[k]));
                    }
                    assert(!polygon_fits(m[i as int]) && !polygons_fit(m));
                    return Err(Error::Encode(EncodeStep::RingArea));
                }
            },
            // The exterior collapsed: the whole polygon degenerates.
            Some(None) => {},
            None => {
                assert(!polygon_fits(m[i as int]) && !polygons_fit(m));
                return Err(Error::Encode(EncodeStep::RingArea));
            },
        }
    }
    assert(m.take(m.len() as int) =~= m);
    avoid_shared_endpoints(&mut parts, true);
    if parts.len() == 0 {
        Ok(None)
    } else {
        Ok(Some(QuantizedGeom { kind: GeomKind::Polygon, parts }))
    }
}

/// Normalises a clipped geometry. An error where an area cannot be formed in
/// 64 bits.
pub fn quantize(clipped: Clipped) -> (geom: Result<Option<QuantizedGeom>, Error>)
    ensures
        match geom {
            Ok(g) => clipped_fits(clipped@) && is_quantized(clipped@, g),
            Err(e) => !clipped_fits(clipped@) && e == Error::Encode(EncodeStep::RingArea),
        },
{
    match clipped {
        Clipped::Points(points) => {
            if points.len() == 0 {
                Ok(None)
            } else {
                let ghost p = points@;
                let mut parts: Vec<Vec<(i64, i64)>> = Vec::new();
                parts.push(points);
                assert(part_views(parts@) =~= seq![p]);
                Ok(Some(QuantizedGeom { kind: GeomKind::Point, parts }))
            }
        },
        Clipped::Lines(lines) => Ok(quantize_lines(&lines)),
        Clipped::Polygons(polygons) => quantize_polygons(&polygons),
    }
}

proof fn lemma_line_parts_wf(lines: Seq<Seq<(i64, i64)>>)
    ensures
        parts_wf(line_parts(lines)),
        forall|i: int|
            0 <= i < line_parts(lines).len() ==> (#[trigger] line_parts(lines)[i]).len() >= 2,
    decreases lines.len(),
{
    if lines.len() > 0 {
        lemma_line_parts_wf(lines.drop_last());
    }
}

proof fn lemma_hole_parts(holes: Seq<Seq<(i64, i64)>>)
    ensures
        forall|i: int|
            0 <= i < hole_parts(holes).len() ==> {
                &&& (#[trigger] hole_parts(holes)[i]).len() >= 3
                &&& ring_area2(hole_parts(holes)[i]) != 0
            },
    decreases holes.len(),
{
    if holes.len() > 0 {
        let before = hole_parts(holes.drop_last());
        lemma_hole_parts(holes.drop_last());
        rings_are_wound_by_role(holes.last(), false);
        assert forall|i: int| 0 <= i < hole_parts(holes).len() implies {
            &&& (#[trigger] hole_parts(holes)[i]).len() >= 3
            &&& ring_area2(hole_parts(holes)[i]) != 0
        } by {
            if i < before.len() {
                assert(hole_parts(holes)[i] == before[i]);
            }
        }
    }
}

proof fn lemma_polygon_parts(polygons: Seq<PolygonModel>)
    ensures
        parts_wf(polygon_parts(polygons)),
        forall|i: int|
            0 <= i < polygon_parts(polygons).len() ==> {
                &&& (#[trigger] polygon_parts(polygons)[i]).len() >= 3
                &&& ring_area2(polygon_parts(polygons)[i]) != 0
            },
    decreases polygons.len(),
{
    if polygons.len() > 0 {
        lemma_polygon_parts(polygons.drop_last());
        rings_are_wound_by_role(polygons.last().exterior, true);
        lemma_hole_parts(polygons.last().interiors);
    }
}

/// Of every geometry that a tile keeps, there is a part, every part has a
/// point, and of lines and polygons no part begins where the one before it
/// ends.
pub proof fn quantized_parts_do_not_touch(clipped: ClippedModel)
    ensures
        quantized(clipped) matches Some((kind, parts)) ==> {
            &&& parts.len() > 0
            &&& parts_wf(parts)
            &&& kind == GeomKind::Point ==> parts.len() == 1
            &&& forall|i: int, j: int|
                0 <= i && j == i + 1 && j < parts.len() ==> (#[trigger] parts[j])[0] != (
                #[trigger] parts[i]).last()
        },
{
    match clipped {
        ClippedModel::Points(points) => {},
        ClippedModel::Lines(lines) => {
            lemma_line_parts_wf(lines);
            separated_parts_do_not_touch(line_parts(lines), false);
        },
        ClippedModel::Polygons(polygons) => {
            lemma_polygon_parts(polygons);
            separated_parts_do_not_touch(polygon_parts(polygons), true);
        },
    }
}

/// Every ring that a tile keeps of a polygon has an area.
pub proof fn quantized_rings_have_area(polygons: Seq<PolygonModel>, i: int)
    requires
        0 <= i < separated(polygon_parts(polygons), true).len(),
    ensures
        ring_area2(separated(polygon_parts(polygons), true)[i]) != 0,
{
    lemma_polygon_parts(polygons);
    separated_parts_come_from_parts(polygon_parts(polygons), true, i);
}

/// A point that follows an equal one changes nothing, wherever it stands. With
/// points without repeats kept as they are, this says what a list is reduced to.
pub proof fn repeated_points_do_not_count(
    a: Seq<(i64, i64)>,
    p: (i64, i64),
    b: Seq<(i64, i64)>,
)
    ensures
        deduped(a.push(p).push(p) + b) == deduped(a.push(p) + b),
    decreases b.len(),
{
    let long = a.push(p).push(p) + b;
    let short = a.push(p) + b;
    if b.len() == 0 {
        assert(long =~= a.push(p).push(p));
        assert(short =~= a.push(p));
        assert(long.drop_last() =~= a.push(p));
        dedupe_leaves_no_repeats(a.push(p));
    } else {
        repeated_points_do_not_count(a, p, b.drop_last());
        assert(long.drop_last() =~= a.push(p).push(p) + b.drop_last());
        assert(short.drop_last() =~= a.push(p) + b.drop_last());
    }
}

/// The area of a triangle is that of its two sides from its first point: twice
/// the area is the first side's width times the second's height less the other
/// way round.
pub proof fn triangles_have_their_area(a: (i64, i64), b: (i64, i64), c: (i64, i64))
    ensures
        ring_area2(seq![a, b, c]) == (b.0 - a.0) * (c.1 - a.1) - (c.0 - a.0) * (b.1 - a.1),
{
    let ring = seq![a, b, c];
    assert(ring.drop_last() =~= seq![a, b]);
    assert(seq![a, b].drop_last() =~= seq![a]);
    assert(chain_area2(seq![a]) == 0);
    assert(chain_area2(seq![a, b]) == cross(a, b));
    assert(chain_area2(ring) == cross(a, b) + cross(b, c));
    assert(a.0 * b.1 - b.0 * a.1 + (b.0 * c.1 - c.0 * b.1) + (c.0 * a.1 - a.0 * c.1) == (b.0 - a.0)
        * (c.1 - a.1) - (c.0 - a.0) * (b.1 - a.1)) by (nonlinear_arith);
}

/// One more point adds to a ring the area of the triangle that it makes with the
/// ring's last point and its first.
pub proof fn points_add_their_triangle(points: Seq<(i64, i64)>, p: (i64, i64))
    requires
        points.len() > 0,
    ensures
        ring_area2(points.push(p)) == ring_area2(points) + ring_area2(
            seq![points.last(), p, points[0]],
        ),
        points.len() == 1 ==> ring_area2(points) == 0,
{
    let more = points.push(p);
    assert(more.drop_last() =~= points);
    let (l, f) = (points.last(), points[0]);
    let ring = seq![l, p, f];
    assert(ring.drop_last() =~= seq![l, p]);
    assert(seq![l, p].drop_last() =~= seq![l]);
    assert(chain_area2(seq![l]) == 0);
    assert(chain_area2(seq![l, p]) == cross(l, p));
    assert(chain_area2(ring) == cross(l, p) + cross(p, f));
    assert(l.0 * f.1 - f.0 * l.1 == -(f.0 * l.1 - l.0 * f.1));
    assert(cross(l, f) == -cross(f, l));
    if points.len() == 1 {
        assert(l == f);
        assert(l.0 * l.1 - l.0 * l.1 == 0);
    }
}

proof fn lemma_small_cross(a: (i64, i64), b: (i64, i64), m: int)
    requires
        0 <= m <= 0x4000_0000,
        -m <= a.0 <= m,
        -m <= a.1 <= m,
        -m <= b.0 <= m,
        -m <= b.1 <= m,
    ensures
        cross_fits(a, b),
        -(m * m) - m * m <= cross(a, b) <= m * m + m * m,
{
    let (x, y, z, w) = (a.0 as int, b.1 as int, b.0 as int, a.1 as int);
    assert(-(m * m) <= x * y <= m * m) by (nonlinear_arith)
        requires
            -m <= x <= m,
            -m <= y <= m,
    ;
    assert(-(m * m) <= z * w <= m * m) by (nonlinear_arith)
        requires
            -m <= z <= m,
            -m <= w <= m,
    ;
    assert(m * m <= 0x1000_0000_0000_0000) by (nonlinear_arith)
        requires
            0 <= m <= 0x4000_0000,
    ;
}

proof fn lemma_small_chain(points: Seq<(i64, i64)>)
    requires
        forall|i: int|
            0 <= i < points.len() ==> -0x10_0000 <= (#[trigger] points[i]).0 <= 0x10_0000
                && -0x10_0000 <= points[i].1 <= 0x10_0000,
    ensures
        -0x200_0000_0000 * points.len() <= chain_area2(points) <= 0x200_0000_0000 * points.len(),
    decreases points.len(),
{
    if points.len() >= 2 {
        let rest = points.drop_last();
        assert forall|i: int| 0 <= i < rest.len() implies -0x10_0000 <= (#[trigger] rest[i]).0
            <= 0x10_0000 && -0x10_0000 <= rest[i].1 <= 0x10_0000 by {
            assert(rest[i] == points[i]);
        }
        lemma_small_chain(rest);
        lemma_small_cross(points[points.len() - 2], points[points.len() - 1], 0x10_0000);
    }
}

/// The area of a ring of up to 2 to the 20th points, whose coordinates are no
/// larger than that, can be formed: no ring that stays near its tile is refused.
pub proof fn rings_near_their_tile_have_an_area(points: Seq<(i64, i64)>)
    requires
        points.len() <= 0x10_0000,
        forall|i: int|
            0 <= i < points.len() ==> -0x10_0000 <= (#[trigger] points[i]).0 <= 0x10_0000
                && -0x10_0000 <= points[i].1 <= 0x10_0000,
    ensures
        area_fits(points),
{
    assert forall|i: int, j: int|
        0 <= i < points.len() && j == (if i + 1 < points.len() {
            i + 1
        } else {
            0
        }) implies cross_fits(#[trigger] points[i], #[trigger] points[j]) by {
        lemma_small_cross(points[i], points[j], 0x10_0000);
    }
    assert forall|k: int| 0 <= k <= points.len() implies i64::MIN <= chain_area2(
        #[trigger] points.take(k),
    ) <= i64::MAX by {
        let part = points.take(k);
        assert forall|i: int| 0 <= i < part.len() implies -0x10_0000 <= (#[trigger] part[i]).0
            <= 0x10_0000 && -0x10_0000 <= part[i].1 <= 0x10_0000 by {
            assert(part[i] == points[i]);
        }
        lemma_small_chain(part);
    }
    if points.len() > 0 {
        lemma_small_chain(points);
        lemma_small_cross(points[points.len() - 1], points[0], 0x10_0000);
    }
}

/// A ring is the same with its closing point and without, and its open form never
/// ends where it begins.
pub proof fn closing_points_do_not_count(points: Seq<(i64, i64)>, exterior: bool)
    requires
        points.len() > 0,
    ensures
        open_ring(points.push(points[0])) == open_ring(points),
        quantized_ring(points.push(points[0]), exterior) == quantized_ring(points, exterior),
        no_repeats(open_ring(points)),
        open_ring(points).len() >= 2 ==> open_ring(points)[0] != open_ring(points).last(),
{
    let closed = points.push(points[0]);
    assert(closed.drop_last() =~= points);
    dedupe_leaves_no_repeats(points);
    let d = deduped(points);
    if d.last() != points[0] {
        assert(deduped(closed) =~= d.push(points[0]));
        assert(d.push(points[0]).drop_last() =~= d);
    }
    if d.len() >= 2 && d[0] == d.last() {
        assert(d[d.len() - 2] != d[d.len() - 1]);
    }
}

/// Points without repeats whose last is not the first, three or more with an
/// area, are a ring as they are where they are wound by their role, and the other
/// way round where they are not. Fewer, or without an area, they are none.
pub proof fn rings_keep_their_points(points: Seq<(i64, i64)>)
    requires
        no_repeats(points),
        points.len() >= 2 ==> points[0] != points.last(),
    ensures
        points.len() < 3 || ring_area2(points) == 0 ==> quantized_ring(points, true) is None
            && quantized_ring(points, false) is None,
        points.len() >= 3 && ring_area2(points) > 0 ==> quantized_ring(points, true) == Some(points)
            && quantized_ring(points, false) == Some(points.reverse()),
        points.len() >= 3 && ring_area2(points) < 0 ==> quantized_ring(points, false) == Some(
            points,
        ) && quantized_ring(points, true) == Some(points.reverse()),
{
    dedupe_keeps_points_without_repeats(points);
}

/// As a hole a ring is walked the other way than as an exterior.
pub proof fn holes_are_exteriors_reversed(points: Seq<(i64, i64)>)
    ensures
        quantized_ring(points, true) is Some <==> quantized_ring(points, false) is Some,
        quantized_ring(points, true) matches Some(ring) ==> quantized_ring(points, false) == Some(
            ring.reverse(),
        ),
{
    let ring = open_ring(points);
    assert(ring.reverse().reverse() =~= ring);
}

/// The lines of two lists are those of the first and then those of the second. A
/// single line is one part, its runs reduced, or none where it has not two points
/// that differ.
pub proof fn lines_add_up(a: Seq<Seq<(i64, i64)>>, b: Seq<Seq<(i64, i64)>>)
    ensures
        line_parts(a + b) == line_parts(a) + line_parts(b),
        a.len() == 1 && deduped(a[0]).len() >= 2 ==> line_parts(a) == seq![deduped(a[0])],
        a.len() == 1 && deduped(a[0]).len() < 2 ==> line_parts(a) == Seq::<Seq<(i64, i64)>>::empty(),
    decreases b.len(),
{
    if b.len() == 0 {
        assert(a + b =~= a);
        assert(line_parts(a) + line_parts(b) =~= line_parts(a));
    } else {
        lines_add_up(a, b.drop_last());
        assert((a + b).drop_last() =~= a + b.drop_last());
        assert(line_parts(a + b) =~= line_parts(a) + line_parts(b));
    }
    if a.len() == 1 {
        assert(a.drop_last() =~= Seq::empty());
        assert(line_parts(a.drop_last()) =~= Seq::empty());
        assert(Seq::empty().push(deduped(a[0])) =~= seq![deduped(a[0])]);
    }
}

/// The holes of two lists are those of the first and then those of the second. A
/// single hole is one ring, or none where it degenerates.
pub proof fn holes_add_up(a: Seq<Seq<(i64, i64)>>, b: Seq<Seq<(i64, i64)>>)
    ensures
        hole_parts(a + b) == hole_parts(a) + hole_parts(b),
        a.len() == 1 ==> match quantized_ring(a[0], false) {
            Some(ring) => hole_parts(a) == seq![ring],
            None => hole_parts(a) == Seq::<Seq<(i64, i64)>>::empty(),
        },
    decreases b.len(),
{
    if b.len() == 0 {
        assert(a + b =~= a);
        assert(hole_parts(a) + hole_parts(b) =~= hole_parts(a));
    } else {
        holes_add_up(a, b.drop_last());
        assert((a + b).drop_last() =~= a + b.drop_last());
        assert(hole_parts(a + b) =~= hole_parts(a) + hole_parts(b));
    }
    if a.len() == 1 {
        assert(a.drop_last() =~= Seq::empty());
        assert(hole_parts(a.drop_last()) =~= Seq::empty());
        if let Some(ring) = quantized_ring(a[0], false) {
            assert(Seq::empty().push(ring) =~= seq![ring]);
        }
    }
}

/// The rings of two lists of polygons are those of the first and then those of
/// the second. A single polygon is its exterior and, behind it, its holes, or
/// nothing where its exterior degenerates.
pub proof fn polygons_add_up(a: Seq<PolygonModel>, b: Seq<PolygonModel>)
    ensures
        polygon_parts(a + b) == polygon_parts(a) + polygon_parts(b),
        a.len() == 1 ==> match quantized_ring(a[0].exterior, true) {
            Some(ring) => {
                &&& polygon_parts(a).len() == 1 + hole_parts(a[0].interiors).len()
                &&& polygon_parts(a)[0] == ring
                &&& polygon_parts(a).skip(1) == hole_parts(a[0].interiors)
            },
            None => polygon_parts(a).len() == 0,
        },
    decreases b.len(),
{
    if b.len() == 0 {
        assert(a + b =~= a);
        assert(polygon_parts(a) + polygon_parts(b) =~= polygon_parts(a));
    } else {
        polygons_add_up(a, b.drop_last());
        assert((a + b).drop_last() =~= a + b.drop_last());
        assert(polygon_parts(a + b) =~= polygon_parts(a) + polygon_parts(b));
    }
    if a.len() == 1 {
        assert(a.drop_last() =~= Seq::empty());
        assert(polygon_parts(a.drop_last()) =~= Seq::empty());
        if let Some(ring) = quantized_ring(a[0].exterior, true) {
            assert(polygon_parts(a).skip(1) =~= hole_parts(a[0].interiors));
        }
    }
}

/// The number of rings of the polygons that do not degenerate.
pub open spec fn ring_count(polygons: Seq<PolygonModel>) -> int
    decreases polygons.len(),
{
    if polygons.len() == 0 {
        0
    } else {
        let first = polygons[0];
        ring_count(polygons.skip(1)) + if quantized_ring(first.exterior, true) is Some {
            1 + first.interiors.filter(|hole| quantized_ring(hole, false) is Some).len()
        } else {
            0
        }
    }
}

proof fn lemma_hole_count(holes: Seq<Seq<(i64, i64)>>)
    ensures
        hole_parts(holes).len() == holes.filter(|hole| quantized_ring(hole, false) is Some).len(),
    decreases holes.len(),
{
    reveal(Seq::filter);
    if holes.len() > 0 {
        lemma_hole_count(holes.drop_last());
    }
}

/// No ring that has an area is lost: a polygon whose exterior has one gives that
/// ring and one for each of its holes that has one.
pub proof fn every_ring_with_an_area_stays(polygons: Seq<PolygonModel>)
    ensures
        polygon_parts(polygons).len() == ring_count(polygons),
    decreases polygons.len(),
{
    if polygons.len() > 0 {
        let (one, rest) = (polygons.take(1), polygons.skip(1));
        assert(one + rest =~= polygons);
        polygons_add_up(one, rest);
        every_ring_with_an_area_stays(rest);
        lemma_hole_count(polygons[0].interiors);
    }
}

/// Parts that do not touch stay as they are.
pub proof fn parts_apart_stay_as_they_are(parts: Seq<Seq<(i64, i64)>>, ring: bool)
    requires
        forall|i: int, j: int|
            0 <= i && j == i + 1 && j < parts.len() ==> (#[trigger] parts[j])[0] != (
            #[trigger] parts[i]).last(),
    ensures
        separated(parts, ring) == parts,
    decreases parts.len(),
{
    if parts.len() > 0 {
        let before = parts.drop_last();
        assert forall|i: int, j: int|
            0 <= i && j == i + 1 && j < before.len() implies (#[trigger] before[j])[0] != (
        #[trigger] before[i]).last() by {
            assert(before[i] == parts[i] && before[j] == parts[j]);
        }
        parts_apart_stay_as_they_are(before, ring);
        if before.len() > 0 {
            assert(before.last() == parts[parts.len() - 2]);
            assert(parts[parts.len() - 1][0] != parts[parts.len() - 2].last());
        }
        assert(before.push(parts.last()) =~= parts);
    }
}

/// A part that begins where it must not is turned: a line is walked the other way,
/// and a ring begins with its second point and ends with its first.
pub proof fn touching_parts_are_turned(part: Seq<(i64, i64)>)
    requires
        part.len() >= 2,
        part[0] != part[1],
    ensures
        turned(part, part[0], false) == part.reverse(),
        turned(part, part[0], true) == part.skip(1).push(part[0]),
{
    lemma_first_other(part, part[0], 1);
    assert(rotated(part, 1) =~= part.skip(1).push(part[0]));
}

/// A line that does not end where it begins is never dropped, nor is a ring whose
/// first two points differ: every part stays, in its place.
pub proof fn separating_loses_no_part(parts: Seq<Seq<(i64, i64)>>, ring: bool, i: int)
    requires
        forall|k: int|
            0 <= k < parts.len() ==> (#[trigger] parts[k]).len() >= 2 && if ring {
                parts[k][0] != parts[k][1]
            } else {
                parts[k][0] != parts[k].last()
            },
        0 <= i < parts.len(),
    ensures
        separated(parts, ring).len() == parts.len(),
        separated(parts, ring)[i] == parts[i] || separated(parts, ring)[i] == if ring {
            parts[i].skip(1).push(parts[i][0])
        } else {
            parts[i].reverse()
        },
    decreases parts.len(),
{
    let rest = parts.drop_last();
    let last = parts.len() - 1;
    let before = separated(rest, ring);
    assert forall|k: int| 0 <= k < rest.len() implies (#[trigger] rest[k]).len() >= 2 && if ring {
        rest[k][0] != rest[k][1]
    } else {
        rest[k][0] != rest[k].last()
    } by {
        assert(rest[k] == parts[k]);
    }
    if last > 0 {
        let at = if i < last {
            i
        } else {
            0
        };
        separating_loses_no_part(rest, ring, at);
        let part = parts[last];
        let end = before.last().last();
        if ring {
            if part[0] == end {
                touching_parts_are_turned(part);
                assert(part.skip(1).push(part[0])[0] == part[1]);
            }
        }
    }
}

/// Points are kept as they are, all in one part; of no points nothing is left.
pub proof fn points_stay(points: Seq<(i64, i64)>)
    ensures
        match quantized(ClippedModel::Points(points)) {
            None => points.len() == 0,
            Some((kind, parts)) => {
                &&& points.len() > 0
                &&& kind == GeomKind::Point
                &&& parts.len() == 1
                &&& parts[0] == points
            },
        },
        clipped_fits(ClippedModel::Points(points)),
{
}

/// Lines become lines. Nothing is left of them exactly where no line has two
/// points that differ. Those that have, runs reduced, are what is kept apart.
pub proof fn lines_stay_lines(lines: Seq<Seq<(i64, i64)>>, i: int, a: int, b: int)
    requires
        0 <= i < lines.len(),
        0 <= a < b < lines[i].len(),
        lines[i][a] != lines[i][b],
    ensures
        clipped_fits(ClippedModel::Lines(lines)),
        quantized(ClippedModel::Lines(lines)) matches Some((kind, parts)) && kind
            == GeomKind::Linestring && parts.len() <= lines.len(),
{
    lemma_deduped_has(lines[i], a, b);
    let (head, tail) = (lines.take(i), lines.skip(i + 1));
    let one = seq![lines[i]];
    assert(lines =~= head + one + tail);
    lines_add_up(head + one, tail);
    lines_add_up(head, one);
    lines_add_up(one, one);
    assert(line_parts(lines).len() > 0);
    lemma_line_count(lines);
    lemma_line_parts_wf(lines);
    separated_parts_do_not_touch(line_parts(lines), false);
}

proof fn lemma_line_count(lines: Seq<Seq<(i64, i64)>>)
    ensures
        line_parts(lines).len() <= lines.len(),
    decreases lines.len(),
{
    if lines.len() > 0 {
        lemma_line_count(lines.drop_last());
    }
}

proof fn lemma_deduped_has(points: Seq<(i64, i64)>, a: int, b: int)
    requires
        0 <= a < b < points.len(),
        points[a] != points[b],
    ensures
        deduped(points).len() >= 2,
    decreases points.len(),
{
    let rest = points.drop_last();
    if b < rest.len() {
        lemma_deduped_has(rest, a, b);
    } else {
        lemma_deduped_member(rest, a);
        let d = deduped(rest);
        if d.len() == 1 && d.last() == points.last() {
            let k = choose|k: int| 0 <= k < d.len() && d[k] == rest[a];
            assert(d[0] == rest[a]);
        }
    }
}

proof fn lemma_deduped_member(points: Seq<(i64, i64)>, a: int)
    requires
        0 <= a < points.len(),
    ensures
        deduped(points).contains(points[a]),
    decreases points.len(),
{
    let rest = points.drop_last();
    let d = deduped(points);
    if a < rest.len() {
        lemma_deduped_member(rest, a);
        let b = deduped(rest);
        let k = choose|k: int| 0 <= k < b.len() && b[k] == rest[a];
        assert(d[k] == points[a]);
    } else {
        dedupe_leaves_no_repeats(points);
        assert(d[d.len() - 1] == points[a]);
    }
}

/// Polygons become polygons. Nothing is left of them exactly where every exterior
/// degenerates; else there are as many parts as rings that have an area, in their
/// order, a ring as it is or begun with its second point.
pub proof fn polygons_stay_polygons(polygons: Seq<PolygonModel>)
    ensures
        match quantized(ClippedModel::Polygons(polygons)) {
            None => ring_count(polygons) == 0,
            Some((kind, parts)) => {
                &&& kind == GeomKind::Polygon
                &&& parts.len() == ring_count(polygons)
                &&& forall|i: int|
                    0 <= i < parts.len() ==> #[trigger] parts[i] == polygon_parts(polygons)[i]
                        || parts[i] == polygon_parts(polygons)[i].skip(1).push(
                        polygon_parts(polygons)[i][0],
                    )
            },
        },
{
    let rings = polygon_parts(polygons);
    every_ring_with_an_area_stays(polygons);
    lemma_polygon_rings_open(polygons);
    lemma_polygon_parts(polygons);
    assert forall|k: int| 0 <= k < rings.len() implies (#[trigger] rings[k]).len() >= 2
        && rings[k][0] != rings[k][1] by {
        assert(no_repeats(rings[k]));
    }
    assert forall|i: int| 0 <= i < rings.len() implies #[trigger] separated(rings, true)[i]
        == rings[i] || separated(rings, true)[i] == rings[i].skip(1).push(rings[i][0]) by {
        separating_loses_no_part(rings, true, i);
    }
    if rings.len() > 0 {
        separating_loses_no_part(rings, true, 0);
    }
}

proof fn lemma_ring_open(points: Seq<(i64, i64)>, exterior: bool)
    ensures
        quantized_ring(points, exterior) matches Some(ring) ==> no_repeats(ring),
{
    dedupe_leaves_no_repeats(points);
    let ring = open_ring(points);
    let back = ring.reverse();
    assert(no_repeats(ring)) by {
        let d = deduped(points);
        assert forall|i: int, j: int|
            0 <= i < ring.len() && j == i + 1 && j < ring.len() implies #[trigger] ring[i]
            != #[trigger] ring[j] by {
            assert(ring[i] == d[i] && ring[j] == d[j]);
        }
    }
    assert forall|i: int, j: int|
        0 <= i < back.len() && j == i + 1 && j < back.len() implies #[trigger] back[i]
        != #[trigger] back[j] by {
        assert(back[i] == ring[ring.len() - 1 - i]);
        assert(back[j] == ring[ring.len() - 1 - j]);
    }
}

proof fn lemma_polygon_rings_open(polygons: Seq<PolygonModel>)
    ensures
        forall|k: int|
            0 <= k < polygon_parts(polygons).len() ==> no_repeats(
                #[trigger] polygon_parts(polygons)[k],
            ),
    decreases polygons.len(),
{
    if polygons.len() > 0 {
        lemma_polygon_rings_open(polygons.drop_last());
        lemma_ring_open(polygons.last().exterior, true);
        let before = polygon_parts(polygons.drop_last());
        let holes = hole_parts(polygons.last().interiors);
        lemma_hole_rings_open(polygons.last().interiors);
        assert forall|k: int| 0 <= k < polygon_parts(polygons).len() implies no_repeats(
            #[trigger] polygon_parts(polygons)[k],
        ) by {
            if k < before.len() {
                assert(polygon_parts(polygons)[k] == before[k]);
            } else if k > before.len() {
                assert(polygon_parts(polygons)[k] == holes[k - before.len() - 1]);
            }
        }
    }
}

proof fn lemma_hole_rings_open(holes: Seq<Seq<(i64, i64)>>)
    ensures
        forall|k: int|
            0 <= k < hole_parts(holes).len() ==> no_repeats(#[trigger] hole_parts(holes)[k]),
    decreases holes.len(),
{
    if holes.len() > 0 {
        let before = hole_parts(holes.drop_last());
        lemma_hole_rings_open(holes.drop_last());
        lemma_ring_open(holes.last(), false);
        assert forall|k: int| 0 <= k < hole_parts(holes).len() implies no_repeats(
            #[trigger] hole_parts(holes)[k],
        ) by {
            if k < before.len() {
                assert(hole_parts(holes)[k] == before[k]);
            }
        }
    }
}

proof fn lemma_all_lines(lines: Seq<Seq<(i64, i64)>>)
    requires
        forall|i: int| 0 <= i < lines.len() ==> deduped(#[trigger] lines[i]).len() >= 2,
    ensures
        line_parts(lines).len() == lines.len(),
        forall|i: int| 0 <= i < lines.len() ==> #[trigger] line_parts(lines)[i] == deduped(lines[i]),
    decreases lines.len(),
{
    if lines.len() > 0 {
        let rest = lines.drop_last();
        assert forall|i: int| 0 <= i < rest.len() implies deduped(#[trigger] rest[i]).len() >= 2 by {
            assert(rest[i] == lines[i]);
        }
        lemma_all_lines(rest);
        assert(deduped(lines[lines.len() - 1]).len() >= 2);
        assert forall|i: int| 0 <= i < lines.len() implies #[trigger] line_parts(lines)[i]
            == deduped(lines[i]) by {
            if i < rest.len() {
                assert(line_parts(rest)[i] == deduped(rest[i]));
            }
        }
    }
}

/// Lines that do not end where they begin all stay, in their order, each walked
/// as it is or the other way.
pub proof fn lines_with_two_ends_stay(lines: Seq<Seq<(i64, i64)>>)
    requires
        lines.len() > 0,
        forall|i: int|
            0 <= i < lines.len() ==> (#[trigger] lines[i]).len() >= 2 && lines[i][0]
                != lines[i].last(),
    ensures
        quantized(ClippedModel::Lines(lines)) matches Some((kind, parts)) && {
            &&& kind == GeomKind::Linestring
            &&& parts.len() == lines.len()
            &&& parts[0] == deduped(lines[0])
            &&& forall|i: int|
                0 <= i < lines.len() ==> #[trigger] parts[i] == deduped(lines[i]) || parts[i]
                    == deduped(lines[i]).reverse()
        },
{
    assert forall|i: int| 0 <= i < lines.len() implies deduped(#[trigger] lines[i]).len() >= 2 by {
        lemma_deduped_has(lines[i], 0, lines[i].len() - 1);
    }
    lemma_all_lines(lines);
    let all = line_parts(lines);
    assert forall|k: int| 0 <= k < all.len() implies (#[trigger] all[k]).len() >= 2 && all[k][0]
        != all[k].last() by {
        assert(all[k] == deduped(lines[k]));
        dedupe_leaves_no_repeats(lines[k]);
    }
    let parts = separated(all, false);
    assert forall|i: int| 0 <= i < lines.len() implies #[trigger] parts[i] == deduped(lines[i])
        || parts[i] == deduped(lines[i]).reverse() by {
        separating_loses_no_part(all, false, i);
        assert(all[i] == deduped(lines[i]));
    }
    separating_loses_no_part(all, false, 0);
    lemma_first_part(all, false);
    assert(all[0] == deduped(lines[0]));
}

pub(crate) proof fn lemma_first_part(parts: Seq<Seq<(i64, i64)>>, ring: bool)
    requires
        parts.len() > 0,
    ensures
        separated(parts, ring).len() > 0,
        separated(parts, ring)[0] == parts[0],
    decreases parts.len(),
{
    if parts.len() > 1 {
        lemma_first_part(parts.drop_last(), ring);
    } else {
        assert(separated(parts.drop_last(), ring).len() == 0);
    }
}

/// Of lines that are each a single point, repeated or not, nothing is left.
pub proof fn pointlike_lines_leave_nothing(lines: Seq<Seq<(i64, i64)>>)
    requires
        forall|i: int| 0 <= i < lines.len() ==> deduped(#[trigger] lines[i]).len() < 2,
    ensures
        quantized(ClippedModel::Lines(lines)) is None,
    decreases lines.len(),
{
    if lines.len() > 0 {
        let rest = lines.drop_last();
        assert forall|i: int| 0 <= i < rest.len() implies deduped(#[trigger] rest[i]).len() < 2 by {
            assert(rest[i] == lines[i]);
        }
        pointlike_lines_leave_nothing(rest);
        lemma_line_parts_wf(rest);
        separated_parts_do_not_touch(line_parts(rest), false);
        assert(deduped(lines[lines.len() - 1]).len() < 2);
    }
}

/// Polygons are refused for no other reason than the area of a ring that counts:
/// an exterior, or a hole of an exterior that has an area.
pub proof fn polygons_are_refused_for_an_area(polygons: Seq<PolygonModel>)
    ensures
        clipped_fits(ClippedModel::Polygons(polygons)) || (exists|i: int|
            0 <= i < polygons.len() && !ring_fits((#[trigger] polygons[i]).exterior)) || (exists|
            i: int,
            j: int,
        |
            #![trigger polygons[i].interiors[j]]
            0 <= i < polygons.len() && 0 <= j < polygons[i].interiors.len() && quantized_ring(
                polygons[i].exterior,
                true,
            ) is Some && !ring_fits(polygons[i].interiors[j])),
        clipped_fits(ClippedModel::Polygons(polygons)) ==> forall|i: int|
            0 <= i < polygons.len() ==> ring_fits((#[trigger] polygons[i]).exterior),
        clipped_fits(ClippedModel::Polygons(polygons)) ==> forall|i: int, j: int|
            #![trigger polygons[i].interiors[j]]
            0 <= i < polygons.len() && 0 <= j < polygons[i].interiors.len() && quantized_ring(
                polygons[i].exterior,
                true,
            ) is Some ==> ring_fits(polygons[i].interiors[j]),
{
    if clipped_fits(ClippedModel::Polygons(polygons)) {
        assert forall|i: int| 0 <= i < polygons.len() implies ring_fits(
            (#[trigger] polygons[i]).exterior,
        ) by {
            assert(polygon_fits(polygons[i]));
        }
        assert forall|i: int, j: int|
            #![trigger polygons[i].interiors[j]]
            0 <= i < polygons.len() && 0 <= j < polygons[i].interiors.len() && quantized_ring(
                polygons[i].exterior,
                true,
            ) is Some implies ring_fits(polygons[i].interiors[j]) by {
            assert(polygon_fits(polygons[i]));
        }
    } else {
        let i = choose|i: int| 0 <= i < polygons.len() && !polygon_fits(#[trigger] polygons[i]);
        if ring_fits(polygons[i].exterior) {
            let j = choose|j: int|
                0 <= j < polygons[i].interiors.len() && !ring_fits(
                    #[trigger] polygons[i].interiors[j],
                );
            assert(!ring_fits(polygons[i].interiors[j]));
        } else {
            assert(!ring_fits(polygons[i].exterior));
        }
    }
}

proof fn lemma_small_open_ring(points: Seq<(i64, i64)>)
    requires
        forall|i: int|
            0 <= i < points.len() ==> -0x10_0000 <= (#[trigger] points[i]).0 <= 0x10_0000
                && -0x10_0000 <= points[i].1 <= 0x10_0000,
    ensures
        deduped(points).len() <= points.len(),
        forall|i: int|
            0 <= i < deduped(points).len() ==> -0x10_0000 <= (#[trigger] deduped(points)[i]).0
                <= 0x10_0000 && -0x10_0000 <= deduped(points)[i].1 <= 0x10_0000,
    decreases points.len(),
{
    if points.len() > 0 {
        let rest = points.drop_last();
        assert forall|i: int| 0 <= i < rest.len() implies -0x10_0000 <= (#[trigger] rest[i]).0
            <= 0x10_0000 && -0x10_0000 <= rest[i].1 <= 0x10_0000 by {
            assert(rest[i] == points[i]);
        }
        lemma_small_open_ring(rest);
        let last = points[points.len() - 1];
        assert forall|i: int| 0 <= i < deduped(points).len() implies -0x10_0000 <= (
        #[trigger] deduped(points)[i]).0 <= 0x10_0000 && -0x10_0000 <= deduped(points)[i].1
            <= 0x10_0000 by {
            if i < deduped(rest).len() {
                assert(deduped(points)[i] == deduped(rest)[i]);
            } else {
                assert(deduped(points)[i] == last);
            }
        }
    }
}

/// No ring that stays near its tile is refused, with repeated points or without,
/// closed or open.
pub proof fn rings_near_their_tile_fit(points: Seq<(i64, i64)>)
    requires
        points.len() <= 0x10_0000,
        forall|i: int|
            0 <= i < points.len() ==> -0x10_0000 <= (#[trigger] points[i]).0 <= 0x10_0000
                && -0x10_0000 <= points[i].1 <= 0x10_0000,
    ensures
        ring_fits(points),
{
    lemma_small_open_ring(points);
    let ring = open_ring(points);
    assert forall|i: int| 0 <= i < ring.len() implies -0x10_0000 <= (#[trigger] ring[i]).0
        <= 0x10_0000 && -0x10_0000 <= ring[i].1 <= 0x10_0000 by {
        assert(ring[i] == deduped(points)[i]);
    }
    rings_near_their_tile_have_an_area(ring);
}

/// A part that does not begin where the one kept before it ends is kept as it is.
/// One that does is turned, and is dropped only where it still begins there; what
/// was kept before stays.
pub proof fn parts_are_turned_only_where_they_touch(
    parts: Seq<Seq<(i64, i64)>>,
    part: Seq<(i64, i64)>,
    ring: bool,
)
    requires
        parts_wf(parts),
        parts.len() > 0,
        part.len() > 0,
    ensures
        ({
            let before = separated(parts, ring);
            let after = separated(parts.push(part), ring);
            let end = before.last().last();
            let other = if ring {
                exists|i: int| 0 <= i < part.len() && #[trigger] part[i] != end
            } else {
                part.last() != end
            };
            &&& before.len() > 0
            &&& part[0] != end ==> after == before.push(part)
            &&& part[0] == end && other ==> {
                &&& after.len() == before.len() + 1
                &&& after.drop_last() == before
                &&& after.last()[0] != end
            }
            &&& part[0] == end && !other ==> after == before
        }),
{
    separated_parts_do_not_touch(parts, ring);
    let before = separated(parts, ring);
    let end = before.last().last();
    let all = parts.push(part);
    assert(all.drop_last() =~= parts);
    let after = separated(all, ring);
    lemma_turned_len(part, end, ring);
    if part[0] == end {
        assert(before.push(turned(part, end, ring)).drop_last() =~= before);
        if ring {
            lemma_first_other_bounds(part, end);
            lemma_first_other_is_first(part, end);
            let k = first_other(part, end);
            if k < part.len() {
                assert(rotated(part, k)[0] == part[k]);
            } else {
                assert(rotated(part, k) =~= part);
            }
        }
    }
}

proof fn lemma_first_other_is_first(part: Seq<(i64, i64)>, point: (i64, i64))
    ensures
        0 <= first_other(part, point) <= part.len(),
        first_other(part, point) < part.len() ==> part[first_other(part, point)] != point,
        forall|i: int| 0 <= i < first_other(part, point) ==> #[trigger] part[i] == point,
    decreases part.len(),
{
    if part.len() > 0 && part[0] == point {
        let rest = part.subrange(1, part.len() as int);
        lemma_first_other_is_first(rest, point);
        let k = first_other(rest, point);
        if k < rest.len() {
            assert(part[k + 1] == rest[k]);
        }
        assert forall|i: int| 0 <= i < k + 1 implies #[trigger] part[i] == point by {
            if i > 0 {
                assert(part[i] == rest[i - 1]);
            }
        }
    }
}

/// A clipped geometry is seen as it is: each point of each line, and of each ring of
/// each polygon, in its place.
pub proof fn clipped_geometries_are_seen_as_they_are(
    lines: Vec<Vec<(i64, i64)>>,
    polygons: Vec<RawPolygon>,
    i: int,
    j: int,
)
    ensures
        Clipped::Lines(lines)@ matches ClippedModel::Lines(m) && m.len() == lines@.len() && (0 <= i
            < lines@.len() ==> m[i] == lines@[i]@),
        Clipped::Polygons(polygons)@ matches ClippedModel::Polygons(m) && m.len()
            == polygons@.len() && (0 <= i < polygons@.len() ==> m[i].exterior
            == polygons@[i].exterior@ && m[i].interiors.len() == polygons@[i].interiors@.len() && (0
            <= j < polygons@[i].interiors@.len() ==> m[i].interiors[j]
            == polygons@[i].interiors@[j]@)),
{
}

} // verus!
