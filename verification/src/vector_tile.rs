//! Mapbox Vector Tile (MVT) generation.
//!
//! Per tile: features clipped to the buffered tile are normalised to integer
//! tile coordinates, encoded with the `mvt` crate, dropped by footprint where
//! the tile is over its budget, and optionally gzipped.

use mvt::{GeomData, Layer, Tile};
use surtgis_core::vector::AttributeValue;
use vstd::prelude::*;

use crate::compress::{gzip, gzip_compressed};
use crate::encoder::{
    add_layer, add_point, attribute, complete_geom, create_layer, data_kind, data_words, encode,
    encoder_kind, encoder_parts, feature_layer, feature_model, geometry_words, has_no_words,
    into_feature, into_layer, layer_model, new_encoder, new_tile, point_total, set_id,
    spans_all, tag_bool, tag_double, tag_int, tag_string, tile_bytes, tile_extent, tile_layers,
    to_bytes, value_of, word_count, FeatureModel, LayerModel, PartEncoder, Value, ValueModel,
};
use crate::error::{EncodeStep, Error};
use crate::geometry::{
    clipped_fits, part_views, parts_wf, quantize, quantized, quantized_parts_do_not_touch, Clipped,
    GeomKind, QuantizedGeom,
};
use crate::mercator::TileCoord;
use crate::ranking::{
    drop_plan, dropped_items_rank_below_kept_ones, is_drop_plan, is_ranking, keep_all, keep_from,
    kept_cost, kept_items_fit_the_budget, kept_mask, masks_drop_the_lowest,
    no_item_goes_without_need, nothing_goes_when_all_fits, rank, ranking_lists_every_item,
};
use crate::text::same_text;
use crate::vector::{distinct_layers, property_models, VectorFeature, VectorLayer, VectorSource};

verus! {

/// The point in 32 bits.
pub open spec fn narrow(p: (i64, i64)) -> (i32, i32) {
    (p.0 as i32, p.1 as i32)
}

/// The points in 32 bits.
pub open spec fn narrow_part(part: Seq<(i64, i64)>) -> Seq<(i32, i32)> {
    part.map_values(|p: (i64, i64)| narrow(p))
}

/// The parts in 32 bits.
pub open spec fn narrow_parts(parts: Seq<Seq<(i64, i64)>>) -> Seq<Seq<(i32, i32)>> {
    parts.map_values(|part: Seq<(i64, i64)>| narrow_part(part))
}

/// The point has 32-bit coordinates.
pub open spec fn is_narrow(p: (i64, i64)) -> bool {
    i32::MIN <= p.0 <= i32::MAX && i32::MIN <= p.1 <= i32::MAX
}

/// The part has 32-bit coordinates, and no segment of it goes from their first
/// column or row to the last of both.
pub open spec fn part_encodable(kind: GeomKind, part: Seq<(i64, i64)>) -> bool {
    &&& forall|i: int| 0 <= i < part.len() ==> is_narrow(#[trigger] part[i])
    &&& kind != GeomKind::Point ==> forall|i: int|
        0 <= i < part.len() ==> !spans_all(
            narrow_part(part.take(i)),
            narrow(#[trigger] part[i]),
        )
}

/// A tile can hold the geometry: its coordinates and its count of points have
/// 32 bits.
pub open spec fn encodable(kind: GeomKind, parts: Seq<Seq<(i64, i64)>>) -> bool {
    &&& forall|i: int| 0 <= i < parts.len() ==> part_encodable(kind, #[trigger] parts[i])
    &&& point_total(narrow_parts(parts)) <= u32::MAX
}

proof fn lemma_point_total_take(parts: Seq<Seq<(i32, i32)>>, k: int)
    requires
        0 <= k < parts.len(),
    ensures
        point_total(parts.take(k + 1)) == point_total(parts.take(k)) + parts[k].len(),
        point_total(parts.take(k + 1)) <= point_total(parts),
    decreases parts.len(),
{
    assert(parts.take(k + 1).drop_last() =~= parts.take(k));
    if k + 1 < parts.len() {
        lemma_point_total_take(parts.drop_last(), k);
        assert(parts.drop_last().take(k + 1) =~= parts.take(k + 1));
    } else {
        assert(parts.take(k + 1) =~= parts);
    }
}

/// Gives the points of one part to the encoder; `false` where a tile cannot
/// hold one.
fn encode_part(encoder: &mut PartEncoder, kind: GeomKind, part: &Vec<(i64, i64)>) -> (held: bool)
    requires
        kind == encoder_kind(*old(encoder)),
        encoder_parts(*old(encoder)).len() > 0,
        encoder_parts(*old(encoder)).last().len() == 0,
        point_total(encoder_parts(*old(encoder))) + part@.len() <= u32::MAX,
    ensures
        encoder_kind(*final(encoder)) == encoder_kind(*old(encoder)),
        held <==> part_encodable(encoder_kind(*old(encoder)), part@),
        held ==> encoder_parts(*final(encoder)) == encoder_parts(*old(encoder)).drop_last().push(
            narrow_part(part@),
        ),
        held ==> encoder_parts(*final(encoder)).last().len() == part@.len() && forall|i: int|
            0 <= i < part@.len() ==> (#[trigger] encoder_parts(*final(encoder)).last()[i]).0 as int
                == part@[i].0 as int && encoder_parts(*final(encoder)).last()[i].1 as int
                == part@[i].1 as int,
{
    let ghost before = encoder_parts(*encoder).drop_last();
    let ghost total = point_total(encoder_parts(*encoder));
    assert(narrow_part(part@.take(0)) =~= encoder_parts(*encoder).last());
    assert(encoder_parts(*encoder) =~= before.push(narrow_part(part@.take(0))));
    let mut last: Option<(i32, i32)> = None;
    let points: bool = kind == GeomKind::Point;
    for i in 0..part.len()
        invariant
            kind == encoder_kind(*encoder),
            kind == encoder_kind(*old(encoder)),
            points == (kind == GeomKind::Point),
            encoder_parts(*encoder) == before.push(narrow_part(part@.take(i as int))),
            point_total(before) == total,
            total + part@.len() <= u32::MAX,
            forall|j: int| 0 <= j < i ==> is_narrow(#[trigger] part@[j]),
            kind != GeomKind::Point ==> forall|j: int|
                0 <= j < i ==> !spans_all(
                    narrow_part(part@.take(j)),
                    narrow(#[trigger] part@[j]),
                ),
            match last {
                Some(p) => i > 0 && p == narrow(part@[i - 1]),
                None => i == 0,
            },
    {
        let p: (i64, i64) = part[i];
        if p.0 < -2147483648 || p.0 > 2147483647 || p.1 < -2147483648 || p.1 > 2147483647 {
            assert(!is_narrow(part@[i as int]));
            return false;
        }
        let x: i32 = p.0 as i32;
        let y: i32 = p.1 as i32;
        let ghost so_far = narrow_part(part@.take(i as int));
        if !points {
            if let Some(q) = last {
                if (q.0 == i32::MAX) != (x == i32::MAX) && (q.1 == i32::MAX) != (y == i32::MAX) && (
                q.0 == i32::MIN || x == i32::MIN || q.1 == i32::MIN || y == i32::MIN) {
                    assert(spans_all(so_far, narrow(part@[i as int])));
                    return false;
                }
            }
        }
        proof {
            assert(encoder_parts(*encoder).drop_last() =~= before);
            assert(encoder_parts(*encoder).last() == so_far);
        }
        add_point(encoder, x, y);
        last = Some((x, y));
        proof {
            assert(narrow_part(part@.take(i + 1)) =~= so_far.push((x, y)));
        }
    }
    proof {
        assert(part@.take(part@.len() as int) =~= part@);
        assert(encoder_parts(*encoder).last() == narrow_part(part@));
        assert forall|i: int| 0 <= i < part@.len() implies (#[trigger] narrow_part(part@)[i]).0 as int
            == part@[i].0 as int && narrow_part(part@)[i].1 as int == part@[i].1 as int by {
            assert(is_narrow(part@[i]));
        }
    }
    true
}

/// `given` holds the points of `parts`, part by part and point by point, with the
/// same first and the same second coordinate.
pub open spec fn same_points(
    parts: Seq<Seq<(i64, i64)>>,
    given: Seq<Seq<(i32, i32)>>,
) -> bool {
    &&& given.len() == parts.len()
    &&& forall|i: int| 0 <= i < parts.len() ==> (#[trigger] given[i]).len() == parts[i].len()
    &&& forall|i: int, j: int|
        #![trigger given[i][j]]
        #![trigger parts[i][j]]
        0 <= i < parts.len() && 0 <= j < parts[i].len() ==> given[i][j].0 as int
            == parts[i][j].0 as int && given[i][j].1 as int == parts[i][j].1 as int
}

/// What a tile can hold is encoded with the coordinates that it has: in 32 bits
/// there are the same parts of the same points, and nothing else is so.
pub proof fn encoded_points_keep_their_coordinates(
    kind: GeomKind,
    parts: Seq<Seq<(i64, i64)>>,
    given: Seq<Seq<(i32, i32)>>,
)
    requires
        encodable(kind, parts),
    ensures
        same_points(parts, narrow_parts(parts)),
        same_points(parts, given) ==> given == narrow_parts(parts),
{
    let n = narrow_parts(parts);
    assert forall|i: int, j: int|
        #![trigger n[i][j]]
        #![trigger parts[i][j]]
        0 <= i < parts.len() && 0 <= j < parts[i].len() implies n[i][j].0 as int
        == parts[i][j].0 as int && n[i][j].1 as int == parts[i][j].1 as int by {
        assert(part_encodable(kind, parts[i]));
        assert(is_narrow(parts[i][j]));
    }
    if same_points(parts, given) {
        assert forall|i: int| 0 <= i < parts.len() implies #[trigger] given[i] == n[i] by {
            assert forall|j: int| 0 <= j < parts[i].len() implies #[trigger] given[i][j]
                == n[i][j] by {
                assert(given[i][j].0 as int == parts[i][j].0 as int);
                assert(n[i][j].0 as int == parts[i][j].0 as int);
            }
            assert(given[i] =~= n[i]);
        }
        assert(given =~= n);
    }
}

/// A tile can hold every geometry of up to `u32::MAX` points whose coordinates
/// lie strictly within 32 bits, and none that has a coordinate beyond them or
/// more points.
pub proof fn tiles_hold_what_has_32_bits(kind: GeomKind, parts: Seq<Seq<(i64, i64)>>, given: Seq<Seq<(i32, i32)>>)
    ensures
        same_points(parts, given) && point_total(given) <= u32::MAX && (forall|i: int, j: int|
            #![trigger parts[i][j]]
            0 <= i < parts.len() && 0 <= j < parts[i].len() ==> i32::MIN < parts[i][j].0 < i32::MAX
                && i32::MIN < parts[i][j].1 < i32::MAX) ==> encodable(kind, parts),
        (exists|i: int, j: int|
            #![trigger parts[i][j]]
            0 <= i < parts.len() && 0 <= j < parts[i].len() && (parts[i][j].0 < i32::MIN
                || parts[i][j].0 > i32::MAX || parts[i][j].1 < i32::MIN || parts[i][j].1
                > i32::MAX)) ==> !encodable(kind, parts),
        same_points(parts, given) && point_total(given) > u32::MAX ==> !encodable(kind, parts),
{
    let n = narrow_parts(parts);
    if same_points(parts, given) {
        lemma_equal_totals(given, n);
        if point_total(given) <= u32::MAX && (forall|i: int, j: int|
            #![trigger parts[i][j]]
            0 <= i < parts.len() && 0 <= j < parts[i].len() ==> i32::MIN < parts[i][j].0 < i32::MAX
                && i32::MIN < parts[i][j].1 < i32::MAX) {
            assert forall|i: int| 0 <= i < parts.len() implies part_encodable(
                kind,
                #[trigger] parts[i],
            ) by {
                let part = parts[i];
                assert forall|j: int| 0 <= j < part.len() implies is_narrow(#[trigger] part[j]) by {
                    assert(parts[i][j] == part[j]);
                }
                assert forall|j: int| 0 <= j < part.len() implies !spans_all(
                    narrow_part(part.take(j)),
                    narrow(#[trigger] part[j]),
                ) by {
                    assert(parts[i][j] == part[j]);
                    if j > 0 {
                        assert(parts[i][j - 1] == part[j - 1]);
                        assert(narrow_part(part.take(j)).last() == narrow(part[j - 1]));
                    }
                }
            }
        }
    }
    if exists|i: int, j: int|
        #![trigger parts[i][j]]
        0 <= i < parts.len() && 0 <= j < parts[i].len() && (parts[i][j].0 < i32::MIN
            || parts[i][j].0 > i32::MAX || parts[i][j].1 < i32::MIN || parts[i][j].1 > i32::MAX) {
        let (i, j) = choose|i: int, j: int|
            #![trigger parts[i][j]]
            0 <= i < parts.len() && 0 <= j < parts[i].len() && (parts[i][j].0 < i32::MIN
                || parts[i][j].0 > i32::MAX || parts[i][j].1 < i32::MIN || parts[i][j].1
                > i32::MAX);
        assert(!is_narrow(parts[i][j]));
        assert(!part_encodable(kind, parts[i]));
    }
}

proof fn lemma_equal_totals(a: Seq<Seq<(i32, i32)>>, b: Seq<Seq<(i32, i32)>>)
    requires
        a.len() == b.len(),
        forall|i: int| 0 <= i < a.len() ==> (#[trigger] a[i]).len() == b[i].len(),
    ensures
        point_total(a) == point_total(b),
    decreases a.len(),
{
    if a.len() > 0 {
        let (c, d) = (a.drop_last(), b.drop_last());
        assert forall|i: int| 0 <= i < c.len() implies (#[trigger] c[i]).len() == d[i].len() by {
            assert(c[i] == a[i] && d[i] == b[i]);
        }
        lemma_equal_totals(c, d);
        assert(a[a.len() - 1].len() == b[b.len() - 1].len());
    }
}

/// The number of points in all parts, or `None` where 32 bits do not hold it.
fn count_points(parts: &Vec<Vec<(i64, i64)>>) -> (n: Option<u32>)
    ensures
        n is Some <==> point_total(narrow_parts(part_views(parts@))) <= u32::MAX,
        n matches Some(v) ==> v == point_total(narrow_parts(part_views(parts@))),
{
    let ghost m = narrow_parts(part_views(parts@));
    let mut total: u32 = 0;
    assert(m.take(0) =~= Seq::empty());
    for i in 0..parts.len()
        invariant
            m == narrow_parts(part_views(parts@)),
            total == point_total(m.take(i as int)),
    {
        proof {
            lemma_point_total_take(m, i as int);
            assert(m[i as int].len() == parts@[i as int]@.len());
        }
        let len: usize = parts[i].len();
        if len > (u32::MAX - total) as usize {
            return None;
        }
        total = total + len as u32;
    }
    assert(m.take(m.len() as int) =~= m);
    Some(total)
}

/// Encodes a geometry: each part after the first begins anew.
pub fn encode_geometry(geom: &QuantizedGeom) -> (data: Result<GeomData, Error>)
    requires
        geom.parts@.len() > 0,
        parts_wf(part_views(geom.parts@)),
    ensures
        match data {
            Ok(d) => {
                &&& encodable(geom.kind, part_views(geom.parts@))
                &&& data_kind(d) == geom.kind
                &&& data_words(d) == geometry_words(
                    geom.kind,
                    narrow_parts(part_views(geom.parts@)),
                )
                &&& same_points(
                    part_views(geom.parts@),
                    narrow_parts(part_views(geom.parts@)),
                )
            },
            Err(e) => {
                &&& !encodable(geom.kind, part_views(geom.parts@))
                &&& e == Error::Encode(EncodeStep::Geometry)
            },
        },
{
    let ghost m = part_views(geom.parts@);
    let ghost n = narrow_parts(m);
    if count_points(&geom.parts).is_none() {
        return Err(Error::Encode(EncodeStep::Geometry));
    }
    let mut encoder: PartEncoder = new_encoder(geom.kind);
    for i in 0..geom.parts.len()
        invariant
            m == part_views(geom.parts@),
            n == narrow_parts(m),
            parts_wf(m),
            point_total(n) <= u32::MAX,
            encoder_kind(encoder) == geom.kind,
            i == 0 ==> encoder_parts(encoder) == seq![Seq::<(i32, i32)>::empty()],
            i > 0 ==> encoder_parts(encoder) == n.take(i as int),
            forall|j: int| 0 <= j < i ==> part_encodable(geom.kind, #[trigger] m[j]),
    {
        proof {
            assert(m[i as int] == geom.parts@[i as int]@);
            assert(n[i as int] == narrow_part(m[i as int]));
            lemma_point_total_take(n, i as int);
            if i > 0 {
                lemma_point_total_take(n, i - 1);
                assert(n[i - 1].len() == m[i - 1].len());
            }
        }
        if i > 0 {
            complete_geom(&mut encoder);
            assert(encoder_parts(encoder).drop_last() =~= n.take(i as int));
        } else {
            assert(n.take(0) =~= Seq::empty());
            assert(encoder_parts(encoder).drop_last() =~= n.take(0));
        }
        if !encode_part(&mut encoder, geom.kind, &geom.parts[i]) {
            assert(!part_encodable(geom.kind, m[i as int]));
            return Err(Error::Encode(EncodeStep::Geometry));
        }
        assert(encoder_parts(encoder) =~= n.take(i + 1));
    }
    proof {
        assert(n.take(n.len() as int) =~= n);
        lemma_point_total_take(n, 0);
        assert(n.take(0) =~= Seq::empty());
        assert(n[0].len() == m[0].len());
        assert(m[0].len() > 0);
        encoded_points_keep_their_coordinates(geom.kind, m, n);
    }
    match encode(encoder) {
        Some(data) => Ok(data),
        None => Err(Error::Encode(EncodeStep::Geometry)),
    }
}

/// One feature that a tile can hold.
pub struct EncodedFeature<'a> {
    /// The name of its layer.
    pub layer: &'a str,
    pub geom: QuantizedGeom,
    /// The number of words that its geometry is encoded to.
    pub words: usize,
    /// Its footprint in the tile, the smaller the denser.
    pub score: u64,
    pub id: Option<u64>,
    pub properties: &'a Vec<(String, AttributeValue)>,
}

impl<'a> EncodedFeature<'a> {
    /// The geometry can be encoded, to as many words as it says.
    pub open spec fn wf(&self) -> bool {
        &&& self.geom.parts@.len() > 0
        &&& parts_wf(part_views(self.geom.parts@))
        &&& encodable(self.geom.kind, part_views(self.geom.parts@))
        &&& self.words == self@.words.len()
    }
}

/// Every feature can be encoded.
pub open spec fn items_wf<'a>(items: Seq<EncodedFeature<'a>>) -> bool {
    forall|i: int| 0 <= i < items.len() ==> (#[trigger] items[i]).wf()
}

/// One feature encoded for a tile.
pub struct ItemModel {
    pub layer: Seq<char>,
    pub kind: GeomKind,
    pub words: Seq<u32>,
    pub score: u64,
    pub id: Option<u64>,
    pub properties: Seq<(Seq<char>, ValueModel)>,
}

impl<'a> View for EncodedFeature<'a> {
    type V = ItemModel;

    open spec fn view(&self) -> ItemModel {
        ItemModel {
            layer: self.layer@,
            kind: self.geom.kind,
            words: geometry_words(self.geom.kind, narrow_parts(part_views(self.geom.parts@))),
            score: self.score,
            id: self.id,
            properties: property_models(self.properties@),
        }
    }
}

/// The models of a list of encoded features.
pub open spec fn item_models<'a>(items: Seq<EncodedFeature<'a>>) -> Seq<ItemModel> {
    items.map_values(|item: EncodedFeature<'a>| item@)
}

/// The score of each item.
pub open spec fn item_scores(items: Seq<ItemModel>) -> Seq<u64> {
    items.map_values(|item: ItemModel| item.score)
}

/// An estimate of each item's bytes: four for each word.
pub open spec fn item_costs(items: Seq<ItemModel>) -> Seq<u128> {
    items.map_values(|item: ItemModel| (4 * item.words.len()) as u128)
}

/// The items that `keep` keeps.
pub open spec fn retained(items: Seq<ItemModel>, keep: Seq<bool>) -> Seq<ItemModel>
    decreases items.len(),
{
    if items.len() == 0 {
        Seq::empty()
    } else {
        let before = retained(items.drop_last(), keep.drop_last());
        if keep.last() {
            before.push(items.last())
        } else {
            before
        }
    }
}

/// `rest` are the items, in order, without the densest, dropped just until
/// the estimate of the rest fits the budget.
pub open spec fn is_thinned(items: Seq<ItemModel>, budget: int, rest: Seq<ItemModel>) -> bool {
    exists|keep: Seq<bool>|
        #[trigger] is_drop_plan(item_scores(items), item_costs(items), budget, keep) && rest
            == retained(items, keep)
}

/// The estimate of the bytes of a tile: four for each word of its items.
pub open spec fn estimate(items: Seq<ItemModel>) -> int
    decreases items.len(),
{
    if items.len() == 0 {
        0
    } else {
        estimate(items.drop_last()) + 4 * items.last().words.len()
    }
}

/// No item has more words than memory can hold.
pub open spec fn items_in_memory(items: Seq<ItemModel>) -> bool {
    forall|i: int| 0 <= i < items.len() ==> (#[trigger] items[i]).words.len() <= usize::MAX
}

proof fn lemma_estimate_of_retained(items: Seq<ItemModel>, keep: Seq<bool>)
    requires
        keep.len() == items.len(),
        items_in_memory(items),
    ensures
        estimate(retained(items, keep)) == kept_cost(item_costs(items), keep),
    decreases items.len(),
{
    if items.len() > 0 {
        let (m, k) = (items.drop_last(), keep.drop_last());
        assert forall|i: int| 0 <= i < m.len() implies (#[trigger] m[i]).words.len()
            <= usize::MAX by {
            assert(m[i] == items[i]);
        }
        lemma_estimate_of_retained(m, k);
        assert(item_costs(items).drop_last() =~= item_costs(m));
        assert(items[items.len() - 1].words.len() <= usize::MAX);
        let before = retained(m, k);
        if keep.last() {
            assert(before.push(items.last()).drop_last() =~= before);
        }
    }
}

proof fn lemma_retained_all(items: Seq<ItemModel>, keep: Seq<bool>)
    requires
        keep.len() == items.len(),
        forall|i: int| 0 <= i < keep.len() ==> #[trigger] keep[i],
    ensures
        retained(items, keep) == items,
    decreases items.len(),
{
    if items.len() > 0 {
        let k = keep.drop_last();
        assert forall|i: int| 0 <= i < k.len() implies #[trigger] k[i] by {
            assert(k[i] == keep[i]);
        }
        lemma_retained_all(items.drop_last(), k);
        assert(keep[keep.len() - 1]);
        assert(items.drop_last().push(items.last()) =~= items);
    }
}

/// The estimate of a thinned tile is within the budget, and a tile whose
/// estimate is within the budget keeps all its features.
pub proof fn thinned_tiles_fit_the_budget(
    items: Seq<ItemModel>,
    budget: int,
    rest: Seq<ItemModel>,
)
    requires
        is_thinned(items, budget, rest),
        items_in_memory(items),
        budget >= 0,
    ensures
        estimate(rest) <= budget,
        estimate(items) <= budget ==> rest == items,
{
    let (scores, costs) = (item_scores(items), item_costs(items));
    let keep = choose|keep: Seq<bool>|
        #[trigger] is_drop_plan(scores, costs, budget, keep) && rest == retained(items, keep);
    kept_items_fit_the_budget(scores, costs, budget, keep);
    lemma_estimate_of_retained(items, keep);
    if estimate(items) <= budget {
        let all = Seq::new(items.len(), |j: int| true);
        lemma_estimate_of_retained(items, all);
        lemma_retained_all(items, all);
        assert forall|i: int| 0 <= i < keep.len() implies #[trigger] keep[i] by {
            nothing_goes_when_all_fits(scores, costs, budget, keep, i);
        }
        lemma_retained_all(items, keep);
    }
}

/// Drops the densest (smallest-footprint) features until the estimated size
/// fits `budget` bytes. The others keep their order.
pub fn drop_densest<'a>(encoded: Vec<EncodedFeature<'a>>, budget: usize) -> (rest: Vec<
    EncodedFeature<'a>,
>)
    requires
        items_wf(encoded@),
    ensures
        is_thinned(item_models(encoded@), budget as int, item_models(rest@)),
        items_wf(rest@),
{
    let ghost all = encoded@;
    let ghost m = item_models(all);
    let mut scores: Vec<u64> = Vec::new();
    let mut costs: Vec<u128> = Vec::new();
    for i in 0..encoded.len()
        invariant
            all == encoded@,
            items_wf(all),
            m == item_models(all),
            scores@ == item_scores(m).take(i as int),
            costs@ == item_costs(m).take(i as int),
    {
        assert(m[i as int] == encoded@[i as int]@);
        assert(all[i as int].wf());
        scores.push(encoded[i].score);
        costs.push(4 * (encoded[i].words as u128));
        assert(scores@ =~= item_scores(m).take(i + 1));
        assert(costs@ =~= item_costs(m).take(i + 1));
    }
    assert(scores@ =~= item_scores(m));
    assert(costs@ =~= item_costs(m));
    let keep: Vec<bool> = drop_plan(&scores, &costs, budget);
    let ghost k = keep@;
    assert(k.len() == m.len());
    let mut rest: Vec<EncodedFeature<'a>> = Vec::new();
    assert(item_models(rest@) =~= retained(m.take(0), k.take(0)));
    let n: usize = encoded.len();
    let mut i: usize = 0;
    for item in it: encoded
        invariant
            n == all.len(),
            items_wf(all),
            items_wf(rest@),
            it.seq() == all,
            i == it.index(),
            k == keep@,
            k.len() == m.len(),
            m == item_models(all),
            item_models(rest@) == retained(m.take(i as int), k.take(i as int)),
            i <= all.len(),
    {
        let ghost before = item_models(rest@);
        proof {
            assert(item == all[i as int]);
            assert(m[i as int] == item@);
            assert(m.take(i + 1).drop_last() =~= m.take(i as int));
            assert(k.take(i + 1).drop_last() =~= k.take(i as int));
        }
        if keep[i] {
            let ghost one = item@;
            rest.push(item);
            assert(item_models(rest@) =~= before.push(one));
        }
        i = i + 1;
    }
    assert(m.take(m.len() as int) =~= m);
    assert(k.take(k.len() as int) =~= k);
    rest
}

/// The tags that a feature gets of its properties: all but those without a
/// value.
pub open spec fn tags_of(properties: Seq<(Seq<char>, ValueModel)>) -> Seq<
    (Seq<char>, ValueModel),
>
    decreases properties.len(),
{
    if properties.len() == 0 {
        Seq::empty()
    } else {
        let before = tags_of(properties.drop_last());
        if properties.last().1 == ValueModel::Null {
            before
        } else {
            before.push(properties.last())
        }
    }
}

/// The feature that an item becomes.
pub open spec fn item_feature(item: ItemModel) -> FeatureModel {
    FeatureModel {
        kind: item.kind,
        words: item.words,
        id: item.id,
        tags: tags_of(item.properties),
    }
}

/// The features of the items in layer `name`, in order.
pub open spec fn features_named(items: Seq<ItemModel>, name: Seq<char>) -> Seq<FeatureModel>
    decreases items.len(),
{
    if items.len() == 0 {
        Seq::empty()
    } else {
        let before = features_named(items.drop_last(), name);
        if items.last().layer == name {
            before.push(item_feature(items.last()))
        } else {
            before
        }
    }
}

/// The names of the items' layers, each once, in the order in which they first
/// occur.
pub open spec fn layer_order(items: Seq<ItemModel>) -> Seq<Seq<char>>
    decreases items.len(),
{
    if items.len() == 0 {
        Seq::empty()
    } else {
        let before = layer_order(items.drop_last());
        if before.contains(items.last().layer) {
            before
        } else {
            before.push(items.last().layer)
        }
    }
}

proof fn lemma_layer_order(items: Seq<ItemModel>)
    ensures
        layer_order(items).no_duplicates(),
        forall|i: int|
            0 <= i < items.len() ==> layer_order(items).contains((#[trigger] items[i]).layer),
        forall|name: Seq<char>| #[trigger]
            layer_order(items).contains(name) ==> exists|i: int|
                0 <= i < items.len() && (#[trigger] items[i]).layer == name,
    decreases items.len(),
{
    if items.len() > 0 {
        let rest = items.drop_last();
        let name = items.last().layer;
        lemma_layer_order(rest);
        let before = layer_order(rest);
        let after = layer_order(items);
        assert forall|n: Seq<char>| before.contains(n) implies after.contains(n) by {
            let q = choose|q: int| 0 <= q < before.len() && before[q] == n;
            assert(after[q] == n);
        }
        assert(after.contains(name)) by {
            if !before.contains(name) {
                assert(after[before.len() as int] == name);
            }
        }
        assert forall|i: int| 0 <= i < items.len() implies after.contains(
            (#[trigger] items[i]).layer,
        ) by {
            if i < rest.len() {
                assert(items[i] == rest[i]);
            }
        }
        assert forall|n: Seq<char>| #[trigger] after.contains(n) implies exists|i: int|
            0 <= i < items.len() && (#[trigger] items[i]).layer == n by {
            if n == name {
                assert(items[items.len() - 1].layer == n);
            } else {
                let q = choose|q: int| 0 <= q < after.len() && after[q] == n;
                assert(before[q] == n);
                assert(before.contains(n));
                let i = choose|i: int| 0 <= i < rest.len() && (#[trigger] rest[i]).layer == n;
                assert(items[i].layer == n);
            }
        }
    }
}

/// The layer `name` of a tile.
pub open spec fn layer_named(items: Seq<ItemModel>, extent: u32, name: Seq<char>) -> LayerModel {
    LayerModel { name, extent, features: features_named(items, name) }
}

/// The layers of a tile.
pub open spec fn layers_named(
    items: Seq<ItemModel>,
    extent: u32,
    names: Seq<Seq<char>>,
) -> Seq<LayerModel> {
    names.map_values(|name: Seq<char>| layer_named(items, extent, name))
}

/// The texts that a list of strings holds.
pub open spec fn text_views(texts: Seq<String>) -> Seq<Seq<char>> {
    texts.map_values(|text: String| text@)
}

/// The names of the layers of the items that stay, each once, in the order in
/// which they first occur.
fn layer_names<'a>(items: &Vec<EncodedFeature<'a>>, keep: &Vec<bool>) -> (names: Vec<String>)
    requires
        keep@.len() == items@.len(),
    ensures
        text_views(names@) == layer_order(retained(item_models(items@), keep@)),
{
    let ghost m = item_models(items@);
    let mut names: Vec<String> = Vec::new();
    assert(text_views(names@) =~= layer_order(retained(m.take(0), keep@.take(0))));
    for i in 0..items.len()
        invariant
            m == item_models(items@),
            keep@.len() == items@.len(),
            text_views(names@) == layer_order(retained(m.take(i as int), keep@.take(i as int))),
    {
        let ghost before = text_views(names@);
        proof {
            assert(m.take(i + 1).drop_last() =~= m.take(i as int));
            assert(keep@.take(i + 1).drop_last() =~= keep@.take(i as int));
            assert(m[i as int] == items@[i as int]@);
        }
        if keep[i] {
            let ghost kept = retained(m.take(i as int), keep@.take(i as int));
            assert(kept.push(m[i as int]).drop_last() =~= kept);
            let mut known: bool = false;
            for q in 0..names.len()
                invariant
                    i < items@.len(),
                    before == text_views(names@),
                    known <==> exists|p: int|
                        0 <= p < q && #[trigger] before[p] == items@[i as int].layer@,
            {
                assert(before[q as int] == names@[q as int]@);
                if same_text(names[q].as_str(), items[i].layer) {
                    known = true;
                }
            }
            assert(known <==> before.contains(m[i as int].layer));
            if !known {
                names.push(items[i].layer.to_owned());
                assert(text_views(names@) =~= before.push(m[i as int].layer));
            }
        }
    }
    proof {
        assert(m.take(m.len() as int) =~= m);
        assert(keep@.take(keep@.len() as int) =~= keep@);
    }
    names
}

/// Adds an item to a layer.
fn add_item<'a>(layer: Layer, item: &EncodedFeature<'a>) -> (out: Layer)
    requires
        item.wf(),
    ensures
        layer_model(out) == (LayerModel {
            features: layer_model(layer).features.push(item_feature(item@)),
            ..layer_model(layer)
        }),
{
    let ghost m = item@;
    let ghost start = layer_model(layer);
    let data: GeomData = match encode_geometry(&item.geom) {
        Ok(data) => data,
        Err(_) => {
            // No item is like this.
            return layer;
        },
    };
    let properties: &Vec<(String, AttributeValue)> = item.properties;
    let mut feature = into_feature(layer, data);
    if let Some(number) = item.id {
        set_id(&mut feature, number);
    }
    assert(feature_model(feature) == (FeatureModel {
        tags: tags_of(m.properties.take(0)),
        ..item_feature(m)
    }));
    for i in 0..properties.len()
        invariant
            m.properties == property_models(properties@),
            feature_layer(feature) == start,
            feature_model(feature) == (FeatureModel {
                tags: tags_of(m.properties.take(i as int)),
                ..item_feature(m)
            }),
    {
        proof {
            assert(m.properties.take(i + 1).drop_last() =~= m.properties.take(i as int));
            assert(m.properties[i as int] == (
                properties@[i as int].0@,
                attribute(properties@[i as int].1),
            ));
        }
        let key: &str = properties[i].0.as_str();
        match value_of(&properties[i].1) {
            Value::Bool(b) => tag_bool(&mut feature, key, b),
            Value::Int(n) => tag_int(&mut feature, key, n),
            Value::Float => tag_double(&mut feature, key, &properties[i].1),
            Value::Text(s) => tag_string(&mut feature, key, s),
            Value::Null => {},
        }
    }
    assert(m.properties.take(m.properties.len() as int) =~= m.properties);
    into_layer(feature)
}

/// Adds the items that stay and are in layer `name` to the layer.
fn fill_layer<'a>(
    layer: Layer,
    items: &Vec<EncodedFeature<'a>>,
    keep: &Vec<bool>,
    name: &str,
) -> (out: Layer)
    requires
        items_wf(items@),
        keep@.len() == items@.len(),
        layer_model(layer).features.len() == 0,
    ensures
        layer_model(out) == (LayerModel {
            features: features_named(retained(item_models(items@), keep@), name@),
            ..layer_model(layer)
        }),
{
    let ghost m = item_models(items@);
    let ghost start = layer_model(layer);
    let mut filled: Layer = layer;
    assert(start.features =~= features_named(retained(m.take(0), keep@.take(0)), name@));
    for i in 0..items.len()
        invariant
            m == item_models(items@),
            items_wf(items@),
            keep@.len() == items@.len(),
            layer_model(filled) == (LayerModel {
                features: features_named(
                    retained(m.take(i as int), keep@.take(i as int)),
                    name@,
                ),
                ..start
            }),
    {
        proof {
            let kept = retained(m.take(i as int), keep@.take(i as int));
            assert(m.take(i + 1).drop_last() =~= m.take(i as int));
            assert(keep@.take(i + 1).drop_last() =~= keep@.take(i as int));
            assert(m[i as int] == items@[i as int]@);
            assert(items@[i as int].wf());
            assert(kept.push(m[i as int]).drop_last() =~= kept);
        }
        if keep[i] && same_text(items[i].layer, name) {
            filled = add_item(filled, &items[i]);
        }
    }
    proof {
        assert(m.take(m.len() as int) =~= m);
        assert(keep@.take(keep@.len() as int) =~= keep@);
    }
    filled
}

/// The layers of a tile: one for each name, in the order in which the names
/// first occur.
pub open spec fn tile_layers_of(items: Seq<ItemModel>, extent: u32) -> Seq<LayerModel> {
    layers_named(items, extent, layer_order(items))
}

/// Groups the items that stay into one layer per name.
fn build_tile<'a>(items: &Vec<EncodedFeature<'a>>, keep: &Vec<bool>, extent: u32) -> (tile: Tile)
    requires
        items_wf(items@),
        keep@.len() == items@.len(),
    ensures
        tile_extent(tile) == extent,
        tile_layers(tile) == tile_layers_of(retained(item_models(items@), keep@), extent),
{
    let ghost m = retained(item_models(items@), keep@);
    let names: Vec<String> = layer_names(items, keep);
    let ghost n = text_views(names@);
    proof {
        lemma_layer_order(m);
    }
    let mut tile: Tile = new_tile(extent);
    assert(tile_layers(tile) =~= layers_named(m, extent, n).take(0));
    for k in 0..names.len()
        invariant
            items_wf(items@),
            keep@.len() == items@.len(),
            m == retained(item_models(items@), keep@),
            n == text_views(names@),
            n.no_duplicates(),
            tile_extent(tile) == extent,
            tile_layers(tile) == layers_named(m, extent, n).take(k as int),
    {
        assert(n[k as int] == names@[k as int]@);
        let layer: Layer = create_layer(&tile, names[k].as_str());
        let filled: Layer = fill_layer(layer, items, keep, names[k].as_str());
        proof {
            assert(layer_model(filled) == layers_named(m, extent, n)[k as int]);
            assert forall|i: int| 0 <= i < tile_layers(tile).len() implies (#[trigger] tile_layers(
                tile,
            )[i]).name != layer_model(filled).name by {
                assert(tile_layers(tile)[i].name == n[i]);
            }
        }
        let added: bool = add_layer(&mut tile, filled);
        assert(added);
        assert(tile_layers(tile) =~= layers_named(m, extent, n).take(k + 1));
    }
    assert(tile_layers(tile) =~= layers_named(m, extent, n));
    tile
}

/// The bytes of a tile with these items.
pub open spec fn tile_bytes_of(items: Seq<ItemModel>, extent: u32) -> Seq<u8> {
    tile_bytes(extent, tile_layers_of(items, extent))
}

/// The bytes of a tile with the items that stay; `None` where they cannot be
/// had, which never is so.
fn encode_tile<'a>(items: &Vec<EncodedFeature<'a>>, keep: &Vec<bool>, extent: u32) -> (raw: Option<
    Vec<u8>,
>)
    requires
        items_wf(items@),
        keep@.len() == items@.len(),
    ensures
        raw is Some,
        raw->Some_0@ == tile_bytes_of(retained(item_models(items@), keep@), extent),
{
    let tile: Tile = build_tile(items, keep, extent);
    to_bytes(&tile)
}

/// The items are no tile, or one of at most `budget` bytes.
pub open spec fn bytes_fit(items: Seq<ItemModel>, extent: u32, budget: int) -> bool {
    items.len() == 0 || tile_bytes_of(items, extent).len() <= budget
}

/// Dropping the first `cut` items of the ranking makes the tile of the rest fit,
/// and dropping one less does not, nor does dropping none.
pub open spec fn is_byte_cut(
    items: Seq<ItemModel>,
    order: Seq<usize>,
    extent: u32,
    budget: int,
    cut: int,
) -> bool {
    &&& 0 <= cut <= order.len()
    &&& bytes_fit(retained(items, kept_mask(order, cut)), extent, budget)
    &&& cut > 0 ==> !bytes_fit(retained(items, kept_mask(order, cut - 1)), extent, budget)
    &&& cut > 0 ==> !bytes_fit(retained(items, kept_mask(order, 0)), extent, budget)
}

/// Whether each item stays when items go in ascending rank just until the tile
/// of the rest fits.
pub open spec fn is_fit_plan(
    items: Seq<ItemModel>,
    extent: u32,
    budget: int,
    keep: Seq<bool>,
) -> bool {
    exists|order: Seq<usize>, cut: int|
        #![trigger is_byte_cut(items, order, extent, budget, cut)]
        is_ranking(item_scores(items), order) && is_byte_cut(items, order, extent, budget, cut)
            && keep == kept_mask(order, cut)
}

proof fn lemma_retained_none(items: Seq<ItemModel>, keep: Seq<bool>)
    requires
        keep.len() == items.len(),
        forall|i: int| 0 <= i < keep.len() ==> !#[trigger] keep[i],
    ensures
        retained(items, keep).len() == 0,
    decreases items.len(),
{
    if items.len() > 0 {
        let k = keep.drop_last();
        assert forall|i: int| 0 <= i < k.len() implies !#[trigger] k[i] by {
            assert(k[i] == keep[i]);
        }
        lemma_retained_none(items.drop_last(), k);
        assert(!keep[keep.len() - 1]);
    }
}

proof fn lemma_retained_some(items: Seq<ItemModel>, keep: Seq<bool>, i: int)
    requires
        keep.len() == items.len(),
        0 <= i < keep.len(),
        keep[i],
    ensures
        retained(items, keep).len() > 0,
    decreases items.len(),
{
    if i < items.len() - 1 {
        lemma_retained_some(items.drop_last(), keep.drop_last(), i);
    }
}

/// Whether an item stays.
fn any_kept<'a>(items: &Vec<EncodedFeature<'a>>, keep: &Vec<bool>) -> (any: bool)
    requires
        keep@.len() == items@.len(),
    ensures
        any == (retained(item_models(items@), keep@).len() > 0),
{
    let ghost m = item_models(items@);
    for i in 0..keep.len()
        invariant
            m == item_models(items@),
            keep@.len() == items@.len(),
            forall|j: int| 0 <= j < i ==> !#[trigger] keep@[j],
    {
        if keep[i] {
            proof {
                lemma_retained_some(m, keep@, i as int);
            }
            return true;
        }
    }
    proof {
        lemma_retained_none(m, keep@);
    }
    false
}

/// Whether the tile of the items fits when the first `cut` of the ranking go.
fn fits_from<'a>(
    items: &Vec<EncodedFeature<'a>>,
    order: &Vec<usize>,
    cut: usize,
    extent: u32,
    budget: usize,
) -> (fits: bool)
    requires
        items_wf(items@),
        is_ranking(item_scores(item_models(items@)), order@),
        cut <= order@.len(),
    ensures
        fits == bytes_fit(
            retained(item_models(items@), kept_mask(order@, cut as int)),
            extent,
            budget as int,
        ),
{
    let keep: Vec<bool> = keep_from(order, cut, Ghost(item_scores(item_models(items@))));
    if !any_kept(items, &keep) {
        return true;
    }
    match encode_tile(items, &keep, extent) {
        Some(raw) => raw.len() <= budget,
        None => false,
    }
}

/// Plans which items stay when items go in ascending rank just until the tile
/// of the rest fits `budget` bytes.
fn fit_plan<'a>(items: &Vec<EncodedFeature<'a>>, extent: u32, budget: usize) -> (keep: Vec<bool>)
    requires
        items_wf(items@),
    ensures
        is_fit_plan(item_models(items@), extent, budget as int, keep@),
        keep@.len() == items@.len(),
{
    let ghost m = item_models(items@);
    let mut scores: Vec<u64> = Vec::new();
    for i in 0..items.len()
        invariant
            m == item_models(items@),
            scores@ == item_scores(m).take(i as int),
    {
        assert(m[i as int] == items@[i as int]@);
        scores.push(items[i].score);
        assert(scores@ =~= item_scores(m).take(i + 1));
    }
    assert(scores@ =~= item_scores(m));
    let order: Vec<usize> = rank(&scores);
    let n: usize = order.len();
    let mut cut: usize = 0;
    if !fits_from(items, &order, 0, extent, budget) {
        // The tile is too large without the first `low`, and fits without the
        // first `cut`.
        let mut low: usize = 0;
        cut = n;
        proof {
            let none = kept_mask(order@, n as int);
            assert forall|i: int| 0 <= i < none.len() implies !#[trigger] none[i] by {
                ranking_lists_every_item(scores@, order@, i);
            }
            lemma_retained_none(m, none);
            if n == 0 {
                assert(kept_mask(order@, 0) =~= none);
            }
        }
        while cut - low > 1
            invariant
                m == item_models(items@),
                items_wf(items@),
                scores@ == item_scores(m),
                is_ranking(scores@, order@),
                low < cut <= order@.len(),
                !bytes_fit(retained(m, kept_mask(order@, 0)), extent, budget as int),
                !bytes_fit(
                    retained(m, kept_mask(order@, low as int)),
                    extent,
                    budget as int,
                ),
                bytes_fit(retained(m, kept_mask(order@, cut as int)), extent, budget as int),
            decreases cut - low,
        {
            let mid: usize = low + (cut - low) / 2;
            if fits_from(items, &order, mid, extent, budget) {
                cut = mid;
            } else {
                low = mid;
            }
        }
    }
    assert(is_byte_cut(m, order@, extent, budget as int, cut as int));
    keep_from(&order, cut, Ghost(scores@))
}

/// What is dropped for the bytes of a tile ranks before what stays: no feature
/// with a larger footprint goes while one with a smaller footprint stays.
pub proof fn the_densest_go_first(
    items: Seq<ItemModel>,
    extent: u32,
    budget: int,
    keep: Seq<bool>,
    gone: int,
    kept: int,
)
    requires
        is_fit_plan(items, extent, budget, keep),
        0 <= gone < items.len(),
        0 <= kept < items.len(),
        !keep[gone],
        keep[kept],
    ensures
        items[gone].score <= items[kept].score,
{
    let scores = item_scores(items);
    let (order, cut) = choose|order: Seq<usize>, cut: int|
        #![trigger is_byte_cut(items, order, extent, budget, cut)]
        is_ranking(scores, order) && is_byte_cut(items, order, extent, budget, cut) && keep
            == kept_mask(order, cut);
    masks_drop_the_lowest(scores, order, cut, gone, kept);
    assert(scores[gone] == items[gone].score && scores[kept] == items[kept].score);
}

/// `kept` are the items that a tile holds: all, or where there is a budget,
/// those that are left after the estimate and then the bytes of the tile are
/// within it.
pub open spec fn is_selection(
    items: Seq<ItemModel>,
    opts: MvtOptions,
    kept: Seq<ItemModel>,
) -> bool {
    if opts.drop_densest && opts.max_tile_bytes > 0 {
        exists|thin: Seq<ItemModel>, keep: Seq<bool>|
            {
                &&& #[trigger] is_thinned(items, opts.max_tile_bytes as int, thin)
                &&& #[trigger] is_fit_plan(
                    thin,
                    opts.extent,
                    opts.max_tile_bytes as int,
                    keep,
                )
                &&& kept == retained(thin, keep)
            }
    } else {
        kept == items
    }
}

/// Options for vector tiles.
pub struct MvtOptions {
    /// Lowest zoom (default 0).
    pub min_zoom: u8,
    /// Highest zoom (default 14).
    pub max_zoom: u8,
    /// Tile coordinate extent (default 4096).
    pub extent: u32,
    /// Clip buffer around the tile, in extent units (default 64).
    pub buffer: u32,
    /// Bit pattern of the simplification tolerance in extent units, a double
    /// (default 1; 0 disables).
    pub simplify: u64,
    /// Whether tiles are gzipped (default). Disable for trees that plain
    /// static file servers serve.
    pub compress: bool,
    /// Whether the densest features are dropped when a tile is over
    /// `max_tile_bytes`, the smallest footprints first.
    pub drop_densest: bool,
    /// Budget of a tile in bytes before features are dropped (default
    /// 512000). Only used when `drop_densest` is set.
    pub max_tile_bytes: usize,
    /// Tileset name for the metadata.
    pub name: String,
}

impl Default for MvtOptions {
    fn default() -> (opts: MvtOptions)
        ensures
            opts.min_zoom == 0,
            opts.max_zoom == 14,
            opts.extent == 4096,
            opts.buffer == 64,
            opts.simplify == 0x3ff0_0000_0000_0000u64,
            opts.compress,
            !opts.drop_densest,
            opts.max_tile_bytes == 512000,
            opts.name@ == "geotiles"@,
    {
        MvtOptions {
            min_zoom: 0,
            max_zoom: 14,
            extent: 4096,
            buffer: 64,
            simplify: 0x3ff0_0000_0000_0000,
            compress: true,
            drop_densest: false,
            max_tile_bytes: 512000,
            name: "geotiles".to_owned(),
        }
    }
}

/// The tile of these bytes, or why it cannot be had.
pub open spec fn finished(
    raw: Seq<u8>,
    compress: bool,
    tile: Result<Option<Vec<u8>>, Error>,
) -> bool {
    if !compress {
        tile matches Ok(Some(v)) && v@ == raw
    } else {
        match gzip_compressed(raw) {
            Some(packed) => tile matches Ok(Some(v)) && v@ == packed,
            None => tile == Err::<Option<Vec<u8>>, Error>(Error::Encode(EncodeStep::Gzip)),
        }
    }
}

/// `tile` is what becomes of a tile's items: nothing where none is there or
/// none is left, else one layer per name, in the order in which the names first
/// occur.
pub open spec fn is_packed(
    items: Seq<ItemModel>,
    opts: MvtOptions,
    tile: Result<Option<Vec<u8>>, Error>,
) -> bool {
    exists|kept: Seq<ItemModel>|
        #[trigger] is_selection(items, opts, kept) && if kept.len() == 0 {
            tile == Ok::<Option<Vec<u8>>, Error>(None)
        } else {
            finished(tile_bytes_of(kept, opts.extent), opts.compress, tile)
        }
}

/// A tile that is held to a budget and not gzipped has no more bytes.
pub open spec fn keeps_budget(opts: MvtOptions, tile: Result<Option<Vec<u8>>, Error>) -> bool {
    opts.drop_densest && opts.max_tile_bytes > 0 && !opts.compress ==> (tile matches Ok(Some(v))
        ==> v@.len() <= opts.max_tile_bytes)
}

/// Packs features into a tile; `None` where there is no feature, or none fits
/// the budget.
pub fn pack_tile<'a>(items: Vec<EncodedFeature<'a>>, opts: &MvtOptions) -> (tile: Result<
    Option<Vec<u8>>,
    Error,
>)
    requires
        items_wf(items@),
    ensures
        is_packed(item_models(items@), *opts, tile),
        keeps_budget(*opts, tile),
{
    let ghost m = item_models(items@);
    let limited: bool = opts.drop_densest && opts.max_tile_bytes > 0;
    let thin: Vec<EncodedFeature<'a>> = if limited {
        drop_densest(items, opts.max_tile_bytes)
    } else {
        items
    };
    let ghost t = item_models(thin@);
    let keep: Vec<bool> = if limited {
        fit_plan(&thin, opts.extent, opts.max_tile_bytes)
    } else {
        keep_all(thin.len())
    };
    let ghost kept = retained(t, keep@);
    proof {
        if !limited {
            lemma_retained_all(t, keep@);
        } else {
            assert(is_thinned(m, opts.max_tile_bytes as int, t));
            assert(is_fit_plan(t, opts.extent, opts.max_tile_bytes as int, keep@));
        }
        assert(is_selection(m, *opts, kept));
    }
    if !any_kept(&thin, &keep) {
        return Ok(None);
    }
    match encode_tile(&thin, &keep, opts.extent) {
        Some(raw) => {
            if !opts.compress {
                return Ok(Some(raw));
            }
            match gzip(raw.as_slice()) {
                Some(packed) => Ok(Some(packed)),
                None => Err(Error::Encode(EncodeStep::Gzip)),
            }
        },
        None => Err(Error::Encode(EncodeStep::Tile)),
    }
}

/// A feature's geometry clipped to a tile, with its footprint there; `None`
/// where it is not in the tile.
pub type InTile = Option<(Clipped, u64)>;

/// What becomes of a feature in a tile: an item, nothing where it degenerates
/// away, or an error.
pub open spec fn feature_item<G>(
    layer: Seq<char>,
    feature: VectorFeature<G>,
    seen: InTile,
) -> Result<Option<ItemModel>, Error> {
    match seen {
        None => Ok(None),
        Some((clipped, score)) => if !clipped_fits(clipped@) {
            Err(Error::Encode(EncodeStep::RingArea))
        } else {
            match quantized(clipped@) {
                None => Ok(None),
                Some((kind, parts)) => if !encodable(kind, parts) {
                    Err(Error::Encode(EncodeStep::Geometry))
                } else {
                    let words = geometry_words(kind, narrow_parts(parts));
                    if words.len() == 0 {
                        Ok(None)
                    } else {
                        Ok(
                            Some(
                                ItemModel {
                                    layer,
                                    kind,
                                    words,
                                    score,
                                    id: feature.id,
                                    properties: property_models(feature.properties@),
                                },
                            ),
                        )
                    }
                },
            }
        },
    }
}

/// The items of the first `n` features of a layer, or the first error.
pub open spec fn layer_items<G>(layer: VectorLayer<G>, seen: Seq<InTile>, n: int) -> Result<
    Seq<ItemModel>,
    Error,
>
    decreases n,
{
    if n <= 0 {
        Ok(Seq::empty())
    } else {
        match layer_items(layer, seen, n - 1) {
            Err(e) => Err(e),
            Ok(before) => match feature_item(layer.name@, layer.features@[n - 1], seen[n - 1]) {
                Err(e) => Err(e),
                Ok(None) => Ok(before),
                Ok(Some(item)) => Ok(before.push(item)),
            },
        }
    }
}

/// The items of the first `k` layers, or the first error.
pub open spec fn source_items<G>(
    layers: Seq<VectorLayer<G>>,
    seen: Seq<Vec<InTile>>,
    k: int,
) -> Result<Seq<ItemModel>, Error>
    decreases k,
{
    if k <= 0 {
        Ok(Seq::empty())
    } else {
        match source_items(layers, seen, k - 1) {
            Err(e) => Err(e),
            Ok(before) => match layer_items(
                layers[k - 1],
                seen[k - 1]@,
                layers[k - 1].features@.len() as int,
            ) {
                Err(e) => Err(e),
                Ok(more) => Ok(before + more),
            },
        }
    }
}

proof fn lemma_layer_error_stays<G>(layer: VectorLayer<G>, seen: Seq<InTile>, n: int, m: int)
    requires
        0 <= n <= m,
        layer_items(layer, seen, n) is Err,
    ensures
        layer_items(layer, seen, m) == layer_items(layer, seen, n),
    decreases m - n,
{
    if n < m {
        lemma_layer_error_stays(layer, seen, n, m - 1);
    }
}

proof fn lemma_source_error_stays<G>(
    layers: Seq<VectorLayer<G>>,
    seen: Seq<Vec<InTile>>,
    n: int,
    m: int,
)
    requires
        0 <= n <= m,
        source_items(layers, seen, n) is Err,
    ensures
        source_items(layers, seen, m) == source_items(layers, seen, n),
    decreases m - n,
{
    if n < m {
        lemma_source_error_stays(layers, seen, n, m - 1);
    }
}

/// There is an entry for each feature of each layer.
pub open spec fn covers<G>(layers: Seq<VectorLayer<G>>, seen: Seq<Vec<InTile>>) -> bool {
    &&& seen.len() == layers.len()
    &&& forall|k: int|
        0 <= k < layers.len() ==> (#[trigger] seen[k])@.len() == layers[k].features@.len()
}

/// Encodes one feature; `None` where it degenerates away.
fn encode_feature<'a, G>(layer: &'a str, feature: &'a VectorFeature<G>, seen: InTile) -> (item:
    Result<Option<EncodedFeature<'a>>, Error>)
    ensures
        match item {
            Ok(Some(i)) => i.wf() && feature_item(layer@, *feature, seen) == Ok::<
                Option<ItemModel>,
                Error,
            >(Some(i@)),
            Ok(None) => feature_item(layer@, *feature, seen) == Ok::<Option<ItemModel>, Error>(None),
            Err(e) => feature_item(layer@, *feature, seen) == Err::<Option<ItemModel>, Error>(e),
        },
{
    match seen {
        None => Ok(None),
        Some((clipped, score)) => {
            proof {
                quantized_parts_do_not_touch(clipped@);
            }
            match quantize(clipped) {
                Err(e) => Err(e),
                Ok(None) => Ok(None),
                Ok(Some(geom)) => match encode_geometry(&geom) {
                    Err(e) => Err(e),
                    Ok(data) => {
                        if has_no_words(&data) {
                            Ok(None)
                        } else {
                            let words: usize = word_count(&data);
                            Ok(
                                Some(
                                    EncodedFeature {
                                        layer,
                                        geom,
                                        words,
                                        score,
                                        id: feature.id,
                                        properties: &feature.properties,
                                    },
                                ),
                            )
                        }
                    },
                },
            }
        },
    }
}

/// Encodes the features that a tile sees, layer by layer.
pub fn encode_features<'a, G>(source: &'a VectorSource<G>, seen: Vec<Vec<InTile>>) -> (items:
    Result<Vec<EncodedFeature<'a>>, Error>)
    requires
        covers(source.layers@, seen@),
    ensures
        match items {
            Ok(v) => items_wf(v@) && source_items(
                source.layers@,
                seen@,
                source.layers@.len() as int,
            ) == Ok::<Seq<ItemModel>, Error>(item_models(v@)),
            Err(e) => source_items(source.layers@, seen@, source.layers@.len() as int) == Err::<
                Seq<ItemModel>,
                Error,
            >(e),
        },
{
    let ghost all = seen@;
    let ghost layers = source.layers@;
    let mut items: Vec<EncodedFeature<'a>> = Vec::new();
    assert(item_models(items@) =~= Seq::empty());
    let total: usize = source.layers.len();
    let mut k: usize = 0;
    for row in outer: seen
        invariant
            layers == source.layers@,
            total == layers.len(),
            all == seen@,
            covers(layers, all),
            outer.seq() == all,
            k == outer.index(),
            items_wf(items@),
            source_items(layers, all, k as int) == Ok::<Seq<ItemModel>, Error>(
                item_models(items@),
            ),
    {
        let ghost before = item_models(items@);
        let layer: &'a VectorLayer<G> = &source.layers[k];
        let count: usize = layer.features.len();
        let mut n: usize = 0;
        assert(row == all[k as int]);
        let ghost cells = row@;
        assert(before =~= before + Seq::empty());
        for cell in inner: row
            invariant
                layers == source.layers@,
                total == layers.len(),
                k < total,
                *layer == layers[k as int],
                count == layer.features@.len(),
                all == seen@,
                cells.len() == count,
                cells == all[k as int]@,
                inner.seq() == cells,
                n == inner.index(),
                items_wf(items@),
                source_items(layers, all, k as int) == Ok::<Seq<ItemModel>, Error>(before),
                layer_items(*layer, cells, n as int) matches Ok(more) && item_models(items@)
                    == before + more,
        {
            let ghost now = item_models(items@);
            let ghost more = layer_items(*layer, cells, n as int)->Ok_0;
            assert(cell == cells[n as int]);
            match encode_feature(layer.name.as_str(), &layer.features[n], cell) {
                Err(e) => {
                    proof {
                        assert(layer_items(*layer, cells, n + 1) is Err);
                        lemma_layer_error_stays(*layer, cells, n + 1, count as int);
                        assert(source_items(layers, all, k + 1) == Err::<Seq<ItemModel>, Error>(e));
                        lemma_source_error_stays(layers, all, k + 1, total as int);
                    }
                    return Err(e);
                },
                Ok(None) => {},
                Ok(Some(item)) => {
                    let ghost one = item@;
                    items.push(item);
                    assert(item_models(items@) =~= now.push(one));
                    assert(now.push(one) =~= before + more.push(one));
                },
            }
            n = n + 1;
        }
        k = k + 1;
    }
    Ok(items)
}

/// One of the first `k` layers has this name.
pub open spec fn is_named<G>(layers: Seq<VectorLayer<G>>, name: Seq<char>, k: int) -> bool {
    exists|a: int| 0 <= a < k && (#[trigger] layers[a]).name@ == name
}

/// The items are of layers of the source, each before the `k`-th, and come in
/// the order of their layers.
pub open spec fn follow_layers<G>(
    layers: Seq<VectorLayer<G>>,
    items: Seq<ItemModel>,
    k: int,
) -> bool {
    &&& forall|p: int|
        0 <= p < items.len() ==> is_named(layers, (#[trigger] items[p]).layer, k)
    &&& forall|p: int, q: int, a: int, b: int|
        #![trigger items[p], items[q], layers[a], layers[b]]
        0 <= p <= q < items.len() && 0 <= a < layers.len() && 0 <= b < layers.len()
            && layers[a].name@ == items[p].layer && layers[b].name@ == items[q].layer ==> a <= b
}

proof fn lemma_layer_items_named<G>(layer: VectorLayer<G>, seen: Seq<InTile>, n: int)
    ensures
        layer_items(layer, seen, n) matches Ok(items) ==> forall|p: int|
            0 <= p < items.len() ==> (#[trigger] items[p]).layer == layer.name@,
    decreases n,
{
    if n > 0 {
        lemma_layer_items_named(layer, seen, n - 1);
    }
}

proof fn lemma_source_items_follow<G>(
    layers: Seq<VectorLayer<G>>,
    seen: Seq<Vec<InTile>>,
    k: int,
)
    requires
        0 <= k <= layers.len(),
        distinct_layers(layers),
    ensures
        source_items(layers, seen, k) matches Ok(items) ==> follow_layers(layers, items, k),
    decreases k,
{
    if k > 0 && source_items(layers, seen, k) is Ok {
        let layer = layers[k - 1];
        let n = layer.features@.len() as int;
        lemma_source_items_follow(layers, seen, k - 1);
        lemma_layer_items_named(layer, seen[k - 1]@, n);
        let before = source_items(layers, seen, k - 1)->Ok_0;
        let more = layer_items(layer, seen[k - 1]@, n)->Ok_0;
        let items = before + more;
        assert forall|p: int| 0 <= p < items.len() implies is_named(
            layers,
            (#[trigger] items[p]).layer,
            k,
        ) by {
            if p < before.len() {
                assert(items[p] == before[p]);
                let a = choose|a: int|
                    0 <= a < k - 1 && (#[trigger] layers[a]).name@ == before[p].layer;
                assert(layers[a].name@ == items[p].layer);
            } else {
                assert(items[p] == more[p - before.len()]);
                assert(layers[k - 1].name@ == items[p].layer);
            }
        }
        assert forall|p: int, q: int, a: int, b: int|
            #![trigger items[p], items[q], layers[a], layers[b]]
            0 <= p <= q < items.len() && 0 <= a < layers.len() && 0 <= b < layers.len()
                && layers[a].name@ == items[p].layer && layers[b].name@
                == items[q].layer implies a <= b by {
            if q < before.len() {
                assert(items[p] == before[p] && items[q] == before[q]);
            } else {
                assert(items[q] == more[q - before.len()]);
                assert(layers[b].name@ == layers[k - 1].name@);
                assert(b == k - 1);
                if p < before.len() {
                    assert(items[p] == before[p]);
                    let c = choose|c: int|
                        0 <= c < k - 1 && (#[trigger] layers[c]).name@ == before[p].layer;
                    assert(a == c);
                } else {
                    assert(items[p] == more[p - before.len()]);
                    assert(a == k - 1);
                }
            }
        }
    }
}

proof fn lemma_retained_from(items: Seq<ItemModel>, keep: Seq<bool>, p: int) -> (i: int)
    requires
        keep.len() == items.len(),
        0 <= p < retained(items, keep).len(),
    ensures
        p <= i < items.len(),
        retained(items, keep)[p] == items[i],
    decreases items.len(),
{
    let before = retained(items.drop_last(), keep.drop_last());
    if p < before.len() {
        lemma_retained_from(items.drop_last(), keep.drop_last(), p)
    } else {
        lemma_retained_len(items.drop_last(), keep.drop_last());
        items.len() - 1
    }
}

proof fn lemma_retained_len(items: Seq<ItemModel>, keep: Seq<bool>)
    requires
        keep.len() == items.len(),
    ensures
        retained(items, keep).len() <= items.len(),
    decreases items.len(),
{
    if items.len() > 0 {
        lemma_retained_len(items.drop_last(), keep.drop_last());
    }
}

proof fn lemma_retained_follow<G>(
    layers: Seq<VectorLayer<G>>,
    items: Seq<ItemModel>,
    k: int,
    keep: Seq<bool>,
)
    requires
        keep.len() == items.len(),
        follow_layers(layers, items, k),
    ensures
        follow_layers(layers, retained(items, keep), k),
    decreases items.len(),
{
    if items.len() > 0 {
        let rest = items.drop_last();
        assert(follow_layers(layers, rest, k)) by {
            assert forall|p: int| 0 <= p < rest.len() implies is_named(
                layers,
                (#[trigger] rest[p]).layer,
                k,
            ) by {
                assert(items[p] == rest[p]);
                let a = choose|a: int|
                    0 <= a < k && (#[trigger] layers[a]).name@ == items[p].layer;
                assert(layers[a].name@ == rest[p].layer);
            }
            assert forall|p: int, q: int, a: int, b: int|
                #![trigger rest[p], rest[q], layers[a], layers[b]]
                0 <= p <= q < rest.len() && 0 <= a < layers.len() && 0 <= b < layers.len()
                    && layers[a].name@ == rest[p].layer && layers[b].name@
                    == rest[q].layer implies a <= b by {
                assert(items[p] == rest[p] && items[q] == rest[q]);
            }
        }
        lemma_retained_follow(layers, rest, k, keep.drop_last());
        let before = retained(rest, keep.drop_last());
        let kept = retained(items, keep);
        let last = items.len() - 1;
        if keep.last() {
            assert forall|p: int| 0 <= p < kept.len() implies is_named(
                layers,
                (#[trigger] kept[p]).layer,
                k,
            ) by {
                if p < before.len() {
                    assert(kept[p] == before[p]);
                    let a = choose|a: int|
                        0 <= a < k && (#[trigger] layers[a]).name@ == before[p].layer;
                    assert(layers[a].name@ == kept[p].layer);
                } else {
                    assert(kept[p] == items[last]);
                    let a = choose|a: int|
                        0 <= a < k && (#[trigger] layers[a]).name@ == items[last].layer;
                    assert(layers[a].name@ == kept[p].layer);
                }
            }
            assert forall|p: int, q: int, a: int, b: int|
                #![trigger kept[p], kept[q], layers[a], layers[b]]
                0 <= p <= q < kept.len() && 0 <= a < layers.len() && 0 <= b < layers.len()
                    && layers[a].name@ == kept[p].layer && layers[b].name@
                    == kept[q].layer implies a <= b by {
                if q < before.len() {
                    assert(kept[p] == before[p] && kept[q] == before[q]);
                } else {
                    assert(kept[q] == items[last]);
                    let i = lemma_retained_from(items, keep, p);
                    assert(kept[p] == items[i]);
                }
            }
        } else {
            assert(kept == before);
        }
    }
}

proof fn lemma_order_follows<G>(
    layers: Seq<VectorLayer<G>>,
    items: Seq<ItemModel>,
    i: int,
    j: int,
) -> (at: (int, int))
    requires
        0 <= i < j < layer_order(items).len(),
    ensures
        0 <= at.0 < at.1 < items.len(),
        layer_order(items)[i] == items[at.0].layer,
        layer_order(items)[j] == items[at.1].layer,
    decreases items.len(),
{
    let rest = items.drop_last();
    let before = layer_order(rest);
    if j < before.len() {
        lemma_order_follows(layers, rest, i, j)
    } else {
        lemma_layer_order(rest);
        assert(before.contains(before[i]));
        let p = choose|p: int| 0 <= p < rest.len() && (#[trigger] rest[p]).layer == before[i];
        (p, items.len() - 1)
    }
}

/// The layers of a tile come in the order of the source's layers, each once.
pub proof fn tile_layers_follow_the_source<G>(
    layers: Seq<VectorLayer<G>>,
    seen: Seq<Vec<InTile>>,
    opts: MvtOptions,
    items: Seq<ItemModel>,
    kept: Seq<ItemModel>,
    i: int,
    j: int,
    a: int,
    b: int,
)
    requires
        distinct_layers(layers),
        source_items(layers, seen, layers.len() as int) == Ok::<Seq<ItemModel>, Error>(items),
        is_selection(items, opts, kept),
        0 <= i < j < tile_layers_of(kept, opts.extent).len(),
        0 <= a < layers.len(),
        0 <= b < layers.len(),
        tile_layers_of(kept, opts.extent)[i].name == layers[a].name@,
        tile_layers_of(kept, opts.extent)[j].name == layers[b].name@,
    ensures
        a < b,
{
    let n = layers.len() as int;
    lemma_source_items_follow(layers, seen, n);
    if opts.drop_densest && opts.max_tile_bytes > 0 {
        let budget = opts.max_tile_bytes as int;
        let (thin, keep) = choose|thin: Seq<ItemModel>, keep: Seq<bool>|
            {
                &&& #[trigger] is_thinned(items, budget, thin)
                &&& #[trigger] is_fit_plan(thin, opts.extent, budget, keep)
                &&& kept == retained(thin, keep)
            };
        let first = choose|first: Seq<bool>|
            #[trigger] is_drop_plan(item_scores(items), item_costs(items), budget, first) && thin
                == retained(items, first);
        lemma_retained_follow(layers, items, n, first);
        lemma_retained_follow(layers, thin, n, keep);
    }
    lemma_layer_order(kept);
    let order = layer_order(kept);
    let (p, q) = lemma_order_follows(layers, kept, i, j);
    assert(order[i] != order[j]);
    assert(layers[a].name@ == kept[p].layer && layers[b].name@ == kept[q].layer);
}

/// What `clip` gave for each feature of each layer at a tile.
pub open spec fn are_seen<G, C>(
    layers: Seq<VectorLayer<G>>,
    clip: C,
    coord: TileCoord,
    seen: Seq<Vec<InTile>>,
) -> bool where C: Fn(TileCoord, &G) -> InTile {
    &&& covers(layers, seen)
    &&& forall|k: int, n: int|
        0 <= k < layers.len() && 0 <= n < layers[k].features@.len() ==> call_ensures(
            clip,
            (coord, &layers[k].features@[n].geometry),
            #[trigger] seen[k]@[n],
        )
}

/// `tile` is what becomes of a source at a tile.
pub open spec fn is_mvt_tile<G, C>(
    layers: Seq<VectorLayer<G>>,
    opts: MvtOptions,
    clip: C,
    coord: TileCoord,
    tile: Result<Option<Vec<u8>>, Error>,
) -> bool where C: Fn(TileCoord, &G) -> InTile {
    exists|seen: Seq<Vec<InTile>>|
        {
            &&& #[trigger] are_seen(layers, clip, coord, seen)
            &&& match source_items(layers, seen, layers.len() as int) {
                Ok(items) => is_packed(items, opts, tile),
                Err(e) => tile == Err::<Option<Vec<u8>>, Error>(e),
            }
        }
}

/// Renders one vector tile; `None` when no feature is in it.
///
/// `clip` clips a geometry to the buffered tile, simplifies it and gives it in
/// tile coordinates, with its footprint as an order-preserving number.
pub fn render_mvt_tile<G, C>(
    source: &VectorSource<G>,
    opts: &MvtOptions,
    coord: TileCoord,
    clip: &C,
) -> (tile: Result<Option<Vec<u8>>, Error>) where C: Fn(TileCoord, &G) -> InTile
    requires
        forall|g: &G| call_requires(*clip, (coord, g)),
    ensures
        is_mvt_tile(source.layers@, *opts, *clip, coord, tile),
        keeps_budget(*opts, tile),
{
    let ghost layers = source.layers@;
    let mut seen: Vec<Vec<InTile>> = Vec::new();
    for k in 0..source.layers.len()
        invariant
            layers == source.layers@,
            forall|g: &G| call_requires(*clip, (coord, g)),
            seen@.len() == k,
            forall|j: int|
                0 <= j < k ==> (#[trigger] seen@[j])@.len() == layers[j].features@.len(),
            forall|j: int, n: int|
                0 <= j < k && 0 <= n < layers[j].features@.len() ==> call_ensures(
                    *clip,
                    (coord, &layers[j].features@[n].geometry),
                    #[trigger] seen@[j]@[n],
                ),
    {
        let layer = &source.layers[k];
        let mut row: Vec<InTile> = Vec::new();
        for n in 0..layer.features.len()
            invariant
                forall|g: &G| call_requires(*clip, (coord, g)),
                row@.len() == n,
                forall|i: int|
                    0 <= i < n ==> call_ensures(
                        *clip,
                        (coord, &layer.features@[i].geometry),
                        #[trigger] row@[i],
                    ),
        {
            row.push(clip(coord, &layer.features[n].geometry));
        }
        seen.push(row);
    }
    assert(are_seen(layers, *clip, coord, seen@));
    match encode_features(source, seen) {
        Ok(items) => pack_tile(items, opts),
        Err(e) => Err(e),
    }
}

/// What stays of two lists is what stays of the first and then what stays of the
/// second; a single item stays as it is, or goes.
pub proof fn retained_items_add_up(
    a: Seq<ItemModel>,
    b: Seq<ItemModel>,
    ka: Seq<bool>,
    kb: Seq<bool>,
)
    requires
        a.len() == ka.len(),
        b.len() == kb.len(),
    ensures
        retained(a + b, ka + kb) == retained(a, ka) + retained(b, kb),
        a.len() == 1 && ka[0] ==> retained(a, ka) == a,
        a.len() == 1 && !ka[0] ==> retained(a, ka) == Seq::<ItemModel>::empty(),
    decreases b.len(),
{
    if b.len() == 0 {
        assert(a + b =~= a);
        assert(ka + kb =~= ka);
        assert(retained(a, ka) + retained(b, kb) =~= retained(a, ka));
    } else {
        retained_items_add_up(a, b.drop_last(), ka, kb.drop_last());
        assert((a + b).drop_last() =~= a + b.drop_last());
        assert((ka + kb).drop_last() =~= ka + kb.drop_last());
        assert(retained(a + b, ka + kb) =~= retained(a, ka) + retained(b, kb));
    }
    if a.len() == 1 {
        assert(retained(a.drop_last(), ka.drop_last()) =~= Seq::empty());
        assert(Seq::empty().push(a[0]) =~= a);
    }
}

/// A feature has, in their order, all its properties that have a value as tags,
/// and no others.
pub proof fn tags_are_the_properties_with_a_value(properties: Seq<(Seq<char>, ValueModel)>)
    ensures
        tags_of(properties) == properties.filter(
            |p: (Seq<char>, ValueModel)| !(p.1 is Null),
        ),
        (forall|i: int| 0 <= i < properties.len() ==> !((#[trigger] properties[i]).1 is Null))
            ==> tags_of(properties) == properties,
    decreases properties.len(),
{
    reveal(Seq::filter);
    if properties.len() > 0 {
        let rest = properties.drop_last();
        tags_are_the_properties_with_a_value(rest);
        if forall|i: int| 0 <= i < properties.len() ==> !((#[trigger] properties[i]).1 is Null) {
            assert forall|i: int| 0 <= i < rest.len() implies !((#[trigger] rest[i]).1 is Null) by {
                assert(rest[i] == properties[i]);
            }
            assert(!(properties[properties.len() - 1].1 is Null));
            assert(rest.push(properties.last()) =~= properties);
        }
    } else {
        assert(tags_of(properties) =~= properties);
    }
}

/// A feature of a tile has the kind, the words and the id of its item, and all
/// properties that have a value.
pub proof fn features_are_their_items(item: ItemModel)
    ensures
        item_feature(item).kind == item.kind,
        item_feature(item).words == item.words,
        item_feature(item).id == item.id,
        item_feature(item).tags == item.properties.filter(
            |p: (Seq<char>, ValueModel)| !(p.1 is Null),
        ),
{
    tags_are_the_properties_with_a_value(item.properties);
}

/// The features of a layer are those of the items that name it, in their order,
/// one for each.
pub proof fn layers_hold_the_items_that_name_them(items: Seq<ItemModel>, name: Seq<char>)
    ensures
        features_named(items, name).len() == items.filter(
            |item: ItemModel| item.layer == name,
        ).len(),
        forall|i: int|
            0 <= i < features_named(items, name).len() ==> is_feature_of(
                items.filter(|item: ItemModel| item.layer == name)[i],
                #[trigger] features_named(items, name)[i],
            ),
    decreases items.len(),
{
    reveal(Seq::filter);
    let pick = |item: ItemModel| item.layer == name;
    if items.len() > 0 {
        let rest = items.drop_last();
        layers_hold_the_items_that_name_them(rest, name);
        features_are_their_items(items.last());
        let before = features_named(rest, name);
        assert forall|i: int| 0 <= i < features_named(items, name).len() implies is_feature_of(
            items.filter(pick)[i],
            #[trigger] features_named(items, name)[i],
        ) by {
            if i < before.len() {
                assert(features_named(items, name)[i] == before[i]);
                assert(items.filter(pick)[i] == rest.filter(pick)[i]);
            }
        }
    }
}

/// `feature` has the kind, the words and the id of `item`, and its properties that
/// have a value.
pub open spec fn is_feature_of(item: ItemModel, feature: FeatureModel) -> bool {
    &&& feature.kind == item.kind
    &&& feature.words == item.words
    &&& feature.id == item.id
    &&& feature.tags == item.properties.filter(|p: (Seq<char>, ValueModel)| !(p.1 is Null))
}

/// A tile has one layer for each name that an item has, and no other: none is
/// empty, and each has as many features as items name it. All have the extent that
/// was asked for.
pub proof fn tiles_have_a_layer_for_each_name(items: Seq<ItemModel>, extent: u32)
    ensures
        forall|p: int|
            0 <= p < items.len() ==> exists|k: int|
                0 <= k < tile_layers_of(items, extent).len() && (#[trigger] tile_layers_of(
                    items,
                    extent,
                )[k]).name == (#[trigger] items[p]).layer,
        forall|k: int|
            0 <= k < tile_layers_of(items, extent).len() ==> {
                &&& (#[trigger] tile_layers_of(items, extent)[k]).extent == extent
                &&& tile_layers_of(items, extent)[k].features.len() > 0
                &&& tile_layers_of(items, extent)[k].features.len() == items.filter(
                    |item: ItemModel| item.layer == tile_layers_of(items, extent)[k].name,
                ).len()
            },
        forall|j: int, k: int|
            0 <= j < k < tile_layers_of(items, extent).len() ==> (#[trigger] tile_layers_of(
                items,
                extent,
            )[j]).name != (#[trigger] tile_layers_of(items, extent)[k]).name,
{
    let order = layer_order(items);
    let layers = tile_layers_of(items, extent);
    lemma_layer_order(items);
    assert forall|p: int| 0 <= p < items.len() implies exists|k: int|
        0 <= k < layers.len() && (#[trigger] layers[k]).name == (#[trigger] items[p]).layer by {
        assert(order.contains(items[p].layer));
        let k = choose|k: int| 0 <= k < order.len() && order[k] == items[p].layer;
        assert(layers[k].name == items[p].layer);
    }
    assert forall|k: int| 0 <= k < layers.len() implies {
        &&& (#[trigger] layers[k]).extent == extent
        &&& layers[k].features.len() > 0
        &&& layers[k].features.len() == items.filter(
            |item: ItemModel| item.layer == layers[k].name,
        ).len()
    } by {
        assert(order.contains(order[k]));
        let p = choose|p: int| 0 <= p < items.len() && (#[trigger] items[p]).layer == order[k];
        layers_hold_the_items_that_name_them(items, order[k]);
        lemma_named_some(items, order[k], p);
        assert(layers[k].name == order[k]);
    }
}

proof fn lemma_named_some(items: Seq<ItemModel>, name: Seq<char>, p: int)
    requires
        0 <= p < items.len(),
        items[p].layer == name,
    ensures
        features_named(items, name).len() > 0,
    decreases items.len(),
{
    if p < items.len() - 1 {
        lemma_named_some(items.drop_last(), name, p);
    }
}

/// The layers of a tile come as their names first occur among the items: wherever
/// an item names a later layer, one before it names an earlier one.
pub proof fn layers_come_as_their_names_first_occur(
    items: Seq<ItemModel>,
    extent: u32,
    j: int,
    k: int,
    p: int,
)
    requires
        0 <= j < k < tile_layers_of(items, extent).len(),
        0 <= p < items.len(),
        items[p].layer == tile_layers_of(items, extent)[k].name,
    ensures
        exists|q: int|
            0 <= q < p && (#[trigger] items[q]).layer == tile_layers_of(items, extent)[j].name,
    decreases items.len(),
{
    let rest = items.drop_last();
    let order = layer_order(items);
    let before = layer_order(rest);
    let last = items.len() - 1;
    lemma_layer_order(rest);
    assert(tile_layers_of(items, extent)[j].name == order[j]);
    assert(tile_layers_of(items, extent)[k].name == order[k]);
    if k < before.len() {
        assert(tile_layers_of(rest, extent)[j].name == before[j]);
        assert(tile_layers_of(rest, extent)[k].name == before[k]);
        if p < last {
            assert(rest[p] == items[p]);
            layers_come_as_their_names_first_occur(rest, extent, j, k, p);
            let q = choose|q: int| 0 <= q < p && (#[trigger] rest[q]).layer == before[j];
            assert(items[q].layer == order[j]);
        } else {
            assert(before.contains(before[j]));
            let q = choose|q: int| 0 <= q < rest.len() && (#[trigger] rest[q]).layer == before[j];
            assert(items[q].layer == order[j]);
        }
    } else {
        assert(before.contains(before[j]));
        let q = choose|q: int| 0 <= q < rest.len() && (#[trigger] rest[q]).layer == before[j];
        assert(items[q].layer == order[j]);
        if p < last {
            assert(rest[p].layer == order[k]);
            assert(before.contains(rest[p].layer));
        }
    }
}

/// The estimate of two lists is that of the first and that of the second. A single
/// item counts four bytes for each of its words.
pub proof fn estimates_add_up(a: Seq<ItemModel>, b: Seq<ItemModel>)
    ensures
        estimate(a + b) == estimate(a) + estimate(b),
        a.len() == 1 ==> estimate(a) == 4 * a[0].words.len(),
    decreases b.len(),
{
    if b.len() == 0 {
        assert(a + b =~= a);
    } else {
        estimates_add_up(a, b.drop_last());
        assert((a + b).drop_last() =~= a + b.drop_last());
    }
    if a.len() == 1 {
        assert(estimate(a.drop_last()) == 0);
    }
}

proof fn lemma_retained_pair(items: Seq<ItemModel>, keep: Seq<bool>, p: int, q: int) -> (at: (
    int,
    int,
))
    requires
        keep.len() == items.len(),
        0 <= p < q < retained(items, keep).len(),
    ensures
        0 <= at.0 < at.1 < items.len(),
        retained(items, keep)[p] == items[at.0],
        retained(items, keep)[q] == items[at.1],
    decreases items.len(),
{
    let before = retained(items.drop_last(), keep.drop_last());
    if q < before.len() {
        lemma_retained_pair(items.drop_last(), keep.drop_last(), p, q)
    } else {
        let i = lemma_retained_from(items.drop_last(), keep.drop_last(), p);
        (i, items.len() - 1)
    }
}

/// The features that stay in a tile keep their order, and none comes twice that
/// was there once.
pub proof fn selected_items_keep_their_order(
    items: Seq<ItemModel>,
    opts: MvtOptions,
    kept: Seq<ItemModel>,
    p: int,
    q: int,
)
    requires
        is_selection(items, opts, kept),
        0 <= p < q < kept.len(),
    ensures
        exists|i: int, j: int|
            0 <= i < j < items.len() && #[trigger] items[i] == kept[p] && #[trigger] items[j]
                == kept[q],
{
    if opts.drop_densest && opts.max_tile_bytes > 0 {
        let budget = opts.max_tile_bytes as int;
        let (thin, keep) = choose|thin: Seq<ItemModel>, keep: Seq<bool>|
            {
                &&& #[trigger] is_thinned(items, budget, thin)
                &&& #[trigger] is_fit_plan(thin, opts.extent, budget, keep)
                &&& kept == retained(thin, keep)
            };
        let first = choose|first: Seq<bool>|
            #[trigger] is_drop_plan(item_scores(items), item_costs(items), budget, first) && thin
                == retained(items, first);
        let (a, b) = lemma_retained_pair(thin, keep, p, q);
        let (i, j) = lemma_retained_pair(items, first, a, b);
        assert(items[i] == kept[p] && items[j] == kept[q]);
    } else {
        assert(items[p] == kept[p] && items[q] == kept[q]);
    }
}

/// A tile that is held to no budget keeps every feature, and so does one whose
/// estimate and whose bytes are within its budget. Of one that is held to a budget
/// what is kept is within it, by its estimate and by its bytes.
pub proof fn tiles_drop_only_for_their_budget(
    items: Seq<ItemModel>,
    opts: MvtOptions,
    kept: Seq<ItemModel>,
)
    requires
        is_selection(items, opts, kept),
        items_in_memory(items),
    ensures
        !opts.drop_densest ==> kept == items,
        opts.max_tile_bytes == 0 ==> kept == items,
        estimate(items) <= opts.max_tile_bytes && tile_bytes(
            opts.extent,
            tile_layers_of(items, opts.extent),
        ).len() <= opts.max_tile_bytes ==> kept == items,
        opts.drop_densest && opts.max_tile_bytes > 0 && kept.len() > 0 ==> estimate(kept)
            <= opts.max_tile_bytes && tile_bytes(
            opts.extent,
            tile_layers_of(kept, opts.extent),
        ).len() <= opts.max_tile_bytes,
{
    if opts.drop_densest && opts.max_tile_bytes > 0 {
        let budget = opts.max_tile_bytes as int;
        let (thin, keep) = choose|thin: Seq<ItemModel>, keep: Seq<bool>|
            {
                &&& #[trigger] is_thinned(items, budget, thin)
                &&& #[trigger] is_fit_plan(thin, opts.extent, budget, keep)
                &&& kept == retained(thin, keep)
            };
        thinned_tiles_fit_the_budget(items, budget, thin);
        let (order, cut) = choose|order: Seq<usize>, cut: int|
            #![trigger is_byte_cut(thin, order, opts.extent, budget, cut)]
            is_ranking(item_scores(thin), order) && is_byte_cut(
                thin,
                order,
                opts.extent,
                budget,
                cut,
            ) && keep == kept_mask(order, cut);
        lemma_retained_all(thin, kept_mask(order, 0));
        lemma_estimate_shrinks(thin, keep);
    }
}

proof fn lemma_estimate_shrinks(items: Seq<ItemModel>, keep: Seq<bool>)
    requires
        keep.len() == items.len(),
    ensures
        estimate(retained(items, keep)) <= estimate(items),
        0 <= estimate(items),
    decreases items.len(),
{
    if items.len() > 0 {
        let before = retained(items.drop_last(), keep.drop_last());
        lemma_estimate_shrinks(items.drop_last(), keep.drop_last());
        if keep.last() {
            assert(before.push(items.last()).drop_last() =~= before);
        }
    }
}

/// A tile is empty exactly where no feature stays. One that is not gzipped is the
/// bytes of its layers, one that is is what gzip makes of them.
pub proof fn packed_tiles_hold_what_stays(
    items: Seq<ItemModel>,
    opts: MvtOptions,
    tile: Result<Option<Vec<u8>>, Error>,
)
    requires
        is_packed(items, opts, tile),
    ensures
        exists|kept: Seq<ItemModel>|
            {
                let raw = tile_bytes(opts.extent, tile_layers_of(kept, opts.extent));
                &&& #[trigger] is_selection(items, opts, kept)
                &&& match tile {
                    Ok(None) => kept.len() == 0,
                    Ok(Some(v)) => kept.len() > 0 && if opts.compress {
                        gzip_compressed(raw) == Some(v@)
                    } else {
                        v@ == raw
                    },
                    Err(e) => kept.len() > 0 && opts.compress && gzip_compressed(raw) is None && e
                        == Error::Encode(EncodeStep::Gzip),
                }
            },
        items.len() == 0 && !opts.drop_densest ==> tile == Ok::<Option<Vec<u8>>, Error>(None),
        items.len() > 0 && !opts.drop_densest ==> tile != Ok::<Option<Vec<u8>>, Error>(None),
{
    let kept = choose|kept: Seq<ItemModel>|
        #[trigger] is_selection(items, opts, kept) && if kept.len() == 0 {
            tile == Ok::<Option<Vec<u8>>, Error>(None)
        } else {
            finished(tile_bytes_of(kept, opts.extent), opts.compress, tile)
        };
    assert(is_selection(items, opts, kept));
}

/// An item is its feature at a tile: of its layer, with its id, with all its
/// properties under their keys, and with the footprint that clipping gave. Its
/// words are those of the clipped geometry, normalised, with its coordinates.
pub proof fn items_are_their_features<G>(
    layer: Seq<char>,
    feature: VectorFeature<G>,
    seen: InTile,
    item: ItemModel,
)
    requires
        feature_item(layer, feature, seen) == Ok::<Option<ItemModel>, Error>(Some(item)),
    ensures
        item.layer == layer,
        item.id == feature.id,
        seen is Some,
        item.score == seen->Some_0.1,
        item.words.len() > 0,
        item.properties.len() == feature.properties@.len(),
        forall|i: int|
            0 <= i < item.properties.len() ==> (#[trigger] item.properties[i]).0
                == feature.properties@[i].0@ && item.properties[i].1 == attribute(
                feature.properties@[i].1,
            ),
        quantized(seen->Some_0.0@) is Some,
        item.kind == quantized(seen->Some_0.0@)->Some_0.0,
        exists|given: Seq<Seq<(i32, i32)>>|
            {
                &&& same_points(quantized(seen->Some_0.0@)->Some_0.1, given)
                &&& item.words == #[trigger] geometry_words(item.kind, given)
            },
{
    let (kind, parts) = quantized(seen->Some_0.0@)->Some_0;
    let given = narrow_parts(parts);
    encoded_points_keep_their_coordinates(kind, parts, given);
    assert(item.words == geometry_words(item.kind, given));
}

/// A feature leaves no item where it is not in the tile or degenerates away, and
/// fails where the tile cannot hold it. Else it gives one, unless its geometry is
/// encoded to no words.
pub proof fn features_give_items_where_they_are_seen<G>(
    layer: Seq<char>,
    feature: VectorFeature<G>,
    seen: InTile,
)
    ensures
        seen is None ==> feature_item(layer, feature, seen) == Ok::<Option<ItemModel>, Error>(None),
        seen matches Some((clipped, _)) ==> {
            &&& clipped_fits(clipped@) && quantized(clipped@) is None ==> feature_item(
                layer,
                feature,
                seen,
            ) == Ok::<Option<ItemModel>, Error>(None)
            &&& feature_item(layer, feature, seen) == Err::<Option<ItemModel>, Error>(
                Error::Encode(EncodeStep::RingArea),
            ) <==> !clipped_fits(clipped@)
            &&& (quantized(clipped@) matches Some((kind, parts)) ==> {
                &&& clipped_fits(clipped@) && !encodable(kind, parts) ==> feature_item(
                    layer,
                    feature,
                    seen,
                ) == Err::<Option<ItemModel>, Error>(Error::Encode(EncodeStep::Geometry))
                &&& clipped_fits(clipped@) && encodable(kind, parts) ==> forall|
                    given: Seq<Seq<(i32, i32)>>,
                |
                    same_points(parts, given) && (#[trigger] geometry_words(kind, given)).len() > 0
                        ==> feature_item(layer, feature, seen) matches Ok(Some(_))
            })
        },
{
    if let Some((clipped, score)) = seen {
        if let Some((kind, parts)) = quantized(clipped@) {
            if encodable(kind, parts) {
                assert forall|given: Seq<Seq<(i32, i32)>>|
                    same_points(parts, given) && clipped_fits(clipped@) && (
                    #[trigger] geometry_words(kind, given)).len() > 0 implies feature_item(
                    layer,
                    feature,
                    seen,
                ) matches Ok(Some(_)) by {
                    encoded_points_keep_their_coordinates(kind, parts, given);
                }
            }
        }
    }
}

/// What becomes of each of the first `n` features of a layer.
pub open spec fn outcomes<G>(layer: VectorLayer<G>, seen: Seq<InTile>, n: int) -> Seq<
    Result<Option<ItemModel>, Error>,
> {
    Seq::new(n as nat, |f: int| feature_item(layer.name@, layer.features@[f], seen[f]))
}

/// The items of a layer are those that its features leave, in the order of the
/// features, one for each that leaves one. Where a feature fails so does the
/// layer, as the first that does.
pub proof fn layers_give_the_items_of_their_features<G>(
    layer: VectorLayer<G>,
    seen: Seq<InTile>,
    n: int,
)
    requires
        0 <= n,
    ensures
        match layer_items(layer, seen, n) {
            Ok(items) => {
                let got = outcomes(layer, seen, n).filter(
                    |r: Result<Option<ItemModel>, Error>| r matches Ok(Some(_)),
                );
                &&& forall|f: int| 0 <= f < n ==> (#[trigger] outcomes(layer, seen, n)[f]) is Ok
                &&& items.len() == got.len()
                &&& forall|p: int|
                    0 <= p < items.len() ==> got[p] == Ok::<Option<ItemModel>, Error>(
                        Some(#[trigger] items[p]),
                    )
            },
            Err(e) => exists|f: int|
                {
                    &&& 0 <= f < n
                    &&& #[trigger] outcomes(layer, seen, n)[f] == Err::<Option<ItemModel>, Error>(e)
                    &&& forall|g: int| 0 <= g < f ==> (#[trigger] outcomes(layer, seen, n)[g]) is Ok
                },
        },
    decreases n,
{
    reveal(Seq::filter);
    let some = |r: Result<Option<ItemModel>, Error>| r matches Ok(Some(_));
    let all = outcomes(layer, seen, n);
    if n > 0 {
        layers_give_the_items_of_their_features(layer, seen, n - 1);
        let rest = outcomes(layer, seen, n - 1);
        assert(all.drop_last() =~= rest);
        let got = all.filter(some);
        match layer_items(layer, seen, n - 1) {
            Err(e) => {
                let f = choose|f: int|
                    {
                        &&& 0 <= f < n - 1
                        &&& #[trigger] rest[f] == Err::<Option<ItemModel>, Error>(e)
                        &&& forall|g: int| 0 <= g < f ==> (#[trigger] rest[g]) is Ok
                    };
                assert(all[f] == rest[f]);
                assert forall|g: int| 0 <= g < f implies (#[trigger] all[g]) is Ok by {
                    assert(all[g] == rest[g]);
                }
            },
            Ok(before) => {
                assert forall|g: int| 0 <= g < n - 1 implies (#[trigger] all[g]) is Ok by {
                    assert(all[g] == rest[g]);
                }
                let last = feature_item(layer.name@, layer.features@[n - 1], seen[n - 1]);
                assert(all[n - 1] == last);
                if last is Ok {
                    let items = layer_items(layer, seen, n)->Ok_0;
                    assert forall|p: int| 0 <= p < items.len() implies got[p] == Ok::<
                        Option<ItemModel>,
                        Error,
                    >(Some(#[trigger] items[p])) by {
                        if p < before.len() {
                            assert(items[p] == before[p]);
                            assert(got[p] == rest.filter(some)[p]);
                        }
                    }
                }
            },
        }
    }
}

/// The items of a source are those of its layers, one layer after the other.
/// Where a layer fails so does the source, as the first that does.
pub proof fn sources_give_the_items_of_their_layers<G>(
    layers: Seq<VectorLayer<G>>,
    seen: Seq<Vec<InTile>>,
    k: int,
)
    requires
        0 <= k <= layers.len(),
        covers(layers, seen),
    ensures
        ({
            let each = Seq::new(
                k as nat,
                |a: int| layer_items(layers[a], seen[a]@, seen[a]@.len() as int),
            );
            match source_items(layers, seen, k) {
                Ok(items) => {
                    &&& forall|a: int| 0 <= a < k ==> (#[trigger] each[a]) is Ok
                    &&& items == each.map_values(
                        |r: Result<Seq<ItemModel>, Error>| r->Ok_0,
                    ).flatten()
                },
                Err(e) => exists|a: int|
                    {
                        &&& 0 <= a < k
                        &&& #[trigger] each[a] == Err::<Seq<ItemModel>, Error>(e)
                        &&& forall|b: int| 0 <= b < a ==> (#[trigger] each[b]) is Ok
                    },
            }
        }),
    decreases k,
{
    let each = Seq::new(
        k as nat,
        |a: int| layer_items(layers[a], seen[a]@, seen[a]@.len() as int),
    );
    let open = |r: Result<Seq<ItemModel>, Error>| r->Ok_0;
    if k > 0 {
        sources_give_the_items_of_their_layers(layers, seen, k - 1);
        let rest = Seq::new(
            (k - 1) as nat,
            |a: int| layer_items(layers[a], seen[a]@, seen[a]@.len() as int),
        );
        assert(each =~= rest.push(each[k - 1]));
        assert(seen[k - 1]@.len() == layers[k - 1].features@.len());
        match source_items(layers, seen, k - 1) {
            Err(e) => {
                let a = choose|a: int|
                    {
                        &&& 0 <= a < k - 1
                        &&& #[trigger] rest[a] == Err::<Seq<ItemModel>, Error>(e)
                        &&& forall|b: int| 0 <= b < a ==> (#[trigger] rest[b]) is Ok
                    };
                assert(each[a] == rest[a]);
                assert forall|b: int| 0 <= b < a implies (#[trigger] each[b]) is Ok by {
                    assert(each[b] == rest[b]);
                }
            },
            Ok(before) => {
                assert forall|b: int| 0 <= b < k - 1 implies (#[trigger] each[b]) is Ok by {
                    assert(each[b] == rest[b]);
                }
                if each[k - 1] is Ok {
                    let more = each[k - 1]->Ok_0;
                    assert(each.map_values(open) =~= rest.map_values(open).push(more));
                    rest.map_values(open).lemma_flatten_push(more);
                }
            },
        }
    } else {
        assert(each.map_values(open) =~= Seq::empty());
        assert(each.map_values(open).flatten() =~= Seq::empty());
    }
}

/// A tile is made of what clipping gave for every feature of every layer, each at
/// this tile.
pub proof fn tiles_see_every_feature<G, C>(
    layers: Seq<VectorLayer<G>>,
    opts: MvtOptions,
    clip: C,
    coord: TileCoord,
    tile: Result<Option<Vec<u8>>, Error>,
) where C: Fn(TileCoord, &G) -> InTile
    requires
        is_mvt_tile(layers, opts, clip, coord, tile),
    ensures
        exists|seen: Seq<Vec<InTile>>|
            {
                &&& seen.len() == layers.len()
                &&& forall|k: int, n: int|
                    #![trigger seen[k]@[n]]
                    0 <= k < layers.len() && 0 <= n < layers[k].features@.len() ==> n
                        < seen[k]@.len() && call_ensures(
                        clip,
                        (coord, &layers[k].features@[n].geometry),
                        seen[k]@[n],
                    )
                &&& match #[trigger] source_items(layers, seen, layers.len() as int) {
                    Ok(items) => is_packed(items, opts, tile),
                    Err(e) => tile matches Err(got) && got == e,
                }
            },
{
    let seen = choose|seen: Seq<Vec<InTile>>|
        {
            &&& #[trigger] are_seen(layers, clip, coord, seen)
            &&& match source_items(layers, seen, layers.len() as int) {
                Ok(items) => is_packed(items, opts, tile),
                Err(e) => tile == Err::<Option<Vec<u8>>, Error>(e),
            }
        };
    assert forall|k: int, n: int|
        #![trigger seen[k]@[n]]
        0 <= k < layers.len() && 0 <= n < layers[k].features@.len() implies n < seen[k]@.len()
        && call_ensures(clip, (coord, &layers[k].features@[n].geometry), seen[k]@[n]) by {
        assert(seen[k]@.len() == layers[k].features@.len());
    }
    assert(match source_items(layers, seen, layers.len() as int) {
        Ok(items) => is_packed(items, opts, tile),
        Err(e) => tile matches Err(got) && got == e,
    });
}

/// Thinning by the estimate drops the densest: what stays comes from the items in
/// their order, and none of a larger footprint goes while one of a smaller stays.
pub proof fn thinning_drops_the_densest(
    items: Seq<ItemModel>,
    budget: int,
    rest: Seq<ItemModel>,
)
    requires
        is_thinned(items, budget, rest),
    ensures
        exists|keep: Seq<bool>|
            {
                &&& keep.len() == items.len()
                &&& rest == #[trigger] retained(items, keep)
                &&& forall|gone: int, kept: int|
                    #![trigger keep[gone], keep[kept]]
                    0 <= gone < items.len() && 0 <= kept < items.len() && !keep[gone] && keep[kept]
                        ==> items[gone].score < items[kept].score || (items[gone].score
                        == items[kept].score && gone < kept)
            },
{
    let (scores, costs) = (item_scores(items), item_costs(items));
    let keep = choose|keep: Seq<bool>|
        #[trigger] is_drop_plan(scores, costs, budget, keep) && rest == retained(items, keep);
    assert forall|gone: int, kept: int|
        #![trigger keep[gone], keep[kept]]
        0 <= gone < items.len() && 0 <= kept < items.len() && !keep[gone] && keep[kept]
        implies items[gone].score < items[kept].score || (items[gone].score == items[kept].score
        && gone < kept) by {
        dropped_items_rank_below_kept_ones(scores, costs, budget, keep, gone, kept);
        assert(scores[gone] == items[gone].score && scores[kept] == items[kept].score);
    }
    assert(rest == retained(items, keep));
}

/// Thinning stops as soon as the estimate fits: where an item goes, one that went
/// would with what stays be over the budget.
pub proof fn thinning_drops_no_more_than_it_must(
    items: Seq<ItemModel>,
    budget: int,
    rest: Seq<ItemModel>,
)
    requires
        is_thinned(items, budget, rest),
        items_in_memory(items),
        rest.len() < items.len(),
    ensures
        exists|more: Seq<bool>, last: int|
            {
                &&& more.len() == items.len()
                &&& 0 <= last < items.len()
                &&& more[last]
                &&& rest == #[trigger] retained(items, more.update(last, false))
                &&& estimate(retained(items, more)) > budget
            },
{
    let (scores, costs) = (item_scores(items), item_costs(items));
    let keep = choose|keep: Seq<bool>|
        #[trigger] is_drop_plan(scores, costs, budget, keep) && rest == retained(items, keep);
    let gone = lemma_one_gone(items, keep);
    no_item_goes_without_need(scores, costs, budget, keep, gone);
    let last = choose|last: int|
        {
            &&& 0 <= last < scores.len()
            &&& !keep[last]
            &&& scores[gone] <= scores[last]
            &&& kept_cost(costs, #[trigger] keep.update(last, true)) > budget
        };
    let more = keep.update(last, true);
    assert(more.update(last, false) =~= keep);
    lemma_estimate_of_retained(items, more);
    assert(rest == retained(items, more.update(last, false)));
}

proof fn lemma_one_gone(items: Seq<ItemModel>, keep: Seq<bool>) -> (gone: int)
    requires
        keep.len() == items.len(),
        retained(items, keep).len() < items.len(),
    ensures
        0 <= gone < items.len(),
        !keep[gone],
    decreases items.len(),
{
    if !keep.last() {
        items.len() - 1
    } else {
        lemma_one_gone(items.drop_last(), keep.drop_last())
    }
}

/// A tile that is held to a budget and not gzipped is within it.
pub proof fn tiles_are_within_their_budget(opts: MvtOptions, tile: Vec<u8>)
    requires
        keeps_budget(opts, Ok(Some(tile))),
        opts.drop_densest,
        opts.max_tile_bytes > 0,
        !opts.compress,
    ensures
        tile@.len() <= opts.max_tile_bytes,
{
}

/// An encoded feature is seen as it is: its layer, its kind, its footprint, its id
/// and its properties, each under its key.
pub proof fn items_are_seen_as_they_are<'a>(item: EncodedFeature<'a>, i: int)
    ensures
        item@.layer == item.layer@,
        item@.kind == item.geom.kind,
        item@.score == item.score,
        item@.id == item.id,
        item@.properties.len() == item.properties@.len(),
        0 <= i < item.properties@.len() ==> item@.properties[i].0 == item.properties@[i].0@
            && item@.properties[i].1 == attribute(item.properties@[i].1),
        item@.words == geometry_words(
            item.geom.kind,
            narrow_parts(part_views(item.geom.parts@)),
        ),
{
}

} // verus!
