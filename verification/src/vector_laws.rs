//! What holds of vector operations, said of what goes in and what comes out.

use mvt::GeomData;
use vstd::prelude::*;

use crate::compress::gzip_compressed;
use crate::encoder::{
    attribute, data_kind, data_words, geometry_words, tile_bytes, FeatureModel, LayerModel,
    ValueModel,
};
use crate::error::{EncodeStep, Error};
use crate::geometry::{
    checked_area2, dedupe, dedupe_keeps_points_without_repeats, dedupe_leaves_no_repeats,
    every_ring_with_an_area_stays, hole_parts, holes_are_exteriors_reversed, lemma_first_part,
    lines_with_two_ends_stay, no_repeats, part_views, polygon_models, polygon_parts,
    polygons_add_up, polygons_stay_polygons, quantize, quantize_lines, quantize_polygons,
    quantize_ring, quantized_parts_do_not_touch, quantized_ring, repeated_points_do_not_count,
    ring_area2, ring_count, rings_are_wound_by_role, rings_keep_their_points, rotated,
    rotation_keeps_area, separated, triangles_have_their_area, Clipped, ClippedModel, GeomKind,
    QuantizedGeom, RawPolygon,
};
use crate::mercator::TileCoord;
use crate::ranking::{
    drop_plan, dropped_items_rank_below_kept_ones, earlier_items_go_first, kept_cost,
    kept_items_fit_the_budget, no_item_goes_without_need, rank, ranking_lists_every_item,
    rankings_ascend,
};
use crate::source::SourceCrs;
use crate::text::{
    decimal, keys_ascend, sort_by_key, sorted_keys_ascend,
    sorting_keeps_items_of_one_key_in_order, with_key,
};
use crate::vector::{
    are_built_from, are_projected, build_layer, features_come_from_the_file, is_layer_of,
    is_made_of, lemma_built_count, numbers_are_read_back, parse_number, property_models,
    vector_crs_is_told_in_order, vector_crs_spec, RawFeature, VectorLayer, VectorSource,
};
use crate::vector_tile::{
    drop_densest, encode_geometry, encoded_points_keep_their_coordinates, estimate,
    features_are_their_items, features_named, is_packed, is_selection, item_feature, item_models,
    items_wf, narrow_parts, pack_tile, packed_tiles_hold_what_stays, render_mvt_tile, same_points,
    source_items, thinned_tiles_fit_the_budget, tile_layers_of, tiles_have_a_layer_for_each_name,
    tiles_see_every_feature, EncodedFeature, InTile, ItemModel, MvtOptions,
};

verus! {

/// Each point of each part of a geometry is given to the encoder with its own first
/// and its own second coordinate, in its place: the words are those of the very
/// points.
pub proof fn words_are_those_of_the_points(geom: &QuantizedGeom, data: GeomData)
    requires
        call_ensures(encode_geometry, (geom,), Ok(data)),
    ensures
        data_kind(data) == geom.kind,
        exists|given: Seq<Seq<(i32, i32)>>|
            {
                &&& data_words(data) == #[trigger] geometry_words(geom.kind, given)
                &&& given.len() == geom.parts@.len()
                &&& forall|i: int|
                    0 <= i < given.len() ==> (#[trigger] given[i]).len() == geom.parts@[i]@.len()
                &&& forall|i: int, j: int|
                    0 <= i < given.len() && 0 <= j < given[i].len() ==> (
                    #[trigger] given[i][j]).0 as int == geom.parts@[i]@[j].0 as int
                        && given[i][j].1 as int == geom.parts@[i]@[j].1 as int
            },
{
    let m = part_views(geom.parts@);
    let given = narrow_parts(m);
    encoded_points_keep_their_coordinates(geom.kind, m, given);
    assert(data_words(data) == geometry_words(geom.kind, given));
    assert forall|i: int| 0 <= i < given.len() implies (#[trigger] given[i]).len()
        == geom.parts@[i]@.len() by {
        assert(m[i] == geom.parts@[i]@);
    }
    assert forall|i: int, j: int| 0 <= i < given.len() && 0 <= j < given[i].len() implies (
    #[trigger] given[i][j]).0 as int == geom.parts@[i]@[j].0 as int && given[i][j].1 as int
        == geom.parts@[i]@[j].1 as int by {
        assert(m[i] == geom.parts@[i]@);
        assert(m[i][j] == geom.parts@[i]@[j]);
    }
}

/// Points are kept as they are, in one part.
pub proof fn points_are_kept(points: Vec<(i64, i64)>, geom: Option<QuantizedGeom>)
    requires
        call_ensures(quantize, (Clipped::Points(points),), Ok(geom)),
    ensures
        points@.len() == 0 <==> geom is None,
        geom matches Some(g) ==> {
            &&& g.kind == GeomKind::Point
            &&& g.parts@.len() == 1
            &&& g.parts@[0]@ == points@
        },
{
    if let Some(g) = geom {
        let parts = part_views(g.parts@);
        assert(parts == seq![points@]);
        assert(parts.len() == g.parts@.len());
        assert(parts[0] == g.parts@[0]@);
    }
}

/// The number of parts that are left of a geometry.
pub open spec fn part_count(geom: Option<QuantizedGeom>) -> int {
    match geom {
        Some(g) => g.parts@.len() as int,
        None => 0,
    }
}

proof fn lemma_ring_count_adds(a: Seq<RawPolygon>, b: Seq<RawPolygon>, both: Seq<RawPolygon>)
    requires
        both == a + b,
    ensures
        polygon_models(both) == polygon_models(a) + polygon_models(b),
        ring_count(polygon_models(both)) == ring_count(polygon_models(a)) + ring_count(
            polygon_models(b),
        ),
{
    let (ma, mb) = (polygon_models(a), polygon_models(b));
    assert(polygon_models(both) =~= ma + mb);
    polygons_add_up(ma, mb);
    every_ring_with_an_area_stays(ma);
    every_ring_with_an_area_stays(mb);
    every_ring_with_an_area_stays(ma + mb);
}

/// Polygons do not take each other's place: two lists together leave as many rings
/// as each by itself, and those of the first come first.
pub proof fn polygons_are_kept_together(
    a: &Vec<RawPolygon>,
    b: &Vec<RawPolygon>,
    both: &Vec<RawPolygon>,
    of_a: Option<QuantizedGeom>,
    of_b: Option<QuantizedGeom>,
    of_both: Option<QuantizedGeom>,
)
    requires
        both@ == a@ + b@,
        call_ensures(quantize_polygons, (a,), Ok(of_a)),
        call_ensures(quantize_polygons, (b,), Ok(of_b)),
        call_ensures(quantize_polygons, (both,), Ok(of_both)),
    ensures
        part_count(of_both) == part_count(of_a) + part_count(of_b),
        of_both matches Some(g) ==> g.kind == GeomKind::Polygon,
        of_a is Some ==> of_both is Some && of_both->Some_0.parts@[0]@ == of_a->Some_0.parts@[0]@,
{
    lemma_ring_count_adds(a@, b@, both@);
    lemma_part_count(a, of_a);
    lemma_part_count(b, of_b);
    lemma_part_count(both, of_both);
    if of_a is Some {
        let (ma, mb) = (polygon_models(a@), polygon_models(b@));
        polygons_add_up(ma, mb);
        lemma_first_part(polygon_parts(ma), true);
        lemma_first_part(polygon_parts(ma + mb), true);
        assert(part_views(of_both->Some_0.parts@)[0] == of_both->Some_0.parts@[0]@);
        assert(part_views(of_a->Some_0.parts@)[0] == of_a->Some_0.parts@[0]@);
    }
}

proof fn lemma_part_count(polygons: &Vec<RawPolygon>, geom: Option<QuantizedGeom>)
    requires
        call_ensures(quantize_polygons, (polygons,), Ok(geom)),
    ensures
        part_count(geom) == ring_count(polygon_models(polygons@)),
        geom is Some ==> part_count(geom) > 0,
        geom matches Some(g) ==> g.kind == GeomKind::Polygon && part_views(g.parts@)
            == separated(polygon_parts(polygon_models(polygons@)), true),
        geom is Some ==> polygon_parts(polygon_models(polygons@)).len() > 0,
{
    let m = polygon_models(polygons@);
    polygons_stay_polygons(m);
    every_ring_with_an_area_stays(m);
    quantized_parts_do_not_touch(ClippedModel::Polygons(m));
    if let Some(g) = geom {
        assert(part_views(g.parts@).len() == g.parts@.len());
    }
}

/// A polygon without holes whose exterior is open, without repeats, and has a
/// positive area is kept as it is; one with a negative area is walked the other
/// way.
pub proof fn exteriors_are_kept(polygons: &Vec<RawPolygon>, geom: Option<QuantizedGeom>)
    requires
        polygons@.len() == 1,
        polygons@[0].interiors@.len() == 0,
        polygons@[0].exterior@.len() >= 3,
        no_repeats(polygons@[0].exterior@),
        polygons@[0].exterior@[0] != polygons@[0].exterior@.last(),
        ring_area2(polygons@[0].exterior@) != 0,
        call_ensures(quantize_polygons, (polygons,), Ok(geom)),
    ensures
        geom matches Some(g) && {
            &&& g.kind == GeomKind::Polygon
            &&& g.parts@.len() == 1
            &&& ring_area2(polygons@[0].exterior@) > 0 ==> g.parts@[0]@ == polygons@[0].exterior@
            &&& ring_area2(polygons@[0].exterior@) < 0 ==> g.parts@[0]@
                == polygons@[0].exterior@.reverse()
        },
{
    let m = polygon_models(polygons@);
    let ext = polygons@[0].exterior@;
    assert(m[0].exterior == ext);
    assert(m[0].interiors.len() == 0);
    rings_keep_their_points(ext);
    polygons_add_up(m, m);
    lemma_part_count(polygons, geom);
    every_ring_with_an_area_stays(m);
    lemma_first_part(polygon_parts(m), true);
    assert(part_views(geom->Some_0.parts@)[0] == geom->Some_0.parts@[0]@);
}

/// Lines that do not end where they begin are all kept, each in its place, walked
/// as it is or the other way; the first as it is.
pub proof fn lines_are_kept(lines: &Vec<Vec<(i64, i64)>>, geom: Option<QuantizedGeom>, i: int)
    requires
        forall|k: int|
            0 <= k < lines@.len() ==> (#[trigger] lines@[k])@.len() >= 2 && lines@[k]@[0]
                != lines@[k]@.last() && no_repeats(lines@[k]@),
        call_ensures(quantize_lines, (lines,), geom),
        0 <= i < lines@.len(),
    ensures
        geom matches Some(g) && {
            &&& g.kind == GeomKind::Linestring
            &&& g.parts@.len() == lines@.len()
            &&& g.parts@[i]@ == lines@[i]@ || g.parts@[i]@ == lines@[i]@.reverse()
            &&& g.parts@[0]@ == lines@[0]@
        },
{
    let m = part_views(lines@);
    assert forall|k: int| 0 <= k < m.len() implies (#[trigger] m[k]).len() >= 2 && m[k][0]
        != m[k].last() by {
        assert(m[k] == lines@[k]@);
    }
    lines_with_two_ends_stay(m);
    let g = geom->Some_0;
    let parts = part_views(g.parts@);
    assert(parts.len() == g.parts@.len());
    assert(parts[i] == g.parts@[i]@ && m[i] == lines@[i]@);
    assert(parts[0] == g.parts@[0]@ && m[0] == lines@[0]@);
    dedupe_keeps_points_without_repeats(m[i]);
    dedupe_keeps_points_without_repeats(m[0]);
}

/// Reducing runs leaves no two equal neighbours, keeps the ends, and does not tell
/// a point from the same point repeated.
pub proof fn repeats_do_not_count(
    once: &[(i64, i64)],
    twice: &[(i64, i64)],
    a: Seq<(i64, i64)>,
    p: (i64, i64),
    b: Seq<(i64, i64)>,
    of_once: Vec<(i64, i64)>,
    of_twice: Vec<(i64, i64)>,
)
    requires
        once@ == a.push(p) + b,
        twice@ == a.push(p).push(p) + b,
        call_ensures(dedupe, (once,), of_once),
        call_ensures(dedupe, (twice,), of_twice),
    ensures
        of_once@ == of_twice@,
        no_repeats(of_once@),
        of_once@[0] == once@[0],
        of_once@.last() == once@.last(),
        no_repeats(once@) ==> of_once@ == once@,
{
    repeated_points_do_not_count(a, p, b);
    dedupe_leaves_no_repeats(once@);
    if no_repeats(once@) {
        dedupe_keeps_points_without_repeats(once@);
    }
}

/// The area that is found of a triangle is that of its two sides from its first
/// point.
pub proof fn triangles_are_measured(points: &[(i64, i64)], area: i64)
    requires
        points@.len() == 3,
        call_ensures(checked_area2, (points,), Some(area)),
    ensures
        ({
            let (a, b, c) = (points@[0], points@[1], points@[2]);
            area == (b.0 - a.0) * (c.1 - a.1) - (c.0 - a.0) * (b.1 - a.1)
        }),
{
    let (a, b, c) = (points@[0], points@[1], points@[2]);
    assert(points@ =~= seq![a, b, c]);
    triangles_have_their_area(a, b, c);
}

/// Of the same points a hole is the exterior walked the other way; an exterior has a
/// positive area and a hole a negative one.
pub proof fn rings_are_wound_apart(
    points: &[(i64, i64)],
    exterior: Vec<(i64, i64)>,
    hole: Vec<(i64, i64)>,
)
    requires
        call_ensures(quantize_ring, (points, true), Some(exterior)),
        call_ensures(quantize_ring, (points, false), Some(hole)),
    ensures
        hole@ == exterior@.reverse(),
        ring_area2(exterior@) > 0,
        ring_area2(hole@) < 0,
        exterior@.len() >= 3,
{
    rings_are_wound_by_role(points@, true);
    rings_are_wound_by_role(points@, false);
    holes_are_exteriors_reversed(points@);
}

/// A ranking is by ascending score, and lists every item once; of equal scores the
/// earlier item comes first.
pub proof fn ranks_ascend(scores: &Vec<u64>, order: Vec<usize>, p: int, q: int, i: int)
    requires
        call_ensures(rank, (scores,), order),
        0 <= p < q < scores@.len(),
        0 <= i < scores@.len(),
    ensures
        order@.len() == scores@.len(),
        scores@[order@[p] as int] <= scores@[order@[q] as int],
        scores@[order@[p] as int] == scores@[order@[q] as int] ==> order@[p] < order@[q],
        order@[p] != order@[q],
        exists|k: int| 0 <= k < order@.len() && #[trigger] order@[k] == i,
{
    rankings_ascend(scores@, order@, p, q);
    ranking_lists_every_item(scores@, order@, i);
}

/// What stays costs no more than the budget; what goes has no larger score than what
/// stays, and of equal scores comes earlier; and where something goes, what stays
/// would cost too much with one item more.
pub proof fn plans_drop_the_lowest_and_no_more(
    scores: &Vec<u64>,
    costs: &Vec<u128>,
    budget: usize,
    keep: Vec<bool>,
    gone: int,
    kept: int,
)
    requires
        scores@.len() == costs@.len(),
        call_ensures(drop_plan, (scores, costs, budget), keep),
        0 <= gone < scores@.len(),
        0 <= kept < scores@.len(),
        !keep@[gone],
        keep@[kept],
    ensures
        keep@.len() == scores@.len(),
        kept_cost(costs@, keep@) <= budget,
        scores@[gone] < scores@[kept] || (scores@[gone] == scores@[kept] && gone < kept),
        exists|last: int|
            {
                &&& 0 <= last < scores@.len()
                &&& !keep@[last]
                &&& kept_cost(costs@, #[trigger] keep@.update(last, true)) > budget
            },
{
    kept_items_fit_the_budget(scores@, costs@, budget as int, keep@);
    dropped_items_rank_below_kept_ones(scores@, costs@, budget as int, keep@, gone, kept);
    if scores@[gone] == scores@[kept] {
        earlier_items_go_first(scores@, costs@, budget as int, keep@, gone, kept);
    }
    no_item_goes_without_need(scores@, costs@, budget as int, keep@, gone);
}

/// A number is read back from its decimal text.
pub proof fn decimal_texts_are_read(text: &str, n: u64, got: Option<u64>)
    requires
        text@ == decimal(n as nat),
        call_ensures(parse_number, (text,), got),
    ensures
        got == Some(n),
{
    numbers_are_read_back(n as nat, seq!['+'] + decimal(n as nat));
}

/// Sorting puts keys in ascending order, keeps every item, and leaves the items of
/// one key in their order.
pub proof fn sorting_is_stable<V>(
    items: Vec<(String, V)>,
    out: Vec<(String, V)>,
    key: Seq<char>,
)
    requires
        call_ensures(sort_by_key::<V>, (items,), out),
    ensures
        keys_ascend(out@),
        out@.to_multiset() == items@.to_multiset(),
        with_key(out@, key) == with_key(items@, key),
{
    sorted_keys_ascend(items@);
    sorting_keeps_items_of_one_key_in_order(items@, key);
}

/// A layer that is built has a feature for each of the file's that can be projected
/// from the file's CRS, in their order, with its geometry, its id and its
/// properties.
pub proof fn layers_hold_the_features_of_the_file<R, G, P>(
    name: &str,
    raw: Vec<RawFeature<R>>,
    crs: SourceCrs,
    project: &P,
    layer: VectorLayer<G>,
) where P: Fn(R, SourceCrs) -> Option<G>
    requires
        call_ensures(build_layer::<R, G, P>, (name, raw, crs, project), layer),
    ensures
        layer.name@ == name@,
        exists|projected: Seq<Option<G>>|
            #![trigger are_projected(raw@, crs, *project, projected)]
            {
                &&& projected.len() == raw@.len()
                &&& forall|i: int|
                    0 <= i < raw@.len() ==> match (#[trigger] raw@[i]).geometry {
                        Some(g) => call_ensures(*project, (g, crs), projected[i]),
                        None => projected[i] is None,
                    }
                &&& layer.features@.len() == projected.filter(
                    |g: Option<G>| g is Some,
                ).len()
                &&& forall|k: int|
                    #![trigger raw@[k]]
                    0 <= k < raw@.len() && projected[k] is Some ==> is_made_of(
                        raw@[k],
                        projected[k],
                        layer.features@[projected.take(k).filter(
                            |g: Option<G>| g is Some,
                        ).len() as int],
                    )
            },
{
    let some = |g: Option<G>| g is Some;
    let projected = choose|projected: Seq<Option<G>>|
        #[trigger] are_projected(raw@, crs, *project, projected)
            && are_built_from(raw@, projected, layer.features@);
    assert forall|k: int|
        #![trigger raw@[k]]
        0 <= k < raw@.len() && projected[k] is Some implies is_made_of(
        raw@[k],
        projected[k],
        layer.features@[projected.take(k).filter(some).len() as int],
    ) by {
        features_come_from_the_file(raw@, projected, layer.features@, k);
    }
    lemma_built_count(raw@, projected, layer.features@);
    assert(layer.features@.len() == projected.filter(some).len());
}

/// A polygon is its exterior and then its holes: the first ring that is left of it
/// has a positive area and every other a negative one, and there are as many as the
/// exterior and the holes that have an area.
pub proof fn holes_follow_their_exterior(
    polygons: &Vec<RawPolygon>,
    geom: QuantizedGeom,
    i: int,
)
    requires
        polygons@.len() == 1,
        call_ensures(quantize_polygons, (polygons,), Ok(Some(geom))),
        0 <= i < geom.parts@.len(),
    ensures
        i == 0 ==> ring_area2(geom.parts@[i]@) > 0,
        i > 0 ==> ring_area2(geom.parts@[i]@) < 0,
        geom.parts@.len() == 1 + part_views(polygons@[0].interiors@).filter(
            |hole| quantized_ring(hole, false) is Some,
        ).len(),
{
    let m = polygon_models(polygons@);
    let rings = polygon_parts(m);
    let parts = part_views(geom.parts@);
    let holes = m[0].interiors;
    lemma_part_count(polygons, Some(geom));
    polygons_add_up(m, m);
    polygons_stay_polygons(m);
    every_ring_with_an_area_stays(m);
    reveal_with_fuel(ring_count, 2);
    assert(m.skip(1).len() == 0);
    assert(parts[i] == geom.parts@[i]@);
    rings_are_wound_by_role(m[0].exterior, true);
    if i > 0 {
        assert(rings[i] == rings.skip(1)[i - 1]);
        lemma_holes_are_negative(holes, i - 1);
    }
    let ring = rings[i];
    assert(parts[i] == ring || parts[i] == ring.skip(1).push(ring[0]));
    if ring.len() > 0 {
        rotation_keeps_area(ring, 1);
        assert(rotated(ring, 1) =~= ring.skip(1).push(ring[0]));
    }
}

proof fn lemma_holes_are_negative(holes: Seq<Seq<(i64, i64)>>, i: int)
    requires
        0 <= i < hole_parts(holes).len(),
    ensures
        ring_area2(hole_parts(holes)[i]) < 0,
        hole_parts(holes)[i].len() >= 3,
    decreases holes.len(),
{
    let before = hole_parts(holes.drop_last());
    rings_are_wound_by_role(holes.last(), false);
    if i < before.len() {
        lemma_holes_are_negative(holes.drop_last(), i);
        assert(hole_parts(holes)[i] == before[i]);
    }
}

proof fn lemma_named_at(items: Seq<ItemModel>, name: Seq<char>, p: int)
    requires
        0 <= p < items.len(),
        items[p].layer == name,
    ensures
        features_named(items.take(p), name).len() < features_named(items, name).len(),
        features_named(items, name)[features_named(items.take(p), name).len() as int]
            == item_feature(items[p]),
    decreases items.len(),
{
    let rest = items.drop_last();
    if p < rest.len() {
        lemma_named_at(rest, name, p);
        assert(rest.take(p) =~= items.take(p));
    } else {
        assert(rest =~= items.take(p));
    }
}

/// The feature holds what the item is made of: the words of its very points, its id,
/// and its properties that have a value, in their order.
pub open spec fn holds_item<'a>(feature: FeatureModel, item: EncodedFeature<'a>) -> bool {
    &&& feature.kind == item.geom.kind
    &&& feature.id == item.id
    &&& feature.tags == Seq::new(
        item.properties@.len(),
        |i: int| (item.properties@[i].0@, attribute(item.properties@[i].1)),
    ).filter(|p: (Seq<char>, ValueModel)| !(p.1 is Null))
    &&& exists|given: Seq<Seq<(i32, i32)>>|
        {
            &&& feature.words == #[trigger] geometry_words(item.geom.kind, given)
            &&& same_points(part_views(item.geom.parts@), given)
        }
}

/// A tile that is held to no budget and not gzipped is the bytes of layers of the
/// asked extent, of which each item is in the one of its name.
pub proof fn packed_tiles_hold_every_item<'a>(
    items: Vec<EncodedFeature<'a>>,
    opts: &MvtOptions,
    tile: Result<Option<Vec<u8>>, Error>,
)
    requires
        items_wf(items@),
        !opts.drop_densest,
        !opts.compress,
        call_ensures(pack_tile, (items, opts), tile),
    ensures
        items@.len() == 0 ==> tile == Ok::<Option<Vec<u8>>, Error>(None),
        items@.len() > 0 ==> exists|layers: Seq<LayerModel>|
            {
                &&& tile matches Ok(Some(v)) && v@ == #[trigger] tile_bytes(opts.extent, layers)
                &&& forall|j: int, k: int|
                    0 <= j < k < layers.len() ==> (#[trigger] layers[j]).name != (
                    #[trigger] layers[k]).name
                &&& forall|k: int| 0 <= k < layers.len() ==> (#[trigger] layers[k]).extent
                    == opts.extent
                &&& forall|p: int|
                    #![trigger items@[p]]
                    0 <= p < items@.len() ==> exists|k: int, f: int|
                        {
                            &&& 0 <= k < layers.len()
                            &&& layers[k].name == items@[p].layer@
                            &&& 0 <= f < layers[k].features.len()
                            &&& holds_item(#[trigger] layers[k].features[f], items@[p])
                        }
            },
{
    let m = item_models(items@);
    packed_tiles_hold_what_stays(m, *opts, tile);
    let kept = choose|kept: Seq<ItemModel>|
        {
            let raw = tile_bytes(opts.extent, tile_layers_of(kept, opts.extent));
            &&& #[trigger] is_selection(m, *opts, kept)
            &&& match tile {
                Ok(None) => kept.len() == 0,
                Ok(Some(v)) => kept.len() > 0 && if opts.compress {
                    gzip_compressed(raw) == Some(v@)
                } else {
                    v@ == raw
                },
                Err(e) => kept.len() > 0 && opts.compress && gzip_compressed(raw) is None && e
                    == Error::Encode(EncodeStep::Gzip),
            }
        };
    assert(kept == m);
    let layers = tile_layers_of(m, opts.extent);
    tiles_have_a_layer_for_each_name(m, opts.extent);
    assert forall|p: int|
        #![trigger items@[p]]
        0 <= p < items@.len() implies exists|k: int, f: int|
        {
            &&& 0 <= k < layers.len()
            &&& layers[k].name == items@[p].layer@
            &&& 0 <= f < layers[k].features.len()
            &&& holds_item(#[trigger] layers[k].features[f], items@[p])
        } by {
        let item = items@[p];
        assert(m[p] == item@);
        let k = choose|k: int| 0 <= k < layers.len() && (#[trigger] layers[k]).name == m[p].layer;
        let name = layers[k].name;
        assert(layers[k].features == features_named(m, name));
        let f = features_named(m.take(p), name).len() as int;
        lemma_named_at(m, name, p);
        features_are_their_items(m[p]);
        let parts = part_views(item.geom.parts@);
        let given = narrow_parts(parts);
        assert(item.wf());
        encoded_points_keep_their_coordinates(item.geom.kind, parts, given);
        assert(property_models(item.properties@) =~= Seq::new(
            item.properties@.len(),
            |i: int| (item.properties@[i].0@, attribute(item.properties@[i].1)),
        ));
        assert(m[p].words == geometry_words(item.geom.kind, given));
        assert(holds_item(layers[k].features[f], item));
    }
    if items@.len() > 0 {
        assert(tile matches Ok(Some(v)) && v@ == tile_bytes(opts.extent, layers));
    }
}

/// What is left of features that are thinned to a budget is within it by its
/// estimate, four bytes for each word, and is all of them where they are.
pub proof fn thinned_features_fit_the_budget<'a>(
    items: Vec<EncodedFeature<'a>>,
    budget: usize,
    rest: Vec<EncodedFeature<'a>>,
)
    requires
        items_wf(items@),
        call_ensures(drop_densest, (items, budget), rest),
    ensures
        estimate(item_models(rest@)) <= budget,
        estimate(item_models(items@)) <= budget ==> item_models(rest@) == item_models(items@),
{
    let m = item_models(items@);
    assert forall|i: int| 0 <= i < m.len() implies (#[trigger] m[i]).words.len() <= usize::MAX by {
        assert(items@[i].wf());
        assert(m[i] == items@[i]@);
    }
    thinned_tiles_fit_the_budget(m, budget as int, item_models(rest@));
}

/// A vector tile is made of what clipping gives for every feature of every layer at
/// this tile, in the order of the layers and features, or fails as the first of
/// them that cannot be held.
pub proof fn vector_tiles_are_made_of_every_feature<G, C>(
    source: &VectorSource<G>,
    opts: &MvtOptions,
    coord: TileCoord,
    clip: &C,
    tile: Result<Option<Vec<u8>>, Error>,
) where C: Fn(TileCoord, &G) -> InTile
    requires
        call_ensures(render_mvt_tile::<G, C>, (source, opts, coord, clip), tile),
    ensures
        exists|seen: Seq<Vec<InTile>>|
            {
                &&& seen.len() == source.layers@.len()
                &&& forall|k: int, n: int|
                    #![trigger seen[k]@[n]]
                    0 <= k < seen.len() && 0 <= n < source.layers@[k].features@.len() ==> n
                        < seen[k]@.len() && call_ensures(
                        *clip,
                        (coord, &source.layers@[k].features@[n].geometry),
                        seen[k]@[n],
                    )
                &&& match #[trigger] source_items(
                    source.layers@,
                    seen,
                    source.layers@.len() as int,
                ) {
                    Ok(items) => is_packed(items, *opts, tile),
                    Err(e) => tile matches Err(got) && got == e,
                }
            },
        opts.drop_densest && opts.max_tile_bytes > 0 && !opts.compress ==> (tile matches Ok(Some(v))
            ==> v@.len() <= opts.max_tile_bytes),
{
    tiles_see_every_feature(source.layers@, *opts, *clip, coord, tile);
}

/// A source of a file has one layer, under the name that is given, with features of
/// the file projected from the CRS that is asked for or told; it is never empty.
pub proof fn sources_begin_with_one_layer<R, G, P>(
    layer_name: &str,
    raw: Vec<RawFeature<R>>,
    crs_override: Option<SourceCrs>,
    fits_degrees: bool,
    fits_meters: bool,
    project: &P,
    source: VectorSource<G>,
) where P: Fn(R, SourceCrs) -> Option<G>
    requires
        call_ensures(
            VectorSource::<G>::from_collection::<R, P>,
            (layer_name, raw, crs_override, fits_degrees, fits_meters, project),
            Ok(source),
        ),
    ensures
        source.layers@.len() == 1,
        source.layers@[0].name@ == layer_name@,
        source.layers@[0].features@.len() > 0,
        crs_override is Some || fits_degrees || fits_meters,
        exists|crs: SourceCrs|
            {
                &&& #[trigger] is_layer_of(layer_name@, raw@, crs, *project, source.layers@[0])
                &&& crs_override is Some ==> crs_override == Some(crs)
                &&& crs_override is None && fits_degrees ==> crs == SourceCrs::LonLat
                &&& crs_override is None && !fits_degrees ==> crs == SourceCrs::Mercator
            },
{
    vector_crs_is_told_in_order(crs_override, fits_degrees, fits_meters);
    let crs = vector_crs_spec(crs_override, fits_degrees, fits_meters)->Ok_0;
    let layer = choose|layer: VectorLayer<G>|
        #[trigger] is_layer_of(layer_name@, raw@, crs, *project, layer)
            && layer.features@.len() > 0 && source.layers@ == seq![layer];
    assert(source.layers@[0] == layer);
}

} // verus!
