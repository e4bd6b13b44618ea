//! Mapbox Vector Tile encoding with the `mvt` crate.

use mvt::{Feature, GeomData, GeomEncoder, GeomType, Layer, Tile};
use surtgis_core::vector::AttributeValue;
use vstd::prelude::*;

use crate::geometry::GeomKind;

verus! {

/// Encoded geometry of the `mvt` crate.
#[verifier::external_type_specification]
#[verifier::external_body]
pub struct ExGeomData(mvt::GeomData);

/// A vector tile under construction of the `mvt` crate.
#[verifier::external_type_specification]
#[verifier::external_body]
pub struct ExTile(mvt::Tile);

/// A layer under construction of the `mvt` crate.
#[verifier::external_type_specification]
#[verifier::external_body]
pub struct ExLayer(mvt::Layer);

/// A feature under construction of the `mvt` crate, with its layer.
#[verifier::external_type_specification]
#[verifier::external_body]
pub struct ExFeature(mvt::Feature);

/// An attribute of a feature, as `surtgis-core` reads it.
#[verifier::external_type_specification]
#[verifier::external_body]
pub struct ExAttributeValue(surtgis_core::vector::AttributeValue);

/// What an attribute holds. A float is given by its bit pattern.
pub enum ValueModel {
    Null,
    Bool(bool),
    Int(i64),
    Float(u64),
    Text(Seq<char>),
}

/// A feature of a tile: its geometry, its id and its tags in order.
pub struct FeatureModel {
    pub kind: GeomKind,
    pub words: Seq<u32>,
    pub id: Option<u64>,
    pub tags: Seq<(Seq<char>, ValueModel)>,
}

/// A layer of a tile: its name, the extent of its coordinates and its
/// features in order.
pub struct LayerModel {
    pub name: Seq<char>,
    pub extent: u32,
    pub features: Seq<FeatureModel>,
}

/// A geometry encoder of the `mvt` crate, on integer coordinates.
#[verifier::external_body]
pub struct PartEncoder {
    inner: GeomEncoder<i32>,
}

/// The kind of geometry that an encoder was made for.
pub uninterp spec fn encoder_kind(encoder: PartEncoder) -> GeomKind;

/// The points that an encoder was given, part by part.
pub uninterp spec fn encoder_parts(encoder: PartEncoder) -> Seq<Seq<(i32, i32)>>;

/// The kind of an encoded geometry.
pub uninterp spec fn data_kind(data: GeomData) -> GeomKind;

/// The command and parameter words of an encoded geometry.
pub uninterp spec fn data_words(data: GeomData) -> Seq<u32>;

/// The words that `mvt::GeomEncoder::encode` makes of a geometry.
pub uninterp spec fn geometry_words(kind: GeomKind, parts: Seq<Seq<(i32, i32)>>) -> Seq<u32>;

/// What an attribute holds.
pub uninterp spec fn attribute(value: AttributeValue) -> ValueModel;

/// What a layer under construction holds.
pub uninterp spec fn layer_model(layer: Layer) -> LayerModel;

/// What a feature under construction holds.
pub uninterp spec fn feature_model(feature: Feature) -> FeatureModel;

/// The layer that a feature under construction belongs to, without it.
pub uninterp spec fn feature_layer(feature: Feature) -> LayerModel;

/// The extent that a tile was made with.
pub uninterp spec fn tile_extent(tile: Tile) -> u32;

/// The layers that a tile holds.
pub uninterp spec fn tile_layers(tile: Tile) -> Seq<LayerModel>;

/// The bytes that `mvt::Tile::to_bytes` makes of a tile.
pub uninterp spec fn tile_bytes(extent: u32, layers: Seq<LayerModel>) -> Seq<u8>;

/// The number of points in all parts.
pub open spec fn point_total(parts: Seq<Seq<(i32, i32)>>) -> nat
    decreases parts.len(),
{
    if parts.len() == 0 {
        0
    } else {
        point_total(parts.drop_last()) + parts.last().len()
    }
}

/// The segment from the end of `part` to `point` has one end in the last column
/// and one end in the last row of 32-bit coordinates, and one end in their first
/// column or their first row.
pub open spec fn spans_all(part: Seq<(i32, i32)>, point: (i32, i32)) -> bool {
    &&& part.len() > 0
    &&& (part.last().0 == i32::MAX) != (point.0 == i32::MAX)
    &&& (part.last().1 == i32::MAX) != (point.1 == i32::MAX)
    &&& part.last().0 == i32::MIN || point.0 == i32::MIN || part.last().1 == i32::MIN || point.1
        == i32::MIN
}

/// `mvt::GeomEncoder::new`: an encoder without points, at its first part.
#[verifier::external_body]
pub(crate) fn new_encoder(kind: GeomKind) -> (encoder: PartEncoder)
    ensures
        encoder_kind(encoder) == kind,
        encoder_parts(encoder) == seq![Seq::<(i32, i32)>::empty()],
{
    let tp = match kind {
        GeomKind::Point => GeomType::Point,
        GeomKind::Linestring => GeomType::Linestring,
        GeomKind::Polygon => GeomType::Polygon,
    };
    PartEncoder { inner: GeomEncoder::new(tp) }
}

/// `mvt::GeomEncoder::add_point`: the point joins the current part.
///
/// An integer point is always accepted. A segment is clipped to the encoder's
/// box, which is empty and cuts nothing off. On one that spans all columns or
/// all rows to the last of both, that clipping can overflow: such a segment and
/// a count past 32 bits are left out.
#[verifier::external_body]
pub(crate) fn add_point(encoder: &mut PartEncoder, x: i32, y: i32)
    requires
        encoder_kind(*old(encoder)) != GeomKind::Point ==> !spans_all(
            encoder_parts(*old(encoder)).last(),
            (x, y),
        ),
        point_total(encoder_parts(*old(encoder))) < u32::MAX,
        encoder_parts(*old(encoder)).len() > 0,
    ensures
        encoder_kind(*final(encoder)) == encoder_kind(*old(encoder)),
        encoder_parts(*final(encoder)) == encoder_parts(*old(encoder)).drop_last().push(
            encoder_parts(*old(encoder)).last().push((x, y)),
        ),
{
    let _ = encoder.inner.add_point(x, y);
}

/// `mvt::GeomEncoder::complete_geom`: the next point begins a new part.
///
/// It always succeeds, but does not return for points of which there is none.
#[verifier::external_body]
pub(crate) fn complete_geom(encoder: &mut PartEncoder)
    requires
        encoder_kind(*old(encoder)) == GeomKind::Point ==> point_total(
            encoder_parts(*old(encoder)),
        ) > 0,
    ensures
        encoder_kind(*final(encoder)) == encoder_kind(*old(encoder)),
        encoder_parts(*final(encoder)) == encoder_parts(*old(encoder)).push(Seq::empty()),
{
    let _ = encoder.inner.complete_geom();
}

/// `mvt::GeomEncoder::encode`: the words of the whole geometry.
///
/// It always succeeds, but does not return for points of which there is none.
#[verifier::external_body]
pub(crate) fn encode(encoder: PartEncoder) -> (data: Option<GeomData>)
    requires
        encoder_kind(encoder) == GeomKind::Point ==> point_total(encoder_parts(encoder)) > 0,
    ensures
        data is Some,
        data_kind(data->Some_0) == encoder_kind(encoder),
        data_words(data->Some_0) == geometry_words(encoder_kind(encoder), encoder_parts(encoder)),
{
    encoder.inner.encode().ok()
}

/// `mvt::GeomData::len`: the number of words.
#[verifier::external_body]
pub(crate) fn word_count(data: &GeomData) -> (n: usize)
    ensures
        n == data_words(*data).len(),
{
    data.len()
}

/// `mvt::GeomData::is_empty`: there is no word.
#[verifier::external_body]
pub(crate) fn has_no_words(data: &GeomData) -> (empty: bool)
    ensures
        empty == (data_words(*data).len() == 0),
{
    data.is_empty()
}

/// An attribute's value where it is no float.
pub enum Value<'a> {
    Null,
    Bool(bool),
    Int(i64),
    Float,
    Text(&'a str),
}

/// Tells the variants of `surtgis_core::vector::AttributeValue` apart.
#[verifier::external_body]
pub(crate) fn value_of<'a>(value: &'a AttributeValue) -> (v: Value<'a>)
    ensures
        match v {
            Value::Null => attribute(*value) == ValueModel::Null,
            Value::Bool(b) => attribute(*value) == ValueModel::Bool(b),
            Value::Int(i) => attribute(*value) == ValueModel::Int(i),
            Value::Float => attribute(*value) is Float,
            Value::Text(s) => attribute(*value) == ValueModel::Text(s@),
        },
{
    match value {
        AttributeValue::Null => Value::Null,
        AttributeValue::Bool(b) => Value::Bool(*b),
        AttributeValue::Int(i) => Value::Int(*i),
        AttributeValue::Float(_) => Value::Float,
        AttributeValue::String(s) => Value::Text(s),
    }
}

/// `mvt::Tile::new`: a tile without layers.
#[verifier::external_body]
pub(crate) fn new_tile(extent: u32) -> (tile: Tile)
    ensures
        tile_extent(tile) == extent,
        tile_layers(tile) == Seq::<LayerModel>::empty(),
{
    Tile::new(extent)
}

/// `mvt::Tile::create_layer`: a layer without features, of the tile's extent.
#[verifier::external_body]
pub(crate) fn create_layer(tile: &Tile, name: &str) -> (layer: Layer)
    ensures
        layer_model(layer) == (LayerModel {
            name: name@,
            extent: tile_extent(*tile),
            features: Seq::empty(),
        }),
{
    tile.create_layer(name)
}

/// `mvt::Tile::add_layer`: the layer joins the tile unless its extent is
/// another or its name is taken.
#[verifier::external_body]
pub(crate) fn add_layer(tile: &mut Tile, layer: Layer) -> (added: bool)
    ensures
        added <==> layer_model(layer).extent == tile_extent(*old(tile)) && forall|i: int|
            0 <= i < tile_layers(*old(tile)).len() ==> (#[trigger] tile_layers(
                *old(tile),
            )[i]).name != layer_model(layer).name,
        tile_extent(*final(tile)) == tile_extent(*old(tile)),
        tile_layers(*final(tile)) == if added {
            tile_layers(*old(tile)).push(layer_model(layer))
        } else {
            tile_layers(*old(tile))
        },
{
    tile.add_layer(layer).is_ok()
}

/// `mvt::Tile::to_bytes`: the tile as a protobuf message. It always succeeds.
#[verifier::external_body]
pub(crate) fn to_bytes(tile: &Tile) -> (bytes: Option<Vec<u8>>)
    ensures
        bytes is Some,
        bytes->Some_0@ == tile_bytes(tile_extent(*tile), tile_layers(*tile)),
{
    tile.to_bytes().ok()
}

/// `mvt::Layer::into_feature`: a feature without id and tags, which takes the
/// layer with it.
#[verifier::external_body]
pub(crate) fn into_feature(layer: Layer, data: GeomData) -> (feature: Feature)
    ensures
        feature_layer(feature) == layer_model(layer),
        feature_model(feature) == (FeatureModel {
            kind: data_kind(data),
            words: data_words(data),
            id: None,
            tags: Seq::empty(),
        }),
{
    layer.into_feature(data)
}

/// `mvt::Feature::into_layer`: the layer with the feature added.
#[verifier::external_body]
pub(crate) fn into_layer(feature: Feature) -> (layer: Layer)
    ensures
        layer_model(layer) == (LayerModel {
            name: feature_layer(feature).name,
            extent: feature_layer(feature).extent,
            features: feature_layer(feature).features.push(feature_model(feature)),
        }),
{
    feature.into_layer()
}

/// `mvt::Feature::set_id`.
#[verifier::external_body]
pub(crate) fn set_id(feature: &mut Feature, id: u64)
    ensures
        feature_layer(*final(feature)) == feature_layer(*old(feature)),
        feature_model(*final(feature)) == (FeatureModel {
            id: Some(id),
            ..feature_model(*old(feature))
        }),
{
    feature.set_id(id)
}

/// A feature with one more tag.
pub open spec fn tagged(feature: FeatureModel, key: Seq<char>, value: ValueModel) -> FeatureModel {
    FeatureModel { tags: feature.tags.push((key, value)), ..feature }
}

/// `mvt::Feature::add_tag_bool`.
#[verifier::external_body]
pub(crate) fn tag_bool(feature: &mut Feature, key: &str, value: bool)
    ensures
        feature_layer(*final(feature)) == feature_layer(*old(feature)),
        feature_model(*final(feature)) == tagged(
            feature_model(*old(feature)),
            key@,
            ValueModel::Bool(value),
        ),
{
    feature.add_tag_bool(key, value)
}

/// `mvt::Feature::add_tag_int`.
#[verifier::external_body]
pub(crate) fn tag_int(feature: &mut Feature, key: &str, value: i64)
    ensures
        feature_layer(*final(feature)) == feature_layer(*old(feature)),
        feature_model(*final(feature)) == tagged(
            feature_model(*old(feature)),
            key@,
            ValueModel::Int(value),
        ),
{
    feature.add_tag_int(key, value)
}

/// `mvt::Feature::add_tag_double`, with the float of an attribute.
#[verifier::external_body]
pub(crate) fn tag_double(feature: &mut Feature, key: &str, value: &AttributeValue)
    requires
        attribute(*value) is Float,
    ensures
        feature_layer(*final(feature)) == feature_layer(*old(feature)),
        feature_model(*final(feature)) == tagged(
            feature_model(*old(feature)),
            key@,
            attribute(*value),
        ),
{
    if let AttributeValue::Float(f) = value {
        feature.add_tag_double(key, *f)
    }
}

/// `mvt::Feature::add_tag_string`.
#[verifier::external_body]
pub(crate) fn tag_string(feature: &mut Feature, key: &str, value: &str)
    ensures
        feature_layer(*final(feature)) == feature_layer(*old(feature)),
        feature_model(*final(feature)) == tagged(
            feature_model(*old(feature)),
            key@,
            ValueModel::Text(value@),
        ),
{
    feature.add_tag_string(key, value)
}

/// The points of two lists of parts are counted together; a single part has as
/// many as it is long.
pub proof fn points_add_up(a: Seq<Seq<(i32, i32)>>, b: Seq<Seq<(i32, i32)>>)
    ensures
        point_total(a + b) == point_total(a) + point_total(b),
        a.len() == 1 ==> point_total(a) == a[0].len(),
    decreases b.len(),
{
    if b.len() == 0 {
        assert(a + b =~= a);
    } else {
        points_add_up(a, b.drop_last());
        assert((a + b).drop_last() =~= a + b.drop_last());
    }
    if a.len() == 1 {
        assert(point_total(a.drop_last()) == 0);
    }
}

} // verus!
