//! The description of vector layers in a tileset's metadata.

use vstd::prelude::*;

use crate::encoder::{attribute, value_of, Value, ValueModel};
use crate::text::{
    comes_before, decimal, joined, joined_parts_are_said, lemma_says, parts_are_said,
    push_decimal, quote, quoted, same_text, says, text_less, text_order_is_total,
};
use crate::vector::{property_models, VectorFeature, VectorLayer, VectorSource};
use crate::vector_tile::MvtOptions;

verus! {

/// The type of a field.
#[derive(Debug, Clone, Copy, PartialEq, Eq, Structural)]
pub enum FieldType {
    Boolean,
    Number,
    Text,
}

/// A field of a layer.
pub struct Field {
    pub name: String,
    pub ty: FieldType,
}

/// The type that a value shows; `None` of no value.
pub open spec fn type_of(value: ValueModel) -> Option<FieldType> {
    match value {
        ValueModel::Null => None,
        ValueModel::Bool(_) => Some(FieldType::Boolean),
        ValueModel::Int(_) => Some(FieldType::Number),
        ValueModel::Float(_) => Some(FieldType::Number),
        ValueModel::Text(_) => Some(FieldType::Text),
    }
}

/// The type of the first value under `key`.
pub open spec fn first_type(properties: Seq<(Seq<char>, ValueModel)>, key: Seq<char>) -> Option<
    FieldType,
>
    decreases properties.len(),
{
    if properties.len() == 0 {
        None
    } else {
        match first_type(properties.drop_last(), key) {
            Some(ty) => Some(ty),
            None => if properties.last().0 == key {
                type_of(properties.last().1)
            } else {
                None
            },
        }
    }
}

/// The properties of the first `n` features, one after the other.
pub open spec fn all_properties<G>(features: Seq<VectorFeature<G>>, n: int) -> Seq<
    (Seq<char>, ValueModel),
>
    decreases n,
{
    if n <= 0 {
        Seq::empty()
    } else {
        all_properties(features, n - 1) + property_models(features[n - 1].properties@)
    }
}

/// The name and the type of each field.
pub open spec fn field_models(fields: Seq<Field>) -> Seq<(Seq<char>, FieldType)> {
    fields.map_values(|f: Field| (f.name@, f.ty))
}

/// `fields` are the keys that have a value, each once, in ascending order,
/// with the type of its first value.
pub open spec fn are_fields(
    properties: Seq<(Seq<char>, ValueModel)>,
    fields: Seq<(Seq<char>, FieldType)>,
) -> bool {
    &&& forall|i: int, j: int|
        0 <= i < j < fields.len() ==> text_less((#[trigger] fields[i]).0, (#[trigger] fields[j]).0)
    &&& forall|i: int|
        0 <= i < fields.len() ==> first_type(properties, (#[trigger] fields[i]).0) == Some(
            fields[i].1,
        )
    &&& forall|key: Seq<char>| #[trigger]
        first_type(properties, key) is Some ==> exists|i: int|
            0 <= i < fields.len() && (#[trigger] fields[i]).0 == key
}

/// Notes that the next property has `key` and shows the type `ty`.
fn note_field(
    fields: &mut Vec<Field>,
    key: &str,
    ty: FieldType,
    Ghost(properties): Ghost<Seq<(Seq<char>, ValueModel)>>,
    Ghost(value): Ghost<ValueModel>,
)
    requires
        are_fields(properties, field_models(old(fields)@)),
        type_of(value) == Some(ty),
    ensures
        are_fields(properties.push((key@, value)), field_models(final(fields)@)),
{
    let ghost before = field_models(fields@);
    let mut p: usize = fields.len();
    while p > 0 && comes_before(key, fields[p - 1].name.as_str())
        invariant
            p <= fields@.len(),
            before == field_models(fields@),
            forall|i: int| p <= i < fields@.len() ==> text_less(key@, (#[trigger] before[i]).0),
        decreases p,
    {
        p = p - 1;
        assert(before[p as int].0 == fields@[p as int].name@);
    }
    let known: bool = p > 0 && same_text(key, fields[p - 1].name.as_str());
    proof {
        if p > 0 {
            assert(before[p - 1].0 == fields@[p - 1].name@);
            text_order_is_total(key@, before[p - 1].0, before[p - 1].0);
        }
    }
    if !known {
        fields.insert(p, Field { name: key.to_owned(), ty });
    }
    proof {
        let after = field_models(fields@);
        let more = properties.push((key@, value));
        assert(more.drop_last() =~= properties);
        if known {
            assert(after =~= before);
        } else {
            assert(after =~= before.insert(p as int, (key@, ty)));
            assert(first_type(properties, key@) is None) by {
                if first_type(properties, key@) is Some {
                    let i = choose|i: int| 0 <= i < before.len() && (#[trigger] before[i]).0 == key@;
                    if i < p - 1 {
                        assert(text_less(before[i].0, before[p - 1].0));
                    } else if i >= p {
                        text_order_is_total(key@, key@, key@);
                    }
                }
            }
        }
        assert forall|i: int, j: int| 0 <= i < j < after.len() implies text_less(
            (#[trigger] after[i]).0,
            (#[trigger] after[j]).0,
        ) by {
            if !known {
                if j == p {
                    if i < p - 1 {
                        assert(text_less(before[i].0, before[p - 1].0));
                        text_order_is_total(before[i].0, before[p - 1].0, key@);
                    }
                } else if i == p {
                    assert(after[j] == before[j - 1]);
                } else {
                    let a = if i < p { i } else { i - 1 };
                    let b = if j < p { j } else { j - 1 };
                    assert(after[i] == before[a] && after[j] == before[b]);
                }
            }
        }
        assert forall|i: int| 0 <= i < after.len() implies first_type(
            more,
            (#[trigger] after[i]).0,
        ) == Some(after[i].1) by {
            if known || i < p {
                assert(after[i] == before[i]);
            } else if i > p {
                assert(after[i] == before[i - 1]);
            }
        }
        assert forall|k: Seq<char>| #[trigger] first_type(more, k) is Some implies exists|i: int|
            0 <= i < after.len() && (#[trigger] after[i]).0 == k by {
            if first_type(properties, k) is Some {
                let i = choose|i: int| 0 <= i < before.len() && (#[trigger] before[i]).0 == k;
                if known || i < p {
                    assert(after[i].0 == k);
                } else {
                    assert(after[i + 1].0 == k);
                }
            } else {
                assert(k == key@);
                if known {
                    assert(after[p - 1].0 == k);
                } else {
                    assert(after[p as int].0 == k);
                }
            }
        }
    }
}

proof fn lemma_null_changes_nothing(
    properties: Seq<(Seq<char>, ValueModel)>,
    key: Seq<char>,
    fields: Seq<(Seq<char>, FieldType)>,
)
    requires
        are_fields(properties, fields),
    ensures
        are_fields(properties.push((key, ValueModel::Null)), fields),
{
    let more = properties.push((key, ValueModel::Null));
    assert(more.drop_last() =~= properties);
    assert forall|k: Seq<char>| #[trigger] first_type(more, k) is Some implies exists|i: int|
        0 <= i < fields.len() && (#[trigger] fields[i]).0 == k by {
        assert(first_type(properties, k) is Some);
    }
}

/// The fields of a layer, ordered by name, with the type of the first value
/// seen of each.
pub fn layer_fields<G>(layer: &VectorLayer<G>) -> (fields: Vec<Field>)
    ensures
        are_fields(
            all_properties(layer.features@, layer.features@.len() as int),
            field_models(fields@),
        ),
{
    let mut fields: Vec<Field> = Vec::new();
    for n in 0..layer.features.len()
        invariant
            are_fields(all_properties(layer.features@, n as int), field_models(fields@)),
    {
        let properties = &layer.features[n].properties;
        let ghost before = all_properties(layer.features@, n as int);
        let ghost models = property_models(properties@);
        assert(before + models.take(0) =~= before);
        for i in 0..properties.len()
            invariant
                models == property_models(properties@),
                are_fields(before + models.take(i as int), field_models(fields@)),
        {
            let ghost so_far = before + models.take(i as int);
            let ghost value = attribute(properties@[i as int].1);
            proof {
                assert(models[i as int] == (properties@[i as int].0@, value));
                assert(before + models.take(i + 1) =~= so_far.push(models[i as int]));
            }
            let key: &str = properties[i].0.as_str();
            match value_of(&properties[i].1) {
                Value::Bool(_) => note_field(
                    &mut fields,
                    key,
                    FieldType::Boolean,
                    Ghost(so_far),
                    Ghost(value),
                ),
                Value::Int(_) => note_field(
                    &mut fields,
                    key,
                    FieldType::Number,
                    Ghost(so_far),
                    Ghost(value),
                ),
                Value::Float => note_field(
                    &mut fields,
                    key,
                    FieldType::Number,
                    Ghost(so_far),
                    Ghost(value),
                ),
                Value::Text(_) => note_field(
                    &mut fields,
                    key,
                    FieldType::Text,
                    Ghost(so_far),
                    Ghost(value),
                ),
                Value::Null => {
                    proof {
                        lemma_null_changes_nothing(so_far, key@, field_models(fields@));
                    }
                },
            }
        }
        assert(models.take(models.len() as int) =~= models);
    }
    fields
}

/// The label of a type.
pub open spec fn type_label(ty: FieldType) -> Seq<char> {
    match ty {
        FieldType::Boolean => "Boolean"@,
        FieldType::Number => "Number"@,
        FieldType::Text => "String"@,
    }
}

/// A field as a JSON member.
pub open spec fn field_json(field: (Seq<char>, FieldType)) -> Seq<char> {
    quoted(field.0) + ": \""@ + type_label(field.1) + "\""@
}

/// A layer as a JSON object.
pub open spec fn layer_json(
    name: Seq<char>,
    min_zoom: u8,
    max_zoom: u8,
    fields: Seq<(Seq<char>, FieldType)>,
) -> Seq<char> {
    "{\"id\": "@ + quoted(name) + ", \"minzoom\": "@ + decimal(min_zoom as nat)
        + ", \"maxzoom\": "@ + decimal(max_zoom as nat) + ", \"fields\": {"@ + joined(
        fields.map_values(|f: (Seq<char>, FieldType)| field_json(f)),
        ", "@,
    ) + "}}"@
}

/// The layers as a JSON object.
pub open spec fn layers_json(layers: Seq<Seq<char>>) -> Seq<char> {
    "{\"vector_layers\": ["@ + joined(layers, ", "@) + "]}"@
}

fn push_field(out: &mut String, field: &Field)
    ensures
        final(out)@ == old(out)@ + field_json((field.name@, field.ty)),
{
    let name: String = quote(field.name.as_str());
    let label: &str = match field.ty {
        FieldType::Boolean => "Boolean",
        FieldType::Number => "Number",
        FieldType::Text => "String",
    };
    out.append(name.as_str());
    out.append(": \"");
    out.append(label);
    out.append("\"");
    assert(out@ =~= old(out)@ + field_json((field.name@, field.ty)));
}

/// `text` describes the layer.
pub open spec fn is_described<G>(
    layer: VectorLayer<G>,
    min_zoom: u8,
    max_zoom: u8,
    text: Seq<char>,
) -> bool {
    exists|fields: Seq<(Seq<char>, FieldType)>|
        #[trigger] are_fields(
            all_properties(layer.features@, layer.features@.len() as int),
            fields,
        ) && text == layer_json(layer.name@, min_zoom, max_zoom, fields)
}

/// A layer's description.
fn describe_layer<G>(layer: &VectorLayer<G>, min_zoom: u8, max_zoom: u8) -> (out: String)
    ensures
        is_described(*layer, min_zoom, max_zoom, out@),
{
    let fields: Vec<Field> = layer_fields(layer);
    let ghost m = field_models(fields@);
    let ghost parts = m.map_values(|f: (Seq<char>, FieldType)| field_json(f));
    let name: String = quote(layer.name.as_str());
    let mut out: String = "{\"id\": ".to_owned();
    out.append(name.as_str());
    out.append(", \"minzoom\": ");
    push_decimal(&mut out, min_zoom as u64);
    out.append(", \"maxzoom\": ");
    push_decimal(&mut out, max_zoom as u64);
    out.append(", \"fields\": {");
    let ghost head = out@;
    for i in 0..fields.len()
        invariant
            m == field_models(fields@),
            parts == m.map_values(|f: (Seq<char>, FieldType)| field_json(f)),
            out@ == head + joined(parts.take(i as int), ", "@),
    {
        let ghost before = out@;
        proof {
            assert(parts.take(i + 1).drop_last() =~= parts.take(i as int));
            assert(parts[i as int] == field_json((fields@[i as int].name@, fields@[i as int].ty)));
            assert(parts.take(i + 1).last() == parts[i as int]);
        }
        if i > 0 {
            out.append(", ");
        }
        push_field(&mut out, &fields[i]);
        assert(out@ =~= head + joined(parts.take(i + 1), ", "@));
    }
    assert(parts.take(parts.len() as int) =~= parts);
    out.append("}}");
    assert(out@ =~= layer_json(layer.name@, min_zoom, max_zoom, m));
    out
}

/// Each text describes the layer in its place.
pub open spec fn describe<G>(
    layers: Seq<VectorLayer<G>>,
    min_zoom: u8,
    max_zoom: u8,
    texts: Seq<Seq<char>>,
) -> bool {
    &&& texts.len() == layers.len()
    &&& forall|k: int|
        0 <= k < layers.len() ==> is_described(layers[k], min_zoom, max_zoom, #[trigger] texts[k])
}

/// The description of a source's layers that the metadata of a vector tileset
/// holds: of each layer its id, its zoom range and its fields.
pub fn vector_layers_json<G>(source: &VectorSource<G>, opts: &MvtOptions) -> (out: String)
    ensures
        exists|texts: Seq<Seq<char>>|
            #[trigger] describe(source.layers@, opts.min_zoom, opts.max_zoom, texts) && out@
                == layers_json(texts),
{
    let ghost mut texts: Seq<Seq<char>> = Seq::empty();
    let mut out: String = "{\"vector_layers\": [".to_owned();
    let ghost head = out@;
    for k in 0..source.layers.len()
        invariant
            texts.len() == k,
            describe(source.layers@.take(k as int), opts.min_zoom, opts.max_zoom, texts),
            out@ == head + joined(texts, ", "@),
    {
        let text: String = describe_layer(&source.layers[k], opts.min_zoom, opts.max_zoom);
        let ghost before = texts;
        proof {
            texts = before.push(text@);
            assert(texts.drop_last() =~= before);
            let now = source.layers@.take(k + 1);
            assert forall|j: int| 0 <= j < now.len() implies is_described(
                now[j],
                opts.min_zoom,
                opts.max_zoom,
                #[trigger] texts[j],
            ) by {
                if j < k {
                    assert(source.layers@.take(k as int)[j] == now[j]);
                    assert(texts[j] == before[j]);
                }
            }
        }
        if k > 0 {
            out.append(", ");
        }
        out.append(text.as_str());
        assert(out@ =~= head + joined(texts, ", "@));
    }
    assert(source.layers@.take(source.layers@.len() as int) =~= source.layers@);
    out.append("]}");
    assert(out@ =~= layers_json(texts));
    out
}

/// The type of a key is that of its first value: what comes behind a value of the
/// key does not change it. Properties without a value, and those of other keys, do
/// not count. Integers and floats are numbers.
pub proof fn the_first_value_tells_the_type(
    a: Seq<(Seq<char>, ValueModel)>,
    b: Seq<(Seq<char>, ValueModel)>,
    key: Seq<char>,
)
    ensures
        first_type(a, key) is Some ==> first_type(a + b, key) == first_type(a, key),
        first_type(a, key) is None ==> first_type(a + b, key) == first_type(b, key),
        a.len() == 0 ==> first_type(a, key) is None,
        a.len() == 1 && (a[0].0 != key || a[0].1 is Null) ==> first_type(a, key) is None,
        a.len() == 1 && a[0].0 == key && a[0].1 is Bool ==> first_type(a, key) == Some(
            FieldType::Boolean,
        ),
        a.len() == 1 && a[0].0 == key && (a[0].1 is Int || a[0].1 is Float) ==> first_type(a, key)
            == Some(FieldType::Number),
        a.len() == 1 && a[0].0 == key && a[0].1 is Text ==> first_type(a, key) == Some(
            FieldType::Text,
        ),
    decreases b.len(),
{
    if b.len() == 0 {
        assert(a + b =~= a);
    } else {
        the_first_value_tells_the_type(a, b.drop_last(), key);
        assert((a + b).drop_last() =~= a + b.drop_last());
    }
    if a.len() == 1 {
        assert(first_type(a.drop_last(), key) is None);
    }
}

proof fn lemma_typed(properties: Seq<(Seq<char>, ValueModel)>, key: Seq<char>)
    ensures
        first_type(properties, key) is Some <==> exists|p: int|
            0 <= p < properties.len() && (#[trigger] properties[p]).0 == key && !(properties[p].1
                is Null),
    decreases properties.len(),
{
    if properties.len() > 0 {
        let rest = properties.drop_last();
        lemma_typed(rest, key);
        if first_type(rest, key) is Some {
            let p = choose|p: int|
                0 <= p < rest.len() && (#[trigger] rest[p]).0 == key && !(rest[p].1 is Null);
            assert(properties[p].0 == key && !(properties[p].1 is Null));
        } else if first_type(properties, key) is Some {
            let p = properties.len() - 1;
            assert(properties[p].0 == key && !(properties[p].1 is Null));
        } else {
            assert forall|p: int| 0 <= p < properties.len() && (#[trigger] properties[p]).0
                == key implies properties[p].1 is Null by {
                if p < rest.len() {
                    assert(rest[p] == properties[p]);
                }
            }
        }
    }
}

/// A layer has a field for each key under which some feature has a value, and no
/// other; none comes twice.
pub proof fn fields_are_the_keys_with_a_value(
    properties: Seq<(Seq<char>, ValueModel)>,
    fields: Seq<(Seq<char>, FieldType)>,
    key: Seq<char>,
)
    requires
        are_fields(properties, fields),
    ensures
        (exists|i: int| 0 <= i < fields.len() && (#[trigger] fields[i]).0 == key) <==> (exists|
            p: int,
        |
            0 <= p < properties.len() && (#[trigger] properties[p]).0 == key && !(properties[p].1
                is Null)),
        forall|i: int, j: int|
            0 <= i < j < fields.len() ==> (#[trigger] fields[i]).0 != (#[trigger] fields[j]).0
                && text_less(fields[i].0, fields[j].0),
        forall|i: int|
            0 <= i < fields.len() ==> first_type(properties, (#[trigger] fields[i]).0) == Some(
                fields[i].1,
            ),
{
    lemma_typed(properties, key);
    assert forall|i: int, j: int| 0 <= i < j < fields.len() implies (#[trigger] fields[i]).0 != (
    #[trigger] fields[j]).0 && text_less(fields[i].0, fields[j].0) by {
        text_order_is_total(fields[i].0, fields[j].0, fields[j].0);
    }
    if first_type(properties, key) is Some {
        let i = choose|i: int| 0 <= i < fields.len() && (#[trigger] fields[i]).0 == key;
        assert(fields[i].0 == key);
    }
}

/// The properties of a layer are those of its features, one feature after the
/// other, each under its key with what it holds.
pub proof fn layers_have_the_properties_of_their_features<G>(
    features: Seq<VectorFeature<G>>,
    n: int,
)
    requires
        0 <= n,
    ensures
        all_properties(features, n) == Seq::new(
            n as nat,
            |f: int|
                Seq::new(
                    features[f].properties@.len(),
                    |i: int|
                        (
                            features[f].properties@[i].0@,
                            attribute(features[f].properties@[i].1),
                        ),
                ),
        ).flatten(),
    decreases n,
{
    let one = |f: int|
        Seq::new(
            features[f].properties@.len(),
            |i: int|
                (features[f].properties@[i].0@, attribute(features[f].properties@[i].1)),
        );
    let all = Seq::new(n as nat, one);
    if n > 0 {
        layers_have_the_properties_of_their_features(features, n - 1);
        let rest = Seq::new((n - 1) as nat, one);
        assert(all =~= rest.push(one(n - 1)));
        rest.lemma_flatten_push(one(n - 1));
        assert(property_models(features[n - 1].properties@) =~= one(n - 1));
    } else {
        assert(all.flatten() =~= Seq::empty());
    }
}

/// The description of a layer says its id, its lowest and its highest zoom, and
/// each field with the label of its type.
pub proof fn layers_are_told(
    name: Seq<char>,
    min_zoom: u8,
    max_zoom: u8,
    fields: Seq<(Seq<char>, FieldType)>,
    k: int,
)
    requires
        0 <= k < fields.len(),
    ensures
        ({
            let text = layer_json(name, min_zoom, max_zoom, fields);
            &&& says(text, "{\"id\": "@ + quoted(name))
            &&& says(
                text,
                ", \"minzoom\": "@ + decimal(min_zoom as nat) + ", \"maxzoom\": "@ + decimal(
                    max_zoom as nat,
                ),
            )
            &&& fields[k].1 == FieldType::Boolean ==> says(
                text,
                quoted(fields[k].0) + ": \""@ + "Boolean"@ + "\""@,
            )
            &&& fields[k].1 == FieldType::Number ==> says(
                text,
                quoted(fields[k].0) + ": \""@ + "Number"@ + "\""@,
            )
            &&& fields[k].1 == FieldType::Text ==> says(
                text,
                quoted(fields[k].0) + ": \""@ + "String"@ + "\""@,
            )
        }),
{
    let text = layer_json(name, min_zoom, max_zoom, fields);
    let parts = fields.map_values(|f: (Seq<char>, FieldType)| field_json(f));
    let a = "{\"id\": "@ + quoted(name);
    let b = ", \"minzoom\": "@ + decimal(min_zoom as nat) + ", \"maxzoom\": "@ + decimal(
        max_zoom as nat,
    );
    let c = ", \"fields\": {"@;
    let d = joined(parts, ", "@);
    let e = "}}"@;
    let none = Seq::<char>::empty();
    assert(text =~= a + b + c + d + e);
    assert(text =~= none + a + (b + c + d + e));
    lemma_says(text, none, a, b + c + d + e);
    assert(text =~= a + b + (c + d + e));
    lemma_says(text, a, b, c + d + e);
    assert(text =~= (a + b + c) + d + e);
    lemma_says(text, a + b + c, d, e);
    joined_parts_are_said(parts, ", "@, k);
    parts_are_said(text, d, parts[k]);
}

/// The description of a source says that of each of its layers.
pub proof fn all_layers_are_told(layers: Seq<Seq<char>>, k: int)
    requires
        0 <= k < layers.len(),
    ensures
        says(layers_json(layers), layers[k]),
{
    let text = layers_json(layers);
    let (head, all, tail) = ("{\"vector_layers\": ["@, joined(layers, ", "@), "]}"@);
    lemma_says(text, head, all, tail);
    joined_parts_are_said(layers, ", "@, k);
    parts_are_said(text, all, layers[k]);
}

/// Each layer of a source is described in its place, under its own name, with the
/// fields of its own features.
pub proof fn each_layer_is_described<G>(
    layers: Seq<VectorLayer<G>>,
    min_zoom: u8,
    max_zoom: u8,
    texts: Seq<Seq<char>>,
    k: int,
)
    requires
        describe(layers, min_zoom, max_zoom, texts),
        0 <= k < layers.len(),
    ensures
        texts.len() == layers.len(),
        exists|fields: Seq<(Seq<char>, FieldType)>|
            {
                &&& #[trigger] are_fields(
                    all_properties(layers[k].features@, layers[k].features@.len() as int),
                    fields,
                )
                &&& texts[k] == layer_json(layers[k].name@, min_zoom, max_zoom, fields)
            },
{
    assert(is_described(layers[k], min_zoom, max_zoom, texts[k]));
}

} // verus!
