//! Vector sources for vector tiles.
//!
//! A [`VectorSource`] holds one or more named layers of features whose
//! geometry is already projected to Web Mercator. What a geometry is, is left
//! open: `G` is the projected form, `R` the form that a file holds.

use surtgis_core::vector::AttributeValue;
use vstd::prelude::*;
use vstd::utf8::{encode_utf8, is_ascii_chars, is_ascii_chars_encode_utf8};

use crate::encoder::{attribute, ValueModel};
use crate::error::{Error, Invalid};
use crate::source::SourceCrs;
use crate::text::{
    decimal, decimals_have_no_leading_zero, digits_follow_zero, keys_ascend, same_text,
    sort_by_key, sorted_by_key, sorted_keys_ascend,
};

verus! {

/// One feature, its geometry projected.
pub struct VectorFeature<G> {
    pub geometry: G,
    /// Feature id (only numeric ids survive).
    pub id: Option<u64>,
    /// Properties, sorted by key for deterministic output.
    pub properties: Vec<(String, AttributeValue)>,
}

/// A named layer of features.
pub struct VectorLayer<G> {
    pub name: String,
    pub features: Vec<VectorFeature<G>>,
}

/// One or more layers ready to be tiled.
pub struct VectorSource<G> {
    pub layers: Vec<VectorLayer<G>>,
}

/// A feature as read from a file.
pub struct RawFeature<R> {
    pub geometry: Option<R>,
    pub id: Option<String>,
    pub properties: Vec<(String, AttributeValue)>,
}

/// The number that decimal digits give from `i` on, with `n` read before;
/// `None` where a byte is no digit or the number is past 64 bits.
pub open spec fn digits_value(bytes: Seq<u8>, i: int, n: int) -> Option<u64>
    decreases bytes.len() - i,
{
    if i >= bytes.len() {
        Some(n as u64)
    } else if !(48 <= bytes[i] <= 57) || n * 10 + (bytes[i] - 48) > u64::MAX {
        None
    } else {
        digits_value(bytes, i + 1, n * 10 + (bytes[i] - 48))
    }
}

/// The number that a text gives: decimal digits, behind an optional plus sign.
pub open spec fn number_value(text: Seq<char>) -> Option<u64> {
    let bytes = encode_utf8(text);
    if bytes.len() == 0 {
        None
    } else if bytes[0] == 43 {
        if bytes.len() == 1 {
            None
        } else {
            digits_value(bytes, 1, 0)
        }
    } else {
        digits_value(bytes, 0, 0)
    }
}

/// The number that a text gives: decimal digits, behind an optional plus sign.
pub fn parse_number(text: &str) -> (n: Option<u64>)
    ensures
        n == number_value(text@),
{
    let bytes: &[u8] = text.as_bytes();
    if bytes.len() == 0 {
        return None;
    }
    let mut i: usize = 0;
    if bytes[0] == 43 {
        if bytes.len() == 1 {
            return None;
        }
        i = 1;
    }
    let mut n: u64 = 0;
    while i < bytes.len()
        invariant
            bytes@ == encode_utf8(text@),
            i <= bytes@.len(),
            number_value(text@) == digits_value(bytes@, i as int, n as int),
        decreases bytes@.len() - i,
    {
        let b: u8 = bytes[i];
        if b < 48 || b > 57 {
            return None;
        }
        let d: u64 = (b - 48) as u64;
        match n.checked_mul(10) {
            Some(tens) => match tens.checked_add(d) {
                Some(next) => {
                    n = next;
                },
                None => {
                    return None;
                },
            },
            None => {
                return None;
            },
        }
        i = i + 1;
    }
    Some(n)
}

/// The id that a feature keeps of the one in the file.
pub open spec fn kept_id(id: Option<String>) -> Option<u64> {
    match id {
        Some(text) => number_value(text@),
        None => None,
    }
}

/// `feature` is what becomes of `raw` once its geometry is projected.
pub open spec fn is_built_from<R, G>(raw: RawFeature<R>, geometry: G, feature: VectorFeature<
    G,
>) -> bool {
    &&& feature.geometry == geometry
    &&& feature.id == kept_id(raw.id)
    &&& feature.properties@ == sorted_by_key(raw.properties@)
}

/// `projected` gives the projected form of each feature's geometry, `None`
/// where it has none or it cannot be tiled.
pub open spec fn are_projected<R, G, P>(
    raw: Seq<RawFeature<R>>,
    crs: SourceCrs,
    project: P,
    projected: Seq<Option<G>>,
) -> bool where P: Fn(R, SourceCrs) -> Option<G> {
    &&& projected.len() == raw.len()
    &&& forall|i: int|
        0 <= i < raw.len() ==> match (#[trigger] raw[i]).geometry {
            Some(g) => call_ensures(project, (g, crs), projected[i]),
            None => projected[i] is None,
        }
}

/// `features` are what becomes of `raw`, in order, without those that were not
/// projected.
pub open spec fn are_built_from<R, G>(
    raw: Seq<RawFeature<R>>,
    projected: Seq<Option<G>>,
    features: Seq<VectorFeature<G>>,
) -> bool
    decreases raw.len(),
{
    if raw.len() == 0 {
        features.len() == 0
    } else {
        match projected.last() {
            Some(g) => {
                &&& features.len() > 0
                &&& is_built_from(raw.last(), g, features.last())
                &&& are_built_from(raw.drop_last(), projected.drop_last(), features.drop_last())
            },
            None => are_built_from(raw.drop_last(), projected.drop_last(), features),
        }
    }
}

/// `layer` is what becomes of the features of a file in the given CRS.
pub open spec fn is_layer_of<R, G, P>(
    name: Seq<char>,
    raw: Seq<RawFeature<R>>,
    crs: SourceCrs,
    project: P,
    layer: VectorLayer<G>,
) -> bool where P: Fn(R, SourceCrs) -> Option<G> {
    &&& layer.name@ == name
    &&& exists|projected: Seq<Option<G>>|
        #[trigger] are_projected(raw, crs, project, projected) && are_built_from(
            raw,
            projected,
            layer.features@,
        )
}

/// The CRS of a file's features: the one asked for; else degrees where all
/// coordinates can be degrees, meters where all can be Web Mercator meters.
pub open spec fn vector_crs_spec(
    asked: Option<SourceCrs>,
    fits_degrees: bool,
    fits_meters: bool,
) -> Result<SourceCrs, Error> {
    match asked {
        Some(crs) => Ok(crs),
        None => if fits_degrees {
            Ok(SourceCrs::LonLat)
        } else if fits_meters {
            Ok(SourceCrs::Mercator)
        } else {
            Err(Error::InvalidInput(Invalid::VectorCrs))
        },
    }
}

/// The CRS of a file's features: the one asked for; else degrees where all
/// coordinates can be degrees, meters where all can be Web Mercator meters.
pub fn detect_vector_crs(asked: Option<SourceCrs>, fits_degrees: bool, fits_meters: bool) -> (crs:
    Result<SourceCrs, Error>)
    ensures
        crs == vector_crs_spec(asked, fits_degrees, fits_meters),
{
    match asked {
        Some(crs) => Ok(crs),
        None => if fits_degrees {
            Ok(SourceCrs::LonLat)
        } else if fits_meters {
            Ok(SourceCrs::Mercator)
        } else {
            Err(Error::InvalidInput(Invalid::VectorCrs))
        },
    }
}

/// Projects a file's features, reads their ids and sorts their properties.
/// Features without a geometry that can be tiled are left out.
pub fn build_layer<R, G, P>(
    name: &str,
    raw: Vec<RawFeature<R>>,
    crs: SourceCrs,
    project: &P,
) -> (layer: VectorLayer<G>) where P: Fn(R, SourceCrs) -> Option<G>
    requires
        forall|g: R| call_requires(*project, (g, crs)),
    ensures
        is_layer_of(name@, raw@, crs, *project, layer),
{
    let ghost all = raw@;
    let mut features: Vec<VectorFeature<G>> = Vec::new();
    let ghost mut projected: Seq<Option<G>> = Seq::empty();
    for item in it: raw
        invariant
            it.seq() == all,
            forall|g: R| call_requires(*project, (g, crs)),
            are_projected(all.take(it.index() as int), crs, *project, projected),
            are_built_from(all.take(it.index() as int), projected, features@),
    {
        let ghost n = it.index() as int;
        let ghost this = all[n];
        let ghost before = features@;
        let ghost seen = projected;
        proof {
            assert(item == this);
            assert(all.take(n + 1).drop_last() =~= all.take(n));
        }
        let RawFeature { geometry, id, properties } = item;
        let shape: Option<G> = match geometry {
            Some(g) => project(g, crs),
            None => None,
        };
        proof {
            projected = seen.push(shape);
            assert(projected.drop_last() =~= seen);
            assert forall|i: int| 0 <= i < all.take(n + 1).len() implies match (
            #[trigger] all.take(n + 1)[i]).geometry {
                Some(g) => call_ensures(*project, (g, crs), projected[i]),
                None => projected[i] is None,
            } by {
                if i < n {
                    assert(all.take(n)[i] == all[i]);
                }
            }
        }
        match shape {
            Some(g) => {
                let number: Option<u64> = match id {
                    Some(text) => parse_number(text.as_str()),
                    None => None,
                };
                let feature = VectorFeature {
                    geometry: g,
                    id: number,
                    properties: sort_by_key(properties),
                };
                features.push(feature);
                assert(features@.drop_last() =~= before);
            },
            None => {},
        }
    }
    assert(all.take(all.len() as int) =~= all);
    VectorLayer { name: name.to_owned(), features }
}

/// No two layers share a name.
pub open spec fn distinct_layers<G>(layers: Seq<VectorLayer<G>>) -> bool {
    forall|a: int, b: int|
        0 <= a < b < layers.len() ==> (#[trigger] layers[a]).name@ != (#[trigger] layers[b]).name@
}

impl<G> VectorSource<G> {
    /// No two layers share a name.
    pub open spec fn names_distinct(&self) -> bool {
        distinct_layers(self.layers@)
    }

    /// A layer has this name.
    pub open spec fn has_name(&self, name: Seq<char>) -> bool {
        exists|i: int| 0 <= i < self.layers@.len() && (#[trigger] self.layers@[i]).name@ == name
    }

    /// A source with one layer, made of a file's features.
    ///
    /// `fits_degrees` and `fits_meters` tell whether all coordinates can be
    /// degrees or Web Mercator meters; they decide where no CRS is asked for.
    pub fn from_collection<R, P>(
        layer_name: &str,
        raw: Vec<RawFeature<R>>,
        crs_override: Option<SourceCrs>,
        fits_degrees: bool,
        fits_meters: bool,
        project: &P,
    ) -> (source: Result<VectorSource<G>, Error>) where P: Fn(R, SourceCrs) -> Option<G>
        requires
            forall|g: R, crs: SourceCrs| call_requires(*project, (g, crs)),
        ensures
            match vector_crs_spec(crs_override, fits_degrees, fits_meters) {
                Err(e) => source == Err::<VectorSource<G>, Error>(e),
                Ok(crs) => exists|layer: VectorLayer<G>|
                    #[trigger] is_layer_of(layer_name@, raw@, crs, *project, layer)
                        && if layer.features@.len() == 0 {
                        source == Err::<VectorSource<G>, Error>(
                            Error::InvalidInput(Invalid::NoFeatures),
                        )
                    } else {
                        source matches Ok(s) && s.layers@ == seq![layer]
                    },
            },
            source matches Ok(s) ==> s.names_distinct(),
    {
        let crs: SourceCrs = match detect_vector_crs(crs_override, fits_degrees, fits_meters) {
            Ok(crs) => crs,
            Err(e) => {
                return Err(e);
            },
        };
        let layer: VectorLayer<G> = build_layer(layer_name, raw, crs, project);
        if layer.features.len() == 0 {
            return Err(Error::InvalidInput(Invalid::NoFeatures));
        }
        let mut layers: Vec<VectorLayer<G>> = Vec::new();
        let ghost one = layer;
        layers.push(layer);
        assert(layers@ =~= seq![one]);
        Ok(VectorSource { layers })
    }

    /// Adds another layer, made of a file's features.
    pub fn push_layer<R, P>(
        &mut self,
        layer_name: &str,
        raw: Vec<RawFeature<R>>,
        crs_override: Option<SourceCrs>,
        fits_degrees: bool,
        fits_meters: bool,
        project: &P,
    ) -> (pushed: Result<(), Error>) where P: Fn(R, SourceCrs) -> Option<G>
        requires
            forall|g: R, crs: SourceCrs| call_requires(*project, (g, crs)),
        ensures
            match vector_crs_spec(crs_override, fits_degrees, fits_meters) {
                Err(e) => pushed == Err::<(), Error>(e) && final(self).layers@
                    == old(self).layers@,
                Ok(crs) => {
                    &&& pushed is Ok
                    &&& final(self).layers@.len() == old(self).layers@.len() + 1
                    &&& final(self).layers@.drop_last() == old(self).layers@
                    &&& is_layer_of(layer_name@, raw@, crs, *project, final(self).layers@.last())
                },
            },
    {
        let crs: SourceCrs = match detect_vector_crs(crs_override, fits_degrees, fits_meters) {
            Ok(crs) => crs,
            Err(e) => {
                return Err(e);
            },
        };
        let ghost before = self.layers@;
        let layer: VectorLayer<G> = build_layer(layer_name, raw, crs, project);
        self.layers.push(layer);
        assert(self.layers@.drop_last() =~= before);
        Ok(())
    }

    /// Whether a layer has this name.
    pub fn name_taken(&self, name: &str) -> (taken: bool)
        ensures
            taken == self.has_name(name@),
    {
        for i in 0..self.layers.len()
            invariant
                forall|j: int| 0 <= j < i ==> (#[trigger] self.layers@[j]).name@ != name@,
        {
            if same_text(self.layers[i].name.as_str(), name) {
                return true;
            }
        }
        false
    }

    /// Adds a file's features as another named layer.
    ///
    /// Rejects a layer name already present, so that a tileset never has two
    /// layers with the same id.
    pub fn push_file<R, P>(
        &mut self,
        layer_name: &str,
        raw: Vec<RawFeature<R>>,
        crs_override: Option<SourceCrs>,
        fits_degrees: bool,
        fits_meters: bool,
        project: &P,
    ) -> (pushed: Result<(), Error>) where P: Fn(R, SourceCrs) -> Option<G>
        requires
            forall|g: R, crs: SourceCrs| call_requires(*project, (g, crs)),
        ensures
            if old(self).has_name(layer_name@) {
                &&& pushed == Err::<(), Error>(Error::InvalidInput(Invalid::DuplicateLayer))
                &&& final(self).layers@ == old(self).layers@
            } else {
                match vector_crs_spec(crs_override, fits_degrees, fits_meters) {
                    Err(e) => pushed == Err::<(), Error>(e) && final(self).layers@
                        == old(self).layers@,
                    Ok(crs) => {
                        &&& pushed is Ok
                        &&& final(self).layers@.len() == old(self).layers@.len() + 1
                        &&& final(self).layers@.drop_last() == old(self).layers@
                        &&& is_layer_of(
                            layer_name@,
                            raw@,
                            crs,
                            *project,
                            final(self).layers@.last(),
                        )
                    },
                }
            },
            old(self).names_distinct() ==> final(self).names_distinct(),
    {
        if self.name_taken(layer_name) {
            return Err(Error::InvalidInput(Invalid::DuplicateLayer));
        }
        let ghost before = self.layers@;
        let pushed: Result<(), Error> = self.push_layer(
            layer_name,
            raw,
            crs_override,
            fits_degrees,
            fits_meters,
            project,
        );
        proof {
            if pushed is Ok {
                assert forall|i: int| 0 <= i < before.len() implies (#[trigger] self.layers@[i])
                    == before[i] by {
                    assert(self.layers@.drop_last()[i] == self.layers@[i]);
                }
            }
        }
        pushed
    }

    /// The layers, in encoding order.
    pub fn layers(&self) -> (layers: &Vec<VectorLayer<G>>)
        ensures
            layers@ == self.layers@,
    {
        &self.layers
    }
}

/// The tags that properties give: each key with what its value holds.
pub open spec fn property_models(properties: Seq<(String, AttributeValue)>) -> Seq<
    (Seq<char>, ValueModel),
> {
    properties.map_values(|p: (String, AttributeValue)| (p.0@, attribute(p.1)))
}

proof fn lemma_digits_run(bytes: Seq<u8>, i: int, n: int, m: int)
    requires
        0 <= i <= m <= bytes.len(),
    ensures
        digits_value(bytes.take(m), i, n) matches Some(v) ==> digits_value(bytes, i, n)
            == digits_value(bytes, m, v as int) || n > u64::MAX || n < 0,
    decreases m - i,
{
    if i < m {
        assert(bytes.take(m)[i] == bytes[i]);
        lemma_digits_run(bytes, i + 1, n * 10 + (bytes[i] - 48), m);
    }
}

proof fn lemma_decimal_value(text: Seq<char>, n: nat, from: int)
    requires
        n <= u64::MAX,
        0 <= from <= text.len(),
        text.skip(from) == decimal(n),
        is_ascii_chars(text),
    ensures
        digits_value(encode_utf8(text), from, 0) == Some(n as u64),
        is_ascii_chars(decimal(n)),
    decreases n,
{
    is_ascii_chars_encode_utf8(text);
    decimals_have_no_leading_zero(n);
    let bytes = encode_utf8(text);
    let last = text.len() - 1;
    assert(text.skip(from).last() == text[last]);
    assert forall|i: int| 0 <= i < decimal(n).len() implies '\0' <= #[trigger] decimal(n)[i]
        <= '\u{7f}' by {
        assert(decimal(n)[i] == text[from + i]);
    }
    let d = (n % 10) as int;
    assert(bytes[last] == 48 + d);
    if n < 10 {
        assert(last == from);
        assert(digits_value(bytes, from + 1, d) == Some(n as u64));
        assert(digits_value(bytes, from, 0) == digits_value(bytes, from + 1, d));
    } else {
        let rest = text.drop_last();
        assert(rest.skip(from) =~= decimal(n).drop_last());
        lemma_decimal_value(rest, n / 10, from);
        is_ascii_chars_encode_utf8(rest);
        assert(encode_utf8(rest) =~= bytes.take(last));
        lemma_digits_run(bytes, from, 0, last);
        let tens = (n / 10) as int;
        assert(digits_value(bytes, last + 1, tens * 10 + d) == Some(n as u64));
    }
}

/// A number is read back from its decimal text, with a plus sign before it or
/// without.
pub proof fn numbers_are_read_back(n: nat, signed: Seq<char>)
    requires
        n <= u64::MAX,
        signed == seq!['+'] + decimal(n),
    ensures
        number_value(decimal(n)) == Some(n as u64),
        number_value(signed) == Some(n as u64),
{
    lemma_decimal_ascii(n);
    decimals_have_no_leading_zero(n);
    let text = decimal(n);
    assert(text.skip(0) =~= text);
    lemma_decimal_value(text, n, 0);
    is_ascii_chars_encode_utf8(text);
    lemma_decimal_digits(n, 0);
    assert(text[0] as u8 == encode_utf8(text)[0]);
    assert(is_ascii_chars(signed)) by {
        assert forall|i: int| 0 <= i < signed.len() implies '\0' <= #[trigger] signed[i]
            <= '\u{7f}' by {
            if i > 0 {
                assert(signed[i] == text[i - 1]);
            }
        }
    }
    is_ascii_chars_encode_utf8(signed);
    assert(signed.skip(1) =~= text);
    lemma_decimal_value(signed, n, 1);
    assert(signed[0] as u8 == encode_utf8(signed)[0]);
}

proof fn lemma_decimal_ascii(n: nat)
    ensures
        is_ascii_chars(decimal(n)),
    decreases n,
{
    assert forall|i: int| 0 <= i < decimal(n).len() implies '\0' <= #[trigger] decimal(n)[i]
        <= '\u{7f}' by {
        lemma_decimal_digits(n, i);
    }
}

proof fn lemma_decimal_digits(n: nat, i: int)
    requires
        0 <= i < decimal(n).len(),
    ensures
        '0' <= decimal(n)[i] <= '9',
        48 <= decimal(n)[i] as u32 <= 57,
    decreases n,
{
    if n >= 10 {
        if i < decimal(n).len() - 1 {
            assert(decimal(n)[i] == decimal(n / 10)[i]);
            lemma_decimal_digits(n / 10, i);
        } else {
            digits_follow_zero((n % 10) as int);
        }
    } else {
        digits_follow_zero(n as int);
    }
}

/// Only digits make a number: a text with any other character, but for a plus sign
/// at its start, gives none, and neither does one without a digit.
pub proof fn only_digits_make_a_number(text: Seq<char>, k: int)
    requires
        is_ascii_chars(text),
        0 <= k < text.len(),
        text[k] < '0' || text[k] > '9',
        k > 0 || text[0] != '+' || text.len() == 1,
    ensures
        number_value(text) is None,
        number_value(Seq::<char>::empty()) is None,
{
    is_ascii_chars_encode_utf8(text);
    is_ascii_chars_encode_utf8(Seq::<char>::empty());
    let bytes = encode_utf8(text);
    assert(text[k] as u8 == bytes[k]);
    assert(text[0] as u8 == bytes[0]);
    lemma_no_digit(bytes, 0, 0, k);
    if k > 0 {
        lemma_no_digit(bytes, 1, 0, k);
    }
}

proof fn lemma_no_digit(bytes: Seq<u8>, i: int, n: int, k: int)
    requires
        0 <= i <= k < bytes.len(),
        !(48 <= bytes[k] <= 57),
    ensures
        digits_value(bytes, i, n) is None,
    decreases k - i,
{
    if i < k {
        lemma_no_digit(bytes, i + 1, n * 10 + (bytes[i] - 48), k);
    }
}

/// Feature `p` of a layer is made of feature `k` of the file.
pub open spec fn is_made_of<R, G>(
    raw: RawFeature<R>,
    projected: Option<G>,
    feature: VectorFeature<G>,
) -> bool {
    &&& projected == Some(feature.geometry)
    &&& raw.id is None ==> feature.id is None
    &&& raw.id is Some ==> feature.id == number_value(raw.id->Some_0@)
    &&& feature.properties@.to_multiset() == raw.properties@.to_multiset()
    &&& keys_ascend(feature.properties@)
}

/// The features of a layer are those of the file whose geometry can be tiled, one
/// for each, in the order of the file. Each has its own geometry, its own id where
/// that is a number, and all its properties, in the order of their keys.
pub proof fn features_come_from_the_file<R, G>(
    raw: Seq<RawFeature<R>>,
    projected: Seq<Option<G>>,
    features: Seq<VectorFeature<G>>,
    k: int,
)
    requires
        projected.len() == raw.len(),
        are_built_from(raw, projected, features),
        0 <= k < raw.len(),
    ensures
        features.len() == projected.filter(|g: Option<G>| g is Some).len(),
        ({
            let at = projected.take(k).filter(|g: Option<G>| g is Some).len() as int;
            projected[k] is Some ==> at < features.len() && is_made_of(
                raw[k],
                projected[k],
                features[at],
            )
        }),
    decreases raw.len(),
{
    reveal(Seq::filter);
    lemma_built_count(raw, projected, features);
    let last = raw.len() - 1;
    let (r, p) = (raw.drop_last(), projected.drop_last());
    let before = if projected.last() is Some {
        features.drop_last()
    } else {
        features
    };
    lemma_built_count(r, p, before);
    if k < last {
        features_come_from_the_file(r, p, before, k);
        assert(p.take(k) =~= projected.take(k));
    } else {
        assert(p =~= projected.take(k));
        sorted_keys_ascend(raw[k].properties@);
    }
}

pub(crate) proof fn lemma_built_count<R, G>(
    raw: Seq<RawFeature<R>>,
    projected: Seq<Option<G>>,
    features: Seq<VectorFeature<G>>,
)
    requires
        projected.len() == raw.len(),
        are_built_from(raw, projected, features),
    ensures
        features.len() == projected.filter(|g: Option<G>| g is Some).len(),
    decreases raw.len(),
{
    reveal(Seq::filter);
    if raw.len() > 0 {
        let before = if projected.last() is Some {
            features.drop_last()
        } else {
            features
        };
        lemma_built_count(raw.drop_last(), projected.drop_last(), before);
    }
}

/// A layer has the name that it is given, and its features are projected from the
/// CRS of the file, each geometry by itself.
pub proof fn layers_are_projected_from_their_crs<R, G, P>(
    name: Seq<char>,
    raw: Seq<RawFeature<R>>,
    crs: SourceCrs,
    project: P,
    layer: VectorLayer<G>,
) where P: Fn(R, SourceCrs) -> Option<G>
    requires
        is_layer_of(name, raw, crs, project, layer),
    ensures
        layer.name@ == name,
        exists|projected: Seq<Option<G>>|
            {
                &&& projected.len() == raw.len()
                &&& forall|i: int|
                    0 <= i < raw.len() ==> match (#[trigger] raw[i]).geometry {
                        Some(g) => call_ensures(project, (g, crs), projected[i]),
                        None => projected[i] is None,
                    }
                &&& #[trigger] are_built_from(raw, projected, layer.features@)
            },
{
}

/// The CRS that is asked for goes before what the coordinates can be, and degrees
/// go before meters; coordinates that can be neither are refused.
pub proof fn vector_crs_is_told_in_order(
    asked: Option<SourceCrs>,
    fits_degrees: bool,
    fits_meters: bool,
)
    ensures
        asked matches Some(crs) ==> vector_crs_spec(asked, fits_degrees, fits_meters) == Ok::<
            SourceCrs,
            Error,
        >(crs),
        asked is None && fits_degrees ==> vector_crs_spec(asked, fits_degrees, fits_meters) == Ok::<
            SourceCrs,
            Error,
        >(SourceCrs::LonLat),
        asked is None && !fits_degrees && fits_meters ==> vector_crs_spec(
            asked,
            fits_degrees,
            fits_meters,
        ) == Ok::<SourceCrs, Error>(SourceCrs::Mercator),
        asked is None && !fits_degrees && !fits_meters ==> vector_crs_spec(
            asked,
            fits_degrees,
            fits_meters,
        ) is Err,
{
}

} // verus!
