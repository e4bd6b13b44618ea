//! What a user asks for: layers, bands, colour schemes and outputs.

use surtgis_colormap::ColorScheme;
use vstd::prelude::*;
use vstd::string::*;

use crate::error::{Error, Invalid};
use crate::paths::{
    extension, extension_spec, file_stem, file_stem_spec, paths_have_the_ends_of_their_file_name,
    split_at_first, split_once, texts_split_where_they_were_joined,
};
use crate::source::SourceCrs;
use crate::text::same_text;

verus! {

/// One vector layer: its name, the file that holds it, and the table in a
/// GeoPackage.
pub struct LayerSpec {
    pub name: String,
    pub path: String,
    pub gpkg_table: Option<String>,
}

/// What a layer text says: name, path and table.
pub struct LayerModel {
    pub name: Seq<char>,
    pub path: Seq<char>,
    pub gpkg_table: Option<Seq<char>>,
}

impl View for LayerSpec {
    type V = LayerModel;

    open spec fn view(&self) -> LayerModel {
        LayerModel {
            name: self.name@,
            path: self.path@,
            gpkg_table: match self.gpkg_table {
                Some(t) => Some(t@),
                None => None,
            },
        }
    }
}

/// What `[name=]path[#table]` says. The name ends at the first `=`, the path
/// behind it at the first `#`. Without a name, the layer is named after the
/// file's stem, or "layer" where the path names no file. An empty path says
/// nothing.
pub open spec fn layer_spec(text: Seq<char>) -> Option<LayerModel> {
    let (given, rest) = match split_at_first(text, '=') {
        Some((n, r)) => (Some(n), r),
        None => (None, text),
    };
    let (path, table) = match split_at_first(rest, '#') {
        Some((p, t)) => (p, Some(t)),
        None => (rest, None),
    };
    if path.len() == 0 {
        None
    } else {
        Some(
            LayerModel {
                name: match given {
                    Some(n) => n,
                    None => match file_stem_spec(path) {
                        Some(s) => s,
                        None => "layer"@,
                    },
                },
                path,
                gpkg_table: table,
            },
        )
    }
}

/// Parses `[name=]path[#table]`. The layer name defaults to the file stem;
/// `#table` selects a GeoPackage table.
pub fn parse_layer_spec(spec: &str) -> (layer: Result<LayerSpec, Error>)
    ensures
        match layer_spec(spec@) {
            Some(m) => layer matches Ok(l) && l@ == m,
            None => layer == Err::<LayerSpec, Error>(Error::InvalidInput(Invalid::EmptyPath)),
        },
{
    let (given, rest): (Option<&str>, &str) = match split_once(spec, '=') {
        Some((n, r)) => (Some(n), r),
        None => (None, spec),
    };
    let (path, table): (&str, Option<&str>) = match split_once(rest, '#') {
        Some((p, t)) => (p, Some(t)),
        None => (rest, None),
    };
    if path.is_empty() {
        return Err(Error::InvalidInput(Invalid::EmptyPath));
    }
    let name: String = match given {
        Some(n) => n.to_owned(),
        None => match file_stem(path) {
            Some(s) => s.to_owned(),
            None => "layer".to_owned(),
        },
    };
    let gpkg_table: Option<String> = match table {
        Some(t) => Some(t.to_owned()),
        None => None,
    };
    Ok(LayerSpec { name, path: path.to_owned(), gpkg_table })
}

/// What stands behind the `bbox=` of a layer's table text, cut at its commas:
/// the four limits of a box, in order west, south, east, north. `None` where
/// there is no such prefix or there are not four limits.
pub open spec fn bbox_limits(table: Seq<char>) -> Option<
    (Seq<char>, Seq<char>, Seq<char>, Seq<char>),
> {
    match split_at_first(table, '=') {
        Some((key, limits)) => if key != "bbox"@ {
            None
        } else {
            match split_at_first(limits, ',') {
                None => None,
                Some((west, behind)) => match split_at_first(behind, ',') {
                    None => None,
                    Some((south, last)) => match split_at_first(last, ',') {
                        None => None,
                        Some((east, north)) => if split_at_first(north, ',') is Some {
                            None
                        } else {
                            Some((west, south, east, north))
                        },
                    },
                },
            }
        },
        None => None,
    }
}

/// Cuts `bbox=west,south,east,north` into the texts of its four limits.
pub fn parse_bbox<'a>(table: &'a str) -> (limits: Option<(&'a str, &'a str, &'a str, &'a str)>)
    ensures
        match limits {
            Some((w, s, e, n)) => bbox_limits(table@) == Some((w@, s@, e@, n@)),
            None => bbox_limits(table@) is None,
        },
{
    match split_once(table, '=') {
        None => None,
        Some((key, limits)) => {
            if !same_text(key, "bbox") {
                return None;
            }
            match split_once(limits, ',') {
                None => None,
                Some((west, behind)) => match split_once(behind, ',') {
                    None => None,
                    Some((south, last)) => match split_once(last, ',') {
                        None => None,
                        Some((east, north)) => match split_once(north, ',') {
                            Some(_) => None,
                            None => Some((west, south, east, north)),
                        },
                    },
                },
            }
        },
    }
}

/// Checks that a selection has one band (gray), three (RGB) or four (RGBA).
pub fn validate_band_selection(bands: &[usize]) -> (valid: Result<(), Error>)
    ensures
        valid is Ok <==> bands@.len() == 1 || bands@.len() == 3 || bands@.len() == 4,
        valid matches Err(e) ==> e == Error::InvalidInput(Invalid::BandCount),
{
    let n: usize = bands.len();
    if n != 1 && n != 3 && n != 4 {
        return Err(Error::InvalidInput(Invalid::BandCount));
    }
    Ok(())
}

/// A colour scheme of `surtgis-colormap`.
#[verifier::external_type_specification]
#[verifier::external_body]
pub struct ExColorScheme(surtgis_colormap::ColorScheme);

/// The name that `surtgis_colormap::ColorScheme::name` gives a scheme.
pub uninterp spec fn scheme_name(scheme: ColorScheme) -> Seq<char>;

/// What `str::to_lowercase` makes of a text.
pub uninterp spec fn lowercased(text: Seq<char>) -> Seq<char>;

/// The names of all schemes.
pub open spec fn scheme_labels() -> Seq<Seq<char>> {
    seq![
        "Terrain"@,
        "Divergent"@,
        "Grayscale"@,
        "NDVI"@,
        "Blue-White-Red"@,
        "Geomorphons"@,
        "Water"@,
        "Accumulation"@,
        "Imhof 1 (classic)"@,
        "Imhof 2 (alpine)"@,
        "Imhof 3 (desert)"@,
        "Imhof 4 (twilight)"@,
        "Grayscale (smooth)"@,
        "Grayscale (high contrast)"@,
        "Desert dry"@,
        "Pastel rainbow"@,
    ]
}

/// `surtgis_colormap::ColorScheme::ALL`: all schemes, by the names that
/// `ColorScheme::name` gives them.
#[verifier::external_body]
fn all_schemes() -> (schemes: Vec<ColorScheme>)
    ensures
        schemes@.map_values(|s: ColorScheme| scheme_name(s)) == scheme_labels(),
{
    ColorScheme::ALL.to_vec()
}

/// `surtgis_colormap::ColorScheme::name`.
#[verifier::external_body]
fn name_of_scheme(scheme: &ColorScheme) -> (name: &'static str)
    ensures
        name@ == scheme_name(*scheme),
{
    scheme.name()
}

/// `str::to_lowercase`.
///
/// Trusted: the outcome depends on the text alone.
#[verifier::external_body]
fn lowercase(text: &str) -> (lower: String)
    ensures
        lower@ == lowercased(text@),
{
    text.to_lowercase()
}

/// The scheme named "Grayscale".
pub(crate) fn grayscale() -> (scheme: ColorScheme)
    ensures
        scheme_name(scheme) == "Grayscale"@,
{
    let schemes: Vec<ColorScheme> = all_schemes();
    proof {
        let labels = schemes@.map_values(|s: ColorScheme| scheme_name(s));
        assert(labels.len() == schemes@.len());
        assert(labels[2] == scheme_name(schemes@[2]));
    }
    schemes[2]
}

/// The first of the schemes whose name is `name`, whatever the case.
pub open spec fn found_scheme(schemes: Seq<ColorScheme>, name: Seq<char>, n: int) -> Option<
    ColorScheme,
>
    decreases n,
{
    if n <= 0 {
        None
    } else {
        match found_scheme(schemes, name, n - 1) {
            Some(s) => Some(s),
            None => if lowercased(scheme_name(schemes[n - 1])) == lowercased(name) {
                Some(schemes[n - 1])
            } else {
                None
            },
        }
    }
}

proof fn lemma_found_stays(schemes: Seq<ColorScheme>, name: Seq<char>, n: int, m: int)
    requires
        0 <= n <= m,
        found_scheme(schemes, name, n) is Some,
    ensures
        found_scheme(schemes, name, m) == found_scheme(schemes, name, n),
    decreases m - n,
{
    if n < m {
        lemma_found_stays(schemes, name, n, m - 1);
    }
}

/// The first of the schemes whose name is `name`, whatever the case.
pub fn find_scheme(schemes: &Vec<ColorScheme>, name: &str) -> (scheme: Result<ColorScheme, Error>)
    ensures
        match found_scheme(schemes@, name@, schemes@.len() as int) {
            Some(s) => scheme == Ok::<ColorScheme, Error>(s),
            None => scheme == Err::<ColorScheme, Error>(
                Error::InvalidInput(Invalid::UnknownScheme),
            ),
        },
{
    let wanted: String = lowercase(name);
    for i in 0..schemes.len()
        invariant
            wanted@ == lowercased(name@),
            found_scheme(schemes@, name@, i as int) is None,
    {
        let lower: String = lowercase(name_of_scheme(&schemes[i]));
        if same_text(lower.as_str(), wanted.as_str()) {
            proof {
                lemma_found_stays(schemes@, name@, i + 1, schemes@.len() as int);
            }
            return Ok(schemes[i]);
        }
    }
    Err(Error::InvalidInput(Invalid::UnknownScheme))
}

/// The colour scheme of this name, whatever the case.
pub fn parse_scheme(name: &str) -> (scheme: Result<ColorScheme, Error>)
    ensures
        ({
            let k = found_label(scheme_labels(), name@, 0);
            if k < scheme_labels().len() {
                scheme matches Ok(s) && scheme_name(s) == scheme_labels()[k]
            } else {
                scheme == Err::<ColorScheme, Error>(Error::InvalidInput(Invalid::UnknownScheme))
            }
        }),
{
    let schemes: Vec<ColorScheme> = all_schemes();
    proof {
        lemma_found_label(schemes@, name@, 0);
        assert(schemes@.map_values(|s: ColorScheme| scheme_name(s)).len() == schemes@.len());
    }
    find_scheme(&schemes, name)
}

/// The first place at or behind `i` of a label that is `name`, whatever the
/// case; the number of labels where there is none.
pub open spec fn found_label(labels: Seq<Seq<char>>, name: Seq<char>, i: int) -> int
    decreases labels.len() - i,
{
    if i >= labels.len() || lowercased(labels[i]) == lowercased(name) {
        i
    } else {
        found_label(labels, name, i + 1)
    }
}

proof fn lemma_found_label(schemes: Seq<ColorScheme>, name: Seq<char>, i: int)
    requires
        0 <= i <= schemes.len(),
        found_scheme(schemes, name, i) is None,
    ensures
        ({
            let labels = schemes.map_values(|s: ColorScheme| scheme_name(s));
            let k = found_label(labels, name, i);
            let n = schemes.len() as int;
            if k < n {
                0 <= k && found_scheme(schemes, name, n) == Some(schemes[k])
            } else {
                k == n && found_scheme(schemes, name, n) is None
            }
        }),
    decreases schemes.len() - i,
{
    let labels = schemes.map_values(|s: ColorScheme| scheme_name(s));
    if i < schemes.len() {
        assert(labels[i] == scheme_name(schemes[i]));
        if lowercased(labels[i]) == lowercased(name) {
            lemma_found_stays(schemes, name, i + 1, schemes.len() as int);
        } else {
            lemma_found_label(schemes, name, i + 1);
        }
    }
}

/// The names of the given schemes, in lower case.
pub fn names_of(schemes: &Vec<ColorScheme>) -> (names: Vec<String>)
    ensures
        names@.len() == schemes@.len(),
        forall|i: int|
            0 <= i < names@.len() ==> (#[trigger] names@[i])@ == lowercased(
                scheme_name(schemes@[i]),
            ),
{
    let mut names: Vec<String> = Vec::new();
    for i in 0..schemes.len()
        invariant
            names@.len() == i,
            forall|j: int|
                0 <= j < i ==> (#[trigger] names@[j])@ == lowercased(scheme_name(schemes@[j])),
    {
        names.push(lowercase(name_of_scheme(&schemes[i])));
    }
    names
}

/// The names of all colour schemes, in lower case.
pub fn scheme_names() -> (names: Vec<String>)
    ensures
        names@.len() == scheme_labels().len(),
        forall|i: int|
            0 <= i < names@.len() ==> (#[trigger] names@[i])@ == lowercased(scheme_labels()[i]),
{
    let schemes: Vec<ColorScheme> = all_schemes();
    let names: Vec<String> = names_of(&schemes);
    proof {
        let labels = schemes@.map_values(|s: ColorScheme| scheme_name(s));
        assert(labels.len() == schemes@.len());
        assert forall|i: int| 0 <= i < names@.len() implies (#[trigger] names@[i])@ == lowercased(
            scheme_labels()[i],
        ) by {
            assert(labels[i] == scheme_name(schemes@[i]));
        }
    }
    names
}

/// Where tiles go.
#[derive(Debug, Clone, Copy, PartialEq, Eq, Structural)]
pub enum OutputKind {
    /// One MBTiles file.
    Mbtiles,
    /// One PMTiles archive.
    Pmtiles,
    /// A directory tree.
    Xyz,
}

impl OutputKind {
    /// Whether vector tiles are gzipped there. Plain static file servers serve
    /// directory trees, so tiles in them are not.
    pub fn compresses(self) -> (compress: bool)
        ensures
            compress == (self != OutputKind::Xyz),
    {
        match self {
            OutputKind::Mbtiles => true,
            OutputKind::Pmtiles => true,
            OutputKind::Xyz => false,
        }
    }
}

/// The code of a letter in lower case, where it is an ASCII letter.
pub open spec fn ascii_lower(c: char) -> u32 {
    let code = c as u32;
    if 65 <= code <= 90 {
        (code + 32) as u32
    } else {
        code
    }
}

/// The texts are equal but for the case of ASCII letters.
pub open spec fn same_word(a: Seq<char>, b: Seq<char>) -> bool {
    a.len() == b.len() && forall|i: int|
        0 <= i < a.len() ==> ascii_lower(#[trigger] a[i]) == ascii_lower(b[i])
}

fn lower(c: char) -> (code: u32)
    ensures
        code == ascii_lower(c),
{
    let code: u32 = c as u32;
    if code >= 65 && code <= 90 {
        code + 32
    } else {
        code
    }
}

fn is_word(text: &str, word: &str) -> (same: bool)
    ensures
        same == same_word(text@, word@),
{
    let n: usize = text.unicode_len();
    if n != word.unicode_len() {
        return false;
    }
    for i in 0..n
        invariant
            n == text@.len(),
            n == word@.len(),
            forall|j: int|
                0 <= j < i ==> ascii_lower(#[trigger] text@[j]) == ascii_lower(word@[j]),
    {
        if lower(text.get_char(i)) != lower(word.get_char(i)) {
            return false;
        }
    }
    true
}

/// Where tiles go, from the extension of the output path.
pub open spec fn output_kind_spec(path: Seq<char>) -> OutputKind {
    match extension_spec(path) {
        Some(ext) => if same_word(ext, "mbtiles"@) {
            OutputKind::Mbtiles
        } else if same_word(ext, "pmtiles"@) {
            OutputKind::Pmtiles
        } else {
            OutputKind::Xyz
        },
        None => OutputKind::Xyz,
    }
}

/// Where tiles go: a path that ends in `.mbtiles` or `.pmtiles`, whatever the
/// case, is one file, anything else a directory.
pub fn output_kind(path: &str) -> (kind: OutputKind)
    ensures
        kind == output_kind_spec(path@),
{
    match extension(path) {
        Some(ext) => {
            if is_word(ext, "mbtiles") {
                OutputKind::Mbtiles
            } else if is_word(ext, "pmtiles") {
                OutputKind::Pmtiles
            } else {
                OutputKind::Xyz
            }
        },
        None => OutputKind::Xyz,
    }
}

/// The format of a vector file.
#[derive(Debug, Clone, Copy, PartialEq, Eq, Structural)]
pub enum VectorFormat {
    GeoJson,
    GeoPackage,
    Shapefile,
    GeoParquet,
    FlatGeobuf,
    /// Left to the reader to find out.
    Other,
}

/// The format that an extension in lower case stands for.
pub open spec fn format_of(ext: Seq<char>) -> VectorFormat {
    if ext == "geojson"@ || ext == "json"@ {
        VectorFormat::GeoJson
    } else if ext == "gpkg"@ {
        VectorFormat::GeoPackage
    } else if ext == "shp"@ {
        VectorFormat::Shapefile
    } else if ext == "parquet"@ {
        VectorFormat::GeoParquet
    } else if ext == "fgb"@ {
        VectorFormat::FlatGeobuf
    } else {
        VectorFormat::Other
    }
}

/// The format that an extension in lower case stands for.
pub fn format_for(ext: &str) -> (format: VectorFormat)
    ensures
        format == format_of(ext@),
{
    if same_text(ext, "geojson") || same_text(ext, "json") {
        VectorFormat::GeoJson
    } else if same_text(ext, "gpkg") {
        VectorFormat::GeoPackage
    } else if same_text(ext, "shp") {
        VectorFormat::Shapefile
    } else if same_text(ext, "parquet") {
        VectorFormat::GeoParquet
    } else if same_text(ext, "fgb") {
        VectorFormat::FlatGeobuf
    } else {
        VectorFormat::Other
    }
}

/// The CRS that a file's coordinates are in: the one asked for, else degrees
/// where the format is GeoJSON, which has no other. Of other formats the
/// coordinates tell.
pub fn vector_crs(format: VectorFormat, asked: Option<SourceCrs>) -> (crs: Option<SourceCrs>)
    ensures
        crs == match asked {
            Some(c) => Some(c),
            None => if format == VectorFormat::GeoJson {
                Some(SourceCrs::LonLat)
            } else {
                None
            },
        },
{
    match asked {
        Some(c) => Some(c),
        None => match format {
            VectorFormat::GeoJson => Some(SourceCrs::LonLat),
            _ => None,
        },
    }
}

/// The format of a vector file, from the extension of its path in lower case.
pub fn vector_format(path: &str) -> (format: VectorFormat)
    ensures
        format == match extension_spec(path@) {
            Some(ext) => format_of(lowercased(ext)),
            None => format_of(Seq::empty()),
        },
{
    match extension(path) {
        Some(ext) => format_for(lowercase(ext).as_str()),
        None => {
            proof {
                reveal_strlit("");
                assert(""@ =~= Seq::empty());
            }
            format_for("")
        },
    }
}

/// A layer text is read as it is put together: a name, `=`, a path, `#` and a
/// table. Any of the name and the table may be left out; the path may not be
/// empty. A name has no `=`, and a path no `#`.
pub proof fn layer_texts_are_read_as_written(
    name: Seq<char>,
    path: Seq<char>,
    table: Seq<char>,
)
    requires
        !name.contains('='),
        !path.contains('#'),
        path.len() > 0,
    ensures
        layer_spec(name.push('=') + (path.push('#') + table)) == Some(
            LayerModel { name, path, gpkg_table: Some(table) },
        ),
        layer_spec(name.push('=') + path) == Some(LayerModel { name, path, gpkg_table: None }),
        !path.contains('=') ==> (layer_spec(path) matches Some(layer) && layer.path == path
            && layer.gpkg_table is None),
        !path.contains('=') && !table.contains('=') ==> (layer_spec(path.push('#') + table) matches Some(
            layer,
        ) && layer.path == path && layer.gpkg_table == Some(table)),
        layer_spec(name.push('=')) is None,
        layer_spec(name.push('=') + (seq!['#'] + table)) is None,
{
    let rest = path.push('#') + table;
    texts_split_where_they_were_joined(name, '=', rest);
    texts_split_where_they_were_joined(name, '=', path);
    texts_split_where_they_were_joined(path, '#', table);
    if !path.contains('=') {
        texts_split_where_they_were_joined(path, '=', table);
        if !table.contains('=') {
            assert(!rest.contains('=')) by {
                if rest.contains('=') {
                    let i = choose|i: int| 0 <= i < rest.len() && rest[i] == '=';
                    if i < path.len() {
                        assert(path.contains(path[i]));
                    } else {
                        assert(table.contains(table[i - path.len() - 1]));
                    }
                }
            }
            texts_split_where_they_were_joined(rest, '=', table);
        }
    }
    let none = Seq::<char>::empty();
    texts_split_where_they_were_joined(name, '=', none);
    assert(name.push('=') + none =~= name.push('='));
    texts_split_where_they_were_joined(none, '#', none);
    assert(none.push('#') + table =~= seq!['#'] + table);
    texts_split_where_they_were_joined(none, '#', table);
    texts_split_where_they_were_joined(name, '=', seq!['#'] + table);
}

/// Without a name a layer is named after the file: by its name without the
/// extension.
pub proof fn layers_are_named_after_their_file(
    dir: Seq<char>,
    stem: Seq<char>,
    ext: Seq<char>,
)
    requires
        stem.len() > 0,
        !stem.contains('/'),
        !ext.contains('/'),
        !ext.contains('.'),
        stem != seq!['.'] || ext.len() > 0,
        !(dir.push('/') + (stem.push('.') + ext)).contains('='),
        !(dir.push('/') + (stem.push('.') + ext)).contains('#'),
    ensures
        layer_spec(dir.push('/') + (stem.push('.') + ext)) == Some(
            LayerModel {
                name: stem,
                path: dir.push('/') + (stem.push('.') + ext),
                gpkg_table: None,
            },
        ),
{
    let path = dir.push('/') + (stem.push('.') + ext);
    paths_have_the_ends_of_their_file_name(dir, stem, ext);
    texts_split_where_they_were_joined(path, '=', path);
    texts_split_where_they_were_joined(path, '#', path);
}

/// A box is read as it is put together: `bbox=` and its four limits, in the order
/// west, south, east, north, with commas between them. With another key, or with
/// a limit too many, it is none.
pub proof fn boxes_are_read_as_written(
    key: Seq<char>,
    west: Seq<char>,
    south: Seq<char>,
    east: Seq<char>,
    north: Seq<char>,
    more: Seq<char>,
)
    requires
        !key.contains('='),
        !west.contains(','),
        !south.contains(','),
        !east.contains(','),
        !north.contains(','),
    ensures
        key == "bbox"@ ==> bbox_limits(
            key.push('=') + (west.push(',') + (south.push(',') + (east.push(',') + north))),
        ) == Some((west, south, east, north)),
        key != "bbox"@ ==> bbox_limits(
            key.push('=') + (west.push(',') + (south.push(',') + (east.push(',') + north))),
        ) is None,
        bbox_limits(
            key.push('=') + (west.push(',') + (south.push(',') + (east.push(',') + (north.push(',')
                + more)))),
        ) is None,
        bbox_limits(key.push('=') + (west.push(',') + (south.push(',') + east))) is None,
        bbox_limits(key) is None,
{
    let e = east.push(',') + north;
    let s = south.push(',') + e;
    let w = west.push(',') + s;
    texts_split_where_they_were_joined(key, '=', w);
    texts_split_where_they_were_joined(west, ',', s);
    texts_split_where_they_were_joined(south, ',', e);
    texts_split_where_they_were_joined(east, ',', north);
    texts_split_where_they_were_joined(north, ',', more);
    let n = north.push(',') + more;
    let e2 = east.push(',') + n;
    let s2 = south.push(',') + e2;
    let w2 = west.push(',') + s2;
    texts_split_where_they_were_joined(key, '=', w2);
    texts_split_where_they_were_joined(west, ',', s2);
    texts_split_where_they_were_joined(south, ',', e2);
    texts_split_where_they_were_joined(east, ',', n);
    let s3 = south.push(',') + east;
    let w3 = west.push(',') + s3;
    texts_split_where_they_were_joined(key, '=', w3);
    texts_split_where_they_were_joined(west, ',', s3);
    texts_split_where_they_were_joined(south, ',', east);
}

/// A scheme that is found by its name has that name, whatever the case, and is the
/// first that has; none is found where none has.
pub proof fn schemes_are_found_by_their_names(schemes: Seq<ColorScheme>, name: Seq<char>)
    ensures
        match found_scheme(schemes, name, schemes.len() as int) {
            Some(s) => exists|i: int|
                {
                    &&& 0 <= i < schemes.len()
                    &&& #[trigger] schemes[i] == s
                    &&& lowercased(scheme_name(s)) == lowercased(name)
                    &&& forall|j: int|
                        0 <= j < i ==> lowercased(scheme_name(#[trigger] schemes[j])) != lowercased(
                            name,
                        )
                },
            None => forall|j: int|
                0 <= j < schemes.len() ==> lowercased(scheme_name(#[trigger] schemes[j]))
                    != lowercased(name),
        },
{
    lemma_found_scheme(schemes, name, schemes.len() as int);
}

proof fn lemma_found_scheme(schemes: Seq<ColorScheme>, name: Seq<char>, n: int)
    requires
        0 <= n <= schemes.len(),
    ensures
        match found_scheme(schemes, name, n) {
            Some(s) => exists|i: int|
                {
                    &&& 0 <= i < n
                    &&& #[trigger] schemes[i] == s
                    &&& lowercased(scheme_name(s)) == lowercased(name)
                    &&& forall|j: int|
                        0 <= j < i ==> lowercased(scheme_name(#[trigger] schemes[j])) != lowercased(
                            name,
                        )
                },
            None => forall|j: int|
                0 <= j < n ==> lowercased(scheme_name(#[trigger] schemes[j])) != lowercased(name),
        },
    decreases n,
{
    if n > 0 {
        lemma_found_scheme(schemes, name, n - 1);
        if found_scheme(schemes, name, n - 1) is None && found_scheme(schemes, name, n) is Some {
            assert(schemes[n - 1] == found_scheme(schemes, name, n)->Some_0);
        }
    }
}

/// A label that is found by its name has that name, whatever the case, and is the
/// first that has; the number of labels stands for none.
pub proof fn labels_are_found_by_their_names(labels: Seq<Seq<char>>, name: Seq<char>, i: int)
    requires
        0 <= i <= labels.len(),
    ensures
        i <= found_label(labels, name, i) <= labels.len(),
        forall|j: int|
            i <= j < found_label(labels, name, i) ==> lowercased(#[trigger] labels[j])
                != lowercased(name),
        found_label(labels, name, i) < labels.len() ==> lowercased(
            labels[found_label(labels, name, i)],
        ) == lowercased(name),
    decreases labels.len() - i,
{
    if i < labels.len() && lowercased(labels[i]) != lowercased(name) {
        labels_are_found_by_their_names(labels, name, i + 1);
    }
}

/// Each of the 26 capitals is its small letter, 32 codes above it; every other
/// character is itself.
pub proof fn capitals_are_small_letters(c: char)
    ensures
        'A' <= c <= 'Z' ==> ascii_lower(c) == c as u32 + 32,
        c < 'A' || c > 'Z' ==> ascii_lower(c) == c as u32,
{
}

/// Words are compared letter by letter: a word equals itself, words of other
/// lengths are others, and letters that differ by more than their case make
/// another word.
pub proof fn words_are_compared_letter_by_letter(a: Seq<char>, b: Seq<char>, i: int)
    ensures
        same_word(a, a),
        same_word(a, b) == same_word(b, a),
        a.len() != b.len() ==> !same_word(a, b),
        0 <= i < a.len() && a.len() == b.len() && 'a' <= a[i] <= 'z' && 'a' <= b[i] <= 'z' && a[i]
            != b[i] ==> !same_word(a, b),
{
    if same_word(a, b) {
        assert forall|j: int| 0 <= j < b.len() implies ascii_lower(#[trigger] b[j]) == ascii_lower(
            a[j],
        ) by {
            assert(ascii_lower(a[j]) == ascii_lower(b[j]));
        }
        if 0 <= i < a.len() {
            assert(ascii_lower(a[i]) == ascii_lower(b[i]));
        }
    }
    if same_word(b, a) {
        assert forall|j: int| 0 <= j < a.len() implies ascii_lower(#[trigger] a[j]) == ascii_lower(
            b[j],
        ) by {
            assert(ascii_lower(b[j]) == ascii_lower(a[j]));
        }
    }
}

/// A path with the extension `mbtiles` is one MBTiles file and one with `pmtiles`
/// one PMTiles archive, whatever the case and wherever it lies; every other is a
/// directory.
pub proof fn outputs_go_by_their_extension(dir: Seq<char>, stem: Seq<char>, ext: Seq<char>)
    requires
        stem.len() > 0,
        !stem.contains('/'),
        !ext.contains('/'),
        !ext.contains('.'),
        stem != seq!['.'] || ext.len() > 0,
    ensures
        ({
            let kind = output_kind_spec(dir.push('/') + (stem.push('.') + ext));
            &&& same_word(ext, "mbtiles"@) <==> kind == OutputKind::Mbtiles
            &&& same_word(ext, "pmtiles"@) <==> kind == OutputKind::Pmtiles
        }),
{
    paths_have_the_ends_of_their_file_name(dir, stem, ext);
    reveal_strlit("mbtiles");
    reveal_strlit("pmtiles");
    if same_word(ext, "mbtiles"@) && same_word(ext, "pmtiles"@) {
        assert(ascii_lower(ext[0]) == ascii_lower("mbtiles"@[0]));
        assert(ascii_lower(ext[0]) == ascii_lower("pmtiles"@[0]));
    }
}

/// Each vector format is known by its own extension, GeoJSON by two.
pub proof fn formats_go_by_their_extension(ext: Seq<char>)
    ensures
        format_of(ext) == VectorFormat::GeoJson <==> ext == "geojson"@ || ext == "json"@,
        format_of(ext) == VectorFormat::GeoPackage <==> ext == "gpkg"@,
        format_of(ext) == VectorFormat::Shapefile <==> ext == "shp"@,
        format_of(ext) == VectorFormat::GeoParquet <==> ext == "parquet"@,
        format_of(ext) == VectorFormat::FlatGeobuf <==> ext == "fgb"@,
{
    reveal_strlit("geojson");
    reveal_strlit("json");
    reveal_strlit("gpkg");
    reveal_strlit("shp");
    reveal_strlit("parquet");
    reveal_strlit("fgb");
    assert("gpkg"@[0] == 'g' && "json"@[0] == 'j');
    assert("gpkg"@ != "json"@);
    assert("gpkg"@.len() == 4 && "geojson"@.len() == 7);
    assert("parquet"@[0] == 'p' && "geojson"@[0] == 'g');
    assert("shp"@[0] == 's' && "fgb"@[0] == 'f');
}

/// What a layer text says is seen as it is.
pub proof fn layers_are_seen_as_they_are(layer: LayerSpec)
    ensures
        layer@.name == layer.name@,
        layer@.path == layer.path@,
        layer.gpkg_table is None <==> layer@.gpkg_table is None,
        layer.gpkg_table matches Some(t) ==> layer@.gpkg_table == Some(t@),
{
}

} // verus!
