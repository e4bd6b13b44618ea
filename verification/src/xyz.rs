//! Directory trees of tiles: `{root}/{z}/{x}/{y}.{ext}` and a summary.

use vstd::prelude::*;

use crate::mercator::TileCoord;
use crate::paths::{split_at_first, texts_split_where_they_were_joined};
use crate::pyramid::PyramidMetadata;
use crate::text::{decimal, digit, lemma_says, push_decimal, quote, quoted, says};
use crate::vector::{number_value, numbers_are_read_back};

verus! {

/// Lays out a slippy-map directory tree with a `metadata.json` summary.
pub struct XyzSink {
    pub root: String,
    pub ext: String,
}

/// The directory of a tile below the root: `z/x`.
pub open spec fn tile_dir_spec(coord: TileCoord) -> Seq<char> {
    decimal(coord.z as nat) + "/"@ + decimal(coord.x as nat)
}

/// The file of a tile in its directory: `y.ext`.
pub open spec fn tile_file_spec(coord: TileCoord, ext: Seq<char>) -> Seq<char> {
    decimal(coord.y as nat) + "."@ + ext
}

/// The path of a tile below the root: `z/x/y.ext`.
pub open spec fn tile_path_spec(coord: TileCoord, ext: Seq<char>) -> Seq<char> {
    tile_dir_spec(coord) + "/"@ + tile_file_spec(coord, ext)
}

/// The bounds of a pyramid in degrees, each as text.
pub struct BoundsText {
    pub west: String,
    pub south: String,
    pub east: String,
    pub north: String,
}

/// The member that embeds the description of vector layers, where there is
/// one.
pub open spec fn json_member(json: Option<Seq<char>>) -> Seq<char> {
    match json {
        Some(j) => ",\n  \"json\": "@ + quoted(j),
        None => Seq::empty(),
    }
}

/// The summary of a pyramid, from which viewers configure themselves.
pub open spec fn summary(
    name: Seq<char>,
    format: Seq<char>,
    min_zoom: u8,
    max_zoom: u8,
    bounds: BoundsText,
    json: Option<Seq<char>>,
) -> Seq<char> {
    "{\n  \"name\": "@ + quoted(name) + ",\n  \"format\": \""@ + format + "\",\n  \"minzoom\": "@
        + decimal(min_zoom as nat) + ",\n  \"maxzoom\": "@ + decimal(max_zoom as nat)
        + ",\n  \"bounds\": ["@ + bounds.west@ + ", "@ + bounds.south@ + ", "@ + bounds.east@
        + ", "@ + bounds.north@ + "],\n  \"scheme\": \"xyz\""@ + json_member(json) + "\n}\n"@
}

impl XyzSink {
    /// A tree of PNG tiles.
    pub fn create(root: &str) -> (sink: XyzSink)
        ensures
            sink.root@ == root@,
            sink.ext@ == "png"@,
    {
        XyzSink::with_extension(root, "png")
    }

    /// A tree of tiles with the given file extension.
    pub fn with_extension(root: &str, ext: &str) -> (sink: XyzSink)
        ensures
            sink.root@ == root@,
            sink.ext@ == ext@,
    {
        XyzSink { root: root.to_owned(), ext: ext.to_owned() }
    }

    /// Root directory of the tree.
    pub fn root(&self) -> (root: &str)
        ensures
            root@ == self.root@,
    {
        self.root.as_str()
    }

    /// The directory of a tile below the root.
    pub fn tile_dir(&self, coord: TileCoord) -> (dir: String)
        ensures
            dir@ == tile_dir_spec(coord),
    {
        let mut out: String = String::new();
        push_decimal(&mut out, coord.z as u64);
        out.append("/");
        push_decimal(&mut out, coord.x as u64);
        assert(out@ =~= tile_dir_spec(coord));
        out
    }

    /// The file of a tile in its directory.
    pub fn tile_file(&self, coord: TileCoord) -> (file: String)
        ensures
            file@ == tile_file_spec(coord, self.ext@),
    {
        let mut out: String = String::new();
        push_decimal(&mut out, coord.y as u64);
        out.append(".");
        out.append(self.ext.as_str());
        assert(out@ =~= tile_file_spec(coord, self.ext@));
        out
    }

    /// The text of `metadata.json`.
    pub fn metadata_json(&self, meta: &PyramidMetadata, bounds: &BoundsText) -> (out: String)
        ensures
            out@ == summary(
                meta.name@,
                meta.format@,
                meta.min_zoom,
                meta.max_zoom,
                *bounds,
                match meta.json {
                    Some(j) => Some(j@),
                    None => None,
                },
            ),
    {
        let name: String = quote(meta.name.as_str());
        let mut out: String = "{\n  \"name\": ".to_owned();
        out.append(name.as_str());
        out.append(",\n  \"format\": \"");
        out.append(meta.format);
        out.append("\",\n  \"minzoom\": ");
        push_decimal(&mut out, meta.min_zoom as u64);
        out.append(",\n  \"maxzoom\": ");
        push_decimal(&mut out, meta.max_zoom as u64);
        out.append(",\n  \"bounds\": [");
        out.append(bounds.west.as_str());
        out.append(", ");
        out.append(bounds.south.as_str());
        out.append(", ");
        out.append(bounds.east.as_str());
        out.append(", ");
        out.append(bounds.north.as_str());
        out.append("],\n  \"scheme\": \"xyz\"");
        let ghost head = out@;
        match &meta.json {
            Some(j) => {
                let text: String = quote(j.as_str());
                out.append(",\n  \"json\": ");
                out.append(text.as_str());
                assert(out@ =~= head + json_member(Some(j@)));
            },
            None => {
                assert(out@ =~= head + json_member(None));
            },
        }
        out.append("\n}\n");
        out
    }
}

proof fn lemma_decimal_digits(n: nat, i: int)
    requires
        0 <= i < decimal(n).len(),
    ensures
        exists|d: int| 0 <= d < 10 && decimal(n)[i] == #[trigger] digit(d),
        decimal(n)[i] != '/',
        decimal(n)[i] != '.',
    decreases n,
{
    if n >= 10 {
        if i < decimal(n / 10).len() {
            lemma_decimal_digits(n / 10, i);
        } else {
            assert(decimal(n)[i] == digit((n % 10) as int));
        }
    } else {
        assert(decimal(n)[i] == digit(n as int));
    }
}

proof fn lemma_decimal_len(n: nat)
    ensures
        decimal(n).len() >= 1,
        n >= 10 ==> decimal(n).len() >= 2,
    decreases n,
{
    if n >= 10 {
        lemma_decimal_len(n / 10);
    }
}

/// Numbers that look alike in decimal are equal.
pub proof fn decimal_is_injective(a: nat, b: nat)
    requires
        decimal(a) == decimal(b),
    ensures
        a == b,
    decreases a,
{
    lemma_decimal_len(a);
    lemma_decimal_len(b);
    let s = decimal(a);
    if a >= 10 {
        assert(s.drop_last() =~= decimal(a / 10));
        assert(s.drop_last() =~= decimal(b / 10));
        decimal_is_injective(a / 10, b / 10);
        assert(s.last() == digit((a % 10) as int) && s.last() == digit((b % 10) as int));
    } else {
        assert(s[0] == digit(a as int) && s[0] == digit(b as int));
    }
}

/// What stands before the first `c` in `x + c + y` is `x`, if `x` has no `c`.
proof fn lemma_prefix_unique(
    x1: Seq<char>,
    y1: Seq<char>,
    x2: Seq<char>,
    y2: Seq<char>,
    c: char,
)
    requires
        forall|i: int| 0 <= i < x1.len() ==> x1[i] != c,
        forall|i: int| 0 <= i < x2.len() ==> x2[i] != c,
        x1 + seq![c] + y1 == x2 + seq![c] + y2,
    ensures
        x1 == x2,
        y1 == y2,
{
    let s = x1 + seq![c] + y1;
    let t = x2 + seq![c] + y2;
    assert(s[x1.len() as int] == c);
    assert(t[x2.len() as int] == c);
    if x1.len() < x2.len() {
        assert(t[x1.len() as int] == x2[x1.len() as int]);
    } else if x2.len() < x1.len() {
        assert(s[x2.len() as int] == x1[x2.len() as int]);
    }
    assert(x1 =~= s.take(x1.len() as int));
    assert(x2 =~= t.take(x2.len() as int));
    assert(y1 =~= s.subrange(x1.len() as int + 1, s.len() as int));
    assert(y2 =~= t.subrange(x2.len() as int + 1, t.len() as int));
}

/// Two tiles never share a path.
pub proof fn tile_paths_are_distinct(a: TileCoord, b: TileCoord, ext: Seq<char>)
    requires
        tile_path_spec(a, ext) == tile_path_spec(b, ext),
    ensures
        a == b,
{
    reveal_strlit("/");
    reveal_strlit(".");
    assert("/"@ =~= seq!['/']);
    assert("."@ =~= seq!['.']);
    let (az, ax, ay) = (decimal(a.z as nat), decimal(a.x as nat), decimal(a.y as nat));
    let (bz, bx, by) = (decimal(b.z as nat), decimal(b.x as nat), decimal(b.y as nat));
    assert forall|i: int| 0 <= i < az.len() implies az[i] != '/' by {
        lemma_decimal_digits(a.z as nat, i);
    }
    assert forall|i: int| 0 <= i < bz.len() implies bz[i] != '/' by {
        lemma_decimal_digits(b.z as nat, i);
    }
    assert forall|i: int| 0 <= i < ax.len() implies ax[i] != '/' by {
        lemma_decimal_digits(a.x as nat, i);
    }
    assert forall|i: int| 0 <= i < bx.len() implies bx[i] != '/' by {
        lemma_decimal_digits(b.x as nat, i);
    }
    assert forall|i: int| 0 <= i < ay.len() implies ay[i] != '.' by {
        lemma_decimal_digits(a.y as nat, i);
    }
    assert forall|i: int| 0 <= i < by.len() implies by[i] != '.' by {
        lemma_decimal_digits(b.y as nat, i);
    }
    let ra = ax + seq!['/'] + (ay + seq!['.'] + ext);
    let rb = bx + seq!['/'] + (by + seq!['.'] + ext);
    assert(tile_path_spec(a, ext) =~= az + seq!['/'] + ra);
    assert(tile_path_spec(b, ext) =~= bz + seq!['/'] + rb);
    lemma_prefix_unique(az, ra, bz, rb, '/');
    lemma_prefix_unique(ax, ay + seq!['.'] + ext, bx, by + seq!['.'] + ext, '/');
    lemma_prefix_unique(ay, ext, by, ext, '.');
    decimal_is_injective(a.z as nat, b.z as nat);
    decimal_is_injective(a.x as nat, b.x as nat);
    decimal_is_injective(a.y as nat, b.y as nat);
}

/// A tile is read back from its path: up to the first separator stands its zoom,
/// up to the second its column, and in the rest, up to the dot, its row; behind
/// the dot stands the extension. The directory ends with the column.
pub proof fn tiles_are_read_back_from_their_paths(coord: TileCoord, ext: Seq<char>)
    ensures
        split_at_first(tile_path_spec(coord, ext), '/') matches Some((z, inner)) && {
            &&& number_value(z) == Some(coord.z as u64)
            &&& split_at_first(inner, '/') matches Some((x, file)) && {
                &&& number_value(x) == Some(coord.x as u64)
                &&& split_at_first(tile_dir_spec(coord), '/') == Some((z, x))
                &&& tile_file_spec(coord, ext) == file
                &&& split_at_first(file, '.') matches Some((y, end)) && {
                    &&& number_value(y) == Some(coord.y as u64)
                    &&& end == ext
                }
            }
        },
{
    reveal_strlit("/");
    reveal_strlit(".");
    assert("/"@ =~= seq!['/']);
    assert("."@ =~= seq!['.']);
    let (z, x, y) = (decimal(coord.z as nat), decimal(coord.x as nat), decimal(coord.y as nat));
    lemma_no_separator(coord.z as nat);
    lemma_no_separator(coord.x as nat);
    lemma_no_separator(coord.y as nat);
    let file = y.push('.') + ext;
    let inner = x.push('/') + file;
    assert(tile_file_spec(coord, ext) =~= file);
    assert(tile_path_spec(coord, ext) =~= z.push('/') + inner);
    assert(tile_dir_spec(coord) =~= z.push('/') + x);
    texts_split_where_they_were_joined(z, '/', inner);
    texts_split_where_they_were_joined(z, '/', x);
    texts_split_where_they_were_joined(x, '/', file);
    texts_split_where_they_were_joined(y, '.', ext);
    numbers_are_read_back(coord.z as nat, seq!['+'] + z);
    numbers_are_read_back(coord.x as nat, seq!['+'] + x);
    numbers_are_read_back(coord.y as nat, seq!['+'] + y);
    assert(split_at_first(tile_path_spec(coord, ext), '/') == Some((z, inner)));
    assert(split_at_first(inner, '/') == Some((x, file)));
    assert(split_at_first(file, '.') == Some((y, ext)));
}

proof fn lemma_no_separator(n: nat)
    ensures
        !decimal(n).contains('/'),
        !decimal(n).contains('.'),
{
    let text = decimal(n);
    assert forall|i: int| 0 <= i < text.len() implies text[i] != '/' && text[i] != '.' by {
        lemma_decimal_digits(n, i);
    }
}

proof fn lemma_five_parts(
    text: Seq<char>,
    a: Seq<char>,
    b: Seq<char>,
    c: Seq<char>,
    d: Seq<char>,
    e: Seq<char>,
)
    requires
        text == a + b + c + d + e,
    ensures
        says(text, a),
        says(text, b),
        says(text, c),
        says(text, d),
        says(text, e),
{
    let none = Seq::<char>::empty();
    assert(text =~= none + a + (b + c + d + e));
    lemma_says(text, none, a, b + c + d + e);
    assert(text =~= a + b + (c + d + e));
    lemma_says(text, a, b, c + d + e);
    assert(text =~= (a + b) + c + (d + e));
    lemma_says(text, a + b, c, d + e);
    assert(text =~= (a + b + c) + d + e);
    lemma_says(text, a + b + c, d, e);
    assert(text =~= (a + b + c + d) + e + none);
    lemma_says(text, a + b + c + d, e, none);
}

/// The summary of a pyramid says its name, its format, its lowest and its highest
/// zoom, its bounds in the order west, south, east, north, and at its end the
/// description of its layers where there is one.
pub proof fn summaries_say_what_viewers_need(
    name: Seq<char>,
    format: Seq<char>,
    min_zoom: u8,
    max_zoom: u8,
    bounds: BoundsText,
    json: Option<Seq<char>>,
)
    ensures
        ({
            let text = summary(name, format, min_zoom, max_zoom, bounds, json);
            &&& says(text, "{\n  \"name\": "@ + quoted(name))
            &&& says(text, ",\n  \"format\": \""@ + format)
            &&& says(
                text,
                "\",\n  \"minzoom\": "@ + decimal(min_zoom as nat) + ",\n  \"maxzoom\": "@
                    + decimal(max_zoom as nat),
            )
            &&& says(
                text,
                ",\n  \"bounds\": ["@ + bounds.west@ + ", "@ + bounds.south@ + ", "@ + bounds.east@
                    + ", "@ + bounds.north@,
            )
            &&& json matches Some(j) ==> says(
                text,
                "],\n  \"scheme\": \"xyz\""@ + ",\n  \"json\": "@ + quoted(j) + "\n}\n"@,
            )
            &&& json is None ==> says(text, "],\n  \"scheme\": \"xyz\""@ + "\n}\n"@)
        }),
{
    let text = summary(name, format, min_zoom, max_zoom, bounds, json);
    let (lo, hi) = (decimal(min_zoom as nat), decimal(max_zoom as nat));
    let a = "{\n  \"name\": "@ + quoted(name);
    let b = ",\n  \"format\": \""@ + format;
    let c = "\",\n  \"minzoom\": "@ + lo + ",\n  \"maxzoom\": "@ + hi;
    let d = ",\n  \"bounds\": ["@ + bounds.west@ + ", "@ + bounds.south@ + ", "@ + bounds.east@
        + ", "@ + bounds.north@;
    let e = "],\n  \"scheme\": \"xyz\""@ + json_member(json) + "\n}\n"@;
    assert(text =~= a + b + c + d + e);
    lemma_five_parts(text, a, b, c, d, e);
    match json {
        Some(j) => {
            assert(e =~= "],\n  \"scheme\": \"xyz\""@ + ",\n  \"json\": "@ + quoted(j)
                + "\n}\n"@);
        },
        None => {
            assert(e =~= "],\n  \"scheme\": \"xyz\""@ + "\n}\n"@);
        },
    }
}

} // verus!
