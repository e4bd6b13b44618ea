//! Tile images: channels composed to RGBA, and RGBA encoded.

use image::codecs::webp::WebPEncoder;
use image::ExtendedColorType;
use jpeg_encoder::{ColorType, Encoder};
use vstd::prelude::*;

use crate::error::{EncodeStep, Error};
use crate::grid::lemma_row_col;

verus! {

/// Encoded image format for raster tiles.
#[derive(Debug, Clone, Copy, PartialEq, Eq, Structural)]
pub enum TileFormat {
    /// PNG (lossless, universal). Default.
    Png,
    /// Lossless WebP, typically smaller than PNG with no quality loss.
    WebP,
    /// Lossy JPEG (no alpha: transparency is composited onto black).
    Jpeg,
}

impl Default for TileFormat {
    fn default() -> (format: TileFormat)
        ensures
            format == TileFormat::Png,
    {
        TileFormat::Png
    }
}

impl TileFormat {
    /// The name of the format in metadata, which is the file extension too.
    pub open spec fn name(self) -> Seq<char> {
        match self {
            TileFormat::Png => "png"@,
            TileFormat::WebP => "webp"@,
            TileFormat::Jpeg => "jpeg"@,
        }
    }

    /// The name of the format in metadata, which is the file extension too.
    pub fn as_str(self) -> (name: &'static str)
        ensures
            name@ == self.name(),
    {
        match self {
            TileFormat::Png => "png",
            TileFormat::WebP => "webp",
            TileFormat::Jpeg => "jpeg",
        }
    }
}

/// The PNG that `surtgis_colormap::rgba_to_png_bytes` makes of RGBA bytes;
/// `None` where it fails.
pub uninterp spec fn png_encoded(width: u32, height: u32, rgba: Seq<u8>) -> Option<Seq<u8>>;

/// The lossless WebP that the `image` crate makes of RGBA bytes; `None` where
/// it fails.
pub uninterp spec fn webp_encoded(width: u32, height: u32, rgba: Seq<u8>) -> Option<Seq<u8>>;

/// The JPEG that the `jpeg_encoder` crate makes of RGB bytes; `None` where it
/// fails.
pub uninterp spec fn jpeg_encoded(width: u16, height: u16, rgb: Seq<u8>, quality: u8) -> Option<
    Seq<u8>,
>;

/// `surtgis_colormap::rgba_to_png_bytes`.
///
/// Trusted: the outcome depends on the arguments alone, and a buffer that is
/// not four bytes per pixel is refused.
#[verifier::external_body]
fn encode_png(width: u32, height: u32, rgba: &[u8]) -> (image: Option<Vec<u8>>)
    requires
        4 * (width * height) <= usize::MAX,
    ensures
        match image {
            Some(v) => png_encoded(width, height, rgba@) == Some(v@),
            None => png_encoded(width, height, rgba@) is None,
        },
        rgba@.len() != 4 * (width * height) ==> image is None,
{
    surtgis_colormap::rgba_to_png_bytes(width, height, rgba).ok()
}

/// `image::codecs::webp::WebPEncoder`, lossless.
///
/// Trusted: the outcome depends on the arguments alone. A buffer that is not
/// four bytes per pixel, on which the encoder does not return, is left out.
#[verifier::external_body]
fn encode_webp(width: u32, height: u32, rgba: &[u8]) -> (image: Option<Vec<u8>>)
    requires
        rgba@.len() == 4 * (width * height),
    ensures
        match image {
            Some(v) => webp_encoded(width, height, rgba@) == Some(v@),
            None => webp_encoded(width, height, rgba@) is None,
        },
{
    let mut out = Vec::new();
    let done = WebPEncoder::new_lossless(&mut out).encode(
        rgba,
        width,
        height,
        ExtendedColorType::Rgba8,
    );
    done.ok().map(|_| out)
}

/// `jpeg_encoder::Encoder`, on RGB bytes.
///
/// Trusted: the outcome depends on the arguments alone, and a buffer of less
/// than three bytes per pixel is refused.
#[verifier::external_body]
fn encode_jpeg(width: u16, height: u16, rgb: &[u8], quality: u8) -> (image: Option<Vec<u8>>)
    requires
        3 * (width * height) <= usize::MAX,
    ensures
        match image {
            Some(v) => jpeg_encoded(width, height, rgb@, quality) == Some(v@),
            None => jpeg_encoded(width, height, rgb@, quality) is None,
        },
        rgb@.len() < 3 * (width * height) ==> image is None,
{
    let mut out = Vec::new();
    let done = Encoder::new(&mut out, quality).encode(rgb, width, height, ColorType::Rgb);
    done.ok().map(|_| out)
}

/// The quality of JPEG tiles.
pub const JPEG_QUALITY: u8 = 85;

/// A channel composited onto black.
pub open spec fn on_black(channel: u8, alpha: u8) -> u8 {
    ((channel * alpha) / 255) as u8
}

/// The RGB bytes of RGBA pixels composited onto black.
pub open spec fn blended(rgba: Seq<u8>) -> Seq<u8> {
    Seq::new(
        (3 * (rgba.len() / 4)) as nat,
        |k: int| on_black(rgba[4 * (k / 3) + k % 3], rgba[4 * (k / 3) + 3]),
    )
}

fn blend(rgba: &[u8]) -> (rgb: Vec<u8>)
    ensures
        rgb@ == blended(rgba@),
{
    let len: usize = rgba.len();
    let n: usize = len / 4;
    let mut rgb: Vec<u8> = Vec::new();
    for p in 0..n
        invariant
            len == rgba@.len(),
            n == len / 4,
            rgb@ == blended(rgba@).take(3 * p as int),
    {
        let a: u32 = rgba[4 * p + 3] as u32;
        let r: u32 = rgba[4 * p] as u32;
        let g: u32 = rgba[4 * p + 1] as u32;
        let b: u32 = rgba[4 * p + 2] as u32;
        proof {
            lemma_on_black(r, a);
            lemma_on_black(g, a);
            lemma_on_black(b, a);
        }
        rgb.push(((r * a) / 255) as u8);
        rgb.push(((g * a) / 255) as u8);
        rgb.push(((b * a) / 255) as u8);
        assert(rgb@ =~= blended(rgba@).take(3 * (p + 1)));
    }
    assert(rgb@ =~= blended(rgba@));
    rgb
}

proof fn lemma_on_black(c: u32, a: u32)
    requires
        c <= 255,
        a <= 255,
    ensures
        0 <= c * a <= 65025,
        0 <= (c * a) / 255 <= 255,
{
    assert(0 <= c * a <= 65025) by (nonlinear_arith)
        requires
            0 <= c <= 255,
            0 <= a <= 255,
    ;
}

/// A transparent pixel comes out black, an opaque one as it is.
pub proof fn blending_keeps_opaque_and_blackens_transparent(channel: u8)
    ensures
        on_black(channel, 0) == 0,
        on_black(channel, 255) == channel,
{
}

/// Pixels stay where they are when transparency is composited onto black: pixel
/// `p` of the RGB bytes is pixel `p` of the RGBA bytes, channel by channel, each
/// scaled by that pixel's own alpha. An opaque pixel keeps its three colours.
pub proof fn blending_keeps_pixels_in_place(rgba: Seq<u8>, p: int, c: int)
    requires
        0 <= p,
        4 * p + 3 < rgba.len(),
        0 <= c < 3,
    ensures
        blended(rgba).len() == 3 * (rgba.len() / 4),
        blended(rgba)[3 * p + c] == (rgba[4 * p + c] * rgba[4 * p + 3]) / 255,
        rgba[4 * p + 3] == 255 ==> blended(rgba)[3 * p + c] == rgba[4 * p + c],
        rgba[4 * p + 3] == 0 ==> blended(rgba)[3 * p + c] == 0,
{
    assert((3 * p + c) / 3 == p && (3 * p + c) % 3 == c);
    lemma_on_black(rgba[4 * p + c] as u32, rgba[4 * p + 3] as u32);
    blending_keeps_opaque_and_blackens_transparent(rgba[4 * p + c]);
}

/// A pixel's colours never grow when it is composited onto black, and the more
/// opaque of two pixels of one colour comes out no darker.
pub proof fn blending_darkens(channel: u8, alpha: u8, denser: u8)
    requires
        alpha <= denser,
    ensures
        on_black(channel, alpha) <= channel,
        on_black(channel, alpha) <= on_black(channel, denser),
{
    lemma_on_black(channel as u32, alpha as u32);
    lemma_on_black(channel as u32, denser as u32);
    assert(channel * alpha <= channel * denser) by (nonlinear_arith)
        requires
            0 <= channel,
            alpha <= denser,
    ;
    assert(channel * alpha <= channel * 255) by (nonlinear_arith)
        requires
            0 <= channel,
            alpha <= 255,
    ;
}

/// The image that a tile's RGBA bytes become; `None` where encoding fails.
pub open spec fn encoded(rgba: Seq<u8>, tile_size: u32, format: TileFormat) -> Option<Seq<u8>> {
    match format {
        TileFormat::Png => png_encoded(tile_size, tile_size, rgba),
        TileFormat::WebP => webp_encoded(tile_size, tile_size, rgba),
        TileFormat::Jpeg => jpeg_encoded(
            tile_size as u16,
            tile_size as u16,
            blended(rgba),
            JPEG_QUALITY,
        ),
    }
}

/// Pixel `p` of RGB bytes is pixel `p` of RGBA bytes, each colour scaled by the
/// pixel's alpha.
pub open spec fn is_pixel_on_black(rgb: Seq<u8>, rgba: Seq<u8>, p: int) -> bool {
    &&& rgb[3 * p] == (rgba[4 * p] * rgba[4 * p + 3]) / 255
    &&& rgb[3 * p + 1] == (rgba[4 * p + 1] * rgba[4 * p + 3]) / 255
    &&& rgb[3 * p + 2] == (rgba[4 * p + 2] * rgba[4 * p + 3]) / 255
}

/// Each format goes to its own encoder, with the tile's edge as width and as
/// height. The lossless ones are given the pixels as they are. JPEG is given three
/// bytes for each pixel, in the order of the pixels, at quality 85.
pub proof fn formats_have_their_encoders(rgba: Seq<u8>, tile_size: u32)
    requires
        tile_size <= u16::MAX,
        rgba.len() == 4 * (tile_size * tile_size),
    ensures
        encoded(rgba, tile_size, TileFormat::Png) == png_encoded(tile_size, tile_size, rgba),
        encoded(rgba, tile_size, TileFormat::WebP) == webp_encoded(tile_size, tile_size, rgba),
        exists|rgb: Seq<u8>|
            {
                &&& encoded(rgba, tile_size, TileFormat::Jpeg) == #[trigger] jpeg_encoded(
                    tile_size as u16,
                    tile_size as u16,
                    rgb,
                    85,
                )
                &&& rgb.len() == 3 * (tile_size * tile_size)
                &&& forall|p: int|
                    0 <= p < tile_size * tile_size ==> #[trigger] is_pixel_on_black(rgb, rgba, p)
            },
{
    let rgb = blended(rgba);
    assert forall|p: int| 0 <= p < tile_size * tile_size implies #[trigger] is_pixel_on_black(
        rgb,
        rgba,
        p,
    ) by {
        blending_keeps_pixels_in_place(rgba, p, 0);
        blending_keeps_pixels_in_place(rgba, p, 1);
        blending_keeps_pixels_in_place(rgba, p, 2);
    }
    assert(encoded(rgba, tile_size, TileFormat::Jpeg) == jpeg_encoded(
        tile_size as u16,
        tile_size as u16,
        rgb,
        85,
    ));
}

/// Encodes a tile's RGBA bytes. JPEG has no alpha: transparency is composited
/// onto black.
pub fn encode_rgba(rgba: &[u8], tile_size: u32, format: TileFormat) -> (image: Result<
    Vec<u8>,
    Error,
>)
    requires
        4 * (tile_size * tile_size) <= usize::MAX,
        format == TileFormat::WebP ==> rgba@.len() == 4 * (tile_size * tile_size),
        format == TileFormat::Jpeg ==> tile_size <= u16::MAX,
    ensures
        match encoded(rgba@, tile_size, format) {
            Some(bytes) => image matches Ok(v) && v@ == bytes,
            None => image == Err::<Vec<u8>, Error>(Error::Encode(EncodeStep::Image(format))),
        },
        format == TileFormat::Png && rgba@.len() != 4 * (tile_size * tile_size) ==> image is Err,
{
    let out: Option<Vec<u8>> = match format {
        TileFormat::Png => encode_png(tile_size, tile_size, rgba),
        TileFormat::WebP => encode_webp(tile_size, tile_size, rgba),
        TileFormat::Jpeg => {
            let rgb: Vec<u8> = blend(rgba);
            assert(3 * (tile_size * tile_size) <= 4 * (tile_size * tile_size)) by (nonlinear_arith);
            encode_jpeg(tile_size as u16, tile_size as u16, rgb.as_slice(), JPEG_QUALITY)
        },
    };
    match out {
        Some(v) => Ok(v),
        None => Err(Error::Encode(EncodeStep::Image(format))),
    }
}

/// A band's sample or, where it has none, 0.
pub open spec fn or_zero(v: Option<u8>) -> u8 {
    match v {
        Some(b) => b,
        None => 0,
    }
}

/// The colour bands that all have a sample make a pixel opaque, or as opaque
/// as the alpha band says where that has a sample.
pub open spec fn pixel_alpha(
    r: Option<u8>,
    g: Option<u8>,
    b: Option<u8>,
    alpha: Option<u8>,
) -> u8 {
    if r is Some && g is Some && b is Some {
        match alpha {
            Some(a) => a,
            None => 255,
        }
    } else {
        0
    }
}

/// Byte `k` of the pixels composed of bands.
pub open spec fn composed_byte(
    r: Seq<Option<u8>>,
    g: Seq<Option<u8>>,
    b: Seq<Option<u8>>,
    alpha: Option<Seq<Option<u8>>>,
    k: int,
) -> u8 {
    let p = k / 4;
    if k % 4 == 0 {
        or_zero(r[p])
    } else if k % 4 == 1 {
        or_zero(g[p])
    } else if k % 4 == 2 {
        or_zero(b[p])
    } else {
        pixel_alpha(
            r[p],
            g[p],
            b[p],
            match alpha {
                Some(a) => a[p],
                None => None,
            },
        )
    }
}

/// The RGBA bytes of colour bands, and of an alpha band where there is one.
pub open spec fn composed(
    r: Seq<Option<u8>>,
    g: Seq<Option<u8>>,
    b: Seq<Option<u8>>,
    alpha: Option<Seq<Option<u8>>>,
) -> Seq<u8> {
    Seq::new((4 * r.len()) as nat, |k: int| composed_byte(r, g, b, alpha, k))
}

/// Pixel `p` of the composed bytes holds the samples of the bands at `p`: red,
/// green and blue in this order, 0 where a band has none, then its alpha. The
/// pixel is transparent where a colour is missing, whatever the alpha band says,
/// opaque where all are there and no alpha is given, else as the alpha band says.
pub proof fn composing_keeps_pixels_in_place(
    r: Seq<Option<u8>>,
    g: Seq<Option<u8>>,
    b: Seq<Option<u8>>,
    alpha: Option<Seq<Option<u8>>>,
    p: int,
)
    requires
        0 <= p < r.len(),
    ensures
        composed(r, g, b, alpha).len() == 4 * r.len(),
        r[p] matches Some(v) ==> composed(r, g, b, alpha)[4 * p] == v,
        g[p] matches Some(v) ==> composed(r, g, b, alpha)[4 * p + 1] == v,
        b[p] matches Some(v) ==> composed(r, g, b, alpha)[4 * p + 2] == v,
        r[p] is None ==> composed(r, g, b, alpha)[4 * p] == 0,
        g[p] is None ==> composed(r, g, b, alpha)[4 * p + 1] == 0,
        b[p] is None ==> composed(r, g, b, alpha)[4 * p + 2] == 0,
        (r[p] is None || g[p] is None || b[p] is None) ==> composed(r, g, b, alpha)[4 * p + 3] == 0,
        (r[p] is Some && g[p] is Some && b[p] is Some && (alpha is None || alpha->Some_0[p] is None))
            ==> composed(r, g, b, alpha)[4 * p + 3] == 255,
        (r[p] is Some && g[p] is Some && b[p] is Some && alpha is Some && alpha->Some_0[p] is Some)
            ==> composed(r, g, b, alpha)[4 * p + 3] == alpha->Some_0[p]->Some_0,
{
    assert((4 * p) / 4 == p && (4 * p) % 4 == 0);
    assert((4 * p + 1) / 4 == p && (4 * p + 1) % 4 == 1);
    assert((4 * p + 2) / 4 == p && (4 * p + 2) % 4 == 2);
    assert((4 * p + 3) / 4 == p && (4 * p + 3) % 4 == 3);
}

/// The samples of a band, where there is one.
pub open spec fn band_view(band: Option<&Vec<Option<u8>>>) -> Option<Seq<Option<u8>>> {
    match band {
        Some(v) => Some(v@),
        None => None,
    }
}

/// A pixel has a sample in all three colour bands.
pub open spec fn has_pixel(
    r: Seq<Option<u8>>,
    g: Seq<Option<u8>>,
    b: Seq<Option<u8>>,
    p: int,
) -> bool {
    r[p] is Some && g[p] is Some && b[p] is Some
}

/// Composes three colour bands, and an alpha band where there is one, to RGBA
/// bytes; `None` where no pixel has all three colours.
///
/// Pixels where a colour band is missing become transparent.
pub fn compose_rgba(
    r: &Vec<Option<u8>>,
    g: &Vec<Option<u8>>,
    b: &Vec<Option<u8>>,
    alpha: Option<&Vec<Option<u8>>>,
) -> (rgba: Option<Vec<u8>>)
    requires
        r@.len() == g@.len() == b@.len(),
        alpha matches Some(a) ==> a@.len() == r@.len(),
    ensures
        rgba is Some <==> exists|p: int| 0 <= p < r@.len() && #[trigger] has_pixel(r@, g@, b@, p),
        rgba matches Some(v) ==> v@ == composed(r@, g@, b@, band_view(alpha)),
{
    let ghost want = composed(r@, g@, b@, band_view(alpha));
    let mut out: Vec<u8> = Vec::new();
    let mut any: bool = false;
    for p in 0..r.len()
        invariant
            r@.len() == g@.len() == b@.len(),
            alpha matches Some(a) ==> a@.len() == r@.len(),
            want == composed(r@, g@, b@, band_view(alpha)),
            out@ == want.take(4 * p as int),
            any <==> exists|q: int| 0 <= q < p && #[trigger] has_pixel(r@, g@, b@, q),
    {
        let opaque: bool = r[p].is_some() && g[p].is_some() && b[p].is_some();
        assert(opaque == has_pixel(r@, g@, b@, p as int));
        let a: Option<u8> = match alpha {
            Some(band) => band[p],
            None => None,
        };
        out.push(r[p].unwrap_or(0));
        out.push(g[p].unwrap_or(0));
        out.push(b[p].unwrap_or(0));
        out.push(
            if opaque {
                a.unwrap_or(255)
            } else {
                0
            },
        );
        if opaque {
            any = true;
        }
        assert(out@ =~= want.take(4 * (p + 1)));
    }
    assert(out@ =~= want);
    if any {
        Some(out)
    } else {
        None
    }
}

/// Samples a square of pixels row by row: `sample` is asked for each row and
/// column.
pub fn sample_grid<V, F>(n: usize, sample: &F) -> (cells: Vec<Option<V>>) where
    F: Fn(usize, usize) -> Option<V>,

    requires
        n * n <= usize::MAX,
        forall|i: usize, j: usize| i < n && j < n ==> call_requires(*sample, (i, j)),
    ensures
        cells@.len() == n * n,
        forall|k: int|
            0 <= k < n * n ==> call_ensures(
                *sample,
                ((k / n as int) as usize, (k % n as int) as usize),
                #[trigger] cells@[k],
            ),
{
    let mut cells: Vec<Option<V>> = Vec::new();
    let total: usize = n * n;
    for k in 0..total
        invariant
            total == n * n,
            forall|i: usize, j: usize| i < n && j < n ==> call_requires(*sample, (i, j)),
            cells@.len() == k,
            forall|m: int|
                0 <= m < k ==> call_ensures(
                    *sample,
                    ((m / n as int) as usize, (m % n as int) as usize),
                    #[trigger] cells@[m],
                ),
    {
        proof {
            lemma_row_col(k as int, n as int, n as int);
        }
        cells.push(sample(k / n, k % n));
    }
    cells
}

} // verus!
