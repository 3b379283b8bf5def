//! Images: formats, display pixels and encoding.
use crate::composite::SceneTile;
use crate::text::str_eq;
use image::{DynamicImage, ImageFormat, RgbaImage};
use std::io::Cursor;
use vstd::arithmetic::div_mod::*;
use vstd::prelude::*;
use vstd::string::*;

verus! {

// ─── Formats ────────────────────────────────────────────────────────────────

/// The format of an image.
#[derive(Debug, Clone, Copy, PartialEq, Eq, Structural)]
pub enum OutputFormat {
    Png,
    Jpeg,
    WebP,
}

/// What `str::to_lowercase` makes of a text.
pub uninterp spec fn lowercase_of(s: Seq<char>) -> Seq<char>;

/// The lower case of an ASCII character.
pub open spec fn lower_ascii(c: char) -> char {
    if 'A' <= c && c <= 'Z' {
        (c as u32 + 32) as char
    } else {
        c
    }
}

/// A text of ASCII characters.
pub open spec fn is_ascii_text(s: Seq<char>) -> bool {
    forall|i: int| 0 <= i < s.len() ==> (#[trigger] s[i]) as u32 <= 127
}

/// Trusted: `str::to_lowercase` of std is determined by the text alone, and turns the
/// ASCII letters A to Z into a to z, leaving other ASCII characters as they are. What it
/// makes of other characters is named and not stated.
#[verifier::external_body]
fn to_lowercase(s: &str) -> (r: String)
    ensures
        r@ == lowercase_of(s@),
        is_ascii_text(s@) ==> r@ == s@.map_values(|c: char| lower_ascii(c)),
{
    s.to_lowercase()
}

/// The format that a text in lower case names.
pub open spec fn format_named(s: Seq<char>) -> Option<OutputFormat> {
    if s == "png"@ {
        Some(OutputFormat::Png)
    } else if s == "jpg"@ || s == "jpeg"@ {
        Some(OutputFormat::Jpeg)
    } else if s == "webp"@ {
        Some(OutputFormat::WebP)
    } else {
        None
    }
}

impl OutputFormat {
    /// The format that a text in lower case names.
    pub fn from_lowercase(s: &str) -> (r: Option<Self>)
        ensures
            r == format_named(s@),
    {
        if str_eq(s, "png") {
            Some(OutputFormat::Png)
        } else if str_eq(s, "jpg") || str_eq(s, "jpeg") {
            Some(OutputFormat::Jpeg)
        } else if str_eq(s, "webp") {
            Some(OutputFormat::WebP)
        } else {
            None
        }
    }

    /// The format that a text names, in upper or lower case.
    pub fn from_str(s: &str) -> (r: Option<Self>)
        ensures
            r == format_named(lowercase_of(s@)),
            is_ascii_text(s@) ==> r == format_named(s@.map_values(|c: char| lower_ascii(c))),
    {
        let lower = to_lowercase(s);
        OutputFormat::from_lowercase(lower.as_str())
    }

    /// The media type.
    pub open spec fn media_type(self) -> Seq<char> {
        match self {
            OutputFormat::Png => "image/png"@,
            OutputFormat::Jpeg => "image/jpeg"@,
            OutputFormat::WebP => "image/webp"@,
        }
    }

    /// The media type.
    pub fn content_type(&self) -> (t: &'static str)
        ensures
            t@ == self.media_type(),
    {
        match self {
            OutputFormat::Png => "image/png",
            OutputFormat::Jpeg => "image/jpeg",
            OutputFormat::WebP => "image/webp",
        }
    }

    /// The file extension.
    pub open spec fn extension(self) -> Seq<char> {
        match self {
            OutputFormat::Png => "png"@,
            OutputFormat::Jpeg => "jpg"@,
            OutputFormat::WebP => "webp"@,
        }
    }

    /// The file extension.
    pub fn as_ext(&self) -> (t: &'static str)
        ensures
            t@ == self.extension(),
    {
        match self {
            OutputFormat::Png => "png",
            OutputFormat::Jpeg => "jpg",
            OutputFormat::WebP => "webp",
        }
    }
}

/// The extension of a format is an ASCII text in lower case without slashes that names
/// the format.
pub proof fn extension_names_format(f: OutputFormat)
    ensures
        is_ascii_text(f.extension()),
        f.extension().map_values(|c: char| lower_ascii(c)) == f.extension(),
        format_named(f.extension()) == Some(f),
        !f.extension().contains('/'),
{
    reveal_strlit("png");
    reveal_strlit("jpg");
    reveal_strlit("jpeg");
    reveal_strlit("webp");
    assert(f.extension().map_values(|c: char| lower_ascii(c)) =~= f.extension());
    match f {
        OutputFormat::Png => {},
        OutputFormat::Jpeg => {
            assert("jpg"@[0] == 'j' && "png"@[0] == 'p');
        },
        OutputFormat::WebP => {
            assert("webp"@.len() == 4 && "png"@.len() == 3 && "jpg"@.len() == 3);
            assert("webp"@[0] == 'w' && "jpeg"@[0] == 'j');
        },
    }
}

/// The media type of a format is `image/` and a name of the format, for all but JPEG its
/// extension, so that no two formats share one.
pub proof fn media_type_names_format(f: OutputFormat)
    ensures
        f.media_type().len() >= 6,
        f.media_type().take(6) == "image/"@,
        format_named(f.media_type().skip(6)) == Some(f),
        f != OutputFormat::Jpeg ==> f.media_type().skip(6) == f.extension(),
{
    extension_names_format(f);
    reveal_strlit("image/");
    reveal_strlit("image/png");
    reveal_strlit("image/jpeg");
    reveal_strlit("image/webp");
    reveal_strlit("png");
    reveal_strlit("jpeg");
    reveal_strlit("webp");
    let name = f.media_type().skip(6);
    assert(f.media_type().take(6) =~= "image/"@);
    match f {
        OutputFormat::Png => {
            assert(name =~= "png"@);
        },
        OutputFormat::Jpeg => {
            assert(name =~= "jpeg"@);
            assert(name[0] == 'j' && "png"@[0] == 'p');
        },
        OutputFormat::WebP => {
            assert(name =~= "webp"@);
        },
    }
}

/// Four texts name a format, two of them JPEG.
pub proof fn names_of_formats(s: Seq<char>)
    ensures
        format_named(s) is Some <==> s == "png"@ || s == "jpg"@ || s == "jpeg"@ || s == "webp"@,
        format_named(s) == Some(OutputFormat::Jpeg) <==> s == "jpg"@ || s == "jpeg"@,
        format_named(s) == Some(OutputFormat::Png) <==> s == "png"@,
        format_named(s) == Some(OutputFormat::WebP) <==> s == "webp"@,
{
    extension_names_format(OutputFormat::Png);
    extension_names_format(OutputFormat::WebP);
    media_type_names_format(OutputFormat::Jpeg);
    reveal_strlit("png");
    reveal_strlit("jpg");
    reveal_strlit("jpeg");
    reveal_strlit("webp");
    assert("png"@[0] == 'p' && "jpg"@[0] == 'j' && "jpeg"@[0] == 'j' && "webp"@[0] == 'w');
}

/// An ASCII text that names a format holds no slash.
pub proof fn format_texts_hold_no_slash(s: Seq<char>)
    requires
        is_ascii_text(s),
        format_named(s.map_values(|c: char| lower_ascii(c))) is Some,
    ensures
        !s.contains('/'),
{
    reveal_strlit("png");
    reveal_strlit("jpg");
    reveal_strlit("jpeg");
    reveal_strlit("webp");
    let lower = s.map_values(|c: char| lower_ascii(c));
    assert(!"png"@.contains('/') && !"jpg"@.contains('/'));
    assert(!"jpeg"@.contains('/') && !"webp"@.contains('/'));
    if s.contains('/') {
        let i = choose|i: int| 0 <= i < s.len() && s[i] == '/';
        assert(lower[i] == '/');
        assert(lower.contains('/'));
    }
}

// ─── Pixels ─────────────────────────────────────────────────────────────────

/// Number of values that a sample can have.
pub const SAMPLE_VALUES: usize = 65536;

/// Display values: for each value of a sample where a tile shows its bands, and for each
/// pixel, row by row, where it shows its vegetation index.
#[derive(Debug)]
pub struct Levels {
    pub samples: Vec<u8>,
    pub index: Vec<u8>,
}

impl Levels {
    /// There are display values for all that the tile shows.
    pub open spec fn suit(self, tile: SceneTile) -> bool {
        if tile.ndvi is Some {
            self.index@.len() == tile.side() * tile.side()
        } else {
            tile.n_bands() > 0 && self.samples@.len() == SAMPLE_VALUES
        }
    }
}

/// The colour that a pixel is shown in: grey for the vegetation index and for any number
/// of bands but three.
pub open spec fn shown(tile: SceneTile, levels: Levels, r: int, c: int) -> (u8, u8, u8) {
    if tile.ndvi is Some {
        let v = levels.index@[r * tile.side() + c];
        (v, v, v)
    } else if tile.n_bands() == 3 {
        (
            levels.samples@[tile.data.at(0, r, c) as int],
            levels.samples@[tile.data.at(1, r, c) as int],
            levels.samples@[tile.data.at(2, r, c) as int],
        )
    } else {
        let v = levels.samples@[tile.data.at(0, r, c) as int];
        (v, v, v)
    }
}

/// The red, green, blue and alpha bytes of a tile, row by row. Every pixel is opaque.
pub open spec fn rgba_of(tile: SceneTile, levels: Levels) -> Seq<u8> {
    Seq::new(
        4 * (tile.side() * tile.side()),
        |i: int|
            {
                let p = i / 4;
                let v = shown(tile, levels, p / tile.side() as int, p % tile.side() as int);
                if i % 4 == 0 {
                    v.0
                } else if i % 4 == 1 {
                    v.1
                } else if i % 4 == 2 {
                    v.2
                } else {
                    255
                }
            },
    )
}

/// The colour that a pixel is shown in.
fn colour(tile: &SceneTile, levels: &Levels, n: usize, r: usize, c: usize) -> (v: (u8, u8, u8))
    requires
        tile.wf(),
        levels.suit(*tile),
        n == tile.side(),
        r < n,
        c < n,
    ensures
        v == shown(*tile, *levels, r as int, c as int),
{
    if tile.ndvi.is_some() {
        assert(levels.index@.len() == levels.index.len());
        assert(0 <= r * n && r * n + c < n * n) by (nonlinear_arith)
            requires
                0 <= r < n,
                0 <= c < n,
        ;
        let g: u8 = levels.index[r * n + c];
        (g, g, g)
    } else if tile.bands() == 3 {
        let a: u16 = tile.data.get(0, r, c);
        let b: u16 = tile.data.get(1, r, c);
        let d: u16 = tile.data.get(2, r, c);
        (levels.samples[a as usize], levels.samples[b as usize], levels.samples[d as usize])
    } else {
        let a: u16 = tile.data.get(0, r, c);
        let g: u8 = levels.samples[a as usize];
        (g, g, g)
    }
}

/// The red, green, blue and alpha bytes of a tile, row by row.
pub fn tile_rgba(tile: &SceneTile, levels: &Levels) -> (rgba: Vec<u8>)
    requires
        tile.wf(),
        levels.suit(*tile),
    ensures
        rgba@ == rgba_of(*tile, *levels),
{
    let n: usize = tile.size();
    let ghost want = rgba_of(*tile, *levels);
    let ghost side = n as int;
    let mut rgba: Vec<u8> = Vec::new();
    assert(0 * side == 0) by (nonlinear_arith);
    for r in 0..n
        invariant
            tile.wf(),
            levels.suit(*tile),
            n == tile.side(),
            side == n,
            want == rgba_of(*tile, *levels),
            rgba@.len() == 4 * (r * side),
            forall|i: int| 0 <= i < rgba@.len() ==> rgba@[i] == want[i],
    {
        for c in 0..n
            invariant
                tile.wf(),
                levels.suit(*tile),
                n == tile.side(),
                side == n,
                r < n,
                want == rgba_of(*tile, *levels),
                rgba@.len() == 4 * (r * side + c),
                forall|i: int| 0 <= i < rgba@.len() ==> rgba@[i] == want[i],
        {
            let v: (u8, u8, u8) = colour(tile, levels, n, r, c);
            proof {
                let p = r * side + c;
                assert(0 <= p < side * side) by (nonlinear_arith)
                    requires
                        0 <= r < side,
                        0 <= c < side,
                        p == r * side + c,
                ;
                lemma_fundamental_div_mod_converse(p, side, r as int, c as int);
                assert((4 * p) / 4 == p && (4 * p + 1) / 4 == p && (4 * p + 2) / 4 == p && (4 * p + 3)
                    / 4 == p);
                assert(want[4 * p] == v.0);
                assert(want[4 * p + 1] == v.1);
                assert(want[4 * p + 2] == v.2);
                assert(want[4 * p + 3] == 255);
            }
            rgba.push(v.0);
            rgba.push(v.1);
            rgba.push(v.2);
            rgba.push(255);
        }
        assert((r + 1) * side == r * side + side) by (nonlinear_arith);
    }
    assert(rgba@ =~= want);
    rgba
}

/// The bytes of the pixel at a row and column. Of a tile with three bands the first is shown
/// in red, the second in green and the third in blue; of any other one the first is shown
/// in grey, and of a vegetation index its display value. The fourth byte is full.
pub proof fn pixels_are_shown(tile: SceneTile, levels: Levels, r: int, c: int)
    requires
        0 <= r < tile.data.rows(),
        0 <= c < tile.data.rows(),
    ensures
        ({
            let n = tile.data.rows();
            let p = 4 * (r * n + c);
            let rgba = rgba_of(tile, levels);
            &&& rgba.len() == 4 * (n * n)
            &&& 0 <= p && p + 3 < rgba.len()
            &&& tile.ndvi is None && tile.data.bands() == 3 ==> {
                &&& rgba[p] == levels.samples@[tile.data.at(0, r, c) as int]
                &&& rgba[p + 1] == levels.samples@[tile.data.at(1, r, c) as int]
                &&& rgba[p + 2] == levels.samples@[tile.data.at(2, r, c) as int]
            }
            &&& tile.ndvi is None && tile.data.bands() != 3 ==> {
                &&& rgba[p] == levels.samples@[tile.data.at(0, r, c) as int]
                &&& rgba[p + 1] == rgba[p]
                &&& rgba[p + 2] == rgba[p]
            }
            &&& tile.ndvi is Some ==> {
                &&& rgba[p] == levels.index@[r * n + c]
                &&& rgba[p + 1] == rgba[p]
                &&& rgba[p + 2] == rgba[p]
            }
            &&& rgba[p + 3] == 255
        }),
{
    let n = tile.data.rows() as int;
    let q = r * n + c;
    assert(0 <= q < n * n) by (nonlinear_arith)
        requires
            0 <= r < n,
            0 <= c < n,
            q == r * n + c,
    ;
    lemma_fundamental_div_mod_converse(q, n, r, c);
    assert((4 * q) / 4 == q && (4 * q + 1) / 4 == q && (4 * q + 2) / 4 == q && (4 * q + 3) / 4 == q);
}

/// Every pixel of a rendered tile is opaque.
pub proof fn tiles_are_opaque(tile: SceneTile, levels: Levels, p: int)
    requires
        0 <= p < tile.side() * tile.side(),
    ensures
        rgba_of(tile, levels)[4 * p + 3] == 255,
{
    assert((4 * p + 3) / 4 == p && (4 * p + 3) % 4 == 3);
}

// ─── Encoding ───────────────────────────────────────────────────────────────

/// The file that `image::DynamicImage::write_to` makes of RGBA pixels in a format, if it
/// can.
pub uninterp spec fn encoded(
    rgba: Seq<u8>,
    width: u32,
    height: u32,
    format: OutputFormat,
) -> Option<Seq<u8>>;

/// An image of this size can be encoded in a format: it has pixels, and no side is longer
/// than the format allows.
pub open spec fn encodable(width: u32, height: u32, format: OutputFormat) -> bool {
    let limit = match format {
        OutputFormat::Png => u32::MAX,
        OutputFormat::Jpeg => 65535,
        OutputFormat::WebP => 16384,
    };
    1 <= width <= limit && 1 <= height <= limit
}

/// Trusted: `image::DynamicImage::write_to`, on an image that `RgbaImage::from_raw` makes
/// of the pixels, is determined by pixels, size and format, and gives a file exactly where
/// the format allows the size; writing to memory does not fail. What it writes is named
/// and not stated.
#[verifier::external_body]
fn write_image(rgba: Vec<u8>, width: u32, height: u32, format: OutputFormat) -> (r: Option<Vec<u8>>)
    requires
        rgba@.len() == 4 * (width * height),
    ensures
        match r {
            Some(file) => encoded(rgba@, width, height, format) == Some(file@),
            None => encoded(rgba@, width, height, format) is None,
        },
        r is Some <==> encodable(width, height, format),
{
    let img = RgbaImage::from_raw(width, height, rgba)?;
    let kind = match format {
        OutputFormat::Png => ImageFormat::Png,
        OutputFormat::Jpeg => ImageFormat::Jpeg,
        OutputFormat::WebP => ImageFormat::WebP,
    };
    let mut buf: Vec<u8> = Vec::new();
    DynamicImage::ImageRgba8(img).write_to(&mut Cursor::new(&mut buf), kind).ok()?;
    Some(buf)
}

/// Encode a tile; `None` where the format does not allow its size.
pub fn encode_tile(tile: &SceneTile, levels: &Levels, format: OutputFormat) -> (r: Option<Vec<u8>>)
    requires
        tile.wf(),
        levels.suit(*tile),
        tile.side() <= u32::MAX,
    ensures
        match r {
            Some(file) => encoded(
                rgba_of(*tile, *levels),
                tile.side() as u32,
                tile.side() as u32,
                format,
            ) == Some(file@),
            None => encoded(
                rgba_of(*tile, *levels),
                tile.side() as u32,
                tile.side() as u32,
                format,
            ) is None,
        },
        r is Some <==> encodable(tile.side() as u32, tile.side() as u32, format),
{
    let rgba = tile_rgba(tile, levels);
    let n: u32 = tile.size() as u32;
    write_image(rgba, n, n, format)
}

/// Side of a tile in pixels.
pub const EMPTY_SIDE: u32 = 256;

/// The bytes of a fully transparent tile.
pub open spec fn transparent() -> Seq<u8> {
    Seq::new(4 * 65536, |i: int| 0u8)
}

/// A transparent tile has 256 rows of 256 pixels of four bytes, all of them 0.
pub proof fn transparent_bytes(i: int)
    ensures
        EMPTY_SIDE == 256,
        transparent().len() == 4 * (256 * 256),
        0 <= i < transparent().len() ==> transparent()[i] == 0,
{
}

/// A fully transparent tile as PNG, for tiles without any data.
pub fn empty_tile_png() -> (file: Vec<u8>)
    ensures
        encoded(transparent(), EMPTY_SIDE, EMPTY_SIDE, OutputFormat::Png) == Some(file@),
{
    let rgba: Vec<u8> = vec![0u8; 262144];
    assert(rgba@ =~= transparent());
    write_image(rgba, EMPTY_SIDE, EMPTY_SIDE, OutputFormat::Png).unwrap()
}

} // verus!
