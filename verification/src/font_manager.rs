use vstd::prelude::*;

use crate::error::FontError;
use crate::pixel_buffer::min_int;

verus! {

/// Fonts, as parsed by `fontdue`, carried opaquely.
#[verifier::external_type_specification]
#[verifier::external_body]
pub struct ExFont(fontdue::Font);

/// Whether `fontdue` accepts `data` as a font when parsing it with its default settings.
pub uninterp spec fn font_data_accepted(data: Seq<u8>) -> bool;

/// The message with which `fontdue` rejects `data` when parsing it with its default settings.
pub uninterp spec fn font_parse_message(data: Seq<u8>) -> Seq<char>;

/// Parses `data` with `fontdue::Font::from_bytes` and `fontdue::FontSettings::default()`.
///
/// Trusted: the call succeeds exactly when `font_data_accepted(data)` holds, a name for
/// fontdue's verdict on the bytes (parsing depends on the bytes alone), and a failure carries
/// the message `font_parse_message(data)`, fontdue's static error text for those bytes. Nothing
/// is claimed of the parsed font.
#[verifier::external_body]
fn parse_font(data: Vec<u8>) -> (r: Result<fontdue::Font, String>)
    ensures
        r is Ok <==> font_data_accepted(data@),
        r matches Err(reason) ==> reason@ == font_parse_message(data@),
{
    match fontdue::Font::from_bytes(data, fontdue::FontSettings::default()) {
        Ok(font) => Ok(font),
        Err(reason) => Err(reason.to_string()),
    }
}

/// A loaded font, used to rasterise and lay out text.
pub struct FontManager {
    /// The parsed font, used to rasterise glyphs and lay out text.
    pub font: fontdue::Font,
    /// Extra space between glyphs; text layout does not use it.
    pub spacing: usize,
}

impl FontManager {
    /// Loads a font from raw font-file bytes.
    ///
    /// Fails with `FontError::Parse`, carrying fontdue's message, when fontdue rejects the data.
    pub fn from_raw(font_data: Vec<u8>) -> (r: Result<FontManager, FontError>)
        ensures
            r is Ok <==> font_data_accepted(font_data@),
            r matches Ok(m) ==> m.spacing == 0,
            r matches Err(e) ==> (e matches FontError::Parse { reason } && reason@
                == font_parse_message(font_data@)),
    {
        Self::from_parsed(parse_font(font_data))
    }

    /// Wraps the outcome of parsing a font: a parsed font becomes a manager with no extra
    /// spacing, a parse failure becomes `FontError::Parse` with the parser's message.
    pub fn from_parsed(parsed: Result<fontdue::Font, String>) -> (r: Result<FontManager, FontError>)
        ensures
            parsed matches Ok(f) ==> (r matches Ok(m) && m.font == f && m.spacing == 0),
            parsed matches Err(reason) ==> (r matches Err(FontError::Parse { reason: got })
                && got == reason),
    {
        match parsed {
            Ok(font) => Ok(FontManager { font, spacing: 0 }),
            Err(reason) => Err(FontError::Parse { reason }),
        }
    }

    /// The same font with `spacing` set; text layout does not use spacing.
    pub fn with_spacing(self, spacing: usize) -> (m: Self)
        ensures
            m.font == self.font,
            m.spacing == spacing,
    {
        let mut m = self;
        m.spacing = spacing;
        m
    }
}

/// The part of a `glyph_w` x `glyph_h` glyph bitmap that is drawn with its top-left corner at
/// `(x, y)` of a `w` x `h` buffer: the numbers of its columns and rows that fit.
///
/// `None` when the glyph has no pixels or its corner lies past the right or the bottom edge; a
/// corner on an edge fits nothing but is not refused.
pub fn glyph_clip(x: usize, y: usize, w: usize, h: usize, glyph_w: usize, glyph_h: usize) -> (r:
    Option<(usize, usize)>)
    ensures
        r is None <==> (glyph_w == 0 || glyph_h == 0 || x > w || y > h),
        r matches Some((cols, rows)) ==> cols == min_int(glyph_w as int, w - x) && rows == min_int(
            glyph_h as int,
            h - y,
        ),
{
    if glyph_w == 0 || glyph_h == 0 || x > w || y > h {
        return None;
    }
    let free_x = w - x;
    let free_y = h - y;
    let cols = if glyph_w < free_x {
        glyph_w
    } else {
        free_x
    };
    let rows = if glyph_h < free_y {
        glyph_h
    } else {
        free_y
    };
    Some((cols, rows))
}

} // verus!
