use vstd::prelude::*;

use crate::buffer::Buffer;
use crate::color::{packed, Color};
use crate::error::{BufferError, TextureError};
use crate::pixel_buffer::PixelBuffer;

verus! {

/// The colour of the `i`-th 4-byte RGBA group of `bytes` (alpha is dropped), as its packed value.
pub open spec fn rgba_pixel(bytes: Seq<u8>, i: int) -> int {
    packed(bytes[4 * i] as int, bytes[4 * i + 1] as int, bytes[4 * i + 2] as int)
}

/// The number of pixels in `len` bytes of RGBA data; a last, shorter group counts as one.
pub open spec fn rgba_pixel_count(len: int) -> int {
    (len + 3) / 4
}

/// What `image` decodes `bytes` to, read as the format that the file extension `ext` names:
/// the width, the height and the RGBA bytes of the image, or `None` when decoding fails.
pub uninterp spec fn decoded_rgba(bytes: Seq<u8>, ext: Seq<char>) -> Option<(u32, u32, Seq<u8>)>;

/// Decodes `bytes` with `image::ImageReader::decode`, as the format that
/// `image::ImageFormat::from_extension(ext)` names (with no format when it names none, which
/// `decode` refuses), and converts the image to 8-bit RGBA with `to_rgba8`.
///
/// Trusted: the call succeeds exactly when `decoded_rgba(bytes, ext)` is `Some`, a name for
/// what the decoder makes of the bytes (decoding depends on the bytes and the format alone), and
/// then returns that width, height and data; the RGBA data holds four bytes per pixel, as
/// `to_rgba8` builds it. Nothing is claimed of the error.
#[verifier::external_body]
fn decode_rgba(bytes: &[u8], ext: &str) -> (r: Result<(u32, u32, Vec<u8>), image::ImageError>)
    ensures
        r is Ok <==> decoded_rgba(bytes@, ext@) is Some,
        r matches Ok((w, h, raw)) ==> decoded_rgba(bytes@, ext@) == Some((w, h, raw@))
            && raw@.len() == 4 * w * h,
{
    let cursor = std::io::Cursor::new(bytes);
    let reader = match image::ImageFormat::from_extension(ext) {
        Some(format) => image::ImageReader::with_format(cursor, format),
        None => image::ImageReader::new(cursor),
    };
    let rgba = reader.decode()?.to_rgba8();
    Ok((rgba.width(), rgba.height(), rgba.into_raw()))
}

/// An image held as a pixel buffer, ready to be blitted.
pub struct Texture {
    pub buff: PixelBuffer,
}

impl Texture {
    /// Builds a texture of width `w` from raw RGBA bytes, four per pixel, row by row; the
    /// alpha byte of each pixel is dropped.
    ///
    /// Fails as `Buffer::try_from_iterator` does when there are no pixels or when their number
    /// is not a multiple of `w`.
    pub fn from_rgba(w: usize, rgba: &[u8]) -> (r: Result<Texture, BufferError>)
        requires
            rgba@.len() % 4 != 1,
            rgba@.len() % 4 != 2,
        ensures
            ({
                let n = rgba_pixel_count(rgba@.len() as int);
                &&& n == 0 ==> r == Err::<Texture, BufferError>(BufferError::EmptyIteratorOnInit {  })
                &&& n != 0 && (w == 0 || n % (w as int) != 0) ==> r == Err::<Texture, BufferError>(
                    BufferError::InvalidSize { w, iterator_size: n as usize },
                )
                &&& n != 0 && w != 0 && n % (w as int) == 0 ==> (r matches Ok(t) && t.buff.wf()
                    && t.buff.width() == w && t.buff.height() == n / (w as int)
                    && t.buff.pixels().len() == n && forall|i: int|
                    0 <= i < n ==> (#[trigger] t.buff.pixels()[i])@ == rgba_pixel(rgba@, i))
            }),
    {
        let n = rgba.len() / 4 + if rgba.len() % 4 != 0 {
            1
        } else {
            0
        };
        let mut colors: Vec<Color> = Vec::new();
        let mut k: usize = 0;
        while k < n
            invariant
                rgba@.len() % 4 != 1,
                rgba@.len() % 4 != 2,
                n == rgba_pixel_count(rgba@.len() as int),
                0 <= k <= n,
                colors@.len() == k,
                forall|j: int| 0 <= j < colors@.len() ==> (#[trigger] colors@[j])@ == rgba_pixel(rgba@, j),
            decreases n - k,
        {
            assert(rgba@.len() == rgba.len());
            assert(4 * k + 2 < rgba@.len());
            let c = Color::new(rgba[4 * k], rgba[4 * k + 1], rgba[4 * k + 2]);
            colors.push(c);
            k = k + 1;
        }
        assert(colors@.len() == rgba_pixel_count(rgba@.len() as int));
        match Buffer::try_from_iterator(w, colors) {
            Ok(b) => Ok(Texture { buff: PixelBuffer { buff: b } }),
            Err(e) => Err(e),
        }
    }
}

/// Loads a texture from the encoded bytes of an image file whose extension is `ext`
/// (`"png"`, `"jpg"`, ...; the format is chosen by the extension, as when opening a file).
///
/// Fails with `Decode` when the bytes cannot be decoded as that format, and with `EmptyImage`
/// when the image has no pixels; otherwise the texture has the image's size and colours (the
/// alpha channel is dropped).
pub fn texture_from_bytes(bytes: &[u8], ext: &str) -> (r: Result<Texture, TextureError>)
    ensures
        match decoded_rgba(bytes@, ext@) {
            None => r matches Err(TextureError::Decode { .. }),
            Some((w, h, raw)) => if w == 0 || h == 0 {
                r == Err::<Texture, TextureError>(TextureError::EmptyImage {  })
            } else {
                r matches Ok(t) && t.buff.wf() && t.buff.width() == w && t.buff.height() == h
                    && t.buff.pixels().len() == w * h && forall|i: int|
                    0 <= i < w * h ==> (#[trigger] t.buff.pixels()[i])@ == rgba_pixel(raw, i)
            },
        },
{
    match decode_rgba(bytes, ext) {
        Err(source) => Err(TextureError::Decode { source }),
        Ok((w, h, raw)) => {
            if w == 0 || h == 0 {
                return Err(TextureError::EmptyImage {  });
            }
            proof {
                let n = (w * h) as int;
                let len = raw@.len() as int;
                assert(len == 4 * n) by (nonlinear_arith)
                    requires
                        len == 4 * w * h,
                        n == w * h,
                ;
                assert(rgba_pixel_count(raw@.len() as int) == n);
                assert(n % (w as int) == 0 && n / (w as int) == h) by (nonlinear_arith)
                    requires
                        n == w * h,
                        w > 0,
                ;
                assert(n > 0) by (nonlinear_arith)
                    requires
                        n == w * h,
                        w > 0,
                        h > 0,
                ;
            }
            match Texture::from_rgba(w as usize, raw.as_slice()) {
                Ok(t) => Ok(t),
                Err(_) => {
                    proof {
                        assert(false);
                    }
                    Err(TextureError::EmptyImage {  })
                },
            }
        },
    }
}

} // verus!
