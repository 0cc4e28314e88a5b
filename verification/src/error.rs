use vstd::prelude::*;

use crate::window_manager::FontId;

verus! {

/// Errors of the flat 2D [`crate::buffer::Buffer`] and of pixel lookups.
#[derive(Debug, Clone, PartialEq, Eq, Structural)]
pub enum BufferError {
    /// An address outside a `w` x `h` buffer was read.
    InvalidAddress { x: usize, y: usize, w: usize, h: usize },
    /// The number of elements is not a multiple of the requested width.
    InvalidSize { w: usize, iterator_size: usize },
    /// No elements were given to build a buffer from.
    EmptyIteratorOnInit {},
}

/// A replacement pixel buffer does not have the dimensions of the one it replaces.
#[derive(Debug, Clone, PartialEq, Eq, Structural)]
pub enum PixelBufferError {
    IncorrectBufferSize { orig_w: usize, orig_h: usize, new_w: usize, new_h: usize },
}

/// Operating-system I/O errors, carried opaquely.
#[verifier::external_type_specification]
#[verifier::external_body]
pub struct ExIoError(std::io::Error);

/// Errors of loading a font.
#[derive(Debug)]
pub enum FontError {
    /// The font file at `path` could not be read.
    Read { path: String, source: std::io::Error },
    /// The font data could not be parsed.
    Parse { reason: String },
}

/// Image decoding errors, carried opaquely.
#[verifier::external_type_specification]
#[verifier::external_body]
pub struct ExImageError(image::ImageError);

/// Errors of loading a texture from encoded image bytes.
#[derive(Debug)]
pub enum TextureError {
    /// The bytes could not be decoded as an image of the format their extension names.
    Decode { source: image::ImageError },
    /// The image decoded to no pixels.
    EmptyImage {},
}

/// Errors of drawing.
#[derive(Debug, Clone, Copy, PartialEq, Eq, Structural)]
pub enum DrawError {
    /// No font is loaded under the given id (it may have been unloaded).
    FontNotLoaded { font_id: FontId },
    /// A function that draws straight into the buffer was called during a render step.
    DrawDuringRenderStep,
}

} // verus!
