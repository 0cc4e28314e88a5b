use std::io::Cursor;

use emir::color::Color;
use emir::error::TextureError;
use emir::texture::texture_from_bytes;
use image::{ImageFormat, RgbaImage};

fn png_bytes(w: u32, h: u32, rgba: Vec<u8>) -> Vec<u8> {
    let img = RgbaImage::from_raw(w, h, rgba).unwrap();
    let mut out = Cursor::new(Vec::new());
    img.write_to(&mut out, ImageFormat::Png).unwrap();
    out.into_inner()
}

#[test]
fn texture_from_png_bytes() {
    let png = png_bytes(2, 1, vec![255, 0, 0, 255, 1, 2, 3, 0]);
    let t = texture_from_bytes(&png, "png").unwrap();
    assert_eq!(t.buff.get_dimensions(), (2, 1));
    assert_eq!(t.buff.buff.buff, vec![Color::new(255, 0, 0), Color::new(1, 2, 3)]);
}

#[test]
fn texture_extension_is_case_insensitive() {
    let png = png_bytes(1, 2, vec![9, 8, 7, 6, 5, 4, 3, 2]);
    let t = texture_from_bytes(&png, "PNG").unwrap();
    assert_eq!(t.buff.get_dimensions(), (1, 2));
    assert_eq!(t.buff.buff.buff, vec![Color::new(9, 8, 7), Color::new(5, 4, 3)]);
}

#[test]
fn texture_decode_errors() {
    let png = png_bytes(1, 1, vec![0, 0, 0, 0]);
    assert!(matches!(texture_from_bytes(&png, "txt"), Err(TextureError::Decode { .. })));
    assert!(matches!(texture_from_bytes(&png, ""), Err(TextureError::Decode { .. })));
    assert!(matches!(texture_from_bytes(&png, "jpg"), Err(TextureError::Decode { .. })));
    assert!(matches!(texture_from_bytes(&[1, 2, 3], "png"), Err(TextureError::Decode { .. })));
}
