use emir::color::Color;
use emir::error::{DrawError, FontError, PixelBufferError};
use emir::font_manager::{glyph_clip, FontManager};
use emir::pixel_buffer::PixelBuffer;
use emir::window_manager::{lookup_font, FontId, WindowManager};

fn painted(m: &WindowManager, c: Color) -> Vec<(usize, usize)> {
    let w = m.buff.buff.w;
    (0..m.buff.buff.buff.len()).filter(|i| m.buff.buff.buff[*i] == c).map(|i| (i % w, i / w)).collect()
}

fn be16(v: u16) -> [u8; 2] {
    v.to_be_bytes()
}

/// A minimal TrueType font: a table directory with `head`, `hhea` and `maxp` tables.
fn tiny_font() -> Vec<u8> {
    let mut head = vec![0u8; 54];
    head[0..4].copy_from_slice(&[0, 1, 0, 0]);
    head[12..16].copy_from_slice(&[0x5F, 0x0F, 0x3C, 0xF5]);
    head[18..20].copy_from_slice(&be16(1000));
    let mut hhea = vec![0u8; 36];
    hhea[0..4].copy_from_slice(&[0, 1, 0, 0]);
    hhea[4..6].copy_from_slice(&be16(800));
    hhea[34..36].copy_from_slice(&be16(1));
    let maxp = vec![0u8, 0, 0x50, 0, 0, 1];
    let tables: Vec<(&[u8; 4], Vec<u8>)> = vec![(b"head", head), (b"hhea", hhea), (b"maxp", maxp)];
    let mut out = vec![0u8, 1, 0, 0];
    out.extend_from_slice(&be16(tables.len() as u16));
    out.extend_from_slice(&[0, 0, 0, 0, 0, 0]);
    let mut offset = 12 + 16 * tables.len();
    let mut body = Vec::new();
    for (tag, data) in &tables {
        out.extend_from_slice(&tag[..]);
        out.extend_from_slice(&[0, 0, 0, 0]);
        out.extend_from_slice(&(offset as u32).to_be_bytes());
        out.extend_from_slice(&(data.len() as u32).to_be_bytes());
        body.extend_from_slice(data);
        offset += data.len();
    }
    out.extend_from_slice(&body);
    out
}

#[test]
fn new_state_is_black_and_fontless() {
    let m = WindowManager::new(4, 3);
    assert_eq!((m.w, m.h), (4, 3));
    assert!(m.loaded_fonts.is_empty());
    assert_eq!(m.next_font_id, FontId(0));
    assert!(m.buff.buff.buff.iter().all(|c| *c == Color::black()));
}

#[test]
fn write_buff_checks_size() {
    let mut m = WindowManager::new(4, 3);
    let mut replacement = PixelBuffer::new(4, 3);
    replacement.set_pixel(1, 1, Color::red());
    assert_eq!(m.write_buff(replacement), Ok(()));
    assert_eq!(painted(&m, Color::red()), vec![(1, 1)]);
    let err = m.write_buff(PixelBuffer::new(3, 4));
    assert_eq!(
        err,
        Err(PixelBufferError::IncorrectBufferSize { orig_w: 4, orig_h: 3, new_w: 3, new_h: 4 })
    );
    assert_eq!(painted(&m, Color::red()), vec![(1, 1)]);
}

#[test]
fn rect_fill() {
    let mut m = WindowManager::new(4, 3);
    m.draw_rect_fill(1, 1, 2, 2, Color::red());
    assert_eq!(painted(&m, Color::red()), vec![(1, 1), (2, 1), (1, 2), (2, 2)]);
}

#[test]
fn rect_fill_rows_run_on_into_next_row() {
    let mut m = WindowManager::new(4, 3);
    m.draw_rect_fill(3, 0, 2, 1, Color::red());
    assert_eq!(painted(&m, Color::red()), vec![(3, 0), (0, 1)]);
}

#[test]
fn rect_stroke() {
    let mut m = WindowManager::new(4, 3);
    m.draw_rect_stroke(0, 0, 3, 3, Color::red());
    assert_eq!(
        painted(&m, Color::red()),
        vec![(0, 0), (1, 0), (2, 0), (0, 1), (3, 1), (0, 2), (1, 2), (2, 2)]
    );
}

#[test]
fn rect_stroke_thin() {
    let mut m = WindowManager::new(4, 3);
    m.draw_rect_stroke(0, 0, 2, 2, Color::red());
    assert_eq!(painted(&m, Color::red()), vec![(0, 0), (1, 0), (0, 1), (1, 1)]);
    let mut n = WindowManager::new(4, 3);
    n.draw_rect_stroke(1, 2, 2, 1, Color::red());
    n.draw_rect_stroke(0, 0, 2, 0, Color::green());
    assert_eq!(painted(&n, Color::red()), vec![(1, 2), (2, 2)]);
    assert!(painted(&n, Color::green()).is_empty());
}

#[test]
fn shallow_line() {
    let mut m = WindowManager::new(4, 3);
    m.draw_line(0, 0, 3, 2, Color::red());
    assert_eq!(painted(&m, Color::red()), vec![(0, 0), (1, 1), (2, 1), (3, 2)]);
    let mut n = WindowManager::new(4, 3);
    n.draw_line(3, 2, 0, 0, Color::red());
    assert_eq!(painted(&n, Color::red()), vec![(0, 0), (1, 1), (2, 1), (3, 2)]);
}

#[test]
fn steep_line() {
    let mut m = WindowManager::new(4, 3);
    m.draw_line(0, 0, 1, 2, Color::red());
    assert_eq!(painted(&m, Color::red()), vec![(0, 0), (0, 1), (1, 2)]);
}

#[test]
fn low_and_high_directly() {
    let mut m = WindowManager::new(4, 3);
    m.draw_line_low(0, 2, 3, 0, Color::red());
    assert_eq!(painted(&m, Color::red()), vec![(3, 0), (1, 1), (2, 1), (0, 2)]);
    let mut n = WindowManager::new(4, 3);
    n.draw_line_high(0, 0, 0, 2, Color::red());
    assert_eq!(painted(&n, Color::red()), vec![(0, 0), (0, 1), (0, 2)]);
    let mut o = WindowManager::new(4, 3);
    o.draw_line_low(-1, 0, 1, 0, Color::red());
    assert_eq!(painted(&o, Color::red()), vec![(0, 0), (1, 0)]);
    o.draw_line_low(2, 0, 1, 0, Color::green());
    assert!(painted(&o, Color::green()).is_empty());
}

#[test]
fn circle_fill_small() {
    let mut m = WindowManager::new(5, 5);
    m.draw_circle_fill(2, 2, 1, Color::red());
    assert_eq!(painted(&m, Color::red()), vec![(1, 2), (2, 2)]);
    let mut n = WindowManager::new(5, 5);
    n.draw_circle_fill(2, 2, 2, Color::red());
    assert_eq!(
        painted(&n, Color::red()),
        vec![(1, 1), (2, 1), (0, 2), (1, 2), (2, 2), (3, 2), (1, 3), (2, 3)]
    );
}

#[test]
fn circle_fill_clips_at_edges() {
    let mut m = WindowManager::new(3, 3);
    m.draw_circle_fill(0, 0, 2, Color::red());
    assert_eq!(painted(&m, Color::red()), vec![(0, 0), (1, 0), (0, 1)]);
}

#[test]
fn circle_stroke_small() {
    let mut m = WindowManager::new(5, 5);
    m.draw_circle_stroke(2, 2, 1, Color::red());
    assert_eq!(
        painted(&m, Color::red()),
        vec![(1, 1), (2, 1), (3, 1), (1, 2), (3, 2), (1, 3), (2, 3), (3, 3)]
    );
}

#[test]
fn circle_stroke_wraps_off_the_edge() {
    let mut m = WindowManager::new(3, 3);
    m.draw_circle_stroke(0, 0, 1, Color::red());
    assert_eq!(painted(&m, Color::red()), vec![(1, 0), (0, 1), (1, 1)]);
}

#[test]
fn font_parse_failure() {
    match FontManager::from_raw(vec![1, 2, 3, 4]) {
        Err(FontError::Parse { reason }) => {
            let expected = fontdue::Font::from_bytes(vec![1u8, 2, 3, 4], fontdue::FontSettings::default());
            assert_eq!(Some(reason.as_str()), expected.err());
            assert!(!reason.is_empty());
        }
        _ => panic!("garbage bytes were accepted as a font"),
    }
}

#[test]
fn font_parse_success_and_spacing() {
    let font = FontManager::from_raw(tiny_font()).unwrap_or_else(|_| panic!("font rejected"));
    assert_eq!(font.spacing, 0);
    let font = font.with_spacing(4);
    assert_eq!(font.spacing, 4);
}

#[test]
fn load_then_unload_font() {
    let mut m = WindowManager::new(2, 2);
    let f1 = FontManager::from_raw(tiny_font()).unwrap_or_else(|_| panic!("font rejected"));
    let f2 = FontManager::from_raw(tiny_font()).unwrap_or_else(|_| panic!("font rejected")).with_spacing(7);
    let id1 = m.load_font(f1);
    let id2 = m.load_font(f2);
    assert_eq!(id1, FontId(0));
    assert_eq!(id2, FontId(1));
    assert_eq!(m.next_font_id, FontId(2));
    let back = m.unload_font(id2).unwrap_or_else(|| panic!("font missing"));
    assert_eq!(back.spacing, 7);
    assert!(m.unload_font(id2).is_none());
    assert!(m.unload_font(id1).is_some());
    assert!(m.loaded_fonts.is_empty());
}

#[test]
fn lookup_font_finds_loaded_fonts_only() {
    let mut m = WindowManager::new(2, 2);
    let f = FontManager::from_raw(tiny_font()).unwrap_or_else(|_| panic!("font rejected")).with_spacing(3);
    let id = m.load_font(f);
    match lookup_font(&m.loaded_fonts, id) {
        Ok(font) => assert_eq!(font.spacing, 3),
        Err(_) => panic!("loaded font not found"),
    }
    assert!(matches!(
        lookup_font(&m.loaded_fonts, FontId(5)),
        Err(DrawError::FontNotLoaded { font_id: FontId(5) })
    ));
    m.unload_font(id);
    assert!(matches!(lookup_font(&m.loaded_fonts, id), Err(DrawError::FontNotLoaded { font_id }) if font_id == id));
}

#[test]
fn wrapper_and_manager_circles_agree() {
    for r in 0..5usize {
        let mut m = WindowManager::new(13, 11);
        m.draw_circle_stroke(6, 5, r, Color::red());
        let mut ww = emir::window_wrapper::WindowWrapper::new(13, 11);
        ww.draw_circle_stroke(6, 5, r, Color::red());
        assert_eq!(m.buff.buff.buff, ww.buff);
    }
}

#[test]
fn long_lines_and_wide_circles_fit() {
    assert!(emir::raster::walk_fits_exec(0, 0, 0x1fff_ffff, 0x1fff_ffff));
    assert!(emir::raster::walk_fits_exec(0, 0x1fff_ffff, 0x1fff_ffff, 0));
    assert!(emir::raster::stroke_fits_exec(30000));
}

#[test]
fn line_rounds_to_nearest_row() {
    let mut m = WindowManager::new(6, 3);
    m.draw_line(0, 0, 5, 2, Color::red());
    assert_eq!(painted(&m, Color::red()), vec![(0, 0), (1, 0), (2, 1), (3, 1), (4, 2), (5, 2)]);
}

#[test]
fn circle_outline_follows_rounded_radius() {
    let mut m = WindowManager::new(13, 13);
    m.draw_circle_stroke(6, 6, 5, Color::red());
    let hit = painted(&m, Color::red());
    for p in [(11, 6), (11, 7), (11, 8), (10, 9), (9, 10), (8, 11), (7, 11), (6, 11)] {
        assert!(hit.contains(&p), "{:?} not painted", p);
    }
    assert!(!hit.contains(&(11, 9)));
    assert!(!hit.contains(&(10, 8)));
}

#[test]
fn glyph_clip_cases() {
    assert_eq!(glyph_clip(2, 3, 10, 10, 4, 5), Some((4, 5)));
    assert_eq!(glyph_clip(8, 7, 10, 10, 4, 5), Some((2, 3)));
    assert_eq!(glyph_clip(10, 10, 10, 10, 4, 5), Some((0, 0)));
    assert_eq!(glyph_clip(11, 0, 10, 10, 4, 5), None);
    assert_eq!(glyph_clip(0, 11, 10, 10, 4, 5), None);
    assert_eq!(glyph_clip(0, 0, 10, 10, 0, 5), None);
    assert_eq!(glyph_clip(0, 0, 10, 10, 4, 0), None);
}
