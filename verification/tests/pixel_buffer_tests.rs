use emir::buffer::Buffer;
use emir::color::Color;
use emir::error::BufferError;
use emir::pixel_buffer::PixelBuffer;
use emir::texture::Texture;

fn numbered(w: usize, h: usize) -> PixelBuffer {
    let colors: Vec<Color> = (0..(w * h) as u32).map(|v| Color::from_u32(v + 1)).collect();
    PixelBuffer { buff: Buffer::try_from_iterator(w, colors).unwrap() }
}

fn painted(p: &PixelBuffer, c: Color) -> Vec<usize> {
    (0..p.buff.buff.len()).filter(|i| p.buff.buff[*i] == c).collect()
}

#[test]
fn new_is_black() {
    let p = PixelBuffer::new(4, 3);
    assert_eq!(p.get_dimensions(), (4, 3));
    assert_eq!(p.buff.buff.len(), 12);
    assert!(p.buff.buff.iter().all(|c| *c == Color::black()));
}

#[test]
fn set_pixel_in_and_out_of_bounds() {
    let mut p = PixelBuffer::new(4, 3);
    p.set_pixel(3, 2, Color::red());
    p.set_pixel(4, 0, Color::red());
    p.set_pixel(0, 3, Color::red());
    assert_eq!(painted(&p, Color::red()), vec![11]);
    assert_eq!(p.get_pixel(3, 2), Ok(Color::red()));
}

#[test]
fn range_from_value_continues_into_next_row() {
    let mut p = PixelBuffer::new(4, 3);
    p.set_pixel_range_from_value(2, 0, 5, Color::red());
    assert_eq!(painted(&p, Color::red()), vec![2, 3, 4, 5, 6]);
}

#[test]
fn range_from_value_stops_at_buffer_end() {
    let mut p = PixelBuffer::new(4, 3);
    p.set_pixel_range_from_value(3, 2, 10, Color::red());
    assert_eq!(painted(&p, Color::red()), vec![11]);
    let mut q = PixelBuffer::new(4, 3);
    q.set_pixel_range_from_value(4, 0, 3, Color::red());
    q.set_pixel_range_from_value(0, 3, 3, Color::red());
    assert!(painted(&q, Color::red()).is_empty());
}

#[test]
fn range_from_array_copies_and_truncates() {
    let mut p = PixelBuffer::new(4, 3);
    p.set_pixel_range_from_array(1, 1, &[Color::red(), Color::green()]);
    assert_eq!(painted(&p, Color::red()), vec![5]);
    assert_eq!(painted(&p, Color::green()), vec![6]);
    p.set_pixel_range_from_array(2, 2, &[Color::white(); 5]);
    assert_eq!(painted(&p, Color::white()), vec![10, 11]);
    p.set_pixel_range_from_array(0, 3, &[Color::yellow()]);
    assert!(painted(&p, Color::yellow()).is_empty());
}

#[test]
fn between_points_fills_half_open_span() {
    let mut p = PixelBuffer::new(4, 3);
    p.set_pixels_between_points(1, 1, 3, Color::red());
    assert_eq!(painted(&p, Color::red()), vec![5, 6]);
    p.set_pixels_between_points(2, 2, 10, Color::green());
    assert_eq!(painted(&p, Color::green()), vec![10, 11]);
    p.set_pixels_between_points(0, 3, 1, Color::white());
    p.set_pixels_between_points(0, 4, 4, Color::white());
    p.set_pixels_between_points(0, 5, 6, Color::white());
    p.set_pixels_between_points(3, 0, 2, Color::white());
    assert!(painted(&p, Color::white()).is_empty());
}

#[test]
fn masked_stamps_true_cells() {
    let mut p = PixelBuffer::new(4, 3);
    p.set_pixels_masked(1, 0, vec![vec![true, false, true], vec![false, true]], Color::red());
    assert_eq!(painted(&p, Color::red()), vec![1, 3, 6]);
    let mut q = PixelBuffer::new(4, 3);
    q.set_pixels_masked(2, 0, vec![vec![true, true, true, true]], Color::red());
    assert_eq!(painted(&q, Color::red()), vec![2, 3, 4, 5]);
}

#[test]
fn get_pixel_reports_out_of_bounds() {
    let p = numbered(4, 3);
    assert_eq!(p.get_pixel(1, 2), Ok(Color::from_u32(10)));
    assert_eq!(p.get_pixel(4, 0), Err(BufferError::InvalidAddress { x: 4, y: 0, w: 4, h: 3 }));
    assert_eq!(p.get_pixel(0, 3), Err(BufferError::InvalidAddress { x: 0, y: 3, w: 4, h: 3 }));
}

#[test]
fn pixel_ranges() {
    let mut p = numbered(4, 3);
    let r: Vec<u32> = p.get_pixel_range(1, 1, 3).iter().map(|c| c.as_u32()).collect();
    assert_eq!(r, vec![6, 7, 8]);
    {
        let line = p.get_pixel_range_mut(0, 1, 2);
        line[0] = Color::red();
        line[1] = Color::red();
    }
    assert_eq!(painted(&p, Color::red()), vec![4, 5]);
    assert_eq!(p.get_pixel(2, 1), Ok(Color::from_u32(7)));
}

#[test]
fn blit_clips_to_target() {
    let mut p = PixelBuffer::new(4, 3);
    let src = numbered(2, 2);
    p.blit(3, 1, &src);
    assert_eq!(p.get_pixel(3, 1), Ok(Color::from_u32(1)));
    assert_eq!(p.get_pixel(3, 2), Ok(Color::from_u32(3)));
    assert_eq!(p.buff.buff.iter().filter(|c| **c != Color::black()).count(), 2);
    p.blit(4, 0, &src);
    p.blit(0, 3, &src);
    assert_eq!(p.buff.buff.iter().filter(|c| **c != Color::black()).count(), 2);
}

#[test]
fn blit_same_size_copies_everything() {
    let mut p = PixelBuffer::new(3, 2);
    let src = numbered(3, 2);
    p.blit(0, 0, &src);
    assert_eq!(p.buff.buff, src.buff.buff);
}

#[test]
fn blit_texture_matches_blit() {
    let mut p = PixelBuffer::new(4, 3);
    let t = Texture { buff: numbered(2, 2) };
    p.blit_texture(1, 1, &t);
    assert_eq!(p.get_pixel(1, 1), Ok(Color::from_u32(1)));
    assert_eq!(p.get_pixel(2, 1), Ok(Color::from_u32(2)));
    assert_eq!(p.get_pixel(1, 2), Ok(Color::from_u32(3)));
    assert_eq!(p.get_pixel(2, 2), Ok(Color::from_u32(4)));
}

#[test]
fn to_array_is_packed_values() {
    let p = numbered(2, 2);
    assert_eq!(p.to_array(), vec![1, 2, 3, 4]);
}

#[test]
fn fit_and_dimensions() {
    let a = PixelBuffer::new(4, 3);
    let b = PixelBuffer::new(4, 3);
    let c = PixelBuffer::new(3, 4);
    assert!(a.will_it_fit(&b));
    assert!(!a.will_it_fit(&c));
    assert_eq!(c.get_dimensions(), (3, 4));
}

#[test]
fn texture_from_rgba() {
    let bytes = vec![255u8, 0, 0, 9, 0, 255, 0, 9, 0, 0, 255, 9, 1, 2, 3, 9];
    let t = Texture::from_rgba(2, &bytes).unwrap();
    assert_eq!(t.buff.get_dimensions(), (2, 2));
    assert_eq!(t.buff.get_pixel(0, 0), Ok(Color::red()));
    assert_eq!(t.buff.get_pixel(1, 0), Ok(Color::green()));
    assert_eq!(t.buff.get_pixel(0, 1), Ok(Color::darkblue()));
    assert_eq!(t.buff.get_pixel(1, 1), Ok(Color::new(1, 2, 3)));
}

#[test]
fn texture_from_rgba_short_last_group() {
    let bytes = vec![1u8, 2, 3, 4, 5, 6, 7];
    let t = Texture::from_rgba(2, &bytes).unwrap();
    assert_eq!(t.buff.to_array(), vec![0x010203, 0x050607]);
}

#[test]
fn texture_from_rgba_errors() {
    assert_eq!(Texture::from_rgba(2, &[]).err(), Some(BufferError::EmptyIteratorOnInit {}));
    assert_eq!(
        Texture::from_rgba(2, &[0u8; 12]).err(),
        Some(BufferError::InvalidSize { w: 2, iterator_size: 3 })
    );
}

#[test]
fn drawing_keeps_dimensions() {
    let mut p = PixelBuffer::new(5, 4);
    p.set_pixel(9, 9, Color::red());
    p.set_pixel_range_from_value(3, 1, 6, Color::green());
    p.set_pixels_between_points(2, 1, 9, Color::white());
    p.blit(1, 1, &PixelBuffer::new(2, 2));
    assert_eq!(p.get_dimensions(), (5, 4));
    assert_eq!(p.buff.buff.len(), 20);
}
