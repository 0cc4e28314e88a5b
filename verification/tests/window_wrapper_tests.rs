use emir::color::Color;
use emir::window_wrapper::WindowWrapper;

fn painted(m: &WindowWrapper, c: Color) -> Vec<(usize, usize)> {
    let w = m.width;
    (0..m.buff.len()).filter(|i| m.buff[*i] == c).map(|i| (i % w, i / w)).collect()
}

#[test]
fn wrapper_new_is_black() {
    let m = WindowWrapper::new(4, 3);
    assert_eq!((m.width, m.height, m.buff.len()), (4, 3, 12));
    assert!(m.buff.iter().all(|c| *c == Color::black()));
}

#[test]
fn wrapper_set_pixel_uses_flat_index() {
    let mut m = WindowWrapper::new(4, 3);
    m.set_pixel(3, 2, Color::red());
    m.set_pixel(4, 0, Color::green());
    assert_eq!(painted(&m, Color::red()), vec![(3, 2)]);
    assert_eq!(painted(&m, Color::green()), vec![(0, 1)]);
    assert_eq!(m.get_pixel(0, 1), Color::green());
}

#[test]
fn wrapper_write_buff() {
    let mut m = WindowWrapper::new(2, 1);
    m.write_buff(vec![Color::red(), Color::green()]);
    assert_eq!(m.buff, vec![Color::red(), Color::green()]);
}

#[test]
fn wrapper_ranges() {
    let mut m = WindowWrapper::new(4, 3);
    m.set_pixel_range_from_value(3, 0, 3, Color::red());
    assert_eq!(painted(&m, Color::red()), vec![(3, 0), (0, 1), (1, 1)]);
    m.set_pixel_range_from_array(1, 2, 2, &[Color::green(), Color::white()]);
    assert_eq!(painted(&m, Color::green()), vec![(1, 2)]);
    assert_eq!(painted(&m, Color::white()), vec![(2, 2)]);
    m.set_pixels_between_points(1, 2, 4, Color::yellow());
    assert_eq!(painted(&m, Color::yellow()), vec![(2, 1), (3, 1)]);
    let r: Vec<u32> = m.get_pixel_range(1, 2, 2).iter().map(|c| c.as_u32()).collect();
    assert_eq!(r, vec![Color::green().as_u32(), Color::white().as_u32()]);
    {
        let line = m.get_pixel_range_mut(0, 0, 1);
        line[0] = Color::magenta();
    }
    assert_eq!(painted(&m, Color::magenta()), vec![(0, 0)]);
}

#[test]
fn wrapper_masked() {
    let mut m = WindowWrapper::new(4, 3);
    m.set_pixels_masked(1, 1, vec![vec![true, true], vec![false, true]], Color::red());
    assert_eq!(painted(&m, Color::red()), vec![(1, 1), (2, 1), (2, 2)]);
}

#[test]
fn wrapper_rects() {
    let mut m = WindowWrapper::new(4, 3);
    m.draw_rect_fill(1, 1, 2, 2, Color::red());
    assert_eq!(painted(&m, Color::red()), vec![(1, 1), (2, 1), (1, 2), (2, 2)]);
    let mut n = WindowWrapper::new(4, 3);
    n.draw_rect_stroke(0, 0, 2, 3, Color::red());
    assert_eq!(
        painted(&n, Color::red()),
        vec![(0, 0), (1, 0), (2, 0), (0, 1), (2, 1), (0, 2), (1, 2)]
    );
}

#[test]
fn wrapper_lines() {
    let mut m = WindowWrapper::new(4, 3);
    m.draw_line(0, 0, 3, 2, Color::red());
    assert_eq!(painted(&m, Color::red()), vec![(0, 0), (1, 1), (2, 1), (3, 2)]);
    let mut n = WindowWrapper::new(4, 3);
    n.draw_line(1, 2, 0, 0, Color::red());
    assert_eq!(painted(&n, Color::red()), vec![(0, 0), (0, 1), (1, 2)]);
}

#[test]
fn wrapper_circles() {
    let mut m = WindowWrapper::new(5, 5);
    m.draw_circle_fill(2, 2, 2, Color::red());
    assert_eq!(
        painted(&m, Color::red()),
        vec![(1, 1), (2, 1), (0, 2), (1, 2), (2, 2), (3, 2), (1, 3), (2, 3)]
    );
    let mut n = WindowWrapper::new(5, 5);
    n.draw_circle_stroke(2, 2, 1, Color::red());
    assert_eq!(
        painted(&n, Color::red()),
        vec![(1, 1), (2, 1), (3, 1), (1, 2), (3, 2), (1, 3), (2, 3), (3, 3)]
    );
}
