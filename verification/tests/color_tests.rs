use emir::color::Color;

#[test]
fn new_packs_channels() {
    let red = Color::new(255, 0, 0);
    assert_eq!(red, Color::red());
    assert_eq!(red.as_u32(), 0x00FF0000);
    assert_eq!(Color::new(0x12, 0x34, 0x56).as_u32(), 0x00123456);
    assert_eq!(Color::new(0, 0, 255), Color::darkblue());
}

#[test]
fn from_u32_round_trips() {
    let green = Color::from_u32(0x0000FF00);
    assert_eq!(green, Color::green());
    assert_eq!(Color::from_u32(0x00FFFFFF), Color::white());
    assert_eq!(Color::from_u32(0xDEADBEEF).as_u32(), 0xDEADBEEF);
}

#[test]
fn channels_read_back() {
    assert_eq!(Color::red().r(), 255);
    assert_eq!(Color::green().g(), 255);
    assert_eq!(Color::darkblue().b(), 255);
    let c = Color::new(0x12, 0x34, 0x56);
    assert_eq!((c.r(), c.g(), c.b()), (0x12, 0x34, 0x56));
    let d = Color::from_u32(0xAB123456);
    assert_eq!((d.r(), d.g(), d.b()), (0x12, 0x34, 0x56));
}

#[test]
fn setters_replace_one_channel() {
    let mut color = Color::red();
    color.set_r(0);
    assert_eq!(color, Color::black());
    let mut color = Color::green();
    color.set_g(0);
    assert_eq!(color, Color::black());
    let mut color = Color::darkblue();
    color.set_b(0);
    assert_eq!(color, Color::black());
}

#[test]
fn setters_keep_other_channels_and_top_byte() {
    let mut c = Color::from_u32(0xAB123456);
    c.set_r(0x99);
    assert_eq!(c.as_u32(), 0xAB993456);
    c.set_g(0x88);
    assert_eq!(c.as_u32(), 0xAB998856);
    c.set_b(0x77);
    assert_eq!(c.as_u32(), 0xAB998877);
}

#[test]
fn named_colours() {
    assert_eq!(Color::black().as_u32(), 0x000000);
    assert_eq!(Color::white().as_u32(), 0x00FFFFFF);
    assert_eq!(Color::lightblue().as_u32(), 0x0000FFFF);
    assert_eq!(Color::magenta().as_u32(), 0x00FF00FF);
    assert_eq!(Color::yellow().as_u32(), 0x00FFFF00);
    let d: Color = Default::default();
    assert_eq!(d, Color::black());
}
