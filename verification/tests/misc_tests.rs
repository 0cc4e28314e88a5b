use emir::error::DrawError;
use emir::key::Key;
use emir::mouse_key::MouseKey;
use emir::window_manager::FontId;
use emir::window_options::{window_settings, ResizeMode, WindowManagerOptions, WindowScaleMode};

#[test]
fn options_new_keeps_arguments() {
    let o = WindowManagerOptions::new("Emir", Some(999), Some(ResizeMode::Trim));
    assert_eq!(o.title, "Emir");
    assert_eq!(o.fps_cap, Some(999));
    assert_eq!(o.resize_mode, Some(ResizeMode::Trim));
}

#[test]
fn options_default() {
    let o = WindowManagerOptions::default();
    assert_eq!(o.fps_cap, Some(60));
    assert_eq!(o.title, "Emir app");
    assert_eq!(o.resize_mode, None);
}

#[test]
fn resize_mode_default_is_trim() {
    assert_eq!(ResizeMode::default(), ResizeMode::Trim);
}

#[test]
fn keys_and_buttons_compare() {
    assert_eq!(Key::A, Key::A);
    assert_ne!(Key::Escape, Key::Unknown);
    assert_ne!(MouseKey::Left, MouseKey::Right);
    assert_eq!(
        DrawError::FontNotLoaded { font_id: FontId(3) },
        DrawError::FontNotLoaded { font_id: FontId(3) }
    );
    assert_ne!(DrawError::DrawDuringRenderStep, DrawError::FontNotLoaded { font_id: FontId(0) });
}

#[test]
fn window_settings_follow_the_options() {
    let s = window_settings(&WindowManagerOptions::default());
    assert!(!s.resize);
    assert_eq!(s.scale_mode, WindowScaleMode::Stretch);
    assert_eq!(s.target_fps, 60);

    let s = window_settings(&WindowManagerOptions::new("a", None, Some(ResizeMode::Fit)));
    assert!(s.resize);
    assert_eq!(s.scale_mode, WindowScaleMode::Stretch);
    assert_eq!(s.target_fps, 0);

    let o = WindowManagerOptions::new("b", Some(144), Some(ResizeMode::FitPreserveAspectRatio));
    let s = window_settings(&o);
    assert!(s.resize);
    assert_eq!(s.scale_mode, WindowScaleMode::AspectRatioStretch);
    assert_eq!(s.target_fps, 144);

    let s = window_settings(&WindowManagerOptions::new("c", Some(1), Some(ResizeMode::Trim)));
    assert_eq!(s.scale_mode, WindowScaleMode::UpperLeft);
    assert_eq!(s.target_fps, 1);
}
