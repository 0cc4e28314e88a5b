use vstd::prelude::*;

verus! {

/// How the window's contents are scaled and placed when the window is resized.
#[derive(Debug, Clone, Copy, PartialEq, Eq, Structural)]
pub enum ResizeMode {
    /// Keeps the buffer at its size, anchored to the upper-left corner.
    Trim,
    /// Stretches the buffer to fill the window, ignoring the aspect ratio.
    Fit,
    /// Stretches the buffer to fill the window while keeping its aspect ratio.
    FitPreserveAspectRatio,
}

impl Default for ResizeMode {
    fn default() -> (m: ResizeMode)
        ensures
            m == ResizeMode::Trim,
    {
        ResizeMode::Trim
    }
}

/// Settings for creating a window.
pub struct WindowManagerOptions {
    /// Frames-per-second cap; `None` means uncapped. A cap is never zero.
    pub fps_cap: Option<u32>,
    /// Window title.
    pub title: String,
    /// How the window behaves on resize; `None` makes the window fixed-size.
    pub resize_mode: Option<ResizeMode>,
}

impl WindowManagerOptions {
    /// The options hold no zero frame cap.
    pub open spec fn wf(&self) -> bool {
        self.fps_cap != Some(0u32)
    }

    /// Options with the given title, frame cap and resize behaviour.
    pub fn new(title: &str, fps_cap: Option<u32>, resize_mode: Option<ResizeMode>) -> (o: Self)
        requires
            fps_cap != Some(0u32),
        ensures
            o.wf(),
            o.title@ == title@,
            o.fps_cap == fps_cap,
            o.resize_mode == resize_mode,
    {
        WindowManagerOptions { fps_cap, title: title.to_owned(), resize_mode }
    }
}

impl Default for WindowManagerOptions {
    /// A 60 FPS cap, the title `"Emir app"`, and a fixed-size window.
    fn default() -> (o: Self)
        ensures
            o.wf(),
            o.fps_cap == Some(60u32),
            o.title@ == "Emir app"@,
            o.resize_mode is None,
    {
        WindowManagerOptions { fps_cap: Some(60), title: "Emir app".to_owned(), resize_mode: None }
    }
}

/// How the windowing back end scales the frame inside a window whose size differs from it.
#[derive(Debug, Clone, Copy, PartialEq, Eq, Structural)]
pub enum WindowScaleMode {
    /// The frame is stretched to fill the window.
    Stretch,
    /// The frame is stretched as far as its aspect ratio allows.
    AspectRatioStretch,
    /// The frame keeps its size, placed at the upper-left corner.
    UpperLeft,
}

/// What a window is created with, as the windowing back end takes it.
#[derive(Debug, Clone, Copy, PartialEq, Eq, Structural)]
pub struct WindowSettings {
    /// Whether the window can be resized.
    pub resize: bool,
    /// How the frame is scaled in a resized window.
    pub scale_mode: WindowScaleMode,
    /// Frames per second to aim for; `0` means no limit.
    pub target_fps: usize,
}

/// The back-end scale mode for a resize behaviour.
pub open spec fn scale_mode_for(m: ResizeMode) -> WindowScaleMode {
    match m {
        ResizeMode::Fit => WindowScaleMode::Stretch,
        ResizeMode::FitPreserveAspectRatio => WindowScaleMode::AspectRatioStretch,
        ResizeMode::Trim => WindowScaleMode::UpperLeft,
    }
}

/// The window settings that `o` asks for: a resizable window exactly when a resize mode is
/// given, the scale mode that matches it (the back end's default, `Stretch`, otherwise), and the
/// frame cap as target (`0`, no limit, when there is none).
pub fn window_settings(o: &WindowManagerOptions) -> (s: WindowSettings)
    ensures
        s.resize == o.resize_mode is Some,
        s.scale_mode == match o.resize_mode {
            Some(m) => scale_mode_for(m),
            None => WindowScaleMode::Stretch,
        },
        s.target_fps == match o.fps_cap {
            Some(c) => c as int,
            None => 0int,
        },
{
    let mut s = WindowSettings { resize: false, scale_mode: WindowScaleMode::Stretch, target_fps: 0 };
    if let Some(m) = o.resize_mode {
        s.resize = true;
        s.scale_mode = match m {
            ResizeMode::Fit => WindowScaleMode::Stretch,
            ResizeMode::FitPreserveAspectRatio => WindowScaleMode::AspectRatioStretch,
            ResizeMode::Trim => WindowScaleMode::UpperLeft,
        };
    }
    if let Some(c) = o.fps_cap {
        s.target_fps = c as usize;
    }
    s
}

} // verus!
