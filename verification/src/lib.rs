//! Pixel buffers, colours and raster drawing for a small windowing toolkit.
pub mod buffer;
pub mod color;
pub mod error;
pub mod pixel_buffer;
pub mod texture;
pub mod font_manager;
pub mod key;
pub mod mouse_key;
pub mod window_manager;
pub mod window_options;
pub mod raster;
pub mod window_wrapper;
