//! The integer side of a small ray tracer: how the pixels of an image are
//! walked and where each of them lands in a packed RGB buffer.
//!
//! Shading itself is floating-point work and is handed in by the caller as a
//! function from pixel coordinates to three channel bytes.

pub mod raster;

pub use raster::{
    checked_image_len, fill_buffer, image_len, pixel_at, pixel_offset, scan_col, scan_row,
};
