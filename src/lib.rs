//! Converts a grid of 8-bit luminance samples into a 1-bit-per-pixel stream,
//! eight pixels to a byte, most significant bit first.
pub mod bits;
pub mod convert;
pub mod decode;
pub mod grid;
pub mod pack;

pub use convert::{pixel_bit, process_image, Settings};
pub use decode::{load_image, LoadError};
pub use grid::Image;
pub use pack::Pack;
