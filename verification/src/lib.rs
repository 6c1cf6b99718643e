//! A verified codec for the QOI ("Quite OK Image") format: a byte-oriented,
//! single-pass compression scheme for RGB/RGBA pixel buffers built around a
//! 64-slot rolling color cache and several per-pixel delta encodings.

mod cache;
mod decode;
mod encode;
mod header;
mod pixel;
mod stream;

pub use cache::HashIndexedArray;
pub use decode::{decode, DecodeError};
pub use encode::encode;
pub use header::QOIHeader;
pub use pixel::Pixel;
pub use stream::{op_diff_expand222, op_luma_expand644};
