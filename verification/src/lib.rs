//! Pixel-format adapter between an interleaved 8-bit RGBA image and the planar
//! binary32 tensor of a style-transfer model, with a linear blend of the
//! stylized image over the original.

pub mod binary32;
pub mod blend;
pub mod decode;
pub mod encode;
pub mod image;
pub mod mix;
pub mod pipeline;
pub mod rounding;

pub use crate::blend::blend_with_original;
pub use crate::decode::nchw_to_rgba_vec;
pub use crate::encode::rgba_to_nchw;
pub use crate::pipeline::{model_call, stylize_image, ModelCall};
