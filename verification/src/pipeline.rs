//! The pipeline around the model: what is handed to it, and what is made of
//! what it hands back.
//!
//! The model itself runs elsewhere. `model_call` prepares its input from the
//! original image; whoever runs the model passes the outcome, a tensor or a
//! failure, to `stylize_image`, which decodes the tensor and blends it over
//! the original.

use vstd::prelude::*;
use crate::blend::{blend_with_original, blended};
use crate::decode::{interleaved_of, nchw_to_rgba_vec};
use crate::encode::{planar_of, rgba_to_nchw};

verus! {

/// One call of the model: the style to apply and the input tensor with its
/// shape, a batch of one image of three channels.
pub struct ModelCall {
    pub style_id: String,
    pub input: Vec<u32>,
    pub batch: u32,
    pub channels: u32,
    pub height: u32,
    pub width: u32,
}

impl ModelCall {
    /// The call is for one image of three channels, and its tensor has the
    /// three planes of that image.
    pub open spec fn well_formed(&self) -> bool {
        &&& self.batch == 1
        &&& self.channels == 3
        &&& self.input.len() == 3 * self.width * self.height
    }
}

/// The stylized image: the tensor that the model returned, decoded and
/// blended over the original at the given strength.
pub open spec fn stylized(rgba: Seq<u8>, tensor: Seq<u32>, pixels: int, strength: u32) -> Seq<u8> {
    blended(rgba, interleaved_of(tensor, pixels), strength)
}

/// Prepares the call of the model for an image of `width` by `height`
/// pixels. The style identifier is passed through as it is.
pub fn model_call(rgba_in: &Vec<u8>, width: u32, height: u32, style_id: String) -> (call:
    ModelCall)
    requires
        rgba_in.len() == 4 * width * height,
    ensures
        call.well_formed(),
        call.style_id == style_id,
        call.height == height,
        call.width == width,
        call.input@ == planar_of(rgba_in@, width * height),
{
    let input = rgba_to_nchw(rgba_in, width as usize, height as usize);
    ModelCall { style_id, input, batch: 1, channels: 3, height, width }
}

/// Completes the pipeline with the outcome of the model call. A failure of
/// the model is handed on as it is, and nothing else fails; a tensor is
/// decoded and blended over the original at `strength`, the bit pattern of a
/// binary32 value, into a new opaque image of the same size.
pub fn stylize_image<E>(
    rgba_in: &Vec<u8>,
    width: u32,
    height: u32,
    outcome: Result<Vec<u32>, E>,
    strength: u32,
) -> (res: Result<Vec<u8>, E>)
    requires
        rgba_in.len() == 4 * width * height,
        outcome matches Ok(tensor) ==> tensor.len() == 3 * width * height,
    ensures
        match outcome {
            Ok(tensor) => res matches Ok(out) && out.len() == 4 * width * height && out@
                == stylized(rgba_in@, tensor@, width * height, strength),
            Err(failure) => res == Err::<Vec<u8>, E>(failure),
        },
{
    match outcome {
        Ok(tensor) => {
            assert(4 * width * height == 4 * (width * height)) by (nonlinear_arith);
            let styl = nchw_to_rgba_vec(&tensor, width as usize, height as usize);
            Ok(blend_with_original(rgba_in, &styl, strength))
        },
        Err(failure) => Err(failure),
    }
}

} // verus!
