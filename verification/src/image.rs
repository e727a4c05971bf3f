//! Interleaved RGBA images as sequences of bytes.

use vstd::prelude::*;

verus! {

/// The image with every alpha byte, the fourth of each pixel, set to 255 and
/// the red, green and blue bytes left as they are.
pub open spec fn opaque(image: Seq<u8>) -> Seq<u8> {
    Seq::new(
        image.len(),
        |j: int|
            if j % 4 == 3 {
                255u8
            } else {
                image[j]
            },
    )
}

} // verus!
