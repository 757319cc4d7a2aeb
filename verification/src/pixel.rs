//! RGBA pixels and the comparison rule between an overlay pixel and a
//! background pixel.

use vstd::prelude::*;

verus! {

/// One RGBA pixel: four 8-bit channels.
#[derive(Clone, Copy, PartialEq, Eq, Structural, Debug)]
pub struct Pixel {
    pub r: u8,
    pub g: u8,
    pub b: u8,
    pub a: u8,
}

/// A pixel whose R, G and B channels are all 255; its alpha is ignored.
/// Under the white-as-transparent rule such an overlay pixel is a mask cell.
pub open spec fn is_pure_white(p: Pixel) -> bool {
    p.r == 255 && p.g == 255 && p.b == 255
}

/// The comparator's rule: with `white_transparent`, a pure-white overlay
/// pixel matches anything; otherwise the pixels must agree in all four
/// channels, alpha included.
pub open spec fn spec_pixels_match(bg: Pixel, ov: Pixel, white_transparent: bool) -> bool {
    if white_transparent && is_pure_white(ov) {
        true
    } else {
        bg == ov
    }
}

impl Pixel {
    pub fn new(r: u8, g: u8, b: u8, a: u8) -> (p: Pixel)
        ensures
            p == (Pixel { r, g, b, a }),
    {
        Pixel { r, g, b, a }
    }

    /// Whether this pixel is pure white in R, G and B (alpha ignored).
    pub fn is_white(&self) -> (w: bool)
        ensures
            w == is_pure_white(*self),
    {
        self.r == 255 && self.g == 255 && self.b == 255
    }
}

/// Decides whether a background pixel and an overlay pixel count as matching
/// under the optional white-as-transparent rule.
pub fn pixels_match(bg_pixel: Pixel, ov_pixel: Pixel, white_transparent: bool) -> (m: bool)
    ensures
        m == spec_pixels_match(bg_pixel, ov_pixel, white_transparent),
{
    if white_transparent && ov_pixel.is_white() {
        true
    } else {
        bg_pixel == ov_pixel
    }
}

} // verus!
