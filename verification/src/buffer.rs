//! Immutable row-major RGBA image buffers with bounds-checked access.

use vstd::prelude::*;

use crate::pixel::Pixel;

verus! {

/// An immutable 2-D grid of RGBA pixels, stored row-major: the pixel at
/// column `x`, row `y` sits at index `y * width + x`.
#[derive(Clone, Debug)]
pub struct ImageBuffer {
    pub width: usize,
    pub height: usize,
    pub pixels: Vec<Pixel>,
}

impl ImageBuffer {
    /// Well-formed: at least one pixel in each dimension, and exactly one
    /// stored pixel per grid cell.
    pub open spec fn wf(self) -> bool {
        &&& self.width >= 1
        &&& self.height >= 1
        &&& self.pixels@.len() == self.width * self.height
    }

    /// The pixel at column `x`, row `y` (spec view of `get_pixel`).
    pub open spec fn pix(self, x: int, y: int) -> Pixel {
        self.pixels@[y * self.width + x]
    }

    /// Builds an image from its dimensions and a row-major pixel vector.
    /// Fails exactly when a dimension is zero or the vector does not hold
    /// one pixel per cell.
    pub fn from_pixels(width: usize, height: usize, pixels: Vec<Pixel>) -> (r: Option<ImageBuffer>)
        ensures
            match r {
                Some(img) => {
                    &&& img.wf()
                    &&& img.width == width
                    &&& img.height == height
                    &&& img.pixels@ == pixels@
                },
                None => width == 0 || height == 0 || pixels@.len() != width * height,
            },
    {
        if width == 0 || height == 0 {
            return None;
        }
        let n_pixels = pixels.len();
        match width.checked_mul(height) {
            Some(n) => {
                if n == n_pixels {
                    Some(ImageBuffer { width, height, pixels })
                } else {
                    None
                }
            },
            None => None,
        }
    }

    pub fn get_width(&self) -> (w: usize)
        ensures
            w == self.width,
    {
        self.width
    }

    pub fn get_height(&self) -> (h: usize)
        ensures
            h == self.height,
    {
        self.height
    }

    /// Bounds-checked read of one pixel.
    pub fn get_pixel(&self, x: usize, y: usize) -> (p: Pixel)
        requires
            self.wf(),
            x < self.width,
            y < self.height,
        ensures
            p == self.pix(x as int, y as int),
    {
        let n = self.pixels.len();
        proof {
            assert(y * self.width + x < self.width * self.height) by (nonlinear_arith)
                requires
                    x < self.width,
                    y < self.height,
            ;
        }
        self.pixels[y * self.width + x]
    }
}

} // verus!
