//! The decoded pixel image the conversion engine works on: plain
//! row-major RGB pixel data with its dimensions.

use vstd::prelude::*;
use crate::PosterError;
use crate::palette::Color;
use crate::grid::{TILE_EDGE, dims_valid};

verus! {

/// A decoded pixel image: `pixels` holds the rows top to bottom, each
/// row left to right.
#[derive(Clone, PartialEq, Debug)]
pub struct RasterImage {
    pub width: usize,
    pub height: usize,
    pub pixels: Vec<Color>,
}

impl RasterImage {
    /// The pixel buffer holds exactly one color per coordinate.
    pub open spec fn wf(&self) -> bool {
        self.pixels@.len() == self.width * self.height
    }

    /// Both sides are positive multiples of the tile edge.
    pub open spec fn tile_aligned(&self) -> bool {
        dims_valid(self.width as int, self.height as int)
    }

    /// The color at a pixel coordinate.
    pub open spec fn spec_pixel(&self, x: int, y: int) -> Color {
        self.pixels@[y * self.width + x]
    }

    /// Builds an image from its dimensions and row-major pixel data.
    /// Fails with `InvalidDimensions` exactly when the buffer length
    /// does not match the dimensions.
    pub fn new(width: usize, height: usize, pixels: Vec<Color>) -> (r: Result<
        RasterImage,
        PosterError,
    >)
        ensures
            pixels@.len() == width * height ==> (r matches Ok(img) && img.wf() && img.width
                == width && img.height == height && img.pixels@ == pixels@),
            pixels@.len() != width * height ==> (r matches Err(e) && e
                == PosterError::InvalidDimensions),
    {
        let len = pixels.len();
        if let Some(n) = width.checked_mul(height) {
            if n == len {
                return Ok(RasterImage { width, height, pixels });
            }
        }
        Err(PosterError::InvalidDimensions)
    }

    /// The color at a pixel coordinate.
    pub fn pixel(&self, x: usize, y: usize) -> (c: Color)
        requires
            self.wf(),
            x < self.width,
            y < self.height,
        ensures
            c == self.spec_pixel(x as int, y as int),
    {
        let n = self.pixels.len();
        proof {
            assert(y * self.width + x < n) by (nonlinear_arith)
                requires
                    x < self.width,
                    y < self.height,
                    n == self.width * self.height,
            ;
        }
        self.pixels[y * self.width + x]
    }
}

/// For a tile-aligned image, the tile count of each side and the total
/// page count relate to the pixel dimensions without overflow.
pub proof fn lemma_tile_counts(width: int, height: int)
    requires
        dims_valid(width, height),
    ensures
        (width / (TILE_EDGE as int)) * (TILE_EDGE as int) == width,
        (height / (TILE_EDGE as int)) * (TILE_EDGE as int) == height,
        (width / (TILE_EDGE as int)) * (height / (TILE_EDGE as int)) * (TILE_EDGE as int) * (
        TILE_EDGE as int) == width * height,
        (width / (TILE_EDGE as int)) >= 1,
        (height / (TILE_EDGE as int)) >= 1,
{
    let e = TILE_EDGE as int;
    let w = width / e;
    let h = height / e;
    vstd::arithmetic::div_mod::lemma_fundamental_div_mod(width, e);
    vstd::arithmetic::div_mod::lemma_fundamental_div_mod(height, e);
    assert(w * e == width);
    assert(h * e == height);
    assert(w * h * e * e == (w * e) * (h * e)) by (nonlinear_arith);
    assert(w >= 1 && h >= 1) by (nonlinear_arith)
        requires
            w * e == width,
            h * e == height,
            width > 0,
            height > 0,
            e == 128,
    ;
}

} // verus!
