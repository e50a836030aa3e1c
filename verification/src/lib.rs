//! Conversion between raster images and tiled, palette-quantized poster
//! arrays: a fixed palette with nearest-color lookup, a 128-pixel tiling
//! grid, per-tile quantization, assembly of the resulting pages in
//! row-major order, reconstruction of a pixel image from an array, and a
//! lossless structured-text persistence format.

use vstd::prelude::*;

pub mod annot;
pub mod codec;
pub mod grid;
pub mod poster;
pub mod palette;
pub mod raster;

verus! {

/// The failure kinds this library reports. Every fallible operation
/// states in its contract exactly which inputs produce which kind.
#[derive(Clone, Copy, PartialEq, Eq, Structural, Debug)]
pub enum PosterError {
    /// Image or grid geometry does not satisfy the multiple-of-128 invariant.
    InvalidDimensions,
    /// A page's index grid refers outside the palette.
    QuantizationFailure,
    /// A multi-page array was offered to the single-page encoding.
    UnsupportedMultiPage,
    /// Persisted input is not a well-formed encoding of any array.
    MalformedPersistedData,
}

} // verus!

