//! What can go wrong when a mosaic is set up.

use vstd::prelude::*;

verus! {

/// The reasons for which setting up a mosaic or a tile set fails.
#[derive(Clone, Copy, Debug, PartialEq, Eq, Structural)]
pub enum MosaicError {
    /// The scale factor is not a number of at least one tenth.
    InvalidScale,
    /// Scaling leaves the source image with no columns or no rows.
    DegenerateScale,
    /// There is no tile image.
    NoTiles,
    /// A tile would have no pixels: a tile image has no columns or no rows,
    /// or the side length asked for is zero.
    EmptyTile,
    /// A raster would be larger than can be addressed.
    TooLarge,
}

impl MosaicError {
    /// A sentence that says what went wrong.
    pub fn message(&self) -> (s: &'static str)
        ensures
            s@ == match *self {
                MosaicError::InvalidScale => "Scaling factor must be at least 0.1."@,
                MosaicError::DegenerateScale => "Scaling factor results in an image with at least one dimension with zero px"@,
                MosaicError::NoTiles => "No tile images were given"@,
                MosaicError::EmptyTile => "Tiles must have at least one pixel"@,
                MosaicError::TooLarge => "Image dimensions are too large"@,
            },
    {
        match self {
            MosaicError::InvalidScale => "Scaling factor must be at least 0.1.",
            MosaicError::DegenerateScale => "Scaling factor results in an image with at least one dimension with zero px",
            MosaicError::NoTiles => "No tile images were given",
            MosaicError::EmptyTile => "Tiles must have at least one pixel",
            MosaicError::TooLarge => "Image dimensions are too large",
        }
    }
}

} // verus!
