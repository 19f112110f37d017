//! Photo-mosaic construction.
//!
//! A mosaic replaces every pixel of a source image by a small square tile
//! image whose average colour is nearest to that pixel. The crate works on
//! decoded 8-bit RGB rasters only; decoding, encoding and file handling are
//! left to the caller.

pub mod color;
pub mod error;
pub mod mosaic;
pub mod raster;
pub mod resample;
pub mod scale;
pub mod tile;
pub mod tileset;

pub use color::{Distance, Rgb};
pub use error::MosaicError;
pub use mosaic::{Inner, Mosaic};
pub use raster::Raster;
pub use scale::Scale;
pub use tile::Tile;
pub use tileset::TileSet;
