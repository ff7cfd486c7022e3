//! Approximating a picture with coloured, scaled and rotated sprites.
//!
//! The library holds the pixel buffers, the sprite atlas, the objects placed on
//! the canvas and the integer parts of the search: trimming, comparing and
//! compositing rasters, the colour clustering used to pick a background, the
//! mutation of an object's pose and the ranking of scored candidates.

mod arith;
mod chance;
pub mod raster;
pub mod trim;
pub mod myimage;
pub mod stamp;
pub mod palette;
pub mod atlas;
pub mod object;
pub mod evolution;

pub use atlas::Atlas;
pub use evolution::Competitor;
pub use myimage::MyImage;
pub use object::Object;
pub use palette::{Barycentre, GroupStats};
pub use raster::{Raster, Rgba};
