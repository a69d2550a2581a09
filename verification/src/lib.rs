//! Lossy raster-image recompression.
//!
//! Given an encoded image and a target quality, the library produces a
//! smaller encoded image that is visually close to the original.  Images
//! without inherent lossy structure go through a palette-reduction path:
//! a small perceptually weighted palette is clustered from the pixels and
//! every pixel is mapped to a palette entry with error-diffusion dithering.
//! Images that already use block-transform compression are re-encoded by an
//! external transform encoder at the requested quality.

pub mod color;
pub mod palette;
pub mod dither;
pub mod codec;
pub mod api;

pub use api::Error;
pub use api::palette_size;
pub use api::rgba_to_rgb;
pub use api::tinify;
pub use color::Color;
pub use color::color_dist;
pub use dither::dither;
pub use dither::expand_palette;
pub use palette::build_palette;
pub use palette::nearest_index;
