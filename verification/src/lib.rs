//! Palette discovery and error-diffusion dithering over fixed-point colours.
//!
//! Colours, distances and scores are integers counting millionths, so that
//! every function here has an exact contract:
//!
//! - [`fixed`] holds the scalar arithmetic: tolerance, integer roots, powers,
//! - [`colour`] the perceptual colours and the metrics over them,
//! - [`transfer`] the sRGB transfer curve, and [`round_trip`] the proof that
//!   its two directions undo each other up to a small error,
//! - [`image`] the pixel buffers,
//! - [`k_means`] the clustering of an image's colours and the split of an
//!   image by cluster,
//! - [`dither`] the error-diffusion scan,
//! - [`hex`] the colour literals,
//! - [`random`] the random draws that clustering is seeded with.

pub mod colour;
pub mod dither;
pub mod fixed;
pub mod hex;
pub mod image;
pub mod k_means;
pub mod random;
pub mod round_trip;
pub mod transfer;
