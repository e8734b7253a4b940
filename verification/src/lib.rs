//! The numerical heart of a lossy PNG minification pipeline: it reduces the
//! color space of a decoded RGBA image to a small palette while minimizing
//! perceived degradation, choosing and applying the best error-distribution
//! strategy for the image's content.
//!
//! The image characteristics analyzer and mode selector, the median-cut
//! palette builder, the three quantization engines (flat rounding, ordered
//! dithering, serpentine Floyd-Steinberg diffusion), the selective denoiser
//! and the container marker handling are all verified. File discovery, disk
//! I/O and the command line live outside the library.

pub mod args;
pub mod diffusion;
pub mod dithering;
pub mod file_utils;
pub mod marker;
pub mod median;
pub mod minify;
pub mod raster;
pub mod sorting;
pub mod time_utils;
