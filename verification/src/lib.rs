//! Histogram statistics and binarization of RGBA8 images.
//!
//! An [`image::Image`] is a decoded raster of four-byte pixels. From it the
//! crate derives per-channel and grayscale histograms, normalizes contrast
//! and produces black-and-white images from a range of levels or from a
//! cutoff that one of the selection rules finds.

pub mod decode;
pub mod histogram;
pub mod image;
pub mod normalize;
pub mod mean_iterative;
pub mod percent_black;
pub mod threshold;

pub use crate::image::{ChannelHistogram, ColorComponent, Image};
