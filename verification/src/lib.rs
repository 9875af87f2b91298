//! Small fixed-kernel filters for sampled signals: a grayscale raster and a
//! one-dimensional sample series.

pub mod decimal;
pub mod image;
pub mod kernel;
pub mod pgm;
pub mod series;
