//! Escape-time rendering of the Mandelbrot set: the parts that need no
//! floating point, verified. The numeric pair parser, the escape-time
//! iteration over an orbit, and the row-major renderer that fills an
//! intensity buffer from a per-pixel classifier.
pub mod escape;
pub mod pair;
pub mod raster;
