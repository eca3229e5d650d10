//! Rendering the Mandelbrot set into a grayscale raster: the integer side.
//!
//! The crate holds what a renderer decides over whole numbers: how many steps
//! of an orbit to take and which one to report, how an escape count becomes a
//! gray level, where each pixel of a strip lands in its buffer, how an image is
//! cut into horizontal bands for independent workers, and how the textual
//! arguments of a render are split into pairs. The arithmetic on points of the
//! complex plane is the caller's: it comes in as the step of an orbit and as
//! the evaluator of a pixel.

pub mod bands;
pub mod escape;
pub mod parse;
pub mod render;
pub mod schedule;
pub mod shade;
