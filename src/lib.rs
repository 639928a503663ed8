//! Verified core of a banded Mandelbrot renderer, with a line search and a
//! greatest-common-divisor routine.
//!
//! The floating-point parts of rendering (mapping a pixel to the complex plane
//! and the escape-time test) are supplied by the caller as a classifier; this
//! crate proves the integer side: how rows are split into bands, that the
//! bands cover the image exactly once, how a band is filled, and that the
//! finished image does not depend on the number of bands.

pub mod bands;
pub mod encode;
pub mod gcd;
pub mod grep;
pub mod input;
