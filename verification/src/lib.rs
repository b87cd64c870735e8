//! Binary finite-field arithmetic and packed-buffer kernels.
//!
//! `field` holds the element arithmetic the kernels are specified against;
//! `kernel` holds backend selection and the vector kernels themselves.
pub mod bits;
pub mod field;
pub mod kernel;
