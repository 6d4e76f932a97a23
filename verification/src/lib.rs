//! Escape-time core for the Mandelbrot set: a verified parser that splits a
//! delimited coordinate string into two typed fields.

pub mod field;
pub mod pair;
pub mod text;

pub use pair::parse_pair;
pub use pair::split_pair;
