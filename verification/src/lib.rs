//! Ulam spirals: an `n x n` grid numbered along a square spiral that starts at
//! the centre, with every prime kept and every other number replaced by zero.
//!
//! The numbering of the unbounded spiral lives in [`spiral`], its restriction
//! to a grid and the laws of the resulting matrix in [`cells`], the walk that
//! fills the grid in [`generate`], the grayscale rendering in [`render`].

pub mod cells;
pub mod config;
pub mod generate;
pub mod grid;
pub mod primes;
pub mod render;
pub mod spiral;

pub use config::{Config, ConfigError, MAX_DIMENSION, MIN_DIMENSION};
pub use generate::generate_ulam_matrix;
pub use render::{render_ulam_spiral, shade, Canvas, BRIGHTEST, DARKEST};
