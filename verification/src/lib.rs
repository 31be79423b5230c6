//! A bidirectional codec between geographic coordinates and short sequences
//! of words drawn from a caller-supplied vocabulary table.
//!
//! A point on Earth is addressed hierarchically: five nested grid levels, each
//! selecting one cell of a raster laid over the parent cell, and each cell
//! selection is spelled as one word.  Coordinates are carried as exact
//! fixed-point angles in units of 10^-11 degree, so every tile size of the
//! hierarchy is an exact integer and the whole codec is integer arithmetic.

pub mod codec;
pub mod error;
pub mod grid;
pub mod vocab;

pub use codec::from_words;
pub use codec::to_words;
pub use error::Error;
pub use vocab::get_word_idx;
