//! Lossless PNG optimisation: the verified core of scanline filtering,
//! interlacing, palette reordering and chunk (de)serialisation.

pub mod colors;
pub mod error;
pub mod filters;
pub mod headers;

pub mod deflate;
pub mod apng;
pub mod png;
pub mod strategies;
pub mod options;

pub use options::Options;
pub mod png_data;
pub mod palette;
pub mod bit_depth;
pub mod interlace;
pub mod report;
pub mod progress;
pub mod optimize;
pub mod ranges;
pub mod cli;
