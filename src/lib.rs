//! A verified decoder for the DEFLATE compressed-data format.
pub mod bits;
pub mod container;
pub mod decoder;
pub mod fixed_code;
pub mod huffman;
pub mod laws;
pub mod stream;
pub mod tables;
pub mod window;

pub use bits::InflateError;
pub use container::{payload_start, HeaderError};
pub use decoder::inflate;
pub use huffman::construct;
