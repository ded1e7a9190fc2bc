//! A DEFLATE decompressor: a bit-level stream reader, a canonical Huffman
//! table builder and the block-driven inflate state machine on top of them.
//!
//! Every executable function carries a contract over a mathematical model of
//! the compressed stream. [`deflate::format::inflate`] is the model of a whole
//! stream, and [`Inflater`] is proved to follow it byte for byte.
pub mod bits;
pub mod deflate;
pub mod error;
pub mod reader;

pub use deflate::inflate::Inflater;
pub use error::InflateError;
pub use reader::BitReader;
