//! The DEFLATE format: its Huffman codes, its model and its decoder.
pub mod encoding;
pub mod format;
pub mod huffman;
pub mod inflate;
pub mod window;
