//! Static (two-pass) Huffman byte-stream encoder.
//!
//! The library builds an optimal prefix-code model from observed byte
//! frequencies, serializes that model compactly, and emits a bit-packed
//! encoded stream terminated by an end-of-stream symbol.

pub mod bitfile;
pub mod header;
pub mod huffman;
