//! Static Huffman coding.

pub mod tree;
pub mod encoder;
pub mod decoder;
pub mod roundtrip;
