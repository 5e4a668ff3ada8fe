//! Lossless byte-stream compressors with machine-checked contracts.

pub mod bits;
pub mod error;
pub mod logistic;
pub mod state;
pub mod statemap;
pub mod apm;
pub mod coder;
pub mod fpaq;
pub mod bufio;
pub mod huffman;
pub mod lpaq1;
pub mod lz;
pub mod bwt;
pub mod bwt_roundtrip;
