//! Dictionary coders.

pub mod lz77;
pub mod lzw;
pub mod lzw_roundtrip;
pub mod flzp;
pub mod flzp_roundtrip;
