//! What can go wrong when a compressed stream is read back.

use vstd::prelude::*;

verus! {

/// Why a stream could not be decompressed.
#[derive(Clone, Copy, PartialEq, Eq, Structural, Debug)]
pub enum DecodeError {
    /// The stream ends before its content is complete.
    UnexpectedEof,
    /// The stream starts with values that no compressor writes.
    InvalidHeader,
    /// The stream holds a value that no compressor writes at that place.
    InvalidData,
}

/// `out` followed by the bytes still to come, if they do come.
pub open spec fn prefixed(out: Seq<u8>, rest: Option<Seq<u8>>) -> Option<Seq<u8>> {
    match rest {
        Some(bytes) => Some(out + bytes),
        None => None,
    }
}

/// `out` followed by the bytes still to come, or what went wrong with
/// them.
pub open spec fn prefixed_ok(out: Seq<u8>, rest: Result<Seq<u8>, DecodeError>) -> Result<
    Seq<u8>,
    DecodeError,
> {
    match rest {
        Ok(bytes) => Ok(out + bytes),
        Err(e) => Err(e),
    }
}

} // verus!
