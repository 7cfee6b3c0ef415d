use vstd::prelude::*;

verus! {

/// Errors produced while decoding or rewriting demo data.
#[derive(Debug)]
pub enum ParserError {
    /// The data ended early or holds a value that cannot be encoded.
    IoError(String),
    /// A compression or decompression call failed.
    CompressionError,
    /// The replay header or file info is malformed.
    ReplayEncodingError,
    /// The replay does not start with the expected magic.
    WrongMagic,
}

} // verus!
