//! Snappy block compression, through the `snap` crate.
use vstd::prelude::*;

verus! {

#[verifier::external_type_specification]
#[verifier::external_body]
pub struct ExSnapError(snap::Error);

/// What `snap::raw::Encoder::compress_vec` returns for an input.
pub uninterp spec fn snappy_compressed(input: Seq<u8>) -> Seq<u8>;

/// What `snap::raw::Decoder::decompress_vec` returns for an input, when it
/// succeeds.
pub uninterp spec fn snappy_decompressed(input: Seq<u8>) -> Option<Seq<u8>>;

/// Whether the encoder accepts an input of `len` bytes: its worst-case
/// output, `32 + len + len / 6` bytes, must not exceed `2^32 - 1`.
pub open spec fn snappy_accepts_len(len: nat) -> bool {
    32 + len + len / 6 <= u32::MAX
}

/// Calls `snap::raw::Encoder::compress_vec` with a fresh encoder.
///
/// The source fails only when the worst-case output length exceeds
/// `2^32 - 1` bytes, and otherwise returns at most that many bytes. The compressed bytes are named, and decompress to the
/// input, which is what the raw Snappy format is for.
#[verifier::external_body]
pub(crate) fn snappy_compress(input: &[u8]) -> (r: Result<Vec<u8>, snap::Error>)
    ensures
        r is Ok <==> snappy_accepts_len(input@.len()),
        r matches Ok(c) ==> c@ == snappy_compressed(input@),
        r matches Ok(c) ==> c@.len() <= 32 + input@.len() + input@.len() / 6,
        r matches Ok(c) ==> snappy_decompressed(c@) == Some(input@),
{
    snap::raw::Encoder::new().compress_vec(input)
}

/// Calls `snap::raw::Decoder::decompress_vec` with a fresh decoder. When it
/// succeeds its result is named and, as the source's header check shows,
/// holds at most `2^32 - 1` bytes; when it fails nothing is stated of the
/// error.
#[verifier::external_body]
pub(crate) fn snappy_decompress(input: &[u8]) -> (r: Result<Vec<u8>, snap::Error>)
    ensures
        r is Ok <==> snappy_decompressed(input@) is Some,
        r matches Ok(d) ==> snappy_decompressed(input@) == Some(d@),
        r matches Ok(d) ==> d@.len() <= u32::MAX,
{
    snap::raw::Decoder::new().decompress_vec(input)
}

} // verus!
