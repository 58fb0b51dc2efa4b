//! The compressed picture: its raw DEFLATE stream is inflated by
//! `miniz_oxide` into a buffer of fixed size.

use vstd::prelude::*;

verus! {

/// The size of the buffer the picture is inflated into.
pub const BUFFER_SIZE: usize = 68865;

/// The flag of `miniz_oxide`'s `inflate_flags` that says the output buffer is
/// large enough for the whole output (`TINFL_FLAG_USING_NON_WRAPPING_OUTPUT_BUF`).
pub const NON_WRAPPING_OUTPUT_BUF: u32 = 4;

/// The output buffer that `miniz_oxide::inflate::core::decompress` leaves
/// when a fresh decompressor inflates `compressed` into a zeroed buffer of
/// `capacity` bytes from position `0`, with `flags`.
pub uninterp spec fn inflated(compressed: Seq<u8>, capacity: nat, flags: u32) -> Seq<u8>;

/// Calls `miniz_oxide::inflate::core::decompress` with a fresh
/// `DecompressorOxide`, the input `compressed`, a zeroed output buffer of
/// `capacity` bytes, output position `0` and `flags`, and gives back the
/// output buffer. Claimed: the buffer keeps its length, and its contents are a
/// function of the three arguments alone. The status and the byte counts
/// that the call returns are dropped.
#[verifier::external_body]
fn inflate(compressed: &[u8], capacity: usize, flags: u32) -> (out: Vec<u8>)
    ensures
        out@.len() == capacity,
        out@ == inflated(compressed@, capacity as nat, flags),
{
    let mut decompressor = miniz_oxide::inflate::core::DecompressorOxide::new();
    decompressor.init();
    let mut out = vec![0u8; capacity];
    let _ = miniz_oxide::inflate::core::decompress(&mut decompressor, compressed, &mut out, 0, flags);
    out
}

/// Inflates the compressed picture into a buffer of `BUFFER_SIZE` bytes and
/// gives back the whole buffer, whether or not the stream filled it.
pub fn decompress_image(compressed: &[u8]) -> (image: Vec<u8>)
    ensures
        image@.len() == BUFFER_SIZE,
        image@ == inflated(compressed@, BUFFER_SIZE as nat, NON_WRAPPING_OUTPUT_BUF),
{
    inflate(compressed, BUFFER_SIZE, NON_WRAPPING_OUTPUT_BUF)
}

} // verus!
