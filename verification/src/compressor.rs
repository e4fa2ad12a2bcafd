//! The block compressor behind the codec: `lz4_flex`'s block format.  The
//! codec treats it as a pluggable pair of pure functions — compression is
//! total, decompression of a corrupt block fails — and relies on nothing
//! about the compressed bytes beyond the round-trip stated here.

use vstd::prelude::*;

verus! {

/// What `lz4_flex::block::compress` returns for the given input bytes.
pub uninterp spec fn lz4_block_of(b: Seq<u8>) -> Seq<u8>;

/// What `lz4_flex::block::decompress_into` leaves in a zero-filled buffer
/// of the given length, together with the count of bytes it reports
/// written, or `None` when it rejects the input as corrupt.
pub uninterp spec fn lz4_unpacked_of(b: Seq<u8>, buf_len: int) -> Option<(Seq<u8>, int)>;

#[verifier::external_type_specification]
#[verifier::external_body]
pub struct ExDecompressError(lz4_flex::block::DecompressError);

/// Relies on `lz4_flex::block::compress`: it compresses all bytes of its
/// input, the result depends on those bytes alone, and decompressing the
/// result into a buffer of the input's length restores the input exactly
/// (the block-format round trip the crate documents).
#[verifier::external_body]
pub(crate) fn lz4_compress(input: &[u8]) -> (r: Vec<u8>)
    ensures
        r@ == lz4_block_of(input@),
        lz4_unpacked_of(r@, input@.len() as int) == Some((input@, input@.len() as int)),
{
    lz4_flex::block::compress(input)
}

/// Relies on `lz4_flex::block::decompress_into`: it writes the decompressed
/// bytes from position zero of the buffer, reports how many it wrote (never
/// more than the buffer holds), and its outcome depends only on the input
/// bytes and the buffer's length.
#[verifier::external_body]
pub(crate) fn lz4_decompress(input: &[u8], buf_len: usize) -> (r: Result<
    (Vec<u8>, usize),
    lz4_flex::block::DecompressError,
>)
    ensures
        match r {
            Ok(p) => {
                &&& lz4_unpacked_of(input@, buf_len as int) == Some((p.0@, p.1 as int))
                &&& p.0@.len() == buf_len
                &&& p.1 <= buf_len
            },
            Err(_) => lz4_unpacked_of(input@, buf_len as int) is None,
        },
{
    let mut buf = vec![0u8; buf_len];
    match lz4_flex::block::decompress_into(input, &mut buf) {
        Ok(written) => Ok((buf, written)),
        Err(e) => Err(e),
    }
}

} // verus!
