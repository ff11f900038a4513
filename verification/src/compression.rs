//! LZ4 blocks behind their uncompressed size.

use vstd::prelude::*;

verus! {

/// What `lz4_flex::decompress_size_prepended` makes of `bytes`, where it accepts them.
pub uninterp spec fn lz4_decompressed(bytes: Seq<u8>) -> Option<Seq<u8>>;

/// Calls `lz4_flex::compress_prepend_size`. Which of the blocks that decompress to `bytes` it makes
/// depends on the machine, so that it decompresses to `bytes` is all that is stated.
#[verifier::external_body]
pub(crate) fn lz4_compress(bytes: &[u8]) -> (r: Vec<u8>)
    requires
        bytes@.len() < 0x8000_0000,
    ensures
        lz4_decompressed(r@) == Some(bytes@),
{
    lz4_flex::compress_prepend_size(bytes)
}

/// Calls `lz4_flex::decompress_size_prepended`; an error gives none.
#[verifier::external_body]
pub(crate) fn lz4_decompress(bytes: &[u8]) -> (r: Option<Vec<u8>>)
    ensures
        match r {
            Some(out) => lz4_decompressed(bytes@) == Some(out@),
            None => lz4_decompressed(bytes@) is None,
        },
{
    lz4_flex::decompress_size_prepended(bytes).ok()
}

} // verus!
