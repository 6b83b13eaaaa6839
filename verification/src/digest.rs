//! The two outside computations made on every chunk: its 64-bit content
//! hash and its LZ4 block compression.

use vstd::prelude::*;

verus! {

/// The XXH3 64-bit hash, with the default seed and secret, of the bytes
/// `data`.
pub uninterp spec fn xxh3_64_of(data: Seq<u8>) -> u64;

/// The largest block that `lz4_block` accepts: the size that the compressor
/// reserves for its output, twenty bytes more than eleven tenths of the
/// input, must fit in `usize`.
pub open spec fn lz4_accepts(len: nat) -> bool {
    len * 110 <= usize::MAX
}

/// Calls `xxhash_rust::xxh3::xxh3_64`, which returns the XXH3 64-bit hash of
/// its input. The hash is a function of the bytes alone.
#[verifier::external_body]
pub(crate) fn content_hash(chunk: &[u8]) -> (h: u64)
    ensures
        h == xxh3_64_of(chunk@),
{
    xxhash_rust::xxh3::xxh3_64(chunk)
}

/// Calls `lz4_flex::block::compress`, which returns `chunk` as one LZ4 block.
///
/// The compressor writes into a buffer of `20 + len * 110 / 100` bytes and
/// cuts it to what it wrote, so the block is never longer than that. For an
/// input of 64 KiB or more, which matches it finds depends on the width of
/// the machine word, so nothing more is claimed of the block.
#[verifier::external_body]
pub(crate) fn lz4_block(chunk: &[u8]) -> (out: Vec<u8>)
    requires
        lz4_accepts(chunk@.len()),
    ensures
        out@.len() <= 20 + chunk@.len() * 110 / 100,
{
    lz4_flex::block::compress(chunk)
}

} // verus!
