//! Compressed blocks of bytes.

use vstd::endian::{endianness, Endian};
use vstd::prelude::*;

use crate::bytes::le_bytes;

verus! {

/// The longest input that LZ4 compresses.
pub const LZ4_MAX_INPUT: usize = 0x7E00_0000;

/// From this length on, how LZ4 searches its input depends on the width of a pointer.
pub const LZ4_LONG_INPUT: usize = 0x1_000B;

/// The `len` bytes that `lz4::block::decompress` restores from a block that LZ4 wrote for them.
pub uninterp spec fn lz4_decompressed(block: Seq<u8>, len: int) -> Option<Seq<u8>>;

/// The block that `lz4::block::compress` writes for `data` in its default mode, where that is
/// settled. Its search hashes words as the machine reads them, so the byte order counts too.
pub uninterp spec fn lz4_block(data: Seq<u8>, little_endian: bool) -> Seq<u8>;

/// Whether the block for `len` bytes depends on the bytes and the byte order alone: always where
/// words take eight bytes, and for short inputs everywhere.
pub open spec fn is_settled(len: nat) -> bool {
    usize::BITS == 64 || len < LZ4_LONG_INPUT
}

/// Whether `block` is the one written for `data`, where that is settled.
pub open spec fn is_written(block: Seq<u8>, data: Seq<u8>) -> bool {
    is_settled(data.len()) ==> block == lz4_block(data, endianness() == Endian::Little)
}

/// The most bytes a block for `len` bytes can take.
pub open spec fn lz4_bound(len: int) -> int {
    len + len / 255 + 16
}

/// Whether `block` restores to `data`.
pub open spec fn holds(block: Seq<u8>, data: Seq<u8>) -> bool {
    &&& lz4_decompressed(block, data.len() as int) == Some(data)
    &&& block.len() <= lz4_bound(data.len() as int)
}

/// Whether `sized` is the length of `data` in four little-endian bytes, and the block written for
/// it, which restores to it.
pub open spec fn holds_sized(sized: Seq<u8>, data: Seq<u8>) -> bool {
    &&& sized.len() >= 4
    &&& sized.take(4) == le_bytes(data.len(), 4)
    &&& holds(sized.skip(4), data)
    &&& is_written(sized.skip(4), data)
}

/// `lz4::block::compress` in its default mode: succeeds on everything up to the length limit and
/// on nothing longer, gives at most the documented bound, and what it writes restores to `data`.
/// With `prepend_size` the length of `data` stands in front of the block. Where words take eight
/// bytes, and for short inputs everywhere, the block depends on `data` and the byte order alone.
///
/// With shorter words the way a long input is searched depends on its address as well, and which
/// block is then written is left open.
#[verifier::external_body]
pub(crate) fn lz4_compress(data: &[u8], prepend_size: bool) -> (r: Option<Vec<u8>>)
    ensures
        r is Some <==> data@.len() <= LZ4_MAX_INPUT,
        r matches Some(out) ==> if prepend_size {
            holds_sized(out@, data@)
        } else {
            holds(out@, data@)
        },
        r matches Some(out) ==> is_settled(data@.len()) ==> (if prepend_size {
            out@.skip(4)
        } else {
            out@
        }) == lz4_block(data@, endianness() == Endian::Little),
{
    lz4::block::compress(data, None, prepend_size).ok()
}

/// `lz4::block::decompress` with the length of the data given: what the block was written for.
///
/// Nothing is claimed of blocks that LZ4 did not write.
#[verifier::external_body]
pub(crate) fn lz4_decompress(block: &[u8], len: usize) -> (r: Vec<u8>)
    requires
        len <= LZ4_MAX_INPUT,
        lz4_decompressed(block@, len as int) is Some,
    ensures
        lz4_decompressed(block@, len as int) == Some(r@),
{
    lz4::block::decompress(block, Some(len as i32)).unwrap()
}

} // verus!
