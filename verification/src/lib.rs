//! A raw DEFLATE encoder (RFC 1951) that reproduces the byte stream of stock zlib 1.3.1's
//! `deflate` for one configuration: level 9, raw stream (`windowBits = -15`), `memLevel = 8`,
//! the default strategy, and a single `Z_FINISH` call over the whole input.
//!
//! The encoder is split the way zlib splits it:
//! - [`bitwriter`]: the least-significant-bit-first bit accumulator,
//! - [`trees`]: Huffman tree construction, block emission and the block-type decision,
//! - [`kraft`]: the shape of the Huffman tree built in the heap, and the counting behind
//!   the Kraft sum of its code lengths,
//! - [`heap_order`]: the order in which zlib's heap merges nodes, as a function of the
//!   frequencies,
//! - [`longest_match`]: the hash-chain match finder,
//! - [`deflate`]: the sliding window, lazy matching and the one-shot drive.
use vstd::prelude::*;

pub mod bitwriter;
pub mod tables;
pub mod deflate;
pub mod longest_match;
pub mod trees;
pub mod kraft;
pub mod heap_order;

use crate::deflate::{deflate_raw_level9, is_lazy_deflate, is_raw_deflate};

verus! {

/// Compress `input` into a raw DEFLATE stream (no zlib header, no Adler-32 trailer), as
/// zlib 1.3.1 does with `deflateInit2(9, Z_DEFLATED, -15, 8, Z_DEFAULT_STRATEGY)` and a
/// single `deflate(Z_FINISH)`.
///
/// The output is a sequence of stored, fixed or dynamic blocks, the last one marked last,
/// padded with zero bits to a byte; each block's encoding is the one zlib's cost estimates
/// choose; a dynamic block's codes are the canonical codes of the lengths its header sends,
/// each a complete prefix code, and are the Huffman codes that zlib builds from the
/// frequencies of the block's symbols; the LZ77 symbols of the blocks, decoded in order,
/// give back `input`; and they are the symbols that zlib's lazy matching sends, step by
/// step, from a fresh state, cut into blocks of a full symbol buffer each but the last,
/// each offered as a stored block exactly when its bytes were still in the window.
pub fn deflate_raw(input: &[u8]) -> (out: Vec<u8>)
    ensures
        is_raw_deflate(input@, out@),
        is_lazy_deflate(input@, out@),
{
    deflate_raw_level9(input)
}

} // verus!
