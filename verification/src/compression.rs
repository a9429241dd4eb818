//! The interfaces of the two compressed forms of a block, and their parts.
//!
//! A miniblock is a list of buffers with a description of each of its chunks;
//! what it takes to read it is described beside it. A compressed block is one
//! buffer.

use vstd::prelude::*;

use crate::data::{DataBlock, LanceBuffer};
use crate::error::Error;

verus! {

/// How a buffer is encoded.
#[derive(Debug, PartialEq, Eq)]
pub enum CompressiveEncoding {
    /// Values of `bits_per_value` bits, one after the other, not compressed.
    Flat { bits_per_value: u64 },
    /// Runs of deltas.
    DeltaRle(DeltaRle),
}

/// Describes values that are encoded as runs of their deltas.
#[derive(Debug, PartialEq, Eq)]
pub struct DeltaRle {
    /// The number of bits of a value before compression.
    pub uncompressed_bits_per_value: u64,
    /// The first value.
    pub first_value: i64,
    /// How the deltas of the runs are encoded.
    pub values: Box<CompressiveEncoding>,
    /// How the lengths of the runs are encoded.
    pub run_lengths: Box<CompressiveEncoding>,
}

/// Describes one chunk of a miniblock.
#[derive(Debug, Clone, PartialEq, Eq)]
pub struct MiniBlockChunk {
    /// The size in bytes of the chunk's part of each buffer.
    pub buffer_sizes: Vec<u32>,
    /// The binary logarithm of the number of values, or 0 in the last chunk.
    pub log_num_values: u8,
}

/// A compressed miniblock.
#[derive(Debug, Clone, PartialEq, Eq)]
pub struct MiniBlockCompressed {
    pub data: Vec<LanceBuffer>,
    pub chunks: Vec<MiniBlockChunk>,
    pub num_values: u64,
}

/// Compresses blocks into miniblocks.
pub trait MiniBlockCompressor {
    /// The blocks that can be given to `compress`.
    spec fn takes_for_miniblock(&self, data: DataBlock) -> bool;

    /// Compresses a block, and describes how it is encoded.
    fn compress(&self, data: DataBlock) -> (r: Result<
        (MiniBlockCompressed, CompressiveEncoding),
        Error,
    >)
        requires
            self.takes_for_miniblock(data),
    ;
}

/// Compresses blocks into one buffer each.
pub trait BlockCompressor {
    /// The blocks that can be given to `compress`.
    spec fn takes_for_block(&self, data: DataBlock) -> bool;

    /// Compresses a block.
    fn compress(&self, data: DataBlock) -> (r: Result<LanceBuffer, Error>)
        requires
            self.takes_for_block(data),
    ;
}

/// Reads miniblocks.
pub trait MiniBlockDecompressor {
    /// The buffers and numbers of values that can be given to `decompress`.
    spec fn takes_miniblock(&self, data: Seq<LanceBuffer>, num_values: u64) -> bool;

    /// Reads `num_values` values from the buffers of a miniblock.
    fn decompress(&self, data: Vec<LanceBuffer>, num_values: u64) -> (r: Result<DataBlock, Error>)
        requires
            self.takes_miniblock(data@, num_values),
    ;
}

/// Reads compressed blocks.
pub trait BlockDecompressor {
    /// The buffers and numbers of values that can be given to `decompress`.
    spec fn takes_block(&self, data: Seq<u8>, num_values: u64) -> bool;

    /// Reads `num_values` values from a compressed block.
    fn decompress(&self, data: LanceBuffer, num_values: u64) -> (r: Result<DataBlock, Error>)
        requires
            self.takes_block(data@, num_values),
    ;
}

} // verus!
