//! The block form of a block: one buffer with the first value, the size of the
//! values buffer, and the two buffers of its runs.

use vstd::prelude::*;

use crate::compression::{BlockCompressor, BlockDecompressor, MiniBlockChunk};
use crate::data::{DataBlock, LanceBuffer};
use crate::decompressor::{outcome, readable, views, yields_block, DeltaRleDecompressor};
use crate::encoder::{block_bytes, byte_width, encodable, supported_bits, DeltaRleEncoder};
use crate::endian::{
    i64_to_pattern, le_value, pattern_to_i64, push_le, read_le, u64_to_word, word,
};
use crate::error::Error;

verus! {

impl BlockCompressor for DeltaRleEncoder {
    /// A fixed-width block of a supported width has to hold values, and to hold
    /// them whole, with differences within the range of `i64`.
    open spec fn takes_for_block(&self, data: DataBlock) -> bool {
        data matches DataBlock::FixedWidth(fixed) ==> supported_bits(fixed.bits_per_value) ==> {
            &&& fixed.num_values != 0
            &&& encodable(fixed.data@, byte_width(fixed.bits_per_value))
        }
    }

    /// The layout of a compressed block is the first value in 8 bytes, the size of
    /// the values buffer in 8 bytes, the values buffer, the lengths buffer.
    fn compress(&self, data: DataBlock) -> (r: Result<LanceBuffer, Error>)
        ensures
            match data {
                DataBlock::FixedWidth(fixed) => if supported_bits(fixed.bits_per_value) {
                    r matches Ok(compressed) && compressed@ == block_bytes(
                        fixed.data@,
                        byte_width(fixed.bits_per_value),
                    )
                } else {
                    r matches Err(error) && error == Error::EncoderBitWidth(fixed.bits_per_value)
                },
                DataBlock::Other => r matches Err(error) && error == Error::EncoderBlockKind,
            },
    {
        match data {
            DataBlock::FixedWidth(fixed) => {
                let (buffers, _chunks, first_value): (
                    Vec<LanceBuffer>,
                    Vec<MiniBlockChunk>,
                    i64,
                ) = match self.encode_fixed(&fixed) {
                    Ok(encoded) => encoded,
                    Err(error) => {
                        return Err(error);
                    },
                };
                let values_size: u64 = buffers[0].len() as u64;
                let mut combined: Vec<u8> = Vec::new();
                push_le(&mut combined, i64_to_pattern(first_value), 8);
                push_le(&mut combined, values_size, 8);
                combined.extend_from_slice(buffers[0].as_ref());
                combined.extend_from_slice(buffers[1].as_ref());
                proof {
                    assert(combined@ =~= block_bytes(
                        fixed.data@,
                        byte_width(fixed.bits_per_value),
                    ));
                }
                Ok(LanceBuffer::from(combined))
            },
            DataBlock::Other => Err(Error::EncoderBlockKind),
        }
    }
}

/// The size of the two headers of a compressed block: 8 bytes for the first
/// value, and 8 bytes for the size of the values buffer.
pub const BLOCK_HEADERS: usize = 16;

/// The size of the values buffer that the headers of a compressed block give, as
/// a machine word.
pub open spec fn block_values_size(data: Seq<u8>) -> int {
    word(le_value(data.subrange(8, 16)) as int)
}

/// The values buffer and the lengths buffer of a compressed block.
pub open spec fn block_buffers(data: Seq<u8>) -> Seq<Seq<u8>> {
    let end = BLOCK_HEADERS + block_values_size(data);
    seq![data.subrange(BLOCK_HEADERS as int, end), data.subrange(end, data.len() as int)]
}

/// The end of the values buffer of a compressed block is a position in memory;
/// and where the block holds the `num_values` values that are asked for, those
/// values can be restored.
pub open spec fn block_readable(bits_per_value: u64, data: Seq<u8>, num_values: u64) -> bool {
    data.len() >= BLOCK_HEADERS ==> {
        let end = BLOCK_HEADERS + block_values_size(data);
        &&& end <= usize::MAX
        &&& data.len() >= end ==> readable(bits_per_value, block_buffers(data), num_values)
    }
}

/// What comes of reading `num_values` values of `bits_per_value` bits from a
/// compressed block: the bytes of the values, or an error.
pub open spec fn block_outcome(bits_per_value: u64, data: Seq<u8>, num_values: u64) -> Result<
    Seq<u8>,
    Error,
> {
    if data.len() < BLOCK_HEADERS {
        Err(Error::BlockHeaders)
    } else if data.len() < BLOCK_HEADERS + block_values_size(data) {
        Err(Error::BlockValues)
    } else {
        outcome(bits_per_value, block_buffers(data), num_values)
    }
}

impl BlockDecompressor for DeltaRleDecompressor {
    /// The end of the values buffer has to be a position in memory; and where the
    /// block holds the values that are asked for, they have to fit in their width.
    open spec fn takes_block(&self, data: Seq<u8>, num_values: u64) -> bool {
        block_readable(self.bits_per_value, data, num_values)
    }

    fn decompress(&self, data: LanceBuffer, num_values: u64) -> (r: Result<DataBlock, Error>)
        ensures
            yields_block(
                r,
                self.bits_per_value,
                num_values,
                block_outcome(self.bits_per_value, data@, num_values),
            ),
            r matches Ok(block) ==> (block matches DataBlock::FixedWidth(fixed)
                && fixed.bits_per_value == self.bits_per_value && fixed.num_values == num_values),
    {
        let data_slice: &[u8] = data.as_ref();
        let total: usize = data_slice.len();
        if total < BLOCK_HEADERS {
            return Err(Error::BlockHeaders);
        }
        let first_value: i64 = pattern_to_i64(read_le(data_slice, 0, 8));
        let values_size: usize = u64_to_word(read_le(data_slice, 8, 8));
        if total < BLOCK_HEADERS + values_size {
            return Err(Error::BlockValues);
        }
        let end: usize = BLOCK_HEADERS + values_size;
        let values_buf: &[u8] = vstd::slice::slice_subrange(data_slice, BLOCK_HEADERS, end);
        let lengths_buf: &[u8] = vstd::slice::slice_subrange(data_slice, end, total);
        let mut buffers: Vec<LanceBuffer> = Vec::new();
        buffers.push(LanceBuffer::from(vstd::slice::slice_to_vec(values_buf)));
        buffers.push(LanceBuffer::from(vstd::slice::slice_to_vec(lengths_buf)));
        proof {
            assert(views(buffers@) =~= block_buffers(data@));
        }
        let decompressor: DeltaRleDecompressor = DeltaRleDecompressor::new(
            self.bits_per_value,
            first_value,
        );
        crate::compression::MiniBlockDecompressor::decompress(&decompressor, buffers, num_values)
    }
}

} // verus!
