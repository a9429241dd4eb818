//! The miniblock form of a block: the two buffers of its runs.

use vstd::prelude::*;

use crate::compression::{
    CompressiveEncoding, DeltaRle, MiniBlockChunk, MiniBlockCompressed, MiniBlockCompressor,
    MiniBlockDecompressor,
};
use crate::data::{DataBlock, FixedWidthDataBlock, LanceBuffer};
use crate::decompressor::{outcome, readable, views, yields_block, DeltaRleDecompressor};
use crate::encoder::{
    byte_width, description, encodable, is_encoded_chunk, supported_bits, DeltaRleEncoder,
};
use crate::error::Error;

verus! {

impl MiniBlockCompressor for DeltaRleEncoder {
    /// A fixed-width block of a supported width that holds values has to hold
    /// whole values, with differences within the range of `i64`.
    open spec fn takes_for_miniblock(&self, data: DataBlock) -> bool {
        data matches DataBlock::FixedWidth(fixed) ==> supported_bits(fixed.bits_per_value)
            && fixed.num_values != 0 ==> encodable(fixed.data@, byte_width(fixed.bits_per_value))
    }

    fn compress(&self, data: DataBlock) -> (r: Result<
        (MiniBlockCompressed, CompressiveEncoding),
        Error,
    >)
        ensures
            match data {
                DataBlock::FixedWidth(fixed) => if supported_bits(fixed.bits_per_value) {
                    r matches Ok((compressed, encoding)) && {
                        &&& compressed.num_values == fixed.num_values
                        &&& encoding matches CompressiveEncoding::DeltaRle(desc)
                        &&& desc == description(fixed.bits_per_value, desc.first_value)
                        &&& desc.uncompressed_bits_per_value == fixed.bits_per_value
                        &&& is_encoded_chunk(
                            fixed.data@,
                            byte_width(fixed.bits_per_value),
                            fixed.num_values,
                            compressed.data@,
                            compressed.chunks@,
                            desc.first_value,
                        )
                    }
                } else {
                    r matches Err(error) && error == Error::EncoderBitWidth(fixed.bits_per_value)
                },
                DataBlock::Other => r matches Err(error) && error == Error::EncoderBlockKind,
            },
    {
        match data {
            DataBlock::FixedWidth(fixed) => {
                let (buffers, chunks, first_value): (
                    Vec<LanceBuffer>,
                    Vec<MiniBlockChunk>,
                    i64,
                ) = match self.encode_fixed(&fixed) {
                    Ok(encoded) => encoded,
                    Err(error) => {
                        return Err(error);
                    },
                };
                let compressed: MiniBlockCompressed = MiniBlockCompressed {
                    data: buffers,
                    chunks,
                    num_values: fixed.num_values,
                };
                let encoding: CompressiveEncoding = CompressiveEncoding::DeltaRle(
                    DeltaRle {
                        uncompressed_bits_per_value: fixed.bits_per_value,
                        first_value,
                        values: Box::new(CompressiveEncoding::Flat { bits_per_value: 64 }),
                        run_lengths: Box::new(CompressiveEncoding::Flat { bits_per_value: 8 }),
                    },
                );
                Ok((compressed, encoding))
            },
            DataBlock::Other => Err(Error::EncoderBlockKind),
        }
    }
}

impl MiniBlockDecompressor for DeltaRleDecompressor {
    /// Where the buffers hold the values that are asked for, those values have to
    /// fit in their width.
    open spec fn takes_miniblock(&self, data: Seq<LanceBuffer>, num_values: u64) -> bool {
        readable(self.bits_per_value, views(data), num_values)
    }

    fn decompress(&self, data: Vec<LanceBuffer>, num_values: u64) -> (r: Result<DataBlock, Error>)
        ensures
            yields_block(
                r,
                self.bits_per_value,
                num_values,
                outcome(self.bits_per_value, views(data@), num_values),
            ),
            r matches Ok(block) ==> (block matches DataBlock::FixedWidth(fixed)
                && fixed.bits_per_value == self.bits_per_value && fixed.num_values == num_values),
    {
        let decoded: Result<LanceBuffer, Error> = match self.bits_per_value {
            8 => self.decode_data::<u8>(data.as_slice(), num_values),
            16 => self.decode_data::<u16>(data.as_slice(), num_values),
            32 => self.decode_data::<u32>(data.as_slice(), num_values),
            64 => self.decode_data::<u64>(data.as_slice(), num_values),
            _ => Err(Error::DecompressorBitWidth(self.bits_per_value)),
        };
        match decoded {
            Ok(decoded_data) => Ok(
                DataBlock::FixedWidth(
                    FixedWidthDataBlock {
                        data: decoded_data,
                        bits_per_value: self.bits_per_value,
                        num_values,
                    },
                ),
            ),
            Err(error) => Err(error),
        }
    }
}

} // verus!
