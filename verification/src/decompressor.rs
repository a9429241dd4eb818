//! The decompressor.

use vstd::prelude::*;

use crate::compression::DeltaRle;
use crate::data::{fixed_bytes, fixed_values, lemma_slot, numbers, DataBlock, LanceBuffer};
use crate::delta::running_sum;
use crate::encoder::{byte_width, supported_bits};
use crate::endian::{i64_to_word, pattern_to_i64, read_le, span, u64_to_word, word};
use crate::error::Error;
use crate::native::{FixedWidthValue, NativeValue};
use crate::rle::{expand, repeated, runs_of};

verus! {

/// The deltas that a values buffer and a lengths buffer of runs stand for.
pub open spec fn decoded_deltas(values: Seq<u8>, lengths: Seq<u8>) -> Seq<i64> {
    expand(runs_of(values, lengths))
}

/// The running sums of the deltas are all within the range of `i64`.
pub open spec fn sums_fit(deltas: Seq<i64>) -> bool {
    forall|i: int|
        0 <= i < deltas.len() ==> i64::MIN <= #[trigger] running_sum(deltas, i + 1) <= i64::MAX
}

/// The numbers that the deltas stand for: the machine words of their running sums.
pub open spec fn restored(deltas: Seq<i64>) -> Seq<int> {
    Seq::new(deltas.len(), |i: int| word(running_sum(deltas, i + 1)))
}

/// The deltas stand for numbers that all fit in `width` bytes.
pub open spec fn restorable(deltas: Seq<i64>, width: nat) -> bool {
    &&& sums_fit(deltas)
    &&& forall|i: int| 0 <= i < deltas.len() ==> #[trigger] restored(deltas)[i] < span(width)
}

/// The bytes of each of the buffers.
pub open spec fn views(buffers: Seq<LanceBuffer>) -> Seq<Seq<u8>> {
    buffers.map_values(|buffer: LanceBuffer| buffer@)
}

/// Where the buffers hold the `num_values` values of `width` bytes that are asked
/// for, those values can be restored.
pub open spec fn chunk_readable(width: nat, buffers: Seq<Seq<u8>>, num_values: u64) -> bool {
    num_values != 0 && buffers.len() == 2 ==> {
        let deltas = decoded_deltas(buffers[0], buffers[1]);
        let count = word(num_values as int);
        count <= deltas.len() ==> restorable(deltas.take(count), width)
    }
}

/// What comes of reading `num_values` values of `width` bytes from the buffers:
/// the bytes of the values, or an error.
pub open spec fn chunk_outcome(width: nat, buffers: Seq<Seq<u8>>, num_values: u64) -> Result<
    Seq<u8>,
    Error,
> {
    if num_values == 0 {
        Ok(seq![])
    } else if buffers.len() != 2 {
        Err(Error::BufferCount(buffers.len() as usize))
    } else {
        let deltas = decoded_deltas(buffers[0], buffers[1]);
        let count = word(num_values as int);
        if deltas.len() < count {
            Err(Error::ValueCount { expected: num_values, found: deltas.len() as usize })
        } else {
            Ok(fixed_bytes(restored(deltas.take(count)), width))
        }
    }
}

/// Where values of `bits_per_value` bits are supported and the buffers hold the
/// `num_values` values that are asked for, those values can be restored.
pub open spec fn readable(bits_per_value: u64, buffers: Seq<Seq<u8>>, num_values: u64) -> bool {
    supported_bits(bits_per_value) ==> chunk_readable(
        byte_width(bits_per_value),
        buffers,
        num_values,
    )
}

/// What comes of reading `num_values` values of `bits_per_value` bits from the
/// buffers: the bytes of the values, or an error.
pub open spec fn outcome(bits_per_value: u64, buffers: Seq<Seq<u8>>, num_values: u64) -> Result<
    Seq<u8>,
    Error,
> {
    if supported_bits(bits_per_value) {
        chunk_outcome(byte_width(bits_per_value), buffers, num_values)
    } else {
        Err(Error::DecompressorBitWidth(bits_per_value))
    }
}

/// A result holds what was to come: a buffer with the bytes, or the error.
pub open spec fn yields(r: Result<LanceBuffer, Error>, expected: Result<Seq<u8>, Error>) -> bool {
    match expected {
        Ok(bytes) => r matches Ok(buffer) && buffer@ == bytes,
        Err(error) => r matches Err(e) && e == error,
    }
}

/// A result holds what was to come: a block of `num_values` values of
/// `bits_per_value` bits with the bytes, or the error.
pub open spec fn yields_block(
    r: Result<DataBlock, Error>,
    bits_per_value: u64,
    num_values: u64,
    expected: Result<Seq<u8>, Error>,
) -> bool {
    match expected {
        Ok(bytes) => r matches Ok(DataBlock::FixedWidth(fixed)) && {
            &&& fixed.data@ == bytes
            &&& fixed.bits_per_value == bits_per_value
            &&& fixed.num_values == num_values
        },
        Err(error) => r matches Err(e) && e == error,
    }
}

/// Reads fixed-width values back from runs of deltas.
#[derive(Debug)]
pub struct DeltaRleDecompressor {
    /// The number of bits of a value.
    pub bits_per_value: u64,
    /// The first value.
    pub first_value: i64,
}

impl DeltaRleDecompressor {
    /// Makes a decompressor for values of `bits_per_value` bits, of which the first
    /// is `first_value`.
    pub fn new(bits_per_value: u64, first_value: i64) -> (r: Self)
        ensures
            r.bits_per_value == bits_per_value,
            r.first_value == first_value,
    {
        DeltaRleDecompressor { bits_per_value, first_value }
    }

    /// Makes the decompressor for values that are encoded as described.
    pub fn from_description(desc: &DeltaRle) -> (r: Self)
        ensures
            r.bits_per_value == desc.uncompressed_bits_per_value,
            r.first_value == desc.first_value,
    {
        DeltaRleDecompressor {
            bits_per_value: desc.uncompressed_bits_per_value,
            first_value: desc.first_value,
        }
    }

    /// Decodes the runs of a values buffer and a lengths buffer to deltas.
    pub fn rle_decode_deltas(values_buf: &[u8], lengths_buf: &[u8]) -> (r: Vec<i64>)
        ensures
            r@ == decoded_deltas(values_buf@, lengths_buf@),
    {
        let ghost runs = runs_of(values_buf@, lengths_buf@);
        let mut deltas: Vec<i64> = Vec::new();
        let total: usize = values_buf.len();
        let num_runs: usize = total / 8;
        let mut i: usize = 0;
        proof {
            assert(deltas@ =~= expand(runs.take(0)));
        }
        while i < num_runs && i < lengths_buf.len()
            invariant
                total == values_buf@.len(),
                num_runs == total / 8,
                runs == runs_of(values_buf@, lengths_buf@),
                i <= runs.len(),
                deltas@ == expand(runs.take(i as int)),
            decreases num_runs - i,
        {
            proof {
                lemma_slot(i as int, 8, total as int);
            }
            let pattern: u64 = read_le(values_buf, i * 8, 8);
            let value: i64 = pattern_to_i64(pattern);
            let length: u8 = lengths_buf[i];
            let ghost before = deltas@;
            let mut k: u8 = 0;
            proof {
                assert(deltas@ =~= before + repeated(value, 0));
            }
            while k < length
                invariant
                    k <= length,
                    deltas@ == before + repeated(value, k as int),
                decreases length - k,
            {
                deltas.push(value);
                k = k + 1;
                proof {
                    assert(deltas@ =~= before + repeated(value, k as int));
                }
            }
            proof {
                assert(fixed_values(values_buf@, 8)[i as int] == pattern);
                assert(runs.take(i + 1).drop_last() =~= runs.take(i as int));
                assert(runs.take(i + 1).last() == runs[i as int]);
            }
            i = i + 1;
        }
        proof {
            assert(runs.take(i as int) =~= runs);
        }
        deltas
    }

    /// Restores values from their deltas. The first delta is the first value, so
    /// `first_value` does not enter into the result, and `num_values` is only a hint
    /// at the number of values.
    pub fn reconstruct_from_deltas<T: NativeValue>(
        first_value: i64,
        deltas: &[i64],
        num_values: u64,
    ) -> (r: Vec<T>)
        requires
            sums_fit(deltas@),
            forall|i: int|
                0 <= i < deltas@.len() ==> T::of_number(
                    #[trigger] restored(deltas@)[i],
                ) is Some,
        ensures
            numbers(r@) == restored(deltas@),
    {
        let total: usize = deltas.len();
        let hint: usize = u64_to_word(num_values);
        let mut result: Vec<T> = Vec::with_capacity(
            if hint < total {
                hint
            } else {
                total
            },
        );
        let mut current: i64 = first_value;
        let mut i: usize = 0;
        while i < total
            invariant
                total == deltas@.len(),
                i <= total,
                sums_fit(deltas@),
                forall|j: int|
                    0 <= j < deltas@.len() ==> T::of_number(
                        #[trigger] restored(deltas@)[j],
                    ) is Some,
                i > 0 ==> current == running_sum(deltas@, i as int),
                result@.len() == i,
                forall|j: int|
                    0 <= j < i ==> (#[trigger] result@[j]).number() == restored(deltas@)[j],
            decreases total - i,
        {
            let delta: i64 = deltas[i];
            proof {
                assert(i64::MIN <= running_sum(deltas@, i + 1) <= i64::MAX);
                assert(running_sum(deltas@, i + 1) == running_sum(deltas@, i as int) + delta);
            }
            if i == 0 {
                current = delta;
            } else {
                current = current + delta;
            }
            proof {
                assert(restored(deltas@)[i as int] == word(current as int));
                T::lemma_of_number(word(current as int));
            }
            let value: Option<T> = T::from_word(i64_to_word(current));
            result.push(value.unwrap());
            i = i + 1;
        }
        proof {
            assert(numbers(result@) =~= restored(deltas@));
        }
        result
    }

    /// Reads `num_values` values of type `T` from the buffers.
    pub fn decode_data<T: FixedWidthValue>(&self, buffers: &[LanceBuffer], num_values: u64) -> (r:
        Result<LanceBuffer, Error>)
        requires
            chunk_readable(T::width(), views(buffers@), num_values),
        ensures
            yields(r, chunk_outcome(T::width(), views(buffers@), num_values)),
    {
        if num_values == 0 {
            return Ok(LanceBuffer::empty());
        }
        if buffers.len() != 2 {
            return Err(Error::BufferCount(buffers.len()));
        }
        let deltas: Vec<i64> = Self::rle_decode_deltas(buffers[0].as_ref(), buffers[1].as_ref());
        let count: usize = u64_to_word(num_values);
        if deltas.len() < count {
            return Err(Error::ValueCount { expected: num_values, found: deltas.len() });
        }
        proof {
            assert forall|i: int| 0 <= i < count implies T::of_number(
                #[trigger] restored(deltas@.take(count as int))[i],
            ) is Some by {
                let number = restored(deltas@.take(count as int))[i];
                assert(0 <= number);
                T::lemma_range(number);
            }
            assert(deltas@.subrange(0, count as int) =~= deltas@.take(count as int));
        }
        let wanted: &[i64] = vstd::slice::slice_subrange(deltas.as_slice(), 0, count);
        let reconstructed: Vec<T> = Self::reconstruct_from_deltas::<T>(
            self.first_value,
            wanted,
            num_values,
        );
        Ok(LanceBuffer::reinterpret_vec(reconstructed))
    }
}

} // verus!
