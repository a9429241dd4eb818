//! The compressor.

use vstd::prelude::*;

use crate::compression::{CompressiveEncoding, DeltaRle, MiniBlockChunk};
use crate::data::{fixed_values, lemma_slot, numbers, FixedWidthDataBlock, LanceBuffer};
use crate::delta::{deltas, deltas_fit};
use crate::endian::{
    i64_to_pattern, le_bytes, lemma_bytes_of_value, lemma_spans, low_u32, push_le, to_pattern,
    to_signed, u64_to_word, word, word_to_i64, word_to_u32,
};
use crate::error::Error;
use crate::native::{FixedWidthValue, NativeValue};
use crate::rle::{
    lemma_append_run, lemma_buffers_append, lemma_buffers_push, repeated, rle_runs, run_lengths,
    run_values, split_run, Run, MAX_RUN_LENGTH,
};

verus! {

/// The signed integer by which a value of a column is reckoned: its machine
/// word, read as a signed 64-bit integer.
pub open spec fn signed(number: int) -> i64 {
    to_signed(word(number))
}

/// The signed integers of a sequence of numbers.
pub open spec fn signed_all(numbers: Seq<int>) -> Seq<i64> {
    numbers.map_values(|number: int| signed(number))
}

/// The widths in bits that can be compressed.
pub open spec fn supported_bits(bits_per_value: u64) -> bool {
    bits_per_value == 8 || bits_per_value == 16 || bits_per_value == 32 || bits_per_value == 64
}

/// The first integer of a sequence, or 0 if there is none.
pub open spec fn first_or_zero(values: Seq<i64>) -> i64 {
    if values.len() == 0 {
        0
    } else {
        values[0]
    }
}

/// The signed integers of the values of `width` bytes in a buffer.
pub open spec fn signed_values(bytes: Seq<u8>, width: nat) -> Seq<i64> {
    signed_all(fixed_values(bytes, width))
}

/// A buffer holds whole values of `width` bytes; and where they have 8 bytes, the
/// difference of each value to the one before it is within the range of `i64`.
pub open spec fn encodable(bytes: Seq<u8>, width: nat) -> bool {
    &&& bytes.len() % width == 0
    &&& width == 8 ==> deltas_fit(signed_values(bytes, width))
}

/// The runs of the deltas of the values of `width` bytes in a buffer.
pub open spec fn delta_runs(bytes: Seq<u8>, width: nat) -> Seq<Run> {
    rle_runs(deltas(signed_values(bytes, width)))
}

/// The number of bytes of a value of `bits_per_value` bits.
pub open spec fn byte_width(bits_per_value: u64) -> nat {
    (bits_per_value / 8) as nat
}

/// What becomes of a buffer of `num_values` values of `width` bytes: nothing, if
/// there are no values; or else the two buffers of the runs of the deltas of all
/// the values in the buffer, as one chunk, and the first value.
pub open spec fn is_encoded_chunk(
    bytes: Seq<u8>,
    width: nat,
    num_values: u64,
    buffers: Seq<LanceBuffer>,
    chunks: Seq<MiniBlockChunk>,
    first_value: i64,
) -> bool {
    if num_values == 0 {
        &&& buffers.len() == 0
        &&& chunks.len() == 0
        &&& first_value == 0
    } else {
        let values = run_values(delta_runs(bytes, width));
        let lengths = run_lengths(delta_runs(bytes, width));
        &&& buffers.len() == 2
        &&& buffers[0]@ == values
        &&& buffers[1]@ == lengths
        &&& chunks.len() == 1
        &&& chunks[0].buffer_sizes@ == seq![low_u32(values.len()), low_u32(lengths.len())]
        &&& chunks[0].log_num_values == 0
        &&& first_value == first_or_zero(signed_values(bytes, width))
    }
}

/// The compressed form of a buffer of values of `width` bytes as one block: the
/// first value, the size of the values buffer, the values buffer and the lengths
/// buffer of the runs of the deltas.
pub open spec fn block_bytes(bytes: Seq<u8>, width: nat) -> Seq<u8> {
    let values = run_values(delta_runs(bytes, width));
    let lengths = run_lengths(delta_runs(bytes, width));
    le_bytes(to_pattern(first_or_zero(signed_values(bytes, width))), 8) + le_bytes(
        values.len(),
        8,
    ) + values + lengths
}

/// The description of runs of deltas: values of `bits_per_value` bits, of which
/// the first is `first_value`, as 64-bit deltas and 8-bit lengths.
pub open spec fn description(bits_per_value: u64, first_value: i64) -> DeltaRle {
    DeltaRle {
        uncompressed_bits_per_value: bits_per_value,
        first_value,
        values: Box::new(CompressiveEncoding::Flat { bits_per_value: 64 }),
        run_lengths: Box::new(CompressiveEncoding::Flat { bits_per_value: 8 }),
    }
}

/// Converts a native value to the signed integer by which it is reckoned.
pub fn value_to_i64<T: NativeValue>(value: T) -> (r: i64)
    ensures
        r == signed(value.number()),
{
    word_to_i64(value.to_word())
}

/// Compresses fixed-width blocks into runs of deltas.
#[derive(Debug, Default)]
pub struct DeltaRleEncoder;

impl DeltaRleEncoder {
    /// Makes a compressor.
    pub fn new() -> (r: Self)
        ensures
            r == DeltaRleEncoder,
    {
        DeltaRleEncoder
    }

    /// The first of the values, or 0 if there is none, and their deltas: the first
    /// value, and from then on the difference of each value to the one before it.
    pub fn compute_deltas<T: NativeValue>(data: &[T]) -> (r: (i64, Vec<i64>))
        requires
            deltas_fit(signed_all(numbers(data@))),
        ensures
            r.0 == first_or_zero(signed_all(numbers(data@))),
            r.1@ == deltas(signed_all(numbers(data@))),
            data@.len() == 0 ==> r.0 == 0,
            data@.len() > 0 ==> r.0 == signed(data@[0].number()),
            data@.len() > 0 ==> r.1@[0] == signed(data@[0].number()),
            r.1@.len() == data@.len(),
            forall|i: int|
                1 <= i < data@.len() ==> signed(data@[i - 1].number()) + #[trigger] r.1@[i]
                    == signed(data@[i].number()),
    {
        let ghost values = signed_all(numbers(data@));
        if data.is_empty() {
            let none: Vec<i64> = Vec::new();
            proof {
                assert(none@ =~= deltas(values));
            }
            return (0, none);
        }
        let first_value: i64 = Self::to_i64(data[0]);
        let mut found: Vec<i64> = Vec::with_capacity(data.len());
        found.push(first_value);
        let mut i: usize = 1;
        while i < data.len()
            invariant
                values == signed_all(numbers(data@)),
                deltas_fit(values),
                1 <= i <= data@.len(),
                found@ == deltas(values).take(i as int),
            decreases data@.len() - i,
        {
            let current: i64 = Self::to_i64(data[i]);
            let previous: i64 = Self::to_i64(data[i - 1]);
            proof {
                assert(current == values[i as int]);
                assert(previous == values[i - 1]);
                assert(i64::MIN <= values[i as int] - values[i - 1] <= i64::MAX);
            }
            let delta: i64 = current - previous;
            found.push(delta);
            proof {
                assert(deltas(values).take(i + 1) =~= deltas(values).take(i as int).push(
                    deltas(values)[i as int],
                ));
            }
            i = i + 1;
        }
        proof {
            assert(deltas(values).take(i as int) =~= deltas(values));
            assert forall|j: int| 1 <= j < data@.len() implies signed(data@[j - 1].number())
                + #[trigger] found@[j] == signed(data@[j].number()) by {
                assert(values[j] == signed(data@[j].number()));
                assert(values[j - 1] == signed(data@[j - 1].number()));
                assert(i64::MIN <= values[j] - values[j - 1] <= i64::MAX);
            }
        }
        (first_value, found)
    }

    /// Converts a native value to a signed integer.
    fn to_i64<T: NativeValue>(value: T) -> (r: i64)
        ensures
            r == signed(value.number()),
    {
        value_to_i64(value)
    }

    /// Encodes deltas as runs: the values buffer, and the lengths buffer.
    pub fn rle_encode_deltas(deltas: &[i64]) -> (r: (Vec<u8>, Vec<u8>))
        ensures
            r.0@ == run_values(rle_runs(deltas@)),
            r.1@ == run_lengths(rle_runs(deltas@)),
    {
        if deltas.is_empty() {
            let values: Vec<u8> = Vec::new();
            let lengths: Vec<u8> = Vec::new();
            proof {
                assert(values@ =~= run_values(rle_runs(deltas@)));
                assert(lengths@ =~= run_lengths(rle_runs(deltas@)));
            }
            return (values, lengths);
        }
        let total: usize = deltas.len();
        let estimated_runs: usize = total / 10;
        let mut values: Vec<u8> = Vec::with_capacity(estimated_runs * 8);
        let mut lengths: Vec<u8> = Vec::with_capacity(estimated_runs);
        let mut current_value: i64 = deltas[0];
        let mut current_length: u64 = 1;
        let mut i: usize = 1;
        proof {
            assert(values@ =~= run_values(rle_runs(deltas@.take(0))));
            assert(lengths@ =~= run_lengths(rle_runs(deltas@.take(0))));
            assert(deltas@.take(1) =~= deltas@.take(0) + repeated(current_value, 1));
        }
        while i < total
            invariant
                total == deltas@.len(),
                1 <= current_length <= i <= total,
                deltas@.take(i as int) == deltas@.take(i - current_length) + repeated(
                    current_value,
                    current_length as int,
                ),
                i - current_length > 0 ==> deltas@[i - current_length - 1] != current_value,
                values@ == run_values(rle_runs(deltas@.take(i - current_length))),
                lengths@ == run_lengths(rle_runs(deltas@.take(i - current_length))),
            decreases total - i,
        {
            let value: i64 = deltas[i];
            let ghost done = deltas@.take(i - current_length);
            proof {
                assert(deltas@.take(i + 1) =~= deltas@.take(i as int).push(value));
            }
            if value == current_value {
                proof {
                    assert(deltas@.take(i + 1) =~= done + repeated(
                        current_value,
                        current_length + 1,
                    ));
                }
                current_length = current_length + 1;
            } else {
                proof {
                    lemma_append_run(done, current_value, current_length as int);
                    lemma_buffers_append(
                        rle_runs(done),
                        split_run(current_value, current_length as int),
                    );
                    lemma_whole_run(current_length);
                    assert(deltas@.take(i as int).last() == current_value);
                }
                Self::add_run(&mut values, &mut lengths, current_value, current_length);
                current_value = value;
                current_length = 1;
                proof {
                    assert(deltas@.take(i + 1) =~= deltas@.take(i as int) + repeated(value, 1));
                }
            }
            i = i + 1;
        }
        proof {
            let done = deltas@.take(total - current_length);
            lemma_append_run(done, current_value, current_length as int);
            lemma_buffers_append(
                rle_runs(done),
                split_run(current_value, current_length as int),
            );
            lemma_whole_run(current_length);
            assert(deltas@.take(total as int) =~= deltas@);
        }
        Self::add_run(&mut values, &mut lengths, current_value, current_length);
        (values, lengths)
    }

    /// Appends one repeated value to the buffers of some runs. A value that is
    /// repeated more often than one run can count is split into several runs.
    ///
    /// The number of full runs is counted in a machine word.
    pub fn add_run(values: &mut Vec<u8>, lengths: &mut Vec<u8>, value: i64, length: u64)
        ensures
            final(values)@ == old(values)@ + run_values(split_run(value, written_length(length))),
            final(lengths)@ == old(lengths)@ + run_lengths(
                split_run(value, written_length(length)),
            ),
    {
        let ghost runs = split_run(value, written_length(length));
        let ghost values_before = values@;
        let ghost lengths_before = lengths@;
        let num_full_chunks: usize = u64_to_word(length / 255);
        let remainder: u8 = (length % 255) as u8;
        proof {
            assert(written_length(length) / 255 == num_full_chunks);
            assert(written_length(length) % 255 == remainder);
            assert(values_before + run_values(runs.take(0)) =~= values_before);
            assert(lengths_before + run_lengths(runs.take(0)) =~= lengths_before);
        }
        let mut i: usize = 0;
        while i < num_full_chunks
            invariant
                i <= num_full_chunks <= runs.len(),
                runs == split_run(value, written_length(length)),
                written_length(length) / 255 == num_full_chunks,
                values@ == values_before + run_values(runs.take(i as int)),
                lengths@ == lengths_before + run_lengths(runs.take(i as int)),
            decreases num_full_chunks - i,
        {
            Self::push_run(values, lengths, value, MAX_RUN_LENGTH);
            proof {
                assert(runs.take(i + 1) =~= runs.take(i as int).push(runs[i as int]));
                lemma_buffers_push(runs.take(i as int), runs[i as int]);
                assert(values@ =~= values_before + run_values(runs.take(i + 1)));
                assert(lengths@ =~= lengths_before + run_lengths(runs.take(i + 1)));
            }
            i = i + 1;
        }
        if remainder > 0 {
            Self::push_run(values, lengths, value, remainder);
            proof {
                assert(runs.take(i + 1) =~= runs.take(i as int).push(runs[i as int]));
                lemma_buffers_push(runs.take(i as int), runs[i as int]);
                assert(values@ =~= values_before + run_values(runs.take(i + 1)));
                assert(lengths@ =~= lengths_before + run_lengths(runs.take(i + 1)));
                assert(runs.take(i + 1) =~= runs);
            }
        } else {
            proof {
                assert(runs.take(i as int) =~= runs);
            }
        }
    }

    /// Encodes a buffer of `num_values` values of type `T`: the buffers, the chunks
    /// that they are made of, and the first value.
    pub fn encode_chunk<T: FixedWidthValue>(&self, data: &LanceBuffer, num_values: u64) -> (r:
        Result<(Vec<LanceBuffer>, Vec<MiniBlockChunk>, i64), Error>)
        requires
            num_values != 0 ==> encodable(data@, T::width()),
        ensures
            r matches Ok((buffers, chunks, first_value)) && is_encoded_chunk(
                data@,
                T::width(),
                num_values,
                buffers@,
                chunks@,
                first_value,
            ),
    {
        if num_values == 0 {
            return Ok((Vec::new(), Vec::new(), 0));
        }
        proof {
            T::lemma_width();
            lemma_encodable_deltas_fit(data@, T::width());
        }
        let typed_data: Vec<T> = data.borrow_to_typed_slice::<T>();
        let (first_value, deltas): (i64, Vec<i64>) = Self::compute_deltas(typed_data.as_slice());
        let (values_buf, lengths_buf): (Vec<u8>, Vec<u8>) = Self::rle_encode_deltas(
            deltas.as_slice(),
        );
        let mut buffer_sizes: Vec<u32> = Vec::new();
        buffer_sizes.push(word_to_u32(values_buf.len()));
        buffer_sizes.push(word_to_u32(lengths_buf.len()));
        let mut chunks: Vec<MiniBlockChunk> = Vec::new();
        chunks.push(MiniBlockChunk { buffer_sizes, log_num_values: 0 });
        let mut buffers: Vec<LanceBuffer> = Vec::new();
        buffers.push(LanceBuffer::from(values_buf));
        buffers.push(LanceBuffer::from(lengths_buf));
        proof {
            assert(chunks@[0].buffer_sizes@ =~= seq![
                low_u32(values_buf@.len()),
                low_u32(lengths_buf@.len()),
            ]);
        }
        Ok((buffers, chunks, first_value))
    }

    /// Encodes a fixed-width block, or gives the error that values of its width
    /// cannot be encoded.
    pub(crate) fn encode_fixed(&self, fixed: &FixedWidthDataBlock) -> (r: Result<
        (Vec<LanceBuffer>, Vec<MiniBlockChunk>, i64),
        Error,
    >)
        requires
            supported_bits(fixed.bits_per_value) && fixed.num_values != 0 ==> encodable(
                fixed.data@,
                byte_width(fixed.bits_per_value),
            ),
        ensures
            !supported_bits(fixed.bits_per_value) ==> r == Err::<
                (Vec<LanceBuffer>, Vec<MiniBlockChunk>, i64),
                Error,
            >(Error::EncoderBitWidth(fixed.bits_per_value)),
            supported_bits(fixed.bits_per_value) ==> (r matches Ok((buffers, chunks, first_value))
                && is_encoded_chunk(
                fixed.data@,
                byte_width(fixed.bits_per_value),
                fixed.num_values,
                buffers@,
                chunks@,
                first_value,
            )),
    {
        match fixed.bits_per_value {
            8 => self.encode_chunk::<u8>(&fixed.data, fixed.num_values),
            16 => self.encode_chunk::<u16>(&fixed.data, fixed.num_values),
            32 => self.encode_chunk::<u32>(&fixed.data, fixed.num_values),
            64 => self.encode_chunk::<u64>(&fixed.data, fixed.num_values),
            _ => Err(Error::EncoderBitWidth(fixed.bits_per_value)),
        }
    }

    /// Appends one run to the buffers.
    fn push_run(values: &mut Vec<u8>, lengths: &mut Vec<u8>, value: i64, length: u8)
        ensures
            final(values)@ == old(values)@ + le_bytes(to_pattern(value), 8),
            final(lengths)@ == old(lengths)@.push(length),
    {
        push_le(values, i64_to_pattern(value), 8);
        lengths.push(length);
    }
}

/// The differences of the values of an encodable buffer are within the range of
/// `i64`.
pub proof fn lemma_encodable_deltas_fit(bytes: Seq<u8>, width: nat)
    requires
        width == 1 || width == 2 || width == 4 || width == 8,
        encodable(bytes, width),
    ensures
        deltas_fit(signed_values(bytes, width)),
{
    if width < 8 {
        let values = signed_values(bytes, width);
        assert forall|i: int| 0 <= i < values.len() implies 0 <= #[trigger] values[i]
            <= u32::MAX by {
            lemma_slot(i, width as int, bytes.len() as int);
            lemma_bytes_of_value(bytes.subrange(i * width, i * width + width));
            lemma_spans();
        }
    }
}

/// How often `add_run` repeats a value that it is asked to repeat `length`
/// times: `length` times, if a machine word can count the full runs.
pub open spec fn written_length(length: u64) -> int {
    255 * word((length / 255) as int) + length % 255
}

/// A length that counts the full runs in a machine word is written whole.
pub proof fn lemma_whole_run(length: u64)
    requires
        length <= usize::MAX,
    ensures
        written_length(length) == length,
{
}

} // verus!
