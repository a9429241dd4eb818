//! What the compressed forms hold and what is read from them, from the values that
//! go in to the block that comes out.

use vstd::arithmetic::power::pow;
use vstd::prelude::*;

use crate::block::{block_buffers, block_outcome, block_readable, block_values_size};
use crate::compression::{
    BlockCompressor, BlockDecompressor, CompressiveEncoding, DeltaRle, MiniBlockChunk,
    MiniBlockCompressed, MiniBlockCompressor, MiniBlockDecompressor,
};
use crate::data::{
    fixed_values, lemma_fixed_bytes_len, lemma_values_of_fixed_bytes, DataBlock,
    FixedWidthDataBlock, LanceBuffer,
};
use crate::decompressor::{
    decoded_deltas, outcome, readable, restored, views, yields, yields_block,
    DeltaRleDecompressor,
};
use crate::delta::{deltas, lemma_running_sum_of_prefix, running_sum};
use crate::encoder::{
    block_bytes, byte_width, delta_runs, description, encodable, first_or_zero,
    is_encoded_chunk, lemma_encodable_deltas_fit, signed, signed_values, supported_bits,
    DeltaRleEncoder,
};
use crate::endian::{
    le_bytes, le_value, lemma_le_bytes_len, lemma_spans, lemma_value_of_bytes, span, to_pattern,
    to_signed, word,
};
use crate::error::{decimal, Error};
use crate::format_laws::{
    deltas_lead_from_value_to_value, fitting_differences, restored_numbers_differ_by_deltas,
    sizes_are_kept_in_32_bits, span_is_a_power,
};
use crate::laws::{
    block_holds_runs, block_round_trip, complete, decompressed_is_complete, miniblock_round_trip,
    rle_round_trip, runs_are_as_long_as_can_be,
};
use crate::rle::{lemma_runs_of_buffers, run_lengths, run_values, runs_of, Run};

verus! {

/// A block that is compressed to a miniblock, and read by the decompressor that is
/// made from the description beside it, comes back with its bytes, its width and
/// its number of values.
pub proof fn described_round_trip(
    fixed: FixedWidthDataBlock,
    compressed: MiniBlockCompressed,
    desc: DeltaRle,
    decompressor: DeltaRleDecompressor,
    read: Result<DataBlock, Error>,
)
    requires
        supported_bits(fixed.bits_per_value),
        fixed.data@.len() * 8 == fixed.num_values * fixed.bits_per_value,
        DeltaRleEncoder.takes_for_miniblock(DataBlock::FixedWidth(fixed)),
        fixed.bits_per_value == 64 ==> forall|i: int|
            0 <= i < fixed_values(fixed.data@, 8).len() ==> #[trigger] fixed_values(
                fixed.data@,
                8,
            )[i] <= usize::MAX,
        compressed.num_values == fixed.num_values,
        desc == description(fixed.bits_per_value, desc.first_value),
        is_encoded_chunk(
            fixed.data@,
            byte_width(fixed.bits_per_value),
            fixed.num_values,
            compressed.data@,
            compressed.chunks@,
            desc.first_value,
        ),
        decompressor.bits_per_value == desc.uncompressed_bits_per_value,
        decompressor.first_value == desc.first_value,
        yields_block(
            read,
            decompressor.bits_per_value,
            compressed.num_values,
            outcome(
                decompressor.bits_per_value,
                views(compressed.data@),
                compressed.num_values,
            ),
        ),
    ensures
        decompressor.takes_miniblock(compressed.data@, compressed.num_values),
        read matches Ok(DataBlock::FixedWidth(block)) && {
            &&& block.data@ == fixed.data@
            &&& block.bits_per_value == fixed.bits_per_value
            &&& block.num_values == fixed.num_values
        },
{
    lemma_complete(fixed);
    miniblock_round_trip(
        fixed,
        compressed.data@,
        compressed.chunks@,
        desc.first_value,
        decompressor,
    );
}

/// A block that is compressed to one buffer, and read by a decompressor for its
/// width, comes back with its bytes, its width and its number of values.
pub proof fn block_is_read_back(
    fixed: FixedWidthDataBlock,
    compressed: LanceBuffer,
    decompressor: DeltaRleDecompressor,
    read: Result<DataBlock, Error>,
)
    requires
        supported_bits(fixed.bits_per_value),
        fixed.data@.len() * 8 == fixed.num_values * fixed.bits_per_value,
        DeltaRleEncoder.takes_for_block(DataBlock::FixedWidth(fixed)),
        fixed.bits_per_value == 64 ==> forall|i: int|
            0 <= i < fixed_values(fixed.data@, 8).len() ==> #[trigger] fixed_values(
                fixed.data@,
                8,
            )[i] <= usize::MAX,
        compressed@ == block_bytes(fixed.data@, byte_width(fixed.bits_per_value)),
        decompressor.bits_per_value == fixed.bits_per_value,
        yields_block(
            read,
            decompressor.bits_per_value,
            fixed.num_values,
            block_outcome(decompressor.bits_per_value, compressed@, fixed.num_values),
        ),
    ensures
        decompressor.takes_block(compressed@, fixed.num_values),
        read matches Ok(DataBlock::FixedWidth(block)) && {
            &&& block.data@ == fixed.data@
            &&& block.bits_per_value == fixed.bits_per_value
            &&& block.num_values == fixed.num_values
        },
{
    lemma_complete(fixed);
    block_round_trip(fixed, compressed, decompressor);
}

/// A block with as many bits in its buffer as its values take is complete.
proof fn lemma_complete(fixed: FixedWidthDataBlock)
    requires
        supported_bits(fixed.bits_per_value),
        fixed.data@.len() * 8 == fixed.num_values * fixed.bits_per_value,
    ensures
        complete(fixed),
{
    let width = byte_width(fixed.bits_per_value);
    assert(fixed.bits_per_value == 8 * width);
    assert(fixed.num_values * (8 * width) == 8 * (fixed.num_values * width)) by (nonlinear_arith);
}

/// A description names the width and the first value that it was made for, and the
/// widths of the two flat buffers: so many bits for each run as the buffers of any
/// runs hold.
pub proof fn descriptions_fit_the_buffers(
    bits_per_value: u64,
    first_value: i64,
    desc: DeltaRle,
    runs: Seq<Run>,
)
    requires
        desc == description(bits_per_value, first_value),
    ensures
        desc.uncompressed_bits_per_value == bits_per_value,
        desc.first_value == first_value,
        *desc.values matches CompressiveEncoding::Flat { bits_per_value: bits } && bits
            * runs.len() == 8 * run_values(runs).len() && bits == 64,
        *desc.run_lengths matches CompressiveEncoding::Flat { bits_per_value: bits } && bits
            * runs.len() == 8 * run_lengths(runs).len() && bits == 8,
{
    lemma_runs_of_buffers(runs);
}

/// The deltas that the two buffers of a miniblock stand for, one for each value in
/// the block's buffer, lead from value to value, beginning with the value in place
/// 0; and the first value is the value in place 0, or 0 if there is none.
pub proof fn miniblocks_hold_the_deltas(
    fixed: FixedWidthDataBlock,
    buffers: Seq<LanceBuffer>,
    chunks: Seq<MiniBlockChunk>,
    first_value: i64,
)
    requires
        supported_bits(fixed.bits_per_value),
        fixed.num_values != 0,
        DeltaRleEncoder.takes_for_miniblock(DataBlock::FixedWidth(fixed)),
        is_encoded_chunk(
            fixed.data@,
            byte_width(fixed.bits_per_value),
            fixed.num_values,
            buffers,
            chunks,
            first_value,
        ),
    ensures
        ({
            let numbers = fixed_values(fixed.data@, byte_width(fixed.bits_per_value));
            let found = decoded_deltas(buffers[0]@, buffers[1]@);
            &&& found.len() == numbers.len()
            &&& numbers.len() == 0 ==> first_value == 0
            &&& numbers.len() > 0 ==> first_value == signed(numbers[0])
            &&& numbers.len() > 0 ==> found[0] == signed(numbers[0])
            &&& forall|i: int|
                1 <= i < numbers.len() ==> signed(numbers[i - 1]) + #[trigger] found[i] == signed(
                    numbers[i],
                )
        }),
{
    lemma_deltas_of_buffer(fixed.data@, byte_width(fixed.bits_per_value));
}

/// A miniblock without values holds nothing. With values it is one chunk of two
/// buffers, whose sizes it gives in 32 bits: 8 bytes and a length for each run. No
/// run is empty, and only a full run is followed by one of the same value.
pub proof fn miniblocks_are_one_chunk(
    fixed: FixedWidthDataBlock,
    buffers: Seq<LanceBuffer>,
    chunks: Seq<MiniBlockChunk>,
    first_value: i64,
)
    requires
        is_encoded_chunk(
            fixed.data@,
            byte_width(fixed.bits_per_value),
            fixed.num_values,
            buffers,
            chunks,
            first_value,
        ),
    ensures
        fixed.num_values == 0 ==> buffers.len() == 0 && chunks.len() == 0 && first_value == 0,
        fixed.num_values != 0 ==> {
            let runs = runs_of(buffers[0]@, buffers[1]@);
            &&& buffers.len() == 2
            &&& buffers[0]@.len() == 8 * buffers[1]@.len()
            &&& chunks.len() == 1
            &&& chunks[0].log_num_values == 0
            &&& chunks[0].buffer_sizes@.len() == 2
            &&& (buffers[0]@.len() - chunks[0].buffer_sizes@[0]) % 0x1_0000_0000 == 0
            &&& (buffers[1]@.len() - chunks[0].buffer_sizes@[1]) % 0x1_0000_0000 == 0
            &&& forall|i: int| 0 <= i < buffers[1]@.len() ==> 1 <= #[trigger] buffers[1]@[i]
            &&& forall|i: int|
                1 <= i < buffers[1]@.len() && runs[i - 1].value == (#[trigger] runs[i]).value
                    ==> buffers[1]@[i - 1] == 255
        },
{
    if fixed.num_values != 0 {
        lemma_runs_of_buffer(fixed.data@, byte_width(fixed.bits_per_value));
        sizes_are_kept_in_32_bits(buffers[0]@.len());
        sizes_are_kept_in_32_bits(buffers[1]@.len());
    }
}

/// The buffers of the runs of the deltas of a buffer's values stand for the deltas,
/// which lead from value to value.
proof fn lemma_deltas_of_buffer(bytes: Seq<u8>, width: nat)
    requires
        width == 1 || width == 2 || width == 4 || width == 8,
        encodable(bytes, width),
    ensures
        ({
            let numbers = fixed_values(bytes, width);
            let runs = delta_runs(bytes, width);
            let found = decoded_deltas(run_values(runs), run_lengths(runs));
            &&& found.len() == numbers.len()
            &&& numbers.len() > 0 ==> found[0] == signed(numbers[0])
            &&& forall|i: int|
                1 <= i < numbers.len() ==> signed(numbers[i - 1]) + #[trigger] found[i] == signed(
                    numbers[i],
                )
        }),
{
    let numbers = fixed_values(bytes, width);
    let values = signed_values(bytes, width);
    lemma_encodable_deltas_fit(bytes, width);
    rle_round_trip(deltas(values));
    assert(values.len() == numbers.len());
    assert forall|i: int| 1 <= i < values.len() implies signed(numbers[i - 1])
        + #[trigger] deltas(values)[i] == signed(numbers[i]) by {
        deltas_lead_from_value_to_value(values, i);
        assert(values[i] == signed(numbers[i]));
        assert(values[i - 1] == signed(numbers[i - 1]));
    }
    if values.len() > 0 {
        deltas_lead_from_value_to_value(values, 0);
        assert(values[0] == signed(numbers[0]));
    }
}

/// The runs of the deltas of a buffer's values are none of them empty, and as long
/// as can be.
proof fn lemma_runs_of_buffer(bytes: Seq<u8>, width: nat)
    ensures
        ({
            let runs = delta_runs(bytes, width);
            let lengths = run_lengths(runs);
            &&& runs_of(run_values(runs), lengths) == runs
            &&& run_values(runs).len() == 8 * lengths.len()
            &&& lengths.len() == runs.len()
            &&& forall|i: int| 0 <= i < lengths.len() ==> 1 <= #[trigger] lengths[i]
            &&& forall|i: int|
                1 <= i < lengths.len() && runs[i - 1].value == (#[trigger] runs[i]).value
                    ==> lengths[i - 1] == 255
        }),
{
    let runs = delta_runs(bytes, width);
    let lengths = run_lengths(runs);
    lemma_runs_of_buffers(runs);
    runs_are_as_long_as_can_be(deltas(signed_values(bytes, width)));
    assert forall|i: int| 0 <= i < lengths.len() implies 1 <= #[trigger] lengths[i] by {
        assert(lengths[i] == runs[i].length);
    }
}

/// What a compressed block of values holds: in its first 8 bytes the value in place
/// 0, as a signed integer, which is also the first of the deltas; in the next 8 the
/// size of a values buffer of 8 bytes for each run; and then that buffer and a
/// length for each run.
pub proof fn blocks_hold_the_first_value(bytes: Seq<u8>, width: nat, compressed: LanceBuffer)
    requires
        width == 1 || width == 2 || width == 4 || width == 8,
        encodable(bytes, width),
        compressed@ == block_bytes(bytes, width),
    ensures
        compressed@.len() == 16 + block_values_size(compressed@) + block_values_size(compressed@)
            / 8,
        le_value(compressed@.subrange(8, 16)) == block_values_size(compressed@),
        fixed_values(bytes, width).len() > 0 ==> {
            &&& to_signed(le_value(compressed@.subrange(0, 8)) as int) == signed(
                fixed_values(bytes, width)[0],
            )
            &&& decoded_deltas(
                compressed@.subrange(16, 16 + block_values_size(compressed@)),
                compressed@.subrange(
                    16 + block_values_size(compressed@),
                    compressed@.len() as int,
                ),
            )[0] == signed(fixed_values(bytes, width)[0])
        },
        fixed_values(bytes, width).len() == 0 ==> to_signed(
            le_value(compressed@.subrange(0, 8)) as int,
        ) == 0,
{
    let values = signed_values(bytes, width);
    let runs = delta_runs(bytes, width);
    let data = compressed@;
    block_holds_runs(bytes, width, compressed);
    lemma_runs_of_buffers(runs);
    rle_round_trip(deltas(values));
    lemma_spans();
    lemma_le_bytes_len(to_pattern(first_or_zero(values)), 8);
    lemma_le_bytes_len(run_values(runs).len(), 8);
    assert(data.subrange(8, 16) =~= le_bytes(run_values(runs).len(), 8));
    lemma_value_of_bytes(run_values(runs).len(), 8);
    assert(data.subrange(16, 16 + block_values_size(data)) =~= run_values(runs));
    assert(data.subrange(16 + block_values_size(data), data.len() as int) =~= run_lengths(runs));
    if values.len() > 0 {
        lemma_encodable_deltas_fit(bytes, width);
        deltas_lead_from_value_to_value(values, 0);
    }
}

/// The two compressed forms of a block hold the same: the headers of the one give the
/// first value and the size of the values buffer of the other, and the two buffers
/// follow.
pub proof fn both_forms_hold_the_same(
    bytes: Seq<u8>,
    width: nat,
    num_values: u64,
    buffers: Seq<LanceBuffer>,
    chunks: Seq<MiniBlockChunk>,
    first_value: i64,
    compressed: LanceBuffer,
)
    requires
        width == 1 || width == 2 || width == 4 || width == 8,
        encodable(bytes, width),
        num_values != 0,
        is_encoded_chunk(bytes, width, num_values, buffers, chunks, first_value),
        compressed@ == block_bytes(bytes, width),
    ensures
        compressed@.len() == 16 + buffers[0]@.len() + buffers[1]@.len(),
        to_signed(le_value(compressed@.subrange(0, 8)) as int) == first_value,
        le_value(compressed@.subrange(8, 16)) == buffers[0]@.len(),
        compressed@.take(16 + buffers[0]@.len() as int).skip(16) == buffers[0]@,
        compressed@.skip(16 + buffers[0]@.len() as int) == buffers[1]@,
{
    let runs = delta_runs(bytes, width);
    let data = compressed@;
    block_holds_runs(bytes, width, compressed);
    lemma_spans();
    lemma_le_bytes_len(to_pattern(first_value), 8);
    lemma_le_bytes_len(run_values(runs).len(), 8);
    assert(data.subrange(8, 16) =~= le_bytes(run_values(runs).len(), 8));
    lemma_value_of_bytes(run_values(runs).len(), 8);
    assert(data.take(16 + run_values(runs).len() as int).skip(16) =~= run_values(runs));
    assert(data.skip(16 + run_values(runs).len() as int) =~= run_lengths(runs));
}

/// The compressor takes every block whose buffer holds whole values with differences
/// that are signed integers of 64 bits; with values of fewer than 64 bits, every
/// block whose buffer holds whole values; and every block that it cannot compress.
pub proof fn blocks_that_are_taken(fixed: FixedWidthDataBlock, differences: Seq<i64>)
    requires
        supported_bits(fixed.bits_per_value),
        (fixed.data@.len() * 8) % (fixed.bits_per_value as nat) == 0,
        fixed.bits_per_value == 64 ==> {
            let numbers = fixed_values(fixed.data@, 8);
            &&& differences.len() == numbers.len()
            &&& forall|i: int|
                1 <= i < numbers.len() ==> signed(numbers[i - 1]) + #[trigger] differences[i]
                    == signed(numbers[i])
        },
    ensures
        DeltaRleEncoder.takes_for_miniblock(DataBlock::FixedWidth(fixed)),
        fixed.num_values != 0 ==> DeltaRleEncoder.takes_for_block(DataBlock::FixedWidth(fixed)),
{
    lemma_whole_values(fixed.data@.len() as int, fixed.bits_per_value);
    if fixed.bits_per_value == 64 {
        let numbers = fixed_values(fixed.data@, 8);
        let values = signed_values(fixed.data@, 8);
        assert forall|i: int| 1 <= i < values.len() implies values[i - 1]
            + #[trigger] differences[i] == values[i] by {
            assert(values[i] == signed(numbers[i]));
            assert(values[i - 1] == signed(numbers[i - 1]));
        }
        fitting_differences(values, differences);
    }
}

/// Whole values, in bits, are whole values in bytes.
proof fn lemma_whole_values(len: int, bits_per_value: u64)
    requires
        supported_bits(bits_per_value),
        0 <= len,
        (len * 8) % (bits_per_value as int) == 0,
    ensures
        len % (byte_width(bits_per_value) as int) == 0,
{
    if bits_per_value == 8 {
        assert(len % 1 == 0);
    } else if bits_per_value == 16 {
        assert((len * 8) % 16 == 0 ==> len % 2 == 0);
    } else if bits_per_value == 32 {
        assert((len * 8) % 32 == 0 ==> len % 4 == 0);
    } else {
        assert((len * 8) % 64 == 0 ==> len % 8 == 0);
    }
}

/// The compressor takes every block that it gives an error for, and every block
/// without values for a miniblock.
pub proof fn refused_blocks_are_taken(fixed: FixedWidthDataBlock)
    ensures
        DeltaRleEncoder.takes_for_miniblock(DataBlock::Other),
        DeltaRleEncoder.takes_for_block(DataBlock::Other),
        fixed.num_values == 0 ==> DeltaRleEncoder.takes_for_miniblock(DataBlock::FixedWidth(fixed)),
        !supported_bits(fixed.bits_per_value) ==> {
            &&& DeltaRleEncoder.takes_for_miniblock(DataBlock::FixedWidth(fixed))
            &&& DeltaRleEncoder.takes_for_block(DataBlock::FixedWidth(fixed))
        },
{
}

/// The decompressor takes buffers whose deltas it can add up: each running sum is a
/// signed integer of 64 bits, and as a machine word it fits in the width of a value.
pub proof fn buffers_that_are_taken(
    decompressor: DeltaRleDecompressor,
    buffers: Seq<LanceBuffer>,
    num_values: u64,
)
    requires
        num_values <= usize::MAX,
        supported_bits(decompressor.bits_per_value) && buffers.len() == 2 ==> {
            let found = decoded_deltas(buffers[0]@, buffers[1]@);
            forall|i: int|
                0 <= i < num_values && i < found.len() ==> {
                    &&& i64::MIN <= #[trigger] running_sum(found, i + 1) <= i64::MAX
                    &&& word(running_sum(found, i + 1)) < pow(
                        256,
                        byte_width(decompressor.bits_per_value),
                    )
                }
        },
    ensures
        decompressor.takes_miniblock(buffers, num_values),
{
    let width = byte_width(decompressor.bits_per_value);
    span_is_a_power(width);
    if supported_bits(decompressor.bits_per_value) && buffers.len() == 2 && num_values != 0 {
        let found = decoded_deltas(buffers[0]@, buffers[1]@);
        assert(views(buffers)[0] == buffers[0]@ && views(buffers)[1] == buffers[1]@);
        if num_values <= found.len() {
            let wanted = found.take(num_values as int);
            assert forall|i: int| 0 <= i < wanted.len() implies #[trigger] running_sum(
                wanted,
                i + 1,
            ) == running_sum(found, i + 1) by {
                lemma_running_sum_of_prefix(found, num_values as int, i + 1);
            }
            assert forall|i: int| 0 <= i < wanted.len() implies #[trigger] restored(wanted)[i]
                < span(width) by {
                assert(running_sum(wanted, i + 1) == running_sum(found, i + 1));
            }
        }
    }
}

/// When reading gives an error, and which: for a width that is not supported; or
/// else, if values are asked for, for buffers that are not two, and for two buffers
/// that stand for fewer deltas than values are asked for. In no other case.
pub proof fn errors_of_reading(bits_per_value: u64, buffers: Seq<Seq<u8>>, num_values: u64)
    requires
        buffers.len() <= usize::MAX,
        num_values <= usize::MAX,
    ensures
        !supported_bits(bits_per_value) ==> outcome(bits_per_value, buffers, num_values) == Err::<
            Seq<u8>,
            Error,
        >(Error::DecompressorBitWidth(bits_per_value)),
        supported_bits(bits_per_value) && num_values == 0 ==> outcome(
            bits_per_value,
            buffers,
            num_values,
        ) == Ok::<Seq<u8>, Error>(Seq::empty()),
        supported_bits(bits_per_value) && num_values != 0 && buffers.len() != 2 ==> (outcome(
            bits_per_value,
            buffers,
            num_values,
        ) matches Err(Error::BufferCount(count)) && count == buffers.len()),
        supported_bits(bits_per_value) && num_values != 0 && buffers.len() == 2 && decoded_deltas(
            buffers[0],
            buffers[1],
        ).len() < num_values ==> (outcome(bits_per_value, buffers, num_values) matches Err(
            Error::ValueCount { expected, found },
        ) && expected == num_values && found == decoded_deltas(buffers[0], buffers[1]).len()),
        supported_bits(bits_per_value) && num_values != 0 && buffers.len() == 2 && decoded_deltas(
            buffers[0],
            buffers[1],
        ).len() >= num_values ==> outcome(bits_per_value, buffers, num_values) is Ok,
{
}

/// What is read: the bytes of as many values as are asked for, of which the first is
/// the first delta, and each of the others differs from the one before it by its
/// delta, up to multiples of the number of machine words.
pub proof fn values_that_are_read(bits_per_value: u64, buffers: Seq<Seq<u8>>, num_values: u64)
    requires
        supported_bits(bits_per_value),
        0 < num_values <= usize::MAX,
        buffers.len() == 2,
        decoded_deltas(buffers[0], buffers[1]).len() >= num_values,
        readable(bits_per_value, buffers, num_values),
    ensures
        outcome(bits_per_value, buffers, num_values) matches Ok(bytes) && {
            let numbers = fixed_values(bytes, byte_width(bits_per_value));
            let found = decoded_deltas(buffers[0], buffers[1]);
            &&& bytes.len() * 8 == num_values * bits_per_value
            &&& numbers.len() == num_values
            &&& (numbers[0] - found[0]) % (usize::MAX + 1) == 0
            &&& forall|i: int|
                1 <= i < num_values ==> (numbers[i] - numbers[i - 1] - #[trigger] found[i]) % (
                usize::MAX + 1) == 0
            &&& forall|i: int| 0 <= i < num_values ==> 0 <= #[trigger] numbers[i] <= usize::MAX
        },
{
    let width = byte_width(bits_per_value);
    let found = decoded_deltas(buffers[0], buffers[1]);
    let wanted = found.take(num_values as int);
    let numbers = restored(wanted);
    assert forall|i: int| 0 <= i < numbers.len() implies 0 <= #[trigger] numbers[i] < span(
        width,
    ) by {
        restored_numbers_differ_by_deltas(wanted, i);
    }
    lemma_values_of_fixed_bytes(numbers, width);
    lemma_fixed_bytes_len(numbers, width);
    decompressed_is_complete(bits_per_value, buffers, num_values);
    assert(num_values * width * 8 == num_values * bits_per_value) by (nonlinear_arith)
        requires
            width * 8 == bits_per_value,
    ;
    restored_numbers_differ_by_deltas(wanted, 0);
    assert forall|i: int| 1 <= i < num_values implies (numbers[i] - numbers[i - 1]
        - #[trigger] found[i]) % (usize::MAX + 1) == 0 by {
        restored_numbers_differ_by_deltas(wanted, i);
        assert(wanted[i] == found[i]);
    }
    assert forall|i: int| 0 <= i < num_values implies 0 <= #[trigger] numbers[i]
        <= usize::MAX by {
        restored_numbers_differ_by_deltas(wanted, i);
    }
}

/// A compressed block is read as the two buffers that follow its headers, whatever
/// its first header holds.
pub proof fn framed_buffers_are_read(
    bits_per_value: u64,
    first: Seq<u8>,
    values: Seq<u8>,
    lengths: Seq<u8>,
    num_values: u64,
)
    requires
        first.len() == 8,
        16 + values.len() + lengths.len() <= usize::MAX,
    ensures
        block_outcome(
            bits_per_value,
            first + le_bytes(values.len(), 8) + values + lengths,
            num_values,
        ) == outcome(bits_per_value, seq![values, lengths], num_values),
        block_readable(
            bits_per_value,
            first + le_bytes(values.len(), 8) + values + lengths,
            num_values,
        ) <==> readable(bits_per_value, seq![values, lengths], num_values),
{
    let data = first + le_bytes(values.len(), 8) + values + lengths;
    lemma_spans();
    lemma_le_bytes_len(values.len(), 8);
    lemma_value_of_bytes(values.len(), 8);
    assert(data.subrange(8, 16) =~= le_bytes(values.len(), 8));
    assert(data.subrange(16, 16 + values.len() as int) =~= values);
    assert(data.subrange(16 + values.len() as int, data.len() as int) =~= lengths);
    assert(block_buffers(data) =~= seq![values, lengths]);
}

/// A compressed block that ends within its headers, or within the values buffer whose
/// size they give, is taken and refused.
pub proof fn short_blocks_are_refused(
    bits_per_value: u64,
    short: Seq<u8>,
    first: Seq<u8>,
    size: nat,
    rest: Seq<u8>,
    num_values: u64,
)
    requires
        short.len() < 16,
        first.len() == 8,
        rest.len() < size,
        16 + size <= usize::MAX,
    ensures
        block_readable(bits_per_value, short, num_values),
        block_outcome(bits_per_value, short, num_values) == Err::<Seq<u8>, Error>(
            Error::BlockHeaders,
        ),
        block_readable(bits_per_value, first + le_bytes(size, 8) + rest, num_values),
        block_outcome(bits_per_value, first + le_bytes(size, 8) + rest, num_values) == Err::<
            Seq<u8>,
            Error,
        >(Error::BlockValues),
{
    let data = first + le_bytes(size, 8) + rest;
    lemma_spans();
    lemma_le_bytes_len(size, 8);
    lemma_value_of_bytes(size, 8);
    assert(data.subrange(8, 16) =~= le_bytes(size, 8));
}

/// A result that holds what was to come is the buffer, or the block, with exactly
/// those bytes, or exactly that error.
pub proof fn results_are_what_was_to_come(
    buffer: Result<LanceBuffer, Error>,
    block: Result<DataBlock, Error>,
    bits_per_value: u64,
    num_values: u64,
    bytes: Seq<u8>,
    error: Error,
)
    ensures
        yields(buffer, Ok(bytes)) <==> (buffer matches Ok(b) && b.bytes@ == bytes),
        yields(buffer, Err(error)) <==> buffer == Err::<LanceBuffer, Error>(error),
        yields_block(block, bits_per_value, num_values, Ok(bytes)) <==> (block matches Ok(
            DataBlock::FixedWidth(fixed),
        ) && fixed.data.bytes@ == bytes && fixed.bits_per_value == bits_per_value
            && fixed.num_values == num_values),
        yields_block(block, bits_per_value, num_values, Err(error)) <==> block == Err::<
            DataBlock,
            Error,
        >(error),
{
}

/// The text of an error names what is at fault, and gives its number in decimal.
pub proof fn texts_name_the_fault(number: u64, count: usize)
    ensures
        Error::EncoderBitWidth(number).text()
            == "DeltaRleEncoder only supports 8, 16, 32, or 64 bit values, got "@ + decimal(
            number as nat,
        ),
        Error::EncoderBlockKind.text() == "DeltaRleEncoder only supports FixedWidth data blocks"@,
        Error::DecompressorBitWidth(number).text()
            == "DeltaRleDecompressor only supports 8, 16, 32, or 64 bit values, got "@ + decimal(
            number as nat,
        ),
        Error::BufferCount(count).text() == "DeltaRleDecompressor expects exactly 2 buffers, got "@
            + decimal(count as nat),
        (Error::ValueCount { expected: number, found: count }).text()
            == "DeltaRleDecompressor expected "@ + decimal(number as nat) + " values but got "@
            + decimal(count as nat),
        Error::BlockHeaders.text()
            == "DeltaRle block data too short (minimum 16 bytes for headers)"@,
        Error::BlockValues.text() == "DeltaRle block data too short for values buffer"@,
{
}

} // verus!
