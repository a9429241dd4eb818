//! What holds of the compressor and the decompressor together.

use vstd::prelude::*;

use crate::block::{block_buffers, block_outcome, block_values_size};
use crate::compression::{
    BlockCompressor, BlockDecompressor, MiniBlockChunk, MiniBlockCompressor,
    MiniBlockDecompressor,
};
use crate::data::{
    fixed_bytes, fixed_values, lemma_fixed_bytes_len, lemma_fixed_bytes_of_values, lemma_slot,
    DataBlock, FixedWidthDataBlock, LanceBuffer,
};
use crate::decompressor::{
    decoded_deltas, outcome, readable, restorable, restored, sums_fit, views,
    DeltaRleDecompressor,
};
use crate::delta::{
    deltas, lemma_running_sum_of_deltas, lemma_running_sum_of_prefix, running_sum,
};
use crate::encoder::{
    block_bytes, byte_width, delta_runs, encodable, first_or_zero, is_encoded_chunk,
    lemma_encodable_deltas_fit, signed_values, supported_bits, DeltaRleEncoder,
};
use crate::endian::{
    le_bytes, le_value, lemma_bytes_of_value, lemma_le_bytes_len, lemma_pattern_of_signed,
    lemma_spans, lemma_value_of_bytes, lemma_word_of_signed, span,
    to_pattern, to_signed,
};
use crate::error::Error;
use crate::rle::{
    lemma_append_run, lemma_expand_runs, lemma_last_run, lemma_runs_of_buffers, repeated,
    rle_runs, run_lengths, run_values, split_run, Run, MAX_RUN_LENGTH,
};
use crate::selection::{falls, monotonic_enough, monotonicity, rises};

verus! {

/// Values of 8 bytes in a buffer are numbers that a machine word can hold, as they
/// always are where machine words have 64 bits.
pub open spec fn words_hold(bytes: Seq<u8>, width: nat) -> bool {
    width == 8 ==> forall|i: int|
        0 <= i < fixed_values(bytes, width).len() ==> #[trigger] fixed_values(bytes, width)[i]
            <= usize::MAX
}

/// A block has as many values in its buffer as it says.
pub open spec fn complete(fixed: FixedWidthDataBlock) -> bool {
    fixed.data@.len() == fixed.num_values * byte_width(fixed.bits_per_value)
}

/// A buffer of whole values that are all within the range of `i64` can be
/// compressed.
pub proof fn values_in_range_are_encodable(bytes: Seq<u8>, width: nat)
    requires
        width == 1 || width == 2 || width == 4 || width == 8,
        bytes.len() % width == 0,
        forall|i: int|
            0 <= i < fixed_values(bytes, width).len() ==> #[trigger] fixed_values(bytes, width)[i]
                <= i64::MAX,
    ensures
        encodable(bytes, width),
{
    let values = signed_values(bytes, width);
    assert forall|i: int| 0 <= i < values.len() implies 0 <= #[trigger] values[i] by {
        assert(fixed_values(bytes, width)[i] <= i64::MAX);
    }
}

/// Decoding the buffers that deltas are encoded to gives the deltas back.
pub proof fn rle_round_trip(values: Seq<i64>)
    ensures
        decoded_deltas(run_values(rle_runs(values)), run_lengths(rle_runs(values))) == values,
{
    lemma_runs_of_buffers(rle_runs(values));
    lemma_expand_runs(values);
}

/// The numbers that the deltas of a buffer's values stand for are its values.
proof fn lemma_restored_values(bytes: Seq<u8>, width: nat)
    requires
        width == 1 || width == 2 || width == 4 || width == 8,
        encodable(bytes, width),
        words_hold(bytes, width),
    ensures
        restorable(deltas(signed_values(bytes, width)), width),
        restored(deltas(signed_values(bytes, width))) == fixed_values(bytes, width),
{
    let numbers = fixed_values(bytes, width);
    let values = signed_values(bytes, width);
    let found = deltas(values);
    lemma_encodable_deltas_fit(bytes, width);
    assert forall|i: int| 0 <= i < found.len() implies {
        &&& #[trigger] running_sum(found, i + 1) == values[i]
        &&& restored(found)[i] == numbers[i]
        &&& numbers[i] < span(width)
    } by {
        lemma_running_sum_of_deltas(values, i);
        lemma_slot(i, width as int, bytes.len() as int);
        lemma_bytes_of_value(bytes.subrange(i * width, i * width + width));
        lemma_spans();
        lemma_word_of_signed(numbers[i] as nat);
    }
    assert forall|i: int| 0 <= i < found.len() implies #[trigger] restored(found)[i] < span(
        width,
    ) by {
        assert(running_sum(found, i + 1) == values[i]);
    }
    assert forall|i: int| 0 <= i < found.len() implies restored(found)[i] == numbers[i] by {
        assert(running_sum(found, i + 1) == values[i]);
    }
    assert(restored(found) =~= numbers);
}

/// The runs of a buffer's deltas, written to two buffers and read again, give the
/// bytes of the values back.
proof fn lemma_read_runs(fixed: FixedWidthDataBlock, buffers: Seq<Seq<u8>>)
    requires
        supported_bits(fixed.bits_per_value),
        complete(fixed),
        fixed.num_values != 0,
        encodable(fixed.data@, byte_width(fixed.bits_per_value)),
        words_hold(fixed.data@, byte_width(fixed.bits_per_value)),
        buffers == seq![
            run_values(delta_runs(fixed.data@, byte_width(fixed.bits_per_value))),
            run_lengths(delta_runs(fixed.data@, byte_width(fixed.bits_per_value))),
        ],
    ensures
        readable(fixed.bits_per_value, buffers, fixed.num_values),
        outcome(fixed.bits_per_value, buffers, fixed.num_values) == Ok::<Seq<u8>, Error>(
            fixed.data@,
        ),
{
    let width = byte_width(fixed.bits_per_value);
    let bytes = fixed.data@;
    let count = fixed.num_values as int;
    let found = deltas(signed_values(bytes, width));
    rle_round_trip(found);
    lemma_restored_values(bytes, width);
    lemma_fixed_bytes_of_values(bytes, width);
    assert(bytes.len() / width == count) by {
        vstd::arithmetic::div_mod::lemma_div_multiples_vanish(count, width as int);
        assert(count * width == width * count) by (nonlinear_arith);
    }
    assert(bytes.len() <= usize::MAX) by {
        assert(fixed.data.bytes.len() == bytes.len());
    }
    assert(count <= bytes.len()) by (nonlinear_arith)
        requires
            bytes.len() == count * width,
            width >= 1,
            count >= 0,
    ;
    assert(found.take(count) =~= found);
}

/// Decompressing the miniblock that a block is compressed to gives the bytes of
/// the block back, whatever first value the decompressor was made with.
pub proof fn miniblock_round_trip(
    fixed: FixedWidthDataBlock,
    buffers: Seq<LanceBuffer>,
    chunks: Seq<MiniBlockChunk>,
    first_value: i64,
    decompressor: DeltaRleDecompressor,
)
    requires
        supported_bits(fixed.bits_per_value),
        complete(fixed),
        DeltaRleEncoder.takes_for_miniblock(DataBlock::FixedWidth(fixed)),
        words_hold(fixed.data@, byte_width(fixed.bits_per_value)),
        is_encoded_chunk(
            fixed.data@,
            byte_width(fixed.bits_per_value),
            fixed.num_values,
            buffers,
            chunks,
            first_value,
        ),
        decompressor.bits_per_value == fixed.bits_per_value,
    ensures
        decompressor.takes_miniblock(buffers, fixed.num_values),
        outcome(decompressor.bits_per_value, views(buffers), fixed.num_values) == Ok::<
            Seq<u8>,
            Error,
        >(fixed.data@),
{
    let width = byte_width(fixed.bits_per_value);
    if fixed.num_values == 0 {
        assert(0 * width == 0) by (nonlinear_arith);
        assert(fixed.data@ =~= seq![]);
    } else {
        let runs = delta_runs(fixed.data@, width);
        assert(views(buffers) =~= seq![run_values(runs), run_lengths(runs)]);
        lemma_read_runs(fixed, views(buffers));
    }
}

/// A compressed block holds the same two buffers as the miniblock of the same
/// values, and the first value before them.
pub proof fn block_holds_runs(bytes: Seq<u8>, width: nat, compressed: LanceBuffer)
    requires
        compressed@ == block_bytes(bytes, width),
    ensures
        compressed@.len() >= 16,
        to_signed(le_value(compressed@.subrange(0, 8)) as int) == first_or_zero(
            signed_values(bytes, width),
        ),
        block_values_size(compressed@) == run_values(delta_runs(bytes, width)).len(),
        block_buffers(compressed@) == seq![
            run_values(delta_runs(bytes, width)),
            run_lengths(delta_runs(bytes, width)),
        ],
        16 + block_values_size(compressed@) <= compressed@.len() <= usize::MAX,
{
    let data = compressed@;
    let values = run_values(delta_runs(bytes, width));
    let lengths = run_lengths(delta_runs(bytes, width));
    let first_value = first_or_zero(signed_values(bytes, width));
    assert(data.len() <= usize::MAX) by {
        assert(compressed.bytes.len() == data.len());
    }
    lemma_spans();
    lemma_pattern_of_signed(first_value);
    lemma_le_bytes_len(to_pattern(first_value), 8);
    lemma_le_bytes_len(values.len(), 8);
    assert(data.subrange(0, 8) =~= le_bytes(to_pattern(first_value), 8));
    assert(data.subrange(8, 16) =~= le_bytes(values.len(), 8));
    lemma_value_of_bytes(to_pattern(first_value), 8);
    lemma_value_of_bytes(values.len(), 8);
    assert(data.subrange(16, 16 + values.len() as int) =~= values);
    assert(data.subrange(16 + values.len() as int, data.len() as int) =~= lengths);
    assert(block_buffers(data) =~= seq![values, lengths]);
}

/// Decompressing the buffer that a block is compressed to gives the bytes of the
/// block back, whatever first value the decompressor was made with.
pub proof fn block_round_trip(
    fixed: FixedWidthDataBlock,
    compressed: LanceBuffer,
    decompressor: DeltaRleDecompressor,
)
    requires
        supported_bits(fixed.bits_per_value),
        complete(fixed),
        DeltaRleEncoder.takes_for_block(DataBlock::FixedWidth(fixed)),
        words_hold(fixed.data@, byte_width(fixed.bits_per_value)),
        compressed@ == block_bytes(fixed.data@, byte_width(fixed.bits_per_value)),
        decompressor.bits_per_value == fixed.bits_per_value,
    ensures
        decompressor.takes_block(compressed@, fixed.num_values),
        block_outcome(decompressor.bits_per_value, compressed@, fixed.num_values) == Ok::<
            Seq<u8>,
            Error,
        >(fixed.data@),
{
    block_holds_runs(fixed.data@, byte_width(fixed.bits_per_value), compressed);
    lemma_read_runs(fixed, block_buffers(compressed@));
}

/// A block that was read from a miniblock has as many values in its buffer as were
/// asked for.
pub proof fn decompressed_is_complete(
    bits_per_value: u64,
    buffers: Seq<Seq<u8>>,
    num_values: u64,
)
    requires
        supported_bits(bits_per_value),
        num_values <= usize::MAX,
        outcome(bits_per_value, buffers, num_values) is Ok,
    ensures
        outcome(bits_per_value, buffers, num_values)->Ok_0.len() == num_values * byte_width(
            bits_per_value,
        ),
{
    let width = byte_width(bits_per_value);
    if num_values == 0 {
        assert(0 * width == 0) by (nonlinear_arith);
    } else {
        let found = decoded_deltas(buffers[0], buffers[1]).take(num_values as int);
        lemma_fixed_bytes_len(restored(found), width);
    }
}

/// Asking a miniblock for fewer values gives the first of the values that asking
/// for more of them gives.
pub proof fn fewer_values_are_a_prefix(
    bits_per_value: u64,
    buffers: Seq<Seq<u8>>,
    num_values: u64,
    fewer: u64,
)
    requires
        supported_bits(bits_per_value),
        fewer <= num_values <= usize::MAX,
        readable(bits_per_value, buffers, num_values),
        outcome(bits_per_value, buffers, num_values) is Ok,
    ensures
        readable(bits_per_value, buffers, fewer),
        outcome(bits_per_value, buffers, fewer) == Ok::<Seq<u8>, Error>(
            outcome(bits_per_value, buffers, num_values)->Ok_0.take(
                fewer * byte_width(bits_per_value),
            ),
        ),
{
    let width = byte_width(bits_per_value);
    let all = outcome(bits_per_value, buffers, num_values)->Ok_0;
    if fewer == 0 {
        assert(0 * width == 0) by (nonlinear_arith);
        assert(all.take(0) =~= seq![]);
    } else {
        let found = decoded_deltas(buffers[0], buffers[1]);
        let long = found.take(num_values as int);
        let short = found.take(fewer as int);
        assert(short =~= long.take(fewer as int));
        assert forall|i: int| 0 <= i < fewer implies #[trigger] running_sum(short, i + 1)
            == running_sum(long, i + 1) by {
            lemma_running_sum_of_prefix(long, fewer as int, i + 1);
        }
        assert forall|i: int| 0 <= i < fewer implies restored(short)[i] == #[trigger] restored(
            long,
        )[i] by {
            assert(running_sum(short, i + 1) == running_sum(long, i + 1));
        }
        assert(restored(short) =~= restored(long).take(fewer as int));
        assert(sums_fit(short));
        assert(restorable(short, width));
        lemma_fixed_bytes_prefix(restored(long), width, fewer as int);
    }
}

/// The bytes of the first numbers are the first bytes of the numbers.
proof fn lemma_fixed_bytes_prefix(numbers: Seq<int>, width: nat, count: int)
    requires
        0 <= count <= numbers.len(),
    ensures
        fixed_bytes(numbers.take(count), width) == fixed_bytes(numbers, width).take(count * width),
    decreases numbers.len(),
{
    lemma_fixed_bytes_len(numbers, width);
    if count == numbers.len() {
        assert(numbers.take(count) =~= numbers);
        assert(fixed_bytes(numbers, width).take(count * width) =~= fixed_bytes(numbers, width));
    } else {
        let before = numbers.drop_last();
        lemma_fixed_bytes_prefix(before, width, count);
        lemma_fixed_bytes_len(before, width);
        assert(before.take(count) =~= numbers.take(count));
        assert(0 <= count * width <= before.len() * width) by (nonlinear_arith)
            requires
                0 <= count <= before.len(),
                0 <= width,
        ;
        assert(fixed_bytes(numbers, width).take(count * width) =~= fixed_bytes(before, width).take(
            count * width,
        ));
    }
}

/// No run is empty or longer than a byte can count, and a run is followed by
/// another run of the same value only if it is full.
pub proof fn runs_are_as_long_as_can_be(values: Seq<i64>)
    ensures
        forall|i: int|
            0 <= i < rle_runs(values).len() ==> 1 <= (#[trigger] rle_runs(values)[i]).length
                <= MAX_RUN_LENGTH,
        forall|i: int|
            0 < i < rle_runs(values).len() && rle_runs(values)[i - 1].value == (
            #[trigger] rle_runs(values)[i]).value ==> rle_runs(values)[i - 1].length
                == MAX_RUN_LENGTH,
    decreases values.len(),
{
    lemma_last_run(values);
    if values.len() > 0 {
        runs_are_as_long_as_can_be(values.drop_last());
        let before = rle_runs(values.drop_last());
        let runs = rle_runs(values);
        assert forall|i: int| 0 < i < runs.len() && runs[i - 1].value == (
        #[trigger] runs[i]).value implies runs[i - 1].length == MAX_RUN_LENGTH by {
            if i < before.len() {
                assert(before[i].value == runs[i].value);
                assert(before[i - 1] == runs[i - 1]);
            } else {
                assert(before.last() == runs[i - 1]);
            }
        }
    }
}

/// A run takes 9 bytes in the two buffers, and there are no more runs than values.
pub proof fn compressed_size(values: Seq<i64>)
    ensures
        run_values(rle_runs(values)).len() == 8 * rle_runs(values).len(),
        run_lengths(rle_runs(values)).len() == rle_runs(values).len(),
        rle_runs(values).len() <= values.len(),
{
    lemma_runs_of_buffers(rle_runs(values));
    lemma_last_run(values);
}

/// Values with a constant step are compressed to the first value, unless it is
/// equal to the step, and as many runs of the step as it takes to count the steps.
pub proof fn constant_step_runs(values: Seq<i64>, step: i64)
    requires
        values.len() > 0,
        forall|i: int| 1 <= i < values.len() ==> #[trigger] values[i] - values[i - 1] == step,
    ensures
        values[0] != step ==> rle_runs(deltas(values)) == seq![
            Run { value: values[0], length: 1 },
        ] + split_run(step, values.len() - 1),
        values[0] == step ==> rle_runs(deltas(values)) == split_run(step, values.len() as int),
        rle_runs(deltas(values)).len() <= 1 + (values.len() - 1 + 254) / 255,
{
    let found = deltas(values);
    let first = seq![values[0]];
    if values[0] != step {
        assert(found =~= first + repeated(step, values.len() - 1));
        lemma_append_run(first, step, values.len() - 1);
        lemma_append_run(seq![], values[0], 1);
        assert(seq![] + repeated(values[0], 1) =~= first);
        assert(rle_runs(seq![]) + split_run(values[0], 1) =~= seq![
            Run { value: values[0], length: 1 },
        ]);
    } else {
        assert(found =~= seq![] + repeated(step, values.len() as int));
        lemma_append_run(seq![], step, values.len() as int);
        assert(rle_runs(seq![]) + split_run(step, values.len() as int) =~= split_run(
            step,
            values.len() as int,
        ));
    }
}

/// No more pairs run in the main direction of some values than there are pairs.
pub proof fn monotonicity_is_a_proportion(values: Seq<i64>)
    requires
        values.len() <= usize::MAX,
    ensures
        monotonicity(values).monotonic <= monotonicity(values).total,
{
    lemma_rises_and_falls(values);
}

/// Rising and falling pairs exclude each other.
proof fn lemma_rises_and_falls(values: Seq<i64>)
    ensures
        values.len() > 0 ==> rises(values) + falls(values) <= values.len() - 1,
    decreases values.len(),
{
    if values.len() > 1 {
        lemma_rises_and_falls(values.drop_last());
    }
}

/// All pairs run in the main direction exactly if the values rise throughout or
/// fall throughout.
pub proof fn full_monotonicity(values: Seq<i64>)
    requires
        2 <= values.len() <= usize::MAX,
    ensures
        monotonicity(values).monotonic == monotonicity(values).total <==> {
            ||| forall|i: int| 1 <= i < values.len() ==> values[i - 1] < #[trigger] values[i]
            ||| forall|i: int| 1 <= i < values.len() ==> values[i - 1] > #[trigger] values[i]
        },
{
    lemma_rises_and_falls(values);
    lemma_all_rise(values);
    lemma_all_fall(values);
}

/// Values that rise throughout or fall throughout are monotonic enough to be
/// compressed.
pub proof fn monotonic_values_suit(values: Seq<i64>)
    requires
        2 <= values.len() <= usize::MAX,
        (forall|i: int| 1 <= i < values.len() ==> values[i - 1] < #[trigger] values[i]) || (forall|
            i: int,
        |
            1 <= i < values.len() ==> values[i - 1] > #[trigger] values[i]),
    ensures
        monotonic_enough(monotonicity(values)),
{
    full_monotonicity(values);
}

proof fn lemma_all_rise(values: Seq<i64>)
    requires
        values.len() > 0,
    ensures
        rises(values) == values.len() - 1 <==> (forall|i: int|
            1 <= i < values.len() ==> values[i - 1] < #[trigger] values[i]),
    decreases values.len(),
{
    if values.len() > 1 {
        let before = values.drop_last();
        lemma_rises_and_falls(before);
        lemma_all_rise(before);
        if rises(values) == values.len() - 1 {
            assert forall|i: int| 1 <= i < values.len() implies values[i - 1]
                < #[trigger] values[i] by {
                if i < before.len() {
                    assert(before[i - 1] < before[i]);
                }
            }
        }
        if forall|i: int| 1 <= i < values.len() ==> values[i - 1] < #[trigger] values[i] {
            assert forall|i: int| 1 <= i < before.len() implies before[i - 1]
                < #[trigger] before[i] by {
                assert(values[i - 1] < values[i]);
            }
            assert(values[values.len() - 2] < values[values.len() - 1]);
        }
    }
}

proof fn lemma_all_fall(values: Seq<i64>)
    requires
        values.len() > 0,
    ensures
        falls(values) == values.len() - 1 <==> (forall|i: int|
            1 <= i < values.len() ==> values[i - 1] > #[trigger] values[i]),
    decreases values.len(),
{
    if values.len() > 1 {
        let before = values.drop_last();
        lemma_rises_and_falls(before);
        lemma_all_fall(before);
        if falls(values) == values.len() - 1 {
            assert forall|i: int| 1 <= i < values.len() implies values[i - 1]
                > #[trigger] values[i] by {
                if i < before.len() {
                    assert(before[i - 1] > before[i]);
                }
            }
        }
        if forall|i: int| 1 <= i < values.len() ==> values[i - 1] > #[trigger] values[i] {
            assert forall|i: int| 1 <= i < before.len() implies before[i - 1]
                > #[trigger] before[i] by {
                assert(values[i - 1] > values[i]);
            }
            assert(values[values.len() - 2] > values[values.len() - 1]);
        }
    }
}

} // verus!
