//! What the numbers, buffers and runs of the compressed forms are, byte by byte and
//! value by value.

use vstd::arithmetic::power::pow;
use vstd::prelude::*;

use crate::data::{
    fixed_bytes, fixed_values, lemma_fixed_bytes_len, lemma_fixed_bytes_slot, lemma_slot, numbers,
    LanceBuffer,
};
use crate::decompressor::{decoded_deltas, restored, views};
use crate::delta::{deltas, deltas_fit, running_sum};
use crate::encoder::{byte_width, signed, signed_values, supported_bits, written_length};
use crate::endian::{
    le_bytes, le_value, lemma_bytes_of_value, lemma_le_bytes_len, lemma_pattern_of_signed,
    lemma_spans, lemma_value_of_bytes, low_u32, span, to_pattern, to_signed, word,
};
use crate::error::decimal;
use crate::native::{FixedWidthValue, NativeValue};
use crate::rle::{
    expand, lemma_runs_of_buffers, repeated, run_lengths, run_patterns, run_values, runs_of,
    split_run, Run,
};

verus! {

/// `width` bytes hold as many numbers as 256 to the power of `width`.
pub proof fn span_is_a_power(width: nat)
    ensures
        span(width) == pow(256, width),
    decreases width,
{
    reveal(pow);
    if width > 0 {
        span_is_a_power((width - 1) as nat);
    }
}

/// Byte `k` of a number is its digit of weight 256 to the power of `k`.
pub proof fn bytes_are_digits(value: nat, width: nat, k: int)
    requires
        0 <= k < width,
    ensures
        le_bytes(value, width).len() == width,
        le_bytes(value, width)[k] == (value as int / pow(256, k as nat)) % 256,
    decreases width,
{
    lemma_le_bytes_len(value, width);
    if k == 0 {
        vstd::arithmetic::power::lemma_pow0(256);
    } else {
        let below = (k - 1) as nat;
        bytes_are_digits(value / 256, (width - 1) as nat, k - 1);
        vstd::arithmetic::power::lemma_pow_positive(256, below);
        vstd::arithmetic::div_mod::lemma_div_denominator(value as int, 256, pow(256, below));
        assert(pow(256, k as nat) == 256 * pow(256, below)) by {
            reveal(pow);
        }
    }
}

/// The number that bytes stand for is below 256 to the power of their count, and
/// the bytes are its digits.
pub proof fn digits_make_the_number(bytes: Seq<u8>, k: int)
    requires
        0 <= k < bytes.len(),
    ensures
        0 <= le_value(bytes) < pow(256, bytes.len()),
        bytes[k] == (le_value(bytes) as int / pow(256, k as nat)) % 256,
{
    lemma_bytes_of_value(bytes);
    span_is_a_power(bytes.len());
    bytes_are_digits(le_value(bytes), bytes.len(), k);
}

/// A machine word differs from the number that it was cast from by a multiple of
/// the number of machine words.
pub proof fn words_are_residues(value: int)
    ensures
        0 <= word(value) <= usize::MAX,
        (value - word(value)) % (usize::MAX + 1) == 0,
{
    let words = usize::MAX + 1;
    if 0 <= value <= usize::MAX {
        vstd::arithmetic::div_mod::lemma_small_mod(0, words as nat);
    } else {
        vstd::arithmetic::div_mod::lemma_fundamental_div_mod(value, words);
        vstd::arithmetic::div_mod::lemma_mod_bound(value, words);
        vstd::arithmetic::div_mod::lemma_mod_multiples_basic(value / words, words);
        assert(words * (value / words) == (value / words) * words) by (nonlinear_arith);
    }
}

/// A signed integer and its 64-bit pattern differ by a multiple of 2 to the power
/// of 64, in both directions.
pub proof fn patterns_are_twos_complement(value: i64, pattern: int)
    requires
        0 <= pattern < 0x1_0000_0000_0000_0000,
    ensures
        0 <= to_pattern(value) < 0x1_0000_0000_0000_0000,
        (to_pattern(value) - value) % 0x1_0000_0000_0000_0000 == 0,
        (pattern - to_signed(pattern)) % 0x1_0000_0000_0000_0000 == 0,
{
}

/// The size of a buffer is kept modulo 2 to the power of 32.
pub proof fn sizes_are_kept_in_32_bits(number: nat)
    ensures
        (number - low_u32(number)) % 0x1_0000_0000 == 0,
{
}

/// A value that a machine word holds is reckoned as the signed integer that differs
/// from it by a multiple of 2 to the power of 64; up to the greatest signed integer
/// it is the value itself, and values that differ are reckoned as integers that
/// differ.
pub proof fn values_are_reckoned_signed(number: int, other: int)
    requires
        0 <= number <= usize::MAX,
        0 <= other <= usize::MAX,
    ensures
        (number - signed(number)) % 0x1_0000_0000_0000_0000 == 0,
        number <= i64::MAX ==> signed(number) == number,
        number != other ==> signed(number) != signed(other),
{
}

/// The signed integer by which a number is reckoned differs from it by a multiple of
/// the number of machine words; where a machine word has fewer than 64 bits, it is
/// not negative.
pub proof fn numbers_are_reckoned_as_words(number: int)
    ensures
        (number - signed(number)) % (usize::MAX + 1) == 0,
        usize::MAX <= i64::MAX ==> 0 <= signed(number) <= usize::MAX,
{
    let words = usize::MAX + 1;
    words_are_residues(number);
    if word(number) > i64::MAX {
        assert(words == 0x1_0000_0000_0000_0000);
        assert(number - signed(number) == (number - word(number)) + words);
        vstd::arithmetic::div_mod::lemma_mod_add_multiples_vanish(number - word(number), words);
    }
}

/// The numbers of the native types are the values themselves.
pub proof fn native_numbers(a: u8, b: u16, c: u32, d: u64, e: i64)
    ensures
        a.number() == a,
        b.number() == b,
        c.number() == c,
        d.number() == d,
        e.number() == e,
        u8::width() == 1,
        u16::width() == 2,
        u32::width() == 4,
        u64::width() == 8,
{
}

/// Each native type holds the numbers from its least to its greatest value, and
/// finds each of them as itself.
pub proof fn native_ranges(number: int)
    ensures
        u8::of_number(number) is Some <==> 0 <= number <= 255,
        u16::of_number(number) is Some <==> 0 <= number <= 65535,
        u32::of_number(number) is Some <==> 0 <= number <= 4294967295,
        u64::of_number(number) is Some <==> 0 <= number <= 18446744073709551615,
        i64::of_number(number) is Some <==> -9223372036854775808 <= number <= 9223372036854775807,
        u8::of_number(number) matches Some(value) ==> value == number,
        u16::of_number(number) matches Some(value) ==> value == number,
        u32::of_number(number) matches Some(value) ==> value == number,
        u64::of_number(number) matches Some(value) ==> value == number,
        i64::of_number(number) matches Some(value) ==> value == number,
{
}

/// The numbers of a sequence of values, and the bytes of a sequence of buffers, are
/// those of its members, in their order.
pub proof fn sequences_keep_their_order<T: NativeValue>(
    values: Seq<T>,
    buffers: Seq<LanceBuffer>,
    i: int,
)
    ensures
        numbers(values).len() == values.len(),
        0 <= i < values.len() ==> numbers(values)[i] == values[i].number(),
        views(buffers).len() == buffers.len(),
        0 <= i < buffers.len() ==> views(buffers)[i] == buffers[i].bytes@,
{
}

/// The supported widths are those of 1, 2, 4 and 8 whole bytes.
pub proof fn supported_widths(bits_per_value: u64)
    ensures
        supported_bits(bits_per_value) <==> exists|e: nat|
            e < 4 && #[trigger] pow(2, e) * 8 == bits_per_value,
        supported_bits(bits_per_value) ==> 8 * byte_width(bits_per_value) == bits_per_value,
{
    reveal_with_fuel(pow, 5);
    assert(pow(2, 0) == 1 && pow(2, 1) == 2 && pow(2, 2) == 4 && pow(2, 3) == 8);
}

/// Value `i` of a buffer has the bytes of its slot as its digits, and is reckoned
/// as a signed integer in the same place.
pub proof fn values_lie_in_slots(bytes: Seq<u8>, width: nat, i: int, k: int)
    requires
        0 < width,
        0 <= i < bytes.len() / width,
        0 <= k < width,
    ensures
        fixed_values(bytes, width).len() == bytes.len() / width,
        0 <= fixed_values(bytes, width)[i] < pow(256, width),
        bytes[i * width + k] == (fixed_values(bytes, width)[i] / pow(256, k as nat)) % 256,
        signed_values(bytes, width).len() == bytes.len() / width,
        signed_values(bytes, width)[i] == signed(fixed_values(bytes, width)[i]),
{
    lemma_slot(i, width as int, bytes.len() as int);
    let slot = bytes.subrange(i * width, i * width + width);
    digits_make_the_number(slot, k);
    assert(slot[k] == bytes[i * width + k]);
}

/// Slot `i` of the bytes of some numbers holds the digits of number `i`.
pub proof fn bytes_lie_in_slots(numbers: Seq<int>, width: nat, i: int, k: int)
    requires
        0 <= i < numbers.len(),
        0 <= numbers[i],
        0 <= k < width,
    ensures
        fixed_bytes(numbers, width).len() == numbers.len() * width,
        0 <= i * width + k < fixed_bytes(numbers, width).len(),
        fixed_bytes(numbers, width)[i * width + k] == (numbers[i] / pow(256, k as nat)) % 256,
{
    lemma_fixed_bytes_len(numbers, width);
    lemma_fixed_bytes_slot(numbers, width, i);
    bytes_are_digits(numbers[i] as nat, width, k);
    assert(fixed_bytes(numbers, width)[i * width + k] == fixed_bytes(numbers, width).subrange(
        i * width,
        i * width + width,
    )[k]);
}

/// There is a delta for each value; the first is the first value, and each of the
/// others takes the value before it to its value.
pub proof fn deltas_lead_from_value_to_value(values: Seq<i64>, i: int)
    requires
        deltas_fit(values),
        0 <= i < values.len(),
    ensures
        deltas(values).len() == values.len(),
        deltas(values)[0] == values[0],
        i > 0 ==> values[i - 1] + deltas(values)[i] == values[i],
{
    if i > 0 {
        assert(i64::MIN <= values[i] - values[i - 1] <= i64::MAX);
    }
}

/// Differences that are signed integers of 64 bits fit.
pub proof fn fitting_differences(values: Seq<i64>, differences: Seq<i64>)
    requires
        differences.len() == values.len(),
        forall|i: int|
            1 <= i < values.len() ==> values[i - 1] + #[trigger] differences[i] == values[i],
    ensures
        deltas_fit(values),
{
    assert forall|i: int| 1 <= i < values.len() implies i64::MIN <= #[trigger] values[i]
        - values[i - 1] <= i64::MAX by {
        assert(values[i - 1] + differences[i] == values[i]);
    }
}

/// A running sum begins at 0 and grows by one delta at a time.
pub proof fn sums_grow_by_deltas(deltas: Seq<i64>, count: int)
    requires
        0 <= count < deltas.len(),
    ensures
        running_sum(deltas, 0) == 0,
        running_sum(deltas, count + 1) - running_sum(deltas, count) == deltas[count],
{
}

/// The first restored number is the first delta, and each of the others differs from the one
/// before it by its delta, up to multiples of the number of machine words.
pub proof fn restored_numbers_differ_by_deltas(deltas: Seq<i64>, i: int)
    requires
        0 <= i < deltas.len(),
    ensures
        restored(deltas).len() == deltas.len(),
        0 <= restored(deltas)[i] <= usize::MAX,
        (restored(deltas)[0] - deltas[0]) % (usize::MAX + 1) == 0,
        i > 0 ==> (restored(deltas)[i] - restored(deltas)[i - 1] - deltas[i]) % (usize::MAX + 1)
            == 0,
{
    let words = usize::MAX + 1;
    words_are_residues(running_sum(deltas, i + 1));
    words_are_residues(running_sum(deltas, 1));
    words_are_residues(running_sum(deltas, i));
    assert(running_sum(deltas, 1) == running_sum(deltas, 0) + deltas[0]);
    lemma_negated_multiple(deltas[0] - restored(deltas)[0], words);
    if i > 0 {
        let a = running_sum(deltas, i + 1) - restored(deltas)[i];
        let b = running_sum(deltas, i) - restored(deltas)[i - 1];
        lemma_difference_of_multiples(b, a, words);
        assert(running_sum(deltas, i + 1) == running_sum(deltas, i) + deltas[i]);
        assert(b - a == restored(deltas)[i] - restored(deltas)[i - 1] - deltas[i]);
    }
}

proof fn lemma_difference_of_multiples(a: int, b: int, d: int)
    requires
        d > 0,
        a % d == 0,
        b % d == 0,
    ensures
        (a - b) % d == 0,
{
    vstd::arithmetic::div_mod::lemma_fundamental_div_mod(a, d);
    vstd::arithmetic::div_mod::lemma_fundamental_div_mod(b, d);
    assert(a - b == (a / d - b / d) * d) by (nonlinear_arith)
        requires
            a == d * (a / d) + 0,
            b == d * (b / d) + 0,
    ;
    vstd::arithmetic::div_mod::lemma_mod_multiples_basic(a / d - b / d, d);
}

proof fn lemma_negated_multiple(a: int, d: int)
    requires
        d > 0,
        a % d == 0,
    ensures
        (-a) % d == 0,
{
    vstd::arithmetic::div_mod::lemma_small_mod(0, d as nat);
    lemma_difference_of_multiples(0, a, d);
}

/// Runs that stand one after the other stand for their values one after the other;
/// a single run stands for its value, as often as its length says.
pub proof fn runs_stand_for_repetitions(runs: Seq<Run>, more: Seq<Run>, run: Run)
    ensures
        expand(runs + more) == expand(runs) + expand(more),
        expand(seq![run]).len() == run.length,
        forall|i: int| 0 <= i < run.length ==> #[trigger] expand(seq![run])[i] == run.value,
    decreases more.len(),
{
    assert(seq![run].drop_last() =~= Seq::<Run>::empty());
    assert(expand(seq![run].drop_last()) =~= Seq::<i64>::empty());
    assert(expand(seq![run]) =~= repeated(run.value, run.length as int));
    if more.len() == 0 {
        assert(runs + more =~= runs);
        assert(expand(runs + more) =~= expand(runs) + expand(more));
    } else {
        runs_stand_for_repetitions(runs, more.drop_last(), run);
        assert((runs + more).drop_last() =~= runs + more.drop_last());
        assert(expand(runs + more) =~= expand(runs) + expand(more));
    }
}

/// The buffers of some runs hold, for run `i`, the digits of its value in 8 bytes
/// and its length in one.
pub proof fn buffers_hold_runs(runs: Seq<Run>, i: int, k: int)
    requires
        0 <= i < runs.len(),
        0 <= k < 8,
    ensures
        run_values(runs).len() == 8 * runs.len(),
        run_lengths(runs).len() == runs.len(),
        run_values(runs)[8 * i + k] == (to_pattern(runs[i].value) as int / pow(256, k as nat))
            % 256,
        run_lengths(runs)[i] == runs[i].length,
{
    lemma_runs_of_buffers(runs);
    lemma_pattern_of_signed(runs[i].value);
    bytes_lie_in_slots(run_patterns(runs), 8, i, k);
}

/// Two buffers hold as many runs as there are both 8 bytes and a length for; run
/// `i` has the length in place `i`, and a value whose digits are the 8 bytes there.
pub proof fn runs_lie_in_buffers(values: Seq<u8>, lengths: Seq<u8>, i: int, k: int)
    requires
        0 <= i,
        8 * i + 8 <= values.len(),
        i < lengths.len(),
        0 <= k < 8,
    ensures
        i < runs_of(values, lengths).len(),
        8 * runs_of(values, lengths).len() <= values.len(),
        runs_of(values, lengths).len() <= lengths.len(),
        runs_of(values, lengths)[i].length == lengths[i],
        values[8 * i + k] == (to_pattern(runs_of(values, lengths)[i].value) as int / pow(
            256,
            k as nat,
        )) % 256,
{
    values_lie_in_slots(values, 8, i, k);
    lemma_spans();
    span_is_a_power(8);
    let pattern = fixed_values(values, 8)[i];
    assert(to_pattern(to_signed(pattern)) == pattern);
}

/// One repeated value is split into runs that stand for exactly its repetitions;
/// all of them but the last are full, and the last is not empty.
pub proof fn split_runs_stand_for_the_repetitions(value: i64, length: int, i: int)
    requires
        0 <= length,
    ensures
        expand(split_run(value, length)).len() == length,
        forall|j: int|
            0 <= j < length ==> #[trigger] expand(split_run(value, length))[j] == value,
        0 <= i < split_run(value, length).len() - 1 ==> split_run(value, length)[i].length == 255,
        0 <= i < split_run(value, length).len() ==> split_run(value, length)[i].length > 0,
        0 <= i < split_run(value, length).len() ==> split_run(value, length)[i].value == value,
{
    lemma_expand_split(value, length);
}

proof fn lemma_expand_split(value: i64, length: int)
    requires
        0 <= length,
    ensures
        expand(split_run(value, length)) == repeated(value, length),
    decreases length,
{
    let runs = split_run(value, length);
    if length == 0 {
        assert(expand(runs) =~= repeated(value, 0));
    } else {
        let last = runs.last().length as int;
        let before = length - last;
        assert(length % 255 > 0 ==> last == length % 255);
        assert(length % 255 == 0 ==> last == 255);
        assert(before % 255 == 0 && before / 255 == runs.len() - 1);
        lemma_expand_split(value, before);
        assert(runs.drop_last() =~= split_run(value, before));
        assert(expand(runs) =~= repeated(value, length));
    }
}

/// Appending a run writes every repetition that a machine word can count.
pub proof fn runs_are_written_whole(length: u64)
    requires
        length <= usize::MAX,
    ensures
        written_length(length) == length,
{
}

/// Buffers that one run is appended to stand for the deltas from before and the
/// repetitions of the run.
pub proof fn appended_runs_are_decoded_last(
    values: Seq<u8>,
    lengths: Seq<u8>,
    value: i64,
    length: u8,
)
    requires
        values.len() == 8 * lengths.len(),
    ensures
        decoded_deltas(Seq::empty(), Seq::empty()) == Seq::<i64>::empty(),
        decoded_deltas(values + le_bytes(to_pattern(value), 8), lengths.push(length))
            == decoded_deltas(values, lengths) + Seq::new(length as nat, |i: int| value),
{
    let more_values = values + le_bytes(to_pattern(value), 8);
    let more_lengths = lengths.push(length);
    lemma_le_bytes_len(to_pattern(value), 8);
    lemma_pattern_of_signed(value);
    let before = runs_of(values, lengths);
    let after = runs_of(more_values, more_lengths);
    assert(runs_of(Seq::empty(), Seq::empty()) =~= Seq::<Run>::empty());
    assert forall|i: int| 0 <= i < before.len() implies after[i] == #[trigger] before[i] by {
        assert(more_values.subrange(i * 8, i * 8 + 8) =~= values.subrange(i * 8, i * 8 + 8));
    }
    let n = lengths.len() as int;
    assert(more_values.subrange(n * 8, n * 8 + 8) =~= le_bytes(to_pattern(value), 8));
    lemma_value_of_bytes(to_pattern(value), 8);
    assert(after =~= before.push(Run { value, length }));
    assert(after.drop_last() =~= before);
    assert(repeated(value, length as int) =~= Seq::new(length as nat, |i: int| value));
}

/// What is in one buffer beyond the runs that both buffers hold is not decoded.
pub proof fn unpaired_parts_are_not_decoded(values: Seq<u8>, lengths: Seq<u8>, runs: int)
    requires
        0 <= runs,
        8 * runs <= values.len(),
        runs <= lengths.len(),
        values.len() < 8 * runs + 8 || lengths.len() == runs,
    ensures
        decoded_deltas(values, lengths) == decoded_deltas(
            values.take(8 * runs),
            lengths.take(runs),
        ),
{
    let paired = values.take(8 * runs);
    let some = runs_of(paired, lengths.take(runs));
    assert forall|i: int| 0 <= i < runs implies #[trigger] some[i] == runs_of(values, lengths)[i]
        by {
        assert(paired.subrange(i * 8, i * 8 + 8) =~= values.subrange(i * 8, i * 8 + 8));
    }
    assert(some =~= runs_of(values, lengths));
}

/// The decimal digits of a number give the number when they are read from left to
/// right; each is one of the ten digits, and a number above 0 begins with another
/// than zero.
pub proof fn decimals_read_as_the_number(number: nat)
    ensures
        decimal(number).len() > 0,
        decimal(number).fold_left(0int, |sum: int, c: char| 10 * sum + (c as int - '0' as int))
            == number,
        forall|i: int|
            0 <= i < decimal(number).len() ==> '0' <= #[trigger] decimal(number)[i] <= '9',
        number > 0 ==> decimal(number)[0] != '0',
    decreases number,
{
    let read = |sum: int, c: char| 10 * sum + (c as int - '0' as int);
    let text = decimal(number);
    reveal_with_fuel(Seq::fold_left, 2);
    if number < 10 {
        assert(text.drop_last() =~= Seq::<char>::empty());
        assert(text.last() as int == '0' as int + number);
    } else {
        decimals_read_as_the_number(number / 10);
        assert(text.drop_last() =~= decimal(number / 10));
        assert(text.last() as int == '0' as int + number % 10);
    }
}

} // verus!
