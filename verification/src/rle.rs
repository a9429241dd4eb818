//! Run-length encoding of integers: the runs, and the two buffers that hold
//! them, one with the values and one with the lengths.

use vstd::prelude::*;

use crate::data::{
    fixed_bytes, fixed_values, lemma_fixed_bytes_len, lemma_values_of_fixed_bytes,
};
use crate::endian::{le_bytes, lemma_pattern_of_signed, span, to_pattern, to_signed};

verus! {

/// The length of the longest run: what one byte can count.
pub const MAX_RUN_LENGTH: u8 = 255;

/// A value, and how often it is repeated.
pub struct Run {
    pub value: i64,
    pub length: u8,
}

/// The runs of `values`: a value that repeats the one before it lengthens its
/// run until the run is full; any other value begins a new run.
pub open spec fn rle_runs(values: Seq<i64>) -> Seq<Run>
    decreases values.len(),
{
    if values.len() == 0 {
        seq![]
    } else {
        let runs = rle_runs(values.drop_last());
        let value = values.last();
        if runs.len() > 0 && runs.last().value == value && runs.last().length < MAX_RUN_LENGTH {
            runs.drop_last().push(Run { value, length: (runs.last().length + 1) as u8 })
        } else {
            runs.push(Run { value, length: 1 })
        }
    }
}

/// `value` repeated `length` times.
pub open spec fn repeated(value: i64, length: int) -> Seq<i64> {
    Seq::new(length as nat, |i: int| value)
}

/// One repeated value, split into as many full runs as it fills and a last one
/// with the remainder, if there is one.
pub open spec fn split_run(value: i64, length: int) -> Seq<Run> {
    let full = length / (MAX_RUN_LENGTH as int);
    let rest = length % (MAX_RUN_LENGTH as int);
    Seq::new(
        (if rest > 0 {
            full + 1
        } else {
            full
        }) as nat,
        |i: int|
            Run {
                value,
                length: if i < full {
                    MAX_RUN_LENGTH
                } else {
                    rest as u8
                },
            },
    )
}

/// The values that the runs stand for.
pub open spec fn expand(runs: Seq<Run>) -> Seq<i64>
    decreases runs.len(),
{
    if runs.len() == 0 {
        seq![]
    } else {
        expand(runs.drop_last()) + repeated(runs.last().value, runs.last().length as int)
    }
}

/// The two's-complement patterns of the values of the runs.
pub open spec fn run_patterns(runs: Seq<Run>) -> Seq<int> {
    runs.map_values(|run: Run| to_pattern(run.value) as int)
}

/// The values buffer of the runs: 8 bytes for each value.
pub open spec fn run_values(runs: Seq<Run>) -> Seq<u8> {
    fixed_bytes(run_patterns(runs), 8)
}

/// The lengths buffer of the runs: one byte for each length.
pub open spec fn run_lengths(runs: Seq<Run>) -> Seq<u8> {
    runs.map_values(|run: Run| run.length)
}

/// The runs that a values buffer and a lengths buffer hold: as many as there
/// are both whole values and lengths for.
pub open spec fn runs_of(values: Seq<u8>, lengths: Seq<u8>) -> Seq<Run> {
    Seq::new(
        if values.len() / 8 <= lengths.len() {
            values.len() / 8
        } else {
            lengths.len()
        },
        |i: int| Run { value: to_signed(fixed_values(values, 8)[i]), length: lengths[i] },
    )
}

/// The last run is a run of the last value, and no run is empty.
pub proof fn lemma_last_run(values: Seq<i64>)
    ensures
        rle_runs(values).len() == 0 <==> values.len() == 0,
        rle_runs(values).len() <= values.len(),
        values.len() > 0 ==> rle_runs(values).last().value == values.last(),
        forall|i: int|
            0 <= i < rle_runs(values).len() ==> 1 <= (#[trigger] rle_runs(values)[i]).length,
    decreases values.len(),
{
    if values.len() > 0 {
        lemma_last_run(values.drop_last());
    }
}

/// Values that are followed by repetitions of another value keep their runs,
/// and the repetitions are split into runs of their own.
pub proof fn lemma_append_run(values: Seq<i64>, value: i64, length: int)
    requires
        0 <= length,
        values.len() > 0 ==> values.last() != value,
    ensures
        rle_runs(values + repeated(value, length)) == rle_runs(values) + split_run(value, length),
    decreases length,
{
    let all = values + repeated(value, length);
    if length == 0 {
        assert(all =~= values);
        assert(rle_runs(values) + split_run(value, 0) =~= rle_runs(values));
    } else {
        assert(all.drop_last() =~= values + repeated(value, length - 1));
        assert(all.last() == value);
        lemma_append_run(values, value, length - 1);
        lemma_last_run(values);
        let before = rle_runs(values) + split_run(value, length - 1);
        if length == 1 {
            assert(before =~= rle_runs(values));
        } else {
            assert(split_run(value, length - 1).len() > 0);
            assert(before.last() == split_run(value, length - 1).last());
        }
        assert(rle_runs(all) =~= rle_runs(values) + split_run(value, length));
    }
}

/// The buffers of some runs followed by others are the buffers of the former
/// followed by those of the latter.
pub proof fn lemma_buffers_append(runs: Seq<Run>, more: Seq<Run>)
    ensures
        run_values(runs + more) == run_values(runs) + run_values(more),
        run_lengths(runs + more) == run_lengths(runs) + run_lengths(more),
    decreases more.len(),
{
    if more.len() == 0 {
        assert(runs + more =~= runs);
        assert(run_values(runs + more) =~= run_values(runs) + run_values(more));
    } else {
        lemma_buffers_append(runs, more.drop_last());
        lemma_buffers_push(runs + more.drop_last(), more.last());
        lemma_buffers_push(more.drop_last(), more.last());
        assert((runs + more.drop_last()).push(more.last()) =~= runs + more);
        assert(more.drop_last().push(more.last()) =~= more);
        assert(run_values(runs + more) =~= run_values(runs) + run_values(more));
    }
    assert(run_lengths(runs + more) =~= run_lengths(runs) + run_lengths(more));
}

/// The buffers of some runs followed by one more.
pub proof fn lemma_buffers_push(runs: Seq<Run>, run: Run)
    ensures
        run_values(runs.push(run)) == run_values(runs) + le_bytes(
            to_pattern(run.value),
            8,
        ),
        run_lengths(runs.push(run)) == run_lengths(runs).push(run.length),
{
    let longer = run_patterns(runs.push(run));
    assert(longer.drop_last() =~= run_patterns(runs));
    assert(longer.last() == to_pattern(run.value));
    assert(run_lengths(runs.push(run)) =~= run_lengths(runs).push(run.length));
}

/// The runs are read from their two buffers as they were written.
pub proof fn lemma_runs_of_buffers(runs: Seq<Run>)
    ensures
        run_values(runs).len() == 8 * runs.len(),
        run_lengths(runs).len() == runs.len(),
        runs_of(run_values(runs), run_lengths(runs)) == runs,
{
    let patterns = run_patterns(runs);
    lemma_fixed_bytes_len(patterns, 8);
    assert forall|i: int| 0 <= i < patterns.len() implies 0 <= #[trigger] patterns[i]
        < span(8) by {
        lemma_pattern_of_signed(runs[i].value);
    }
    lemma_values_of_fixed_bytes(patterns, 8);
    assert forall|i: int| 0 <= i < runs.len() implies runs_of(
        run_values(runs),
        run_lengths(runs),
    )[i] == #[trigger] runs[i] by {
        lemma_pattern_of_signed(runs[i].value);
        assert(fixed_values(run_values(runs), 8)[i] == patterns[i]);
    }
    assert(runs_of(run_values(runs), run_lengths(runs)) =~= runs);
}

/// Expanding the runs of some values gives the values back.
pub proof fn lemma_expand_runs(values: Seq<i64>)
    ensures
        expand(rle_runs(values)) == values,
    decreases values.len(),
{
    if values.len() > 0 {
        let before = rle_runs(values.drop_last());
        let value = values.last();
        lemma_expand_runs(values.drop_last());
        let runs = rle_runs(values);
        if before.len() > 0 && before.last().value == value && before.last().length
            < MAX_RUN_LENGTH {
            let length = before.last().length as int;
            assert(runs.drop_last() =~= before.drop_last());
            assert(expand(before) == expand(before.drop_last()) + repeated(value, length));
            assert(repeated(value, length + 1) =~= repeated(value, length).push(value));
            assert(expand(runs) =~= expand(before).push(value));
        } else {
            assert(runs.drop_last() =~= before);
            assert(expand(runs) =~= expand(before).push(value));
        }
        assert(expand(runs) =~= values);
    } else {
        assert(expand(rle_runs(values)) =~= values);
    }
}

} // verus!
