//! What the counts of rising and falling pairs are, and when they make a column
//! suitable.

use vstd::prelude::*;

use crate::selection::{
    falls, monotonic_enough, monotonicity, rises, Monotonicity, MIN_VALUES_FOR_DELTA_RLE,
};

verus! {

/// The number of rises is the number of positions whose value is greater than the
/// value before it.
pub proof fn rises_count_positions(values: Seq<i64>)
    ensures
        Set::new(|i: int| 1 <= i < values.len() && values[i - 1] < values[i]).finite(),
        rises(values) == Set::new(
            |i: int| 1 <= i < values.len() && values[i - 1] < values[i],
        ).len(),
    decreases values.len(),
{
    let found = Set::new(|i: int| 1 <= i < values.len() && values[i - 1] < values[i]);
    if values.len() < 2 {
        assert(found =~= Set::<int>::empty());
    } else {
        let before = values.drop_last();
        let earlier = Set::new(|i: int| 1 <= i < before.len() && before[i - 1] < before[i]);
        rises_count_positions(before);
        let last = values.len() - 1;
        assert(!earlier.contains(last));
        if values[last - 1] < values[last] {
            assert(found =~= earlier.insert(last));
        } else {
            assert(found =~= earlier);
        }
    }
}

/// The number of falls is the number of positions whose value is less than the
/// value before it.
pub proof fn falls_count_positions(values: Seq<i64>)
    ensures
        Set::new(|i: int| 1 <= i < values.len() && values[i - 1] > values[i]).finite(),
        falls(values) == Set::new(
            |i: int| 1 <= i < values.len() && values[i - 1] > values[i],
        ).len(),
    decreases values.len(),
{
    let found = Set::new(|i: int| 1 <= i < values.len() && values[i - 1] > values[i]);
    if values.len() < 2 {
        assert(found =~= Set::<int>::empty());
    } else {
        let before = values.drop_last();
        let earlier = Set::new(|i: int| 1 <= i < before.len() && before[i - 1] > before[i]);
        falls_count_positions(before);
        let last = values.len() - 1;
        assert(!earlier.contains(last));
        if values[last - 1] > values[last] {
            assert(found =~= earlier.insert(last));
        } else {
            assert(found =~= earlier);
        }
    }
}

/// Joining two columns adds up their rises and falls and those of the joining pair.
pub proof fn counts_of_joined_columns(left: Seq<i64>, right: Seq<i64>)
    requires
        left.len() > 0,
        right.len() > 0,
    ensures
        rises(left + right) == rises(left) + rises(right) + (if left.last() < right[0] {
            1int
        } else {
            0
        }),
        falls(left + right) == falls(left) + falls(right) + (if left.last() > right[0] {
            1int
        } else {
            0
        }),
    decreases right.len(),
{
    let joined = left + right;
    if right.len() == 1 {
        assert(joined.drop_last() =~= left);
    } else {
        assert(joined.drop_last() =~= left + right.drop_last());
        counts_of_joined_columns(left, right.drop_last());
        assert(joined[joined.len() - 2] == right[right.len() - 2]);
    }
}

/// Reversing a column turns its rises into falls and its falls into rises.
pub proof fn reversing_swaps_the_counts(values: Seq<i64>)
    ensures
        rises(values.reverse()) == falls(values),
        falls(values.reverse()) == rises(values),
    decreases values.len(),
{
    if values.len() >= 2 {
        let before = values.drop_last();
        let last = seq![values.last()];
        reversing_swaps_the_counts(before);
        assert(values.reverse() =~= last + before.reverse());
        counts_of_joined_columns(last, before.reverse());
        assert(before.reverse()[0] == values[values.len() - 2]);
    }
}

/// A pair rises, falls, or is of two equal values.
pub proof fn every_pair_is_of_one_kind(values: Seq<i64>)
    requires
        values.len() > 0,
    ensures
        Set::new(|i: int| 1 <= i < values.len() && values[i - 1] == values[i]).finite(),
        rises(values) + falls(values) + Set::new(
            |i: int| 1 <= i < values.len() && values[i - 1] == values[i],
        ).len() == values.len() - 1,
    decreases values.len(),
{
    let found = Set::new(|i: int| 1 <= i < values.len() && values[i - 1] == values[i]);
    if values.len() < 2 {
        assert(found =~= Set::<int>::empty());
    } else {
        let before = values.drop_last();
        let earlier = Set::new(|i: int| 1 <= i < before.len() && before[i - 1] == before[i]);
        every_pair_is_of_one_kind(before);
        let last = values.len() - 1;
        assert(!earlier.contains(last));
        if values[last - 1] == values[last] {
            assert(found =~= earlier.insert(last));
        } else {
            assert(found =~= earlier);
        }
    }
}

/// The monotonicity of a column has the number of its pairs as its total, and
/// counts the pairs of one direction, in which no fewer pairs run than in the other.
pub proof fn monotonicity_counts_the_main_direction(values: Seq<i64>)
    requires
        values.len() <= usize::MAX,
    ensures
        monotonicity(values).total == (if values.len() == 0 {
            0
        } else {
            values.len() - 1
        }),
        monotonicity(values).monotonic >= rises(values),
        monotonicity(values).monotonic >= falls(values),
        monotonicity(values).monotonic == rises(values) || monotonicity(values).monotonic == falls(
            values,
        ),
{
    if values.len() > 0 {
        every_pair_is_of_one_kind(values);
    }
}

/// A column is as monotonic backwards as it is forwards.
pub proof fn monotonicity_has_no_direction(values: Seq<i64>)
    ensures
        monotonicity(values.reverse()) == monotonicity(values),
{
    reversing_swaps_the_counts(values);
}

/// A column is monotonic enough exactly if it has a pair and no more than one in
/// five of its pairs fail to rise, or no more than one in five fail to fall.
pub proof fn enough_is_four_in_five(values: Seq<i64>)
    requires
        values.len() <= usize::MAX,
    ensures
        Set::new(|i: int| 1 <= i < values.len() && !(values[i - 1] < values[i])).finite(),
        Set::new(|i: int| 1 <= i < values.len() && !(values[i - 1] > values[i])).finite(),
        monotonic_enough(monotonicity(values)) <==> {
            &&& values.len() >= 2
            &&& {
                ||| Set::new(
                    |i: int| 1 <= i < values.len() && !(values[i - 1] < values[i]),
                ).len() <= (values.len() - 1) / 5
                ||| Set::new(
                    |i: int| 1 <= i < values.len() && !(values[i - 1] > values[i]),
                ).len() <= (values.len() - 1) / 5
            }
        },
{
    lemma_pairs_out_of_direction(values);
    if values.len() > 0 {
        every_pair_is_of_one_kind(values);
    }
}

/// The pairs that do not rise are those that are left when the rising ones are
/// taken away; and the same of falling.
proof fn lemma_pairs_out_of_direction(values: Seq<i64>)
    ensures
        Set::new(|i: int| 1 <= i < values.len() && !(values[i - 1] < values[i])).finite(),
        Set::new(|i: int| 1 <= i < values.len() && !(values[i - 1] > values[i])).finite(),
        values.len() > 0 ==> rises(values) + Set::new(
            |i: int| 1 <= i < values.len() && !(values[i - 1] < values[i]),
        ).len() == values.len() - 1,
        values.len() > 0 ==> falls(values) + Set::new(
            |i: int| 1 <= i < values.len() && !(values[i - 1] > values[i]),
        ).len() == values.len() - 1,
    decreases values.len(),
{
    let not_rising = Set::new(|i: int| 1 <= i < values.len() && !(values[i - 1] < values[i]));
    let not_falling = Set::new(|i: int| 1 <= i < values.len() && !(values[i - 1] > values[i]));
    if values.len() < 2 {
        assert(not_rising =~= Set::<int>::empty());
        assert(not_falling =~= Set::<int>::empty());
    } else {
        let before = values.drop_last();
        let rising_before = Set::new(
            |i: int| 1 <= i < before.len() && !(before[i - 1] < before[i]),
        );
        let falling_before = Set::new(
            |i: int| 1 <= i < before.len() && !(before[i - 1] > before[i]),
        );
        lemma_pairs_out_of_direction(before);
        let last = values.len() - 1;
        if values[last - 1] < values[last] {
            assert(not_rising =~= rising_before);
        } else {
            assert(not_rising =~= rising_before.insert(last));
        }
        if values[last - 1] > values[last] {
            assert(not_falling =~= falling_before);
        } else {
            assert(not_falling =~= falling_before.insert(last));
        }
    }
}

/// Of a column of `5 * n` pairs, `4 * n` that run in one direction are enough, and
/// fewer in either direction are not.
pub proof fn four_of_five_pairs_decide(values: Seq<i64>, n: int)
    requires
        n > 0,
        values.len() == 5 * n + 1,
        values.len() <= usize::MAX,
    ensures
        rises(values) >= 4 * n ==> monotonic_enough(monotonicity(values)),
        falls(values) >= 4 * n ==> monotonic_enough(monotonicity(values)),
        rises(values) < 4 * n && falls(values) < 4 * n ==> !monotonic_enough(
            monotonicity(values),
        ),
{
    every_pair_is_of_one_kind(values);
}

/// Counts with a pair are enough exactly if no more than one pair is out of
/// direction for every four that run in it; counts without a pair never are.
pub proof fn enough_counts(counts: Monotonicity)
    ensures
        counts.total > 0 ==> (monotonic_enough(counts) <==> 4 * (counts.total - counts.monotonic)
            <= counts.monotonic),
        counts.total == 0 ==> !monotonic_enough(counts),
{
}

/// Counts are enough by their proportion alone: a multiple of both decides alike,
/// and more monotonic pairs never make a column less suitable.
pub proof fn enough_is_a_matter_of_proportion(counts: Monotonicity, other: Monotonicity)
    requires
        counts.total > 0,
        other.total > 0,
        other.monotonic * counts.total >= counts.monotonic * other.total,
        monotonic_enough(counts),
    ensures
        monotonic_enough(other),
{
    let m = counts.monotonic as int;
    let t = counts.total as int;
    let k = other.monotonic as int;
    let u = other.total as int;
    assert(5 * k >= 4 * u) by (nonlinear_arith)
        requires
            k * t >= m * u,
            5 * m >= 4 * t,
            t > 0,
            u > 0,
            k >= 0,
    ;
}

/// A block is compressed from ten values on.
pub proof fn ten_values_are_worth_compressing()
    ensures
        MIN_VALUES_FOR_DELTA_RLE == 10,
{
}

} // verus!
