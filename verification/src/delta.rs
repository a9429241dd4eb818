//! First-order differences of a sequence of integers, and their running sums.

use vstd::prelude::*;

verus! {

/// The first value, and from then on the difference of each value to the one
/// before it.
pub open spec fn deltas(values: Seq<i64>) -> Seq<i64> {
    Seq::new(
        values.len(),
        |i: int|
            if i == 0 {
                values[0]
            } else {
                (values[i] - values[i - 1]) as i64
            },
    )
}

/// The difference of each value to the one before it is within the range of `i64`.
pub open spec fn deltas_fit(values: Seq<i64>) -> bool {
    forall|i: int|
        1 <= i < values.len() ==> i64::MIN <= #[trigger] values[i] - values[i - 1] <= i64::MAX
}

/// The sum of the first `count` deltas.
pub open spec fn running_sum(deltas: Seq<i64>, count: int) -> int
    decreases count,
{
    if count <= 0 {
        0
    } else {
        running_sum(deltas, count - 1) + deltas[count - 1]
    }
}

/// The running sums of the deltas of some values are the values.
pub proof fn lemma_running_sum_of_deltas(values: Seq<i64>, i: int)
    requires
        deltas_fit(values),
        0 <= i < values.len(),
    ensures
        running_sum(deltas(values), i + 1) == values[i],
    decreases i,
{
    if i > 0 {
        lemma_running_sum_of_deltas(values, i - 1);
        assert(i64::MIN <= values[i] - values[i - 1] <= i64::MAX);
    } else {
        assert(running_sum(deltas(values), 0) == 0);
    }
}

/// A running sum depends only on the deltas that it adds up.
pub proof fn lemma_running_sum_of_prefix(deltas: Seq<i64>, len: int, count: int)
    requires
        0 <= count <= len <= deltas.len(),
    ensures
        running_sum(deltas.take(len), count) == running_sum(deltas, count),
    decreases count,
{
    if count > 0 {
        lemma_running_sum_of_prefix(deltas, len, count - 1);
    }
}

} // verus!
