//! Whether a block is worth compressing into runs of deltas.

use vstd::prelude::*;

use crate::data::{numbers, FixedWidthDataBlock};
use crate::encoder::{byte_width, signed_all, signed_values, supported_bits, value_to_i64};
use crate::native::FixedWidthValue;

verus! {

/// The least number of values that are worth compressing.
pub const MIN_VALUES_FOR_DELTA_RLE: u64 = 10;

/// How many of the pairs of adjacent values of a block run in its main
/// direction. A block without such pairs is not monotonic at all.
#[derive(Debug, Clone, Copy, PartialEq, Eq, Structural)]
pub struct Monotonicity {
    /// The number of rising pairs, or the number of falling pairs, if that is more.
    pub monotonic: usize,
    /// The number of pairs.
    pub total: usize,
}

/// The number of values that are greater than the one before them.
pub open spec fn rises(values: Seq<i64>) -> nat
    decreases values.len(),
{
    if values.len() < 2 {
        0
    } else {
        rises(values.drop_last()) + if values.last() > values[values.len() - 2] {
            1nat
        } else {
            0nat
        }
    }
}

/// The number of values that are less than the one before them.
pub open spec fn falls(values: Seq<i64>) -> nat
    decreases values.len(),
{
    if values.len() < 2 {
        0
    } else {
        falls(values.drop_last()) + if values.last() < values[values.len() - 2] {
            1nat
        } else {
            0nat
        }
    }
}

/// The monotonicity of a sequence of integers.
pub open spec fn monotonicity(values: Seq<i64>) -> Monotonicity {
    if values.len() < 2 {
        Monotonicity { monotonic: 0, total: 0 }
    } else {
        Monotonicity {
            monotonic: (if rises(values) >= falls(values) {
                rises(values)
            } else {
                falls(values)
            }) as usize,
            total: (values.len() - 1) as usize,
        }
    }
}

/// Whether a block holds enough values, of a width that can be compressed, for
/// its monotonicity to be looked at.
pub fn is_delta_rle_candidate(data: &FixedWidthDataBlock) -> (r: bool)
    ensures
        r == (data.num_values >= MIN_VALUES_FOR_DELTA_RLE && supported_bits(data.bits_per_value)),
{
    if data.num_values < MIN_VALUES_FOR_DELTA_RLE {
        return false;
    }
    data.bits_per_value == 8 || data.bits_per_value == 16 || data.bits_per_value == 32
        || data.bits_per_value == 64
}

/// Whether at least four in five of the pairs of adjacent values, of which there
/// has to be one, run in the main direction.
pub open spec fn monotonic_enough(counts: Monotonicity) -> bool {
    counts.total > 0 && 5 * counts.monotonic >= 4 * counts.total
}

/// Whether a block is suitable for compression: a candidate that is monotonic
/// enough.
pub fn suits_delta_rle(data: &FixedWidthDataBlock) -> (r: bool)
    requires
        data.num_values >= MIN_VALUES_FOR_DELTA_RLE && supported_bits(data.bits_per_value)
            ==> data.data@.len() % byte_width(data.bits_per_value) == 0,
    ensures
        r == {
            &&& data.num_values >= MIN_VALUES_FOR_DELTA_RLE
            &&& supported_bits(data.bits_per_value)
            &&& monotonic_enough(
                monotonicity(signed_values(data.data@, byte_width(data.bits_per_value))),
            )
        },
        r <==> {
            let values = signed_values(data.data@, byte_width(data.bits_per_value));
            &&& data.num_values >= 10
            &&& supported_bits(data.bits_per_value)
            &&& values.len() >= 2
            &&& 5 * rises(values) >= 4 * (values.len() - 1) || 5 * falls(values) >= 4 * (
            values.len() - 1)
        },
{
    if !is_delta_rle_candidate(data) {
        return false;
    }
    let counts: Monotonicity = compute_monotonicity(data);
    counts.total > 0 && 5 * (counts.monotonic as u128) >= 4 * (counts.total as u128)
}

/// The monotonicity of the values of a block, whatever their width.
pub fn compute_monotonicity(data: &FixedWidthDataBlock) -> (r: Monotonicity)
    requires
        supported_bits(data.bits_per_value) ==> data.data@.len() % byte_width(data.bits_per_value)
            == 0,
    ensures
        r == if supported_bits(data.bits_per_value) {
            monotonicity(signed_values(data.data@, byte_width(data.bits_per_value)))
        } else {
            Monotonicity { monotonic: 0, total: 0 }
        },
        supported_bits(data.bits_per_value) ==> {
            let values = signed_values(data.data@, byte_width(data.bits_per_value));
            &&& values.len() < 2 ==> r.monotonic == 0 && r.total == 0
            &&& values.len() >= 2 ==> {
                &&& r.total == values.len() - 1
                &&& r.monotonic >= rises(values)
                &&& r.monotonic >= falls(values)
                &&& r.monotonic == rises(values) || r.monotonic == falls(values)
            }
        },
{
    match data.bits_per_value {
        8 => compute_monotonicity_typed::<u8>(data),
        16 => compute_monotonicity_typed::<u16>(data),
        32 => compute_monotonicity_typed::<u32>(data),
        64 => compute_monotonicity_typed::<u64>(data),
        _ => Monotonicity { monotonic: 0, total: 0 },
    }
}

/// The monotonicity of the values of type `T` of a block.
pub fn compute_monotonicity_typed<T: FixedWidthValue>(data: &FixedWidthDataBlock) -> (r:
    Monotonicity)
    requires
        data.data@.len() % T::width() == 0,
    ensures
        r == monotonicity(signed_values(data.data@, T::width())),
        ({
            let values = signed_values(data.data@, T::width());
            &&& values.len() < 2 ==> r.monotonic == 0 && r.total == 0
            &&& values.len() >= 2 ==> {
                &&& r.total == values.len() - 1
                &&& r.monotonic >= rises(values)
                &&& r.monotonic >= falls(values)
                &&& r.monotonic == rises(values) || r.monotonic == falls(values)
            }
        }),
{
    let typed: Vec<T> = data.data.borrow_to_typed_slice::<T>();
    let ghost values = signed_values(data.data@, T::width());
    let count: usize = typed.len();
    proof {
        assert(signed_all(numbers(typed@)) == values);
    }
    if count < 2 {
        return Monotonicity { monotonic: 0, total: 0 };
    }
    let mut increasing: usize = 0;
    let mut decreasing: usize = 0;
    let mut i: usize = 1;
    while i < count
        invariant
            count == typed@.len(),
            values == signed_all(numbers(typed@)),
            1 <= i <= count,
            increasing == rises(values.take(i as int)),
            decreasing == falls(values.take(i as int)),
            increasing + decreasing < i,
        decreases count - i,
    {
        let previous: i64 = value_to_i64(typed[i - 1]);
        let current: i64 = value_to_i64(typed[i]);
        proof {
            let longer = values.take(i + 1);
            assert(longer.drop_last() =~= values.take(i as int));
            assert(longer.last() == current);
            assert(longer[longer.len() - 2] == previous);
        }
        if current > previous {
            increasing = increasing + 1;
        } else if current < previous {
            decreasing = decreasing + 1;
        }
        i = i + 1;
    }
    proof {
        assert(values.take(i as int) =~= values);
    }
    let monotonic: usize = if increasing >= decreasing {
        increasing
    } else {
        decreasing
    };
    Monotonicity { monotonic, total: count - 1 }
}

} // verus!
