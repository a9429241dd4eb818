//! Buffers and blocks of column data.

use vstd::prelude::*;

use crate::endian::{
    le_bytes, le_value, lemma_bytes_of_value, lemma_le_bytes_len, lemma_value_of_bytes, push_le,
    read_le, span,
};
use crate::native::{FixedWidthValue, NativeValue};

verus! {

/// A buffer of bytes.
#[derive(Debug, Clone, PartialEq, Eq)]
pub struct LanceBuffer {
    pub bytes: Vec<u8>,
}

impl View for LanceBuffer {
    type V = Seq<u8>;

    open spec fn view(&self) -> Seq<u8> {
        self.bytes@
    }
}

impl From<Vec<u8>> for LanceBuffer {
    fn from(bytes: Vec<u8>) -> (r: Self) {
        LanceBuffer { bytes }
    }
}

impl vstd::std_specs::convert::FromSpecImpl<Vec<u8>> for LanceBuffer {
    open spec fn obeys_from_spec() -> bool {
        true
    }

    open spec fn from_spec(bytes: Vec<u8>) -> Self {
        LanceBuffer { bytes }
    }
}

/// The numbers that lie one after the other in `bytes`, `width` bytes each.
pub open spec fn fixed_values(bytes: Seq<u8>, width: nat) -> Seq<int> {
    Seq::new(
        bytes.len() / width,
        |i: int| le_value(bytes.subrange(i * width, i * width + width)) as int,
    )
}

/// The bytes of `numbers`, one after the other, `width` bytes each.
pub open spec fn fixed_bytes(numbers: Seq<int>, width: nat) -> Seq<u8>
    decreases numbers.len(),
{
    if numbers.len() == 0 {
        seq![]
    } else {
        fixed_bytes(numbers.drop_last(), width) + le_bytes(numbers.last() as nat, width)
    }
}

/// The numbers of a sequence of values.
pub open spec fn numbers<T: NativeValue>(values: Seq<T>) -> Seq<int> {
    values.map_values(|value: T| value.number())
}

/// Where slot `i` of a buffer of slots of `width` bytes ends.
pub proof fn lemma_slot(i: int, width: int, len: int)
    requires
        0 < width,
        0 <= i < len / width,
    ensures
        0 <= i * width,
        (i + 1) * width == i * width + width,
        i * width + width <= len,
{
    vstd::arithmetic::div_mod::lemma_fundamental_div_mod(len, width);
    assert((i + 1) * width <= (len / width) * width) by (nonlinear_arith)
        requires
            0 < width,
            i + 1 <= len / width,
    ;
    assert((len / width) * width == width * (len / width)) by (nonlinear_arith);
    assert((i + 1) * width == i * width + width) by (nonlinear_arith);
    assert(0 <= i * width) by (nonlinear_arith)
        requires
            0 < width,
            0 <= i,
    ;
}

/// The bytes of the numbers take `width` bytes each.
pub proof fn lemma_fixed_bytes_len(numbers: Seq<int>, width: nat)
    ensures
        fixed_bytes(numbers, width).len() == numbers.len() * width,
    decreases numbers.len(),
{
    if numbers.len() > 0 {
        lemma_fixed_bytes_len(numbers.drop_last(), width);
        lemma_le_bytes_len(numbers.last() as nat, width);
        assert(numbers.len() * width == (numbers.len() - 1) * width + width) by (nonlinear_arith);
    } else {
        assert(0 * width == 0) by (nonlinear_arith);
    }
}

/// Slot `i` of the bytes of the numbers holds the bytes of number `i`.
pub proof fn lemma_fixed_bytes_slot(numbers: Seq<int>, width: nat, i: int)
    requires
        0 < width,
        0 <= i < numbers.len(),
    ensures
        0 <= i * width,
        i * width + width <= fixed_bytes(numbers, width).len(),
        fixed_bytes(numbers, width).subrange(i * width, i * width + width) == le_bytes(
            numbers[i] as nat,
            width,
        ),
    decreases numbers.len(),
{
    let before = numbers.drop_last();
    lemma_fixed_bytes_len(before, width);
    lemma_fixed_bytes_len(numbers, width);
    lemma_le_bytes_len(numbers.last() as nat, width);
    let all = fixed_bytes(numbers, width);
    assert(0 <= i * width) by (nonlinear_arith)
        requires
            0 <= i,
            0 < width,
    ;
    if i < before.len() {
        lemma_fixed_bytes_slot(before, width, i);
        assert(all.subrange(i * width, i * width + width) =~= fixed_bytes(before, width).subrange(
            i * width,
            i * width + width,
        ));
    } else {
        assert(i == before.len());
        assert(all.subrange(i * width, i * width + width) =~= le_bytes(
            numbers.last() as nat,
            width,
        ));
    }
}

/// Numbers that fit their slots are read back as they were written.
pub proof fn lemma_values_of_fixed_bytes(numbers: Seq<int>, width: nat)
    requires
        0 < width,
        forall|i: int| 0 <= i < numbers.len() ==> 0 <= #[trigger] numbers[i] < span(width),
    ensures
        fixed_values(fixed_bytes(numbers, width), width) == numbers,
{
    let bytes = fixed_bytes(numbers, width);
    lemma_fixed_bytes_len(numbers, width);
    vstd::arithmetic::div_mod::lemma_div_multiples_vanish(numbers.len() as int, width as int);
    assert(numbers.len() * width == width * numbers.len()) by (nonlinear_arith);
    assert forall|i: int| 0 <= i < numbers.len() implies fixed_values(bytes, width)[i]
        == numbers[i] by {
        lemma_fixed_bytes_slot(numbers, width, i);
        lemma_value_of_bytes(numbers[i] as nat, width);
    }
    assert(fixed_values(bytes, width) =~= numbers);
}

/// A buffer of whole slots is written back as it was read.
pub proof fn lemma_fixed_bytes_of_values(bytes: Seq<u8>, width: nat)
    requires
        0 < width,
        bytes.len() % width == 0,
    ensures
        fixed_bytes(fixed_values(bytes, width), width) == bytes,
{
    let values = fixed_values(bytes, width);
    let written = fixed_bytes(values, width);
    lemma_fixed_bytes_len(values, width);
    vstd::arithmetic::div_mod::lemma_fundamental_div_mod(bytes.len() as int, width as int);
    assert(values.len() * width == width * values.len()) by (nonlinear_arith);
    assert(written.len() == bytes.len());
    assert forall|at: int| 0 <= at < bytes.len() implies written[at] == bytes[at] by {
        let i = at / width as int;
        let k = at % width as int;
        vstd::arithmetic::div_mod::lemma_fundamental_div_mod(at, width as int);
        vstd::arithmetic::div_mod::lemma_mod_bound(at, width as int);
        assert(0 <= i < values.len()) by (nonlinear_arith)
            requires
                0 < width,
                0 <= at < width * values.len(),
                at == width * i + k,
                0 <= k < width,
        ;
        assert(width * i == i * width) by (nonlinear_arith);
        lemma_fixed_bytes_slot(values, width, i);
        lemma_slot(i, width as int, bytes.len() as int);
        let slot = bytes.subrange(i * width, i * width + width);
        lemma_bytes_of_value(slot);
        assert(written.subrange(i * width, i * width + width) == slot);
        assert(written[at] == written.subrange(i * width, i * width + width)[k]);
        assert(bytes[at] == slot[k]);
    }
    assert(written =~= bytes);
}

impl LanceBuffer {
    /// A buffer without bytes.
    pub fn empty() -> (r: Self)
        ensures
            r@ == Seq::<u8>::empty(),
    {
        LanceBuffer { bytes: Vec::new() }
    }

    /// The number of bytes.
    pub fn len(&self) -> (r: usize)
        ensures
            r == self@.len(),
    {
        self.bytes.len()
    }

    /// The bytes.
    pub fn as_ref(&self) -> (r: &[u8])
        ensures
            r@ == self@,
    {
        self.bytes.as_slice()
    }

    /// Reads the buffer as values of type `T`. A buffer that ends within a value
    /// cannot be read.
    pub fn borrow_to_typed_slice<T: FixedWidthValue>(&self) -> (r: Vec<T>)
        requires
            self@.len() % T::width() == 0,
        ensures
            numbers(r@) == fixed_values(self@, T::width()),
    {
        proof {
            T::lemma_width();
        }
        let width: usize = T::byte_width();
        let total: usize = self.bytes.len();
        let count: usize = total / width;
        let mut values: Vec<T> = Vec::with_capacity(count);
        let mut i: usize = 0;
        let mut at: usize = 0;
        while i < count
            invariant
                0 < width <= 8,
                width == T::width(),
                i <= count,
                total == self@.len(),
                count == self@.len() / T::width(),
                at == i * width,
                values@.len() == i,
                forall|j: int|
                    0 <= j < i ==> (#[trigger] values@[j]).number() == fixed_values(
                        self@,
                        T::width(),
                    )[j],
            decreases count - i,
        {
            proof {
                lemma_slot(i as int, width as int, self@.len() as int);
                lemma_bytes_of_value(self@.subrange(i * width, i * width + width));
            }
            let bits: u64 = read_le(self.bytes.as_slice(), at, width);
            values.push(T::from_bits(bits));
            at = at + width;
            i = i + 1;
        }
        proof {
            assert(numbers(values@) =~= fixed_values(self@, T::width()));
        }
        values
    }

    /// Writes values of type `T` to a buffer.
    pub fn reinterpret_vec<T: FixedWidthValue>(values: Vec<T>) -> (r: Self)
        ensures
            r@ == fixed_bytes(numbers(values@), T::width()),
    {
        let mut bytes: Vec<u8> = Vec::new();
        let width: usize = T::byte_width();
        let mut i: usize = 0;
        proof {
            assert(numbers(values@).take(0) =~= seq![]);
        }
        while i < values.len()
            invariant
                width == T::width(),
                i <= values@.len(),
                bytes@ == fixed_bytes(numbers(values@).take(i as int), T::width()),
            decreases values@.len() - i,
        {
            let value: T = values[i];
            push_le(&mut bytes, value.to_bits(), width);
            proof {
                let longer = numbers(values@).take(i + 1);
                assert(longer.drop_last() =~= numbers(values@).take(i as int));
                assert(longer.last() == value.number());
            }
            i = i + 1;
        }
        proof {
            assert(numbers(values@).take(i as int) =~= numbers(values@));
        }
        LanceBuffer { bytes }
    }
}

/// A block of values that all have the same number of bits.
#[derive(Debug, Clone, PartialEq, Eq)]
pub struct FixedWidthDataBlock {
    /// The values, one after the other, little-endian.
    pub data: LanceBuffer,
    /// The number of bits of a value.
    pub bits_per_value: u64,
    /// The number of values.
    pub num_values: u64,
}

/// A block of column data.
#[derive(Debug, Clone, PartialEq, Eq)]
pub enum DataBlock {
    /// Values of one fixed width.
    FixedWidth(FixedWidthDataBlock),
    /// Data in any other layout, of which this crate reads nothing.
    Other,
}

} // verus!
