//! The integer types that a column can hold, and their conversions to and from
//! a machine word, which `arrow_buffer` defines.

use arrow_buffer::ArrowNativeType;
use vstd::prelude::*;

use crate::endian::{lemma_spans, span, word};

verus! {

/// `ArrowNativeType::as_usize` of `u8`: the `as` cast to `usize`, which keeps the
/// residue modulo the number of values of `usize`.
pub assume_specification[ <u8 as ArrowNativeType>::as_usize ](value: u8) -> (r: usize)
    ensures
        r == word(value as int),
;

/// `ArrowNativeType::from_usize` of `u8`: the checked conversion, which gives
/// `None` where the number is beyond the range of `u8`.
pub assume_specification[ <u8 as ArrowNativeType>::from_usize ](number: usize) -> (r: Option<u8>)
    ensures
        r == if number <= u8::MAX {
            Some(number as u8)
        } else {
            None::<u8>
        },
;

/// `ArrowNativeType::as_usize` of `u16`: the `as` cast to `usize`, which keeps the
/// residue modulo the number of values of `usize`.
pub assume_specification[ <u16 as ArrowNativeType>::as_usize ](value: u16) -> (r: usize)
    ensures
        r == word(value as int),
;

/// `ArrowNativeType::from_usize` of `u16`: the checked conversion, which gives
/// `None` where the number is beyond the range of `u16`.
pub assume_specification[ <u16 as ArrowNativeType>::from_usize ](number: usize) -> (r: Option<u16>)
    ensures
        r == if number <= u16::MAX {
            Some(number as u16)
        } else {
            None::<u16>
        },
;

/// `ArrowNativeType::as_usize` of `u32`: the `as` cast to `usize`, which keeps the
/// residue modulo the number of values of `usize`.
pub assume_specification[ <u32 as ArrowNativeType>::as_usize ](value: u32) -> (r: usize)
    ensures
        r == word(value as int),
;

/// `ArrowNativeType::from_usize` of `u32`: the checked conversion, which gives
/// `None` where the number is beyond the range of `u32`.
pub assume_specification[ <u32 as ArrowNativeType>::from_usize ](number: usize) -> (r: Option<u32>)
    ensures
        r == if number <= u32::MAX {
            Some(number as u32)
        } else {
            None::<u32>
        },
;

/// `ArrowNativeType::as_usize` of `u64`: the `as` cast to `usize`, which keeps the
/// residue modulo the number of values of `usize`.
pub assume_specification[ <u64 as ArrowNativeType>::as_usize ](value: u64) -> (r: usize)
    ensures
        r == word(value as int),
;

/// `ArrowNativeType::from_usize` of `u64`: the checked conversion, which gives
/// `None` where the number is beyond the range of `u64`.
pub assume_specification[ <u64 as ArrowNativeType>::from_usize ](number: usize) -> (r: Option<u64>)
    ensures
        r == if number <= u64::MAX {
            Some(number as u64)
        } else {
            None::<u64>
        },
;

/// `ArrowNativeType::as_usize` of `i64`: the `as` cast to `usize`, which keeps the
/// residue modulo the number of values of `usize`.
pub assume_specification[ <i64 as ArrowNativeType>::as_usize ](value: i64) -> (r: usize)
    ensures
        r == word(value as int),
;

/// `ArrowNativeType::from_usize` of `i64`: the checked conversion, which gives
/// `None` where the number is beyond the range of `i64`.
pub assume_specification[ <i64 as ArrowNativeType>::from_usize ](number: usize) -> (r: Option<i64>)
    ensures
        r == if number <= i64::MAX {
            Some(number as i64)
        } else {
            None::<i64>
        },
;

/// An integer type that converts to and from a machine word.
pub trait NativeValue: Copy {
    /// The value as a mathematical integer.
    spec fn number(self) -> int;

    /// The value of this type that is equal to `number`, if there is one.
    spec fn of_number(number: int) -> Option<Self>;

    /// Casts the value to a machine word.
    fn to_word(self) -> (r: usize)
        ensures
            r == word(self.number()),
    ;

    /// Converts a machine word to this type, if the type holds that number.
    fn from_word(number: usize) -> (r: Option<Self>)
        ensures
            r == Self::of_number(number as int),
    ;

    /// `of_number` finds a value exactly by its number.
    proof fn lemma_of_number(number: int)
        ensures
            Self::of_number(number) matches Some(value) ==> value.number() == number,
    ;
}

/// An unsigned integer type whose values lie one after the other in a buffer,
/// little-endian, each in the same number of bytes.
pub trait FixedWidthValue: NativeValue {
    /// The number of bytes of a value.
    spec fn width() -> nat;

    /// The number of bytes of a value.
    fn byte_width() -> (r: usize)
        ensures
            r == Self::width(),
    ;

    /// The value with the given number.
    fn from_bits(bits: u64) -> (r: Self)
        requires
            bits < span(Self::width()),
        ensures
            r.number() == bits,
    ;

    /// The number of the value.
    fn to_bits(self) -> (r: u64)
        ensures
            r == self.number(),
    ;

    /// A value takes 1, 2, 4 or 8 bytes.
    proof fn lemma_width()
        ensures
            Self::width() == 1 || Self::width() == 2 || Self::width() == 4 || Self::width() == 8,
    ;

    /// The numbers of the type are those that its bytes can hold.
    proof fn lemma_range(number: int)
        ensures
            Self::of_number(number) is Some <==> 0 <= number < span(Self::width()),
    ;
}

impl NativeValue for u8 {
    open spec fn number(self) -> int {
        self as int
    }

    open spec fn of_number(number: int) -> Option<Self> {
        if u8::MIN <= number <= u8::MAX {
            Some(number as u8)
        } else {
            None
        }
    }

    fn to_word(self) -> (r: usize) {
        ArrowNativeType::as_usize(self)
    }

    fn from_word(number: usize) -> (r: Option<Self>) {
        <u8 as ArrowNativeType>::from_usize(number)
    }

    proof fn lemma_of_number(number: int) {
    }
}

impl NativeValue for u16 {
    open spec fn number(self) -> int {
        self as int
    }

    open spec fn of_number(number: int) -> Option<Self> {
        if u16::MIN <= number <= u16::MAX {
            Some(number as u16)
        } else {
            None
        }
    }

    fn to_word(self) -> (r: usize) {
        ArrowNativeType::as_usize(self)
    }

    fn from_word(number: usize) -> (r: Option<Self>) {
        <u16 as ArrowNativeType>::from_usize(number)
    }

    proof fn lemma_of_number(number: int) {
    }
}

impl NativeValue for u32 {
    open spec fn number(self) -> int {
        self as int
    }

    open spec fn of_number(number: int) -> Option<Self> {
        if u32::MIN <= number <= u32::MAX {
            Some(number as u32)
        } else {
            None
        }
    }

    fn to_word(self) -> (r: usize) {
        ArrowNativeType::as_usize(self)
    }

    fn from_word(number: usize) -> (r: Option<Self>) {
        <u32 as ArrowNativeType>::from_usize(number)
    }

    proof fn lemma_of_number(number: int) {
    }
}

impl NativeValue for u64 {
    open spec fn number(self) -> int {
        self as int
    }

    open spec fn of_number(number: int) -> Option<Self> {
        if u64::MIN <= number <= u64::MAX {
            Some(number as u64)
        } else {
            None
        }
    }

    fn to_word(self) -> (r: usize) {
        ArrowNativeType::as_usize(self)
    }

    fn from_word(number: usize) -> (r: Option<Self>) {
        <u64 as ArrowNativeType>::from_usize(number)
    }

    proof fn lemma_of_number(number: int) {
    }
}

impl NativeValue for i64 {
    open spec fn number(self) -> int {
        self as int
    }

    open spec fn of_number(number: int) -> Option<Self> {
        if i64::MIN <= number <= i64::MAX {
            Some(number as i64)
        } else {
            None
        }
    }

    fn to_word(self) -> (r: usize) {
        ArrowNativeType::as_usize(self)
    }

    fn from_word(number: usize) -> (r: Option<Self>) {
        <i64 as ArrowNativeType>::from_usize(number)
    }

    proof fn lemma_of_number(number: int) {
    }
}

impl FixedWidthValue for u8 {
    open spec fn width() -> nat {
        1
    }

    fn byte_width() -> (r: usize) {
        1
    }

    fn from_bits(bits: u64) -> (r: Self) {
        proof {
            lemma_spans();
        }
        bits as u8
    }

    fn to_bits(self) -> (r: u64) {
        self as u64
    }

    proof fn lemma_width() {
    }

    proof fn lemma_range(number: int) {
        lemma_spans();
    }
}

impl FixedWidthValue for u16 {
    open spec fn width() -> nat {
        2
    }

    fn byte_width() -> (r: usize) {
        2
    }

    fn from_bits(bits: u64) -> (r: Self) {
        proof {
            lemma_spans();
        }
        bits as u16
    }

    fn to_bits(self) -> (r: u64) {
        self as u64
    }

    proof fn lemma_width() {
    }

    proof fn lemma_range(number: int) {
        lemma_spans();
    }
}

impl FixedWidthValue for u32 {
    open spec fn width() -> nat {
        4
    }

    fn byte_width() -> (r: usize) {
        4
    }

    fn from_bits(bits: u64) -> (r: Self) {
        proof {
            lemma_spans();
        }
        bits as u32
    }

    fn to_bits(self) -> (r: u64) {
        self as u64
    }

    proof fn lemma_width() {
    }

    proof fn lemma_range(number: int) {
        lemma_spans();
    }
}

impl FixedWidthValue for u64 {
    open spec fn width() -> nat {
        8
    }

    fn byte_width() -> (r: usize) {
        8
    }

    fn from_bits(bits: u64) -> (r: Self) {
        proof {
            lemma_spans();
        }
        bits as u64
    }

    fn to_bits(self) -> (r: u64) {
        self as u64
    }

    proof fn lemma_width() {
    }

    proof fn lemma_range(number: int) {
        lemma_spans();
    }
}

} // verus!
