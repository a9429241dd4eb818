//! Little-endian integers of a given number of bytes, and the two's-complement
//! and machine-word views of a 64-bit integer.

use vstd::prelude::*;

verus! {

/// The number of values that `width` bytes can hold: 256 to the power of `width`.
pub open spec fn span(width: nat) -> nat
    decreases width,
{
    if width == 0 {
        1
    } else {
        256 * span((width - 1) as nat)
    }
}

/// The number that `bytes` stand for, least significant byte first.
pub open spec fn le_value(bytes: Seq<u8>) -> nat
    decreases bytes.len(),
{
    if bytes.len() == 0 {
        0
    } else {
        bytes[0] as nat + 256 * le_value(bytes.drop_first())
    }
}

/// The `width` least significant bytes of `value`, least significant byte first.
pub open spec fn le_bytes(value: nat, width: nat) -> Seq<u8>
    decreases width,
{
    if width == 0 {
        seq![]
    } else {
        seq![(value % 256) as u8] + le_bytes(value / 256, (width - 1) as nat)
    }
}

/// The signed integer with the 64-bit two's-complement pattern `pattern`.
pub open spec fn to_signed(pattern: int) -> i64 {
    if pattern <= i64::MAX {
        pattern as i64
    } else {
        (pattern - 0x1_0000_0000_0000_0000) as i64
    }
}

/// The 64-bit two's-complement pattern of `value`.
pub open spec fn to_pattern(value: i64) -> nat {
    if value >= 0 {
        value as nat
    } else {
        (value + 0x1_0000_0000_0000_0000) as nat
    }
}

/// What remains of `value` when it is cast to a machine word: `value` itself, if a
/// machine word can hold it, or else its residue modulo the number of values of
/// `usize`.
pub open spec fn word(value: int) -> int {
    if 0 <= value <= usize::MAX {
        value
    } else {
        value % (usize::MAX + 1)
    }
}

/// `le_bytes` has the width that it was asked for.
pub proof fn lemma_le_bytes_len(value: nat, width: nat)
    ensures
        le_bytes(value, width).len() == width,
    decreases width,
{
    if width > 0 {
        lemma_le_bytes_len(value / 256, (width - 1) as nat);
    }
}

/// Reading the bytes of a number gives the number back.
pub proof fn lemma_value_of_bytes(value: nat, width: nat)
    requires
        value < span(width),
    ensures
        le_value(le_bytes(value, width)) == value,
    decreases width,
{
    if width > 0 {
        let rest = le_bytes(value / 256, (width - 1) as nat);
        assert(le_bytes(value, width).drop_first() =~= rest);
        lemma_value_of_bytes(value / 256, (width - 1) as nat);
    }
}

/// Writing the number that some bytes stand for gives the bytes back.
pub proof fn lemma_bytes_of_value(bytes: Seq<u8>)
    ensures
        le_value(bytes) < span(bytes.len()),
        le_bytes(le_value(bytes), bytes.len()) == bytes,
    decreases bytes.len(),
{
    if bytes.len() > 0 {
        let rest = bytes.drop_first();
        lemma_bytes_of_value(rest);
        let value = le_value(bytes);
        assert(value == bytes[0] as nat + 256 * le_value(rest));
        assert(value % 256 == bytes[0] && value / 256 == le_value(rest));
        assert(seq![bytes[0]] + rest =~= bytes);
    } else {
        assert(le_bytes(le_value(bytes), bytes.len()) =~= bytes);
    }
}

/// The spans of the four widths of a fixed-width value.
pub proof fn lemma_spans()
    ensures
        span(1) == 0x100,
        span(2) == 0x1_0000,
        span(4) == 0x1_0000_0000,
        span(8) == 0x1_0000_0000_0000_0000,
{
    reveal_with_fuel(span, 9);
}

/// A wider integer holds at least as many values.
pub proof fn lemma_span_grows(narrow: nat, wide: nat)
    requires
        narrow <= wide,
    ensures
        0 < span(narrow) <= span(wide),
    decreases wide,
{
    if narrow < wide {
        lemma_span_grows(narrow, (wide - 1) as nat);
    } else if wide > 0 {
        lemma_span_grows((narrow - 1) as nat, (wide - 1) as nat);
    }
}

/// The two's-complement views undo each other.
pub proof fn lemma_pattern_of_signed(value: i64)
    ensures
        to_pattern(value) < span(8),
        to_signed(to_pattern(value) as int) == value,
{
    lemma_spans();
}

/// The number of values of `usize`, by the number of its bits.
proof fn lemma_words()
    ensures
        usize::BITS == 32 || usize::BITS == 64,
        usize::BITS == 32 ==> usize::MAX + 1 == 0x1_0000_0000,
        usize::BITS == 64 ==> usize::MAX + 1 == 0x1_0000_0000_0000_0000,
{
}

/// A signed integer and its two's-complement pattern are the same machine word.
pub proof fn lemma_word_of_signed(pattern: nat)
    requires
        pattern < span(8),
    ensures
        word(to_signed(pattern as int) as int) == word(pattern as int),
{
    lemma_spans();
    let words = usize::MAX + 1;
    assert(words == 0x1_0000_0000 || words == 0x1_0000_0000_0000_0000);
    if pattern > i64::MAX {
        let signed = pattern - 0x1_0000_0000_0000_0000;
        if words == 0x1_0000_0000 {
            assert(signed % 0x1_0000_0000 == pattern % 0x1_0000_0000);
        } else {
            assert(signed % 0x1_0000_0000_0000_0000 == pattern % 0x1_0000_0000_0000_0000);
        }
    }
}

/// Casts a 64-bit integer to a machine word.
pub fn u64_to_word(value: u64) -> (r: usize)
    ensures
        r == word(value as int),
{
    let r: usize = value as usize;
    proof {
        assert(usize::BITS == 32 ==> value as usize == value % 0x1_0000_0000) by (bit_vector);
        assert(usize::BITS == 64 ==> value as usize == value) by (bit_vector);
        lemma_words();
    }
    r
}

/// Casts a signed 64-bit integer to a machine word.
pub fn i64_to_word(value: i64) -> (r: usize)
    ensures
        r == word(value as int),
{
    let r: usize = value as usize;
    proof {
        lemma_cast_i64_to_usize(value);
    }
    r
}

proof fn lemma_cast_i64_to_usize(value: i64)
    ensures
        value as usize == word(value as int),
{
    let pattern: u64 = value as u64;
    assert(value >= 0 ==> value as u64 == value) by (bit_vector);
    assert(value < 0 ==> value as u64 == value + 0x1_0000_0000_0000_0000) by (bit_vector);
    assert(usize::BITS == 32 ==> value as usize == (value as u64) % 0x1_0000_0000) by (bit_vector);
    assert(usize::BITS == 64 ==> value as usize == value as u64) by (bit_vector);
    lemma_words();
    lemma_spans();
    lemma_pattern_of_signed(value);
    lemma_word_of_signed(pattern as nat);
}

/// Reads a machine word as a signed 64-bit integer.
pub fn word_to_i64(value: usize) -> (r: i64)
    ensures
        r == to_signed(value as int),
{
    let r: i64 = value as i64;
    proof {
        assert(value <= 0x7fff_ffff_ffff_ffff ==> value as i64 == value) by (bit_vector);
        assert(value > 0x7fff_ffff_ffff_ffff ==> value as i64 == value - 0x1_0000_0000_0000_0000)
            by (bit_vector);
    }
    r
}

/// The two's-complement pattern of a signed integer.
pub fn i64_to_pattern(value: i64) -> (r: u64)
    ensures
        r == to_pattern(value),
{
    let r: u64 = value as u64;
    proof {
        assert(value >= 0 ==> value as u64 == value) by (bit_vector);
        assert(value < 0 ==> value as u64 == value + 0x1_0000_0000_0000_0000) by (bit_vector);
    }
    r
}

/// The signed integer with a given two's-complement pattern.
pub fn pattern_to_i64(pattern: u64) -> (r: i64)
    ensures
        r == to_signed(pattern as int),
{
    let r: i64 = pattern as i64;
    proof {
        assert(pattern <= 0x7fff_ffff_ffff_ffff ==> pattern as i64 == pattern) by (bit_vector);
        assert(pattern > 0x7fff_ffff_ffff_ffff ==> pattern as i64 == pattern
            - 0x1_0000_0000_0000_0000) by (bit_vector);
    }
    r
}

/// The 32 least significant bits of a number.
pub open spec fn low_u32(number: nat) -> u32 {
    (number % 0x1_0000_0000) as u32
}

/// Casts a machine word to 32 bits.
pub fn word_to_u32(value: usize) -> (r: u32)
    ensures
        r == low_u32(value as nat),
{
    let r: u32 = value as u32;
    proof {
        let wide: u64 = value as u64;
        assert(value as u32 == (value as u64) as u32) by (bit_vector);
        assert(wide as u32 == wide % 0x1_0000_0000) by (bit_vector);
    }
    r
}

/// Appends the `width` least significant bytes of `value` to `out`.
pub fn push_le(out: &mut Vec<u8>, value: u64, width: usize)
    ensures
        final(out)@ == old(out)@ + le_bytes(value as nat, width as nat),
{
    let ghost start = out@;
    let mut rest: u64 = value;
    let mut left: usize = width;
    while left > 0
        invariant
            left <= width,
            out@ + le_bytes(rest as nat, left as nat) == start + le_bytes(
                value as nat,
                width as nat,
            ),
        decreases left,
    {
        let ghost before = out@;
        let ghost tail = le_bytes((rest / 256) as nat, (left - 1) as nat);
        out.push((rest % 256) as u8);
        proof {
            assert(before + (seq![(rest % 256) as u8] + tail) =~= out@ + tail);
        }
        rest = rest / 256;
        left = left - 1;
    }
    proof {
        assert(out@ + le_bytes(rest as nat, 0) =~= out@);
    }
}

/// Reads the `width` bytes of `bytes` from `start` on as one number.
pub fn read_le(bytes: &[u8], start: usize, width: usize) -> (r: u64)
    requires
        width <= 8,
        start + width <= bytes@.len(),
    ensures
        r == le_value(bytes@.subrange(start as int, start + width)),
{
    let total: usize = bytes.len();
    let mut value: u64 = 0;
    let mut at: usize = width;
    proof {
        assert(bytes@.subrange(start + width, start + width).len() == 0);
    }
    while at > 0
        invariant
            at <= width <= 8,
            start + width <= total,
            total == bytes@.len(),
            value == le_value(bytes@.subrange(start + at, start + width)),
        decreases at,
    {
        let ghost upper = bytes@.subrange(start + at, start + width);
        let ghost longer = bytes@.subrange(start + at - 1, start + width);
        proof {
            assert(longer.drop_first() =~= upper);
            lemma_bytes_of_value(longer);
            lemma_span_grows(longer.len(), 8);
            lemma_spans();
        }
        at = at - 1;
        value = value * 256 + bytes[start + at] as u64;
    }
    value
}

} // verus!
