//! The errors of compression and decompression.

use vstd::prelude::*;

verus! {

/// What makes an input invalid.
#[derive(Debug, Clone, Copy, PartialEq, Eq, Structural)]
pub enum Error {
    /// The compressor was given values of this many bits.
    EncoderBitWidth(u64),
    /// The compressor was given a block that is not of fixed width.
    EncoderBlockKind,
    /// The decompressor was made for values of this many bits.
    DecompressorBitWidth(u64),
    /// The decompressor was given this many buffers.
    BufferCount(usize),
    /// The buffers hold fewer values than were asked for.
    ValueCount { expected: u64, found: usize },
    /// A compressed block ends within its headers.
    BlockHeaders,
    /// A compressed block ends within its values buffer.
    BlockValues,
}

/// The decimal digit of a number below 10.
pub open spec fn digit(number: nat) -> char {
    (('0' as u8 + number) as u8) as char
}

/// A number in decimal digits.
pub open spec fn decimal(number: nat) -> Seq<char>
    decreases number,
{
    if number < 10 {
        seq![digit(number)]
    } else {
        decimal(number / 10).push(digit(number % 10))
    }
}

fn digit_text(number: u64) -> (r: &'static str)
    requires
        number < 10,
    ensures
        r@ == seq![digit(number as nat)],
{
    proof {
        reveal_strlit("0");
        reveal_strlit("1");
        reveal_strlit("2");
        reveal_strlit("3");
        reveal_strlit("4");
        reveal_strlit("5");
        reveal_strlit("6");
        reveal_strlit("7");
        reveal_strlit("8");
        reveal_strlit("9");
    }
    let text: &'static str = match number {
        0 => "0",
        1 => "1",
        2 => "2",
        3 => "3",
        4 => "4",
        5 => "5",
        6 => "6",
        7 => "7",
        8 => "8",
        _ => "9",
    };
    proof {
        assert(text@ =~= seq![digit(number as nat)]);
    }
    text
}

fn decimal_text(number: u64) -> (r: String)
    ensures
        r@ == decimal(number as nat),
    decreases number,
{
    if number < 10 {
        String::from_str(digit_text(number))
    } else {
        let text: String = decimal_text(number / 10).concat(digit_text(number % 10));
        proof {
            assert(text@ =~= decimal(number as nat));
        }
        text
    }
}

impl Error {
    /// The text of the error.
    pub open spec fn text(self) -> Seq<char> {
        match self {
            Error::EncoderBitWidth(bits) => {
                "DeltaRleEncoder only supports 8, 16, 32, or 64 bit values, got "@ + decimal(
                    bits as nat,
                )
            },
            Error::EncoderBlockKind => "DeltaRleEncoder only supports FixedWidth data blocks"@,
            Error::DecompressorBitWidth(bits) => {
                "DeltaRleDecompressor only supports 8, 16, 32, or 64 bit values, got "@ + decimal(
                    bits as nat,
                )
            },
            Error::BufferCount(count) => {
                "DeltaRleDecompressor expects exactly 2 buffers, got "@ + decimal(count as nat)
            },
            Error::ValueCount { expected, found } => {
                "DeltaRleDecompressor expected "@ + decimal(expected as nat) + " values but got "@
                    + decimal(found as nat)
            },
            Error::BlockHeaders => {
                "DeltaRle block data too short (minimum 16 bytes for headers)"@
            },
            Error::BlockValues => "DeltaRle block data too short for values buffer"@,
        }
    }

    /// The text of the error.
    pub fn message(&self) -> (r: String)
        ensures
            r@ == self.text(),
    {
        match *self {
            Error::EncoderBitWidth(bits) => {
                String::from_str(
                    "DeltaRleEncoder only supports 8, 16, 32, or 64 bit values, got ",
                ).concat(decimal_text(bits).as_str())
            },
            Error::EncoderBlockKind => {
                String::from_str("DeltaRleEncoder only supports FixedWidth data blocks")
            },
            Error::DecompressorBitWidth(bits) => {
                String::from_str(
                    "DeltaRleDecompressor only supports 8, 16, 32, or 64 bit values, got ",
                ).concat(decimal_text(bits).as_str())
            },
            Error::BufferCount(count) => {
                String::from_str("DeltaRleDecompressor expects exactly 2 buffers, got ").concat(
                    decimal_text(count as u64).as_str(),
                )
            },
            Error::ValueCount { expected, found } => {
                String::from_str("DeltaRleDecompressor expected ").concat(
                    decimal_text(expected).as_str(),
                ).concat(" values but got ").concat(decimal_text(found as u64).as_str())
            },
            Error::BlockHeaders => {
                String::from_str("DeltaRle block data too short (minimum 16 bytes for headers)")
            },
            Error::BlockValues => {
                String::from_str("DeltaRle block data too short for values buffer")
            },
        }
    }
}

} // verus!
