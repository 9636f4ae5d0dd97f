//! Bytes in hexadecimal: what it means to write and to read them.

use vstd::prelude::*;

verus! {

/// Why a text is not a sequence of bytes in hexadecimal.
#[derive(Debug, Clone, Copy, PartialEq, Eq)]
pub enum HexFault {
    /// The digits do not come in pairs.
    OddLength,
    /// The byte at `index` is not a hexadecimal digit.
    InvalidCharacter { character: char, index: usize },
    /// The text does not fill a container of a fixed size.
    WrongLength,
}

/// Whether `byte` is a hexadecimal digit, in either case.
pub open spec fn is_hex_digit(byte: u8) -> bool {
    ||| 0x30 <= byte <= 0x39
    ||| 0x41 <= byte <= 0x46
    ||| 0x61 <= byte <= 0x66
}

/// The number that a hexadecimal digit stands for.
pub open spec fn hex_digit_value(digit: u8) -> int {
    if digit <= 0x39 {
        digit - 0x30
    } else if digit <= 0x46 {
        digit - 0x41 + 10
    } else {
        digit - 0x61 + 10
    }
}

/// The lowercase hexadecimal digit for a number below sixteen.
pub open spec fn hex_digit(number: int) -> char {
    if number < 10 {
        (0x30 + number) as char
    } else {
        (0x61 + number - 10) as char
    }
}

/// Bytes in hexadecimal: two lowercase digits for each.
pub open spec fn hex_text(bytes: Seq<u8>) -> Seq<char> {
    Seq::new(
        2 * bytes.len(),
        |i: int|
            if i % 2 == 0 {
                hex_digit(bytes[i / 2] as int / 16)
            } else {
                hex_digit(bytes[i / 2] as int % 16)
            },
    )
}

/// How many hexadecimal digits `digits` begins with.
pub open spec fn hex_digits_count(digits: Seq<u8>) -> nat
    decreases digits.len(),
{
    if digits.len() == 0 || !is_hex_digit(digits[0]) {
        0
    } else {
        1 + hex_digits_count(digits.drop_first())
    }
}

/// The bytes that pairs of hexadecimal digits stand for. The first byte that is no digit is the
/// one that the fault names.
pub open spec fn hex_reading(digits: Seq<u8>) -> Result<Seq<u8>, HexFault> {
    let count = hex_digits_count(digits);
    if digits.len() % 2 != 0 {
        Err(HexFault::OddLength)
    } else if count < digits.len() {
        Err(
            HexFault::InvalidCharacter {
                character: digits[count as int] as char,
                index: count as usize,
            },
        )
    } else {
        Ok(
            Seq::new(
                digits.len() / 2,
                |i: int|
                    (16 * hex_digit_value(digits[2 * i]) + hex_digit_value(
                        digits[2 * i + 1],
                    )) as u8,
            ),
        )
    }
}

/// A run of hexadecimal digits is counted in full.
proof fn lemma_hex_digits_count(digits: Seq<u8>)
    requires
        forall|i: int| 0 <= i < digits.len() ==> is_hex_digit(#[trigger] digits[i]),
    ensures
        hex_digits_count(digits) == digits.len(),
    decreases digits.len(),
{
    if digits.len() > 0 {
        lemma_hex_digits_count(digits.drop_first());
    }
}

/// The hexadecimal text of bytes is made of ASCII hexadecimal digits.
pub proof fn lemma_hex_text_digits(bytes: Seq<u8>)
    ensures
        hex_text(bytes).len() == 2 * bytes.len(),
        forall|i: int|
            0 <= i < hex_text(bytes).len() ==> {
                let digit = #[trigger] hex_text(bytes)[i];
                digit as int <= 0x66 && is_hex_digit(digit as u8)
            },
{
}

/// Bytes that are written in hexadecimal read back.
pub proof fn lemma_hex_reads_back(bytes: Seq<u8>, digits: Seq<u8>)
    requires
        digits == hex_text(bytes).map_values(|digit: char| digit as u8),
    ensures
        hex_reading(digits) == Ok::<Seq<u8>, HexFault>(bytes),
{
    lemma_hex_text_digits(bytes);
    assert forall|i: int| 0 <= i < digits.len() implies is_hex_digit(#[trigger] digits[i]) by {
        assert(digits[i] == hex_text(bytes)[i] as u8);
    }
    lemma_hex_digits_count(digits);
    let read = hex_reading(digits)->Ok_0;
    assert forall|i: int| 0 <= i < bytes.len() implies read[i] == bytes[i] by {
        assert(digits[2 * i] == hex_text(bytes)[2 * i] as u8);
        assert(digits[2 * i + 1] == hex_text(bytes)[2 * i + 1] as u8);
        assert((2 * i) / 2 == i && (2 * i + 1) / 2 == i);
    }
    assert(read =~= bytes);
}

} // verus!
