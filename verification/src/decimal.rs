//! Decimal numbers in ASCII: how they are written and how they are read.

use vstd::prelude::*;
use vstd::string::StringExecFns;

use crate::ascii::{MINUS, NINE, PLUS, ZERO};

verus! {

/// Why a run of bytes is not a number that fits.
#[derive(Debug, Clone, Copy, PartialEq, Eq)]
pub enum NumberFault {
    /// There is nothing to read.
    Empty,
    /// A byte is not a digit, or a sign stands alone.
    InvalidDigit,
    /// The number lies above the largest that fits.
    TooLarge,
    /// The number lies below the smallest that fits.
    TooSmall,
}

impl NumberFault {
    /// The text that describes the fault.
    pub open spec fn text(self) -> Seq<char> {
        match self {
            NumberFault::Empty => "cannot parse integer from empty string"@,
            NumberFault::InvalidDigit => "invalid digit found in string"@,
            NumberFault::TooLarge => "number too large to fit in target type"@,
            NumberFault::TooSmall => "number too small to fit in target type"@,
        }
    }

    /// Describes the fault.
    pub fn message(self) -> (message: &'static str)
        ensures
            message@ == self.text(),
    {
        match self {
            NumberFault::Empty => "cannot parse integer from empty string",
            NumberFault::InvalidDigit => "invalid digit found in string",
            NumberFault::TooLarge => "number too large to fit in target type",
            NumberFault::TooSmall => "number too small to fit in target type",
        }
    }
}

/// Whether `byte` is one of `0` to `9`.
pub open spec fn is_digit(byte: u8) -> bool {
    ZERO <= byte <= NINE
}

/// The decimal representation of `number`, without leading zeros.
pub open spec fn decimal(number: nat) -> Seq<u8>
    decreases number,
{
    if number < 10 {
        seq![(ZERO + number) as u8]
    } else {
        decimal(number / 10).push((ZERO + number % 10) as u8)
    }
}

/// The decimal representation of `number`, with a minus sign if it is negative.
pub open spec fn signed_decimal(number: int) -> Seq<u8> {
    if number < 0 {
        seq![MINUS] + decimal((-number) as nat)
    } else {
        decimal(number as nat)
    }
}

/// The decimal representation of `number`, as text.
pub open spec fn decimal_text(number: nat) -> Seq<char> {
    decimal(number).map_values(|digit: u8| digit as char)
}

/// The number that a run of digits stands for, if it does not exceed `limit`. The leftmost byte
/// that is no digit, or that takes the number over the limit, decides which fault it is.
pub open spec fn digits_reading(digits: Seq<u8>, limit: nat, excess: NumberFault) -> Result<
    nat,
    NumberFault,
>
    decreases digits.len(),
{
    if digits.len() == 0 {
        Ok(0)
    } else {
        match digits_reading(digits.drop_last(), limit, excess) {
            Err(fault) => Err(fault),
            Ok(number) => if !is_digit(digits.last()) {
                Err(NumberFault::InvalidDigit)
            } else if number * 10 + (digits.last() - ZERO) > limit {
                Err(excess)
            } else {
                Ok((number * 10 + (digits.last() - ZERO)) as nat)
            },
        }
    }
}

/// The number that `text` stands for as an unsigned number of at most `limit`.
pub open spec fn unsigned_reading(text: Seq<u8>, limit: nat) -> Result<nat, NumberFault> {
    if text.len() == 0 {
        Err(NumberFault::Empty)
    } else {
        digits_reading(text, limit, NumberFault::TooLarge)
    }
}

/// The signed 64-bit number that `text` stands for: digits, after at most one sign.
pub open spec fn signed_reading(text: Seq<u8>) -> Result<i64, NumberFault> {
    if text.len() == 0 {
        Err(NumberFault::Empty)
    } else if text.len() == 1 && (text[0] == PLUS || text[0] == MINUS) {
        Err(NumberFault::InvalidDigit)
    } else if text[0] == MINUS {
        match digits_reading(text.drop_first(), 0x8000_0000_0000_0000, NumberFault::TooSmall) {
            Err(fault) => Err(fault),
            Ok(number) => Ok((-number) as i64),
        }
    } else {
        let digits = if text[0] == PLUS {
            text.drop_first()
        } else {
            text
        };
        match digits_reading(digits, i64::MAX as nat, NumberFault::TooLarge) {
            Err(fault) => Err(fault),
            Ok(number) => Ok(number as i64),
        }
    }
}

/// Appends the decimal representation of `number`.
pub fn push_decimal(output: &mut Vec<u8>, number: u64)
    ensures
        final(output)@ == old(output)@ + decimal(number as nat),
    decreases number,
{
    if number >= 10 {
        push_decimal(output, number / 10);
    }
    output.push(ZERO + (number % 10) as u8);
}

/// Appends the decimal representation of `number`, with its sign.
pub fn push_signed_decimal(output: &mut Vec<u8>, number: i64)
    ensures
        final(output)@ == old(output)@ + signed_decimal(number as int),
{
    if number < 0 {
        output.push(MINUS);
        let magnitude: u64 = if number == i64::MIN {
            0x8000_0000_0000_0000
        } else {
            (-number) as u64
        };
        push_decimal(output, magnitude);
    } else {
        push_decimal(output, number as u64);
    }
}

/// The text of a single digit.
fn digit_text(digit: u64) -> (text: &'static str)
    requires
        digit < 10,
    ensures
        text@ == seq![(ZERO + digit) as u8 as char],
{
    proof {
        reveal_strlit("0");
        reveal_strlit("1");
        reveal_strlit("2");
        reveal_strlit("3");
        reveal_strlit("4");
        reveal_strlit("5");
        reveal_strlit("6");
        reveal_strlit("7");
        reveal_strlit("8");
        reveal_strlit("9");
    }
    match digit {
        0 => "0",
        1 => "1",
        2 => "2",
        3 => "3",
        4 => "4",
        5 => "5",
        6 => "6",
        7 => "7",
        8 => "8",
        _ => "9",
    }
}

/// Appends the decimal representation of `number` to a text.
pub fn append_decimal(text: &mut String, number: u64)
    ensures
        final(text)@ == old(text)@ + decimal_text(number as nat),
    decreases number,
{
    if number >= 10 {
        append_decimal(text, number / 10);
    }
    text.append(digit_text(number % 10));
    assert(text@ =~= old(text)@ + decimal_text(number as nat));
}

/// Reads the digits of `text` from index `start` on.
fn read_digits(text: &[u8], start: usize, limit: u64, excess: NumberFault) -> (result: Result<
    u64,
    NumberFault,
>)
    requires
        start <= text@.len(),
    ensures
        match result {
            Ok(number) => digits_reading(text@.skip(start as int), limit as nat, excess) == Ok::<
                nat,
                NumberFault,
            >(number as nat),
            Err(fault) => digits_reading(text@.skip(start as int), limit as nat, excess) == Err::<
                nat,
                NumberFault,
            >(fault),
        },
{
    let mut number: u64 = 0;
    let mut i: usize = start;
    let ghost digits = text@.skip(start as int);
    while i < text.len()
        invariant
            start <= i <= text@.len(),
            digits == text@.skip(start as int),
            number <= limit,
            digits_reading(digits.take(i - start), limit as nat, excess) == Ok::<nat, NumberFault>(
                number as nat,
            ),
        decreases text@.len() - i,
    {
        let byte = text[i];
        let ghost seen = digits.take(i - start + 1);
        assert(seen.drop_last() =~= digits.take(i - start));
        assert(seen.last() == byte);
        if byte < ZERO || byte > NINE {
            proof {
                lemma_prefix_fault(digits, i - start + 1, limit as nat, excess);
            }
            return Err(NumberFault::InvalidDigit);
        }
        let next: u128 = number as u128 * 10 + (byte - ZERO) as u128;
        if next > limit as u128 {
            proof {
                lemma_prefix_fault(digits, i - start + 1, limit as nat, excess);
            }
            return Err(excess);
        }
        number = next as u64;
        i += 1;
    }
    assert(digits.take(i - start) =~= digits);
    Ok(number)
}

/// A fault in the first digits is the fault of the whole run.
proof fn lemma_prefix_fault(digits: Seq<u8>, count: int, limit: nat, excess: NumberFault)
    requires
        0 <= count <= digits.len(),
        digits_reading(digits.take(count), limit, excess) is Err,
    ensures
        digits_reading(digits, limit, excess) == digits_reading(digits.take(count), limit, excess),
    decreases digits.len(),
{
    if count == digits.len() {
        assert(digits.take(count) =~= digits);
    } else {
        assert(digits.drop_last().take(count) =~= digits.take(count));
        lemma_prefix_fault(digits.drop_last(), count, limit, excess);
    }
}

/// Reads `text` as an unsigned number that fits in a `usize`.
pub fn read_usize(text: &[u8]) -> (result: Result<usize, NumberFault>)
    ensures
        match result {
            Ok(number) => unsigned_reading(text@, usize::MAX as nat) == Ok::<nat, NumberFault>(
                number as nat,
            ),
            Err(fault) => unsigned_reading(text@, usize::MAX as nat) == Err::<nat, NumberFault>(
                fault,
            ),
        },
{
    if text.len() == 0 {
        return Err(NumberFault::Empty);
    }
    assert(text@.skip(0) =~= text@);
    match read_digits(text, 0, usize::MAX as u64, NumberFault::TooLarge) {
        Ok(number) => {
            proof {
                lemma_reading_within_limit(text@, usize::MAX as nat, NumberFault::TooLarge);
            }
            Ok(number as usize)
        },
        Err(fault) => Err(fault),
    }
}

/// Reads `text` as a signed 64-bit number.
pub fn read_i64(text: &[u8]) -> (result: Result<i64, NumberFault>)
    ensures
        result == signed_reading(text@),
{
    if text.len() == 0 {
        return Err(NumberFault::Empty);
    }
    let first = text[0];
    if text.len() == 1 && (first == PLUS || first == MINUS) {
        return Err(NumberFault::InvalidDigit);
    }
    assert(text@.skip(0) =~= text@);
    assert(text@.skip(1) =~= text@.drop_first());
    if first == MINUS {
        proof {
            lemma_reading_within_limit(
                text@.drop_first(),
                0x8000_0000_0000_0000,
                NumberFault::TooSmall,
            );
        }
        match read_digits(text, 1, 0x8000_0000_0000_0000, NumberFault::TooSmall) {
            Ok(number) => if number == 0x8000_0000_0000_0000 {
                Ok(i64::MIN)
            } else {
                Ok(-(number as i64))
            },
            Err(fault) => Err(fault),
        }
    } else {
        let start: usize = if first == PLUS {
            1
        } else {
            0
        };
        proof {
            lemma_reading_within_limit(
                text@.skip(start as int),
                i64::MAX as nat,
                NumberFault::TooLarge,
            );
        }
        match read_digits(text, start, i64::MAX as u64, NumberFault::TooLarge) {
            Ok(number) => Ok(number as i64),
            Err(fault) => Err(fault),
        }
    }
}

/// A number that is read does not exceed the limit.
proof fn lemma_reading_within_limit(digits: Seq<u8>, limit: nat, excess: NumberFault)
    ensures
        digits_reading(digits, limit, excess) matches Ok(number) ==> number <= limit,
    decreases digits.len(),
{
    if digits.len() > 0 {
        lemma_reading_within_limit(digits.drop_last(), limit, excess);
    }
}

/// A decimal representation is a non-empty run of digits.
pub proof fn lemma_decimal_digits(number: nat)
    ensures
        decimal(number).len() > 0,
        forall|i: int| 0 <= i < decimal(number).len() ==> is_digit(#[trigger] decimal(number)[i]),
    decreases number,
{
    if number >= 10 {
        lemma_decimal_digits(number / 10);
    }
}

/// What is written in decimal reads as the number that was written.
pub proof fn lemma_decimal_reading(number: nat, limit: nat, excess: NumberFault)
    requires
        number <= limit,
    ensures
        digits_reading(decimal(number), limit, excess) == Ok::<nat, NumberFault>(number),
    decreases number,
{
    reveal_with_fuel(digits_reading, 2);
    if number >= 10 {
        lemma_decimal_reading(number / 10, limit, excess);
        assert(decimal(number).drop_last() =~= decimal(number / 10));
    } else {
        assert(decimal(number).drop_last() =~= Seq::<u8>::empty());
    }
}

/// Writing a signed number in decimal and reading it back gives the same number.
pub proof fn lemma_signed_decimal_reading(number: i64)
    ensures
        signed_reading(signed_decimal(number as int)) == Ok::<i64, NumberFault>(number),
{
    let text = signed_decimal(number as int);
    if number < 0 {
        lemma_decimal_digits((-number) as nat);
        lemma_decimal_reading((-number) as nat, 0x8000_0000_0000_0000, NumberFault::TooSmall);
        assert(text.drop_first() =~= decimal((-number) as nat));
    } else {
        lemma_decimal_digits(number as nat);
        lemma_decimal_reading(number as nat, i64::MAX as nat, NumberFault::TooLarge);
        assert(is_digit(text[0]));
    }
}

/// No run of digits for a number is shorter than its decimal representation, and no other is as
/// short.
pub proof fn lemma_decimal_is_shortest(digits: Seq<u8>, limit: nat, excess: NumberFault)
    requires
        digits.len() > 0,
    ensures
        digits_reading(digits, limit, excess) matches Ok(number) ==> {
            &&& decimal(number).len() <= digits.len()
            &&& decimal(number).len() == digits.len() ==> digits == decimal(number)
        },
    decreases digits.len(),
{
    if let Ok(number) = digits_reading(digits, limit, excess) {
        let front = digits.drop_last();
        assert(digits =~= front.push(digits.last()));
        if number >= 10 {
            lemma_decimal_is_shortest(front, limit, excess);
            assert(digits_reading(front, limit, excess)->Ok_0 == number / 10);
        } else if digits.len() == 1 {
            assert(digits =~= decimal(number));
        }
    }
}

/// No way to write a signed number is shorter than its decimal representation, and no other is as
/// short.
pub proof fn lemma_signed_decimal_is_shortest(text: Seq<u8>)
    ensures
        signed_reading(text) matches Ok(number) ==> {
            &&& signed_decimal(number as int).len() <= text.len()
            &&& signed_decimal(number as int).len() == text.len() ==> text == signed_decimal(
                number as int,
            )
        },
{
    if signed_reading(text) is Ok {
        let digits = text.drop_first();
        if text[0] == MINUS {
            lemma_decimal_is_shortest(digits, 0x8000_0000_0000_0000, NumberFault::TooSmall);
            lemma_reading_within_limit(digits, 0x8000_0000_0000_0000, NumberFault::TooSmall);
            assert(text =~= seq![MINUS] + digits);
        } else if text[0] == PLUS {
            lemma_decimal_is_shortest(digits, i64::MAX as nat, NumberFault::TooLarge);
            lemma_reading_within_limit(digits, i64::MAX as nat, NumberFault::TooLarge);
        } else {
            lemma_decimal_is_shortest(text, i64::MAX as nat, NumberFault::TooLarge);
            lemma_reading_within_limit(text, i64::MAX as nat, NumberFault::TooLarge);
        }
    }
}

} // verus!
