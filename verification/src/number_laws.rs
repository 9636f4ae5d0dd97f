//! What holds of numbers in decimal, by the place values of their digits.

use vstd::arithmetic::power::pow;
use vstd::prelude::*;

use crate::ascii::{MINUS, PLUS};
use crate::decimal::{
    decimal, decimal_text, digits_reading, lemma_decimal_digits, signed_decimal, signed_reading,
    unsigned_reading, NumberFault,
};

verus! {

/// Whether every byte is one of the digits `0` to `9`.
pub open spec fn all_digits(bytes: Seq<u8>) -> bool {
    forall|i: int| 0 <= i < bytes.len() ==> 0x30 <= #[trigger] bytes[i] <= 0x39
}

/// What digits are worth: each one times the power of ten of its place.
pub open spec fn place_value(digits: Seq<u8>) -> int
    decreases digits.len(),
{
    if digits.len() == 0 {
        0
    } else {
        (digits[0] - 0x30) * pow(10, (digits.len() - 1) as nat) + place_value(digits.drop_first())
    }
}

/// One more digit makes the others worth ten times as much.
pub proof fn lemma_place_value_push(digits: Seq<u8>, digit: u8)
    ensures
        place_value(digits.push(digit)) == 10 * place_value(digits) + (digit - 0x30),
    decreases digits.len(),
{
    let longer = digits.push(digit);
    reveal(pow);
    if digits.len() == 0 {
        assert(longer.drop_first() =~= Seq::empty());
        assert(pow(10, 0) == 1);
        assert(place_value(longer.drop_first()) == 0);
        assert(place_value(digits) == 0);
        assert((longer[0] - 0x30) * 1 == digit - 0x30);
    } else {
        let rest = digits.drop_first();
        assert(longer.drop_first() =~= rest.push(digit));
        lemma_place_value_push(rest, digit);
        let head = digits[0] - 0x30;
        let power = pow(10, (digits.len() - 1) as nat);
        assert(pow(10, digits.len()) == 10 * power);
        assert(head * (10 * power) == 10 * (head * power)) by (nonlinear_arith);
        assert(longer[0] == digits[0]);
    }
}

/// A number in decimal is a run of digits that is worth the number, without a zero in front.
pub proof fn law_decimal_is_worth_the_number(number: nat)
    ensures
        decimal(number).len() > 0,
        all_digits(decimal(number)),
        place_value(decimal(number)) == number,
        decimal(number)[0] == 0x30 ==> number == 0 && decimal(number).len() == 1,
    decreases number,
{
    lemma_decimal_digits(number);
    if number < 10 {
        let digit = decimal(number)[0];
        assert(decimal(number) =~= Seq::empty().push(digit));
        lemma_place_value_push(Seq::empty(), digit);
    } else {
        law_decimal_is_worth_the_number(number / 10);
        let digit = (0x30 + number % 10) as u8;
        lemma_place_value_push(decimal(number / 10), digit);
    }
}

/// A signed number in decimal is its magnitude, behind a minus sign if it is negative and behind
/// nothing otherwise.
pub proof fn law_signed_decimal_has_one_sign(number: int)
    ensures
        number < 0 ==> {
            let text = signed_decimal(number);
            &&& text.len() > 1 && text[0] == 0x2d
            &&& all_digits(text.skip(1)) && text[1] != 0x30
            &&& place_value(text.skip(1)) == -number
        },
        number >= 0 ==> {
            let text = signed_decimal(number);
            &&& text.len() > 0 && all_digits(text)
            &&& text[0] == 0x30 ==> text.len() == 1
            &&& place_value(text) == number
        },
{
    if number < 0 {
        law_decimal_is_worth_the_number((-number) as nat);
        assert(signed_decimal(number).skip(1) =~= decimal((-number) as nat));
    } else {
        law_decimal_is_worth_the_number(number as nat);
    }
}

/// A number as text has the same digits as in bytes.
pub proof fn law_decimal_text_has_the_digits(number: nat)
    ensures
        decimal_text(number).len() == decimal(number).len(),
        forall|i: int|
            0 <= i < decimal(number).len() ==> #[trigger] decimal_text(number)[i] as int
                == decimal(number)[i] as int,
{
    lemma_decimal_digits(number);
}

/// Digits that are worth no more than the limit read as what they are worth, and a longer run of
/// digits is worth no less.
pub proof fn law_digits_read_as_their_worth(digits: Seq<u8>, limit: nat, excess: NumberFault)
    requires
        all_digits(digits),
    ensures
        place_value(digits) >= 0,
        place_value(digits) <= limit ==> digits_reading(digits, limit, excess) == Ok::<
            nat,
            NumberFault,
        >(place_value(digits) as nat),
        place_value(digits) > limit ==> digits_reading(digits, limit, excess) == Err::<
            nat,
            NumberFault,
        >(excess),
    decreases digits.len(),
{
    if digits.len() > 0 {
        let front = digits.drop_last();
        assert(all_digits(front));
        law_digits_read_as_their_worth(front, limit, excess);
        lemma_place_value_push(front, digits.last());
        assert(front.push(digits.last()) =~= digits);
    }
}

/// A byte that is no digit spoils the number, unless the digits before it are worth too much
/// already.
pub proof fn law_other_bytes_spoil_numbers(bytes: Seq<u8>, bad: int, limit: nat, excess: NumberFault)
    requires
        0 <= bad < bytes.len(),
        all_digits(bytes.take(bad)),
        !(0x30 <= bytes[bad] <= 0x39),
    ensures
        digits_reading(bytes, limit, excess) == Err::<nat, NumberFault>(
            if place_value(bytes.take(bad)) > limit {
                excess
            } else {
                NumberFault::InvalidDigit
            },
        ),
    decreases bytes.len(),
{
    let front = bytes.drop_last();
    if bad == bytes.len() - 1 {
        assert(front =~= bytes.take(bad));
        law_digits_read_as_their_worth(front, limit, excess);
    } else {
        assert(front.take(bad) =~= bytes.take(bad));
        law_other_bytes_spoil_numbers(front, bad, limit, excess);
    }
}

/// An unsigned number reads as what its digits are worth. Nothing is no number, a byte that is no
/// digit spoils it, and it may be worth too much.
pub proof fn law_unsigned_numbers_read(text: Seq<u8>, limit: nat)
    ensures
        text.len() == 0 ==> unsigned_reading(text, limit) == Err::<nat, NumberFault>(
            NumberFault::Empty,
        ),
        text.len() > 0 && all_digits(text) ==> unsigned_reading(text, limit) == (if place_value(text)
            <= limit {
            Ok::<nat, NumberFault>(place_value(text) as nat)
        } else {
            Err(NumberFault::TooLarge)
        }),
        forall|bad: int|
            0 <= bad < text.len() && all_digits(#[trigger] text.take(bad)) && !(0x30 <= text[bad]
                <= 0x39) ==> unsigned_reading(text, limit) == Err::<nat, NumberFault>(
                if place_value(text.take(bad)) > limit {
                    NumberFault::TooLarge
                } else {
                    NumberFault::InvalidDigit
                },
            ),
{
    if text.len() > 0 && all_digits(text) {
        law_digits_read_as_their_worth(text, limit, NumberFault::TooLarge);
    }
    assert forall|bad: int|
        0 <= bad < text.len() && all_digits(#[trigger] text.take(bad)) && !(0x30 <= text[bad]
            <= 0x39) implies unsigned_reading(text, limit) == Err::<nat, NumberFault>(
        if place_value(text.take(bad)) > limit {
            NumberFault::TooLarge
        } else {
            NumberFault::InvalidDigit
        },
    ) by {
        law_other_bytes_spoil_numbers(text, bad, limit, NumberFault::TooLarge);
    }
}

/// Digits with no sign, or with a plus sign before them, read as what they are worth.
pub proof fn law_positive_numbers_read(digits: Seq<u8>)
    requires
        digits.len() > 0,
        all_digits(digits),
    ensures
        signed_reading(digits) == (if place_value(digits) <= i64::MAX {
            Ok::<i64, NumberFault>(place_value(digits) as i64)
        } else {
            Err(NumberFault::TooLarge)
        }),
        signed_reading(seq![0x2bu8] + digits) == signed_reading(digits),
{
    law_digits_read_as_their_worth(digits, i64::MAX as nat, NumberFault::TooLarge);
    assert((seq![0x2bu8] + digits).drop_first() =~= digits);
}

/// Digits with a minus sign before them read as the negative of what they are worth.
pub proof fn law_negative_numbers_read(digits: Seq<u8>)
    requires
        digits.len() > 0,
        all_digits(digits),
    ensures
        signed_reading(seq![0x2du8] + digits) == (if -place_value(digits) >= i64::MIN {
            Ok::<i64, NumberFault>((-place_value(digits)) as i64)
        } else {
            Err(NumberFault::TooSmall)
        }),
{
    law_digits_read_as_their_worth(digits, 0x8000_0000_0000_0000, NumberFault::TooSmall);
    assert((seq![0x2du8] + digits).drop_first() =~= digits);
}

/// Nothing is no signed number, nor is a sign alone. A byte that is no digit, behind at most one
/// sign, spoils the number, unless the digits before it are worth too much already.
pub proof fn law_faulty_signed_numbers(text: Seq<u8>)
    ensures
        text.len() == 0 ==> signed_reading(text) == Err::<i64, NumberFault>(NumberFault::Empty),
        text == seq![0x2bu8] || text == seq![0x2du8] ==> signed_reading(text) == Err::<
            i64,
            NumberFault,
        >(NumberFault::InvalidDigit),
        text.len() > 0 && text[0] != 0x2b && text[0] != 0x2d ==> forall|bad: int|
            0 <= bad < text.len() && all_digits(#[trigger] text.take(bad)) && !(0x30 <= text[bad]
                <= 0x39) ==> signed_reading(text) == Err::<i64, NumberFault>(
                if place_value(text.take(bad)) > i64::MAX {
                    NumberFault::TooLarge
                } else {
                    NumberFault::InvalidDigit
                },
            ),
        text.len() > 1 && text[0] == 0x2b ==> forall|bad: int|
            1 <= bad < text.len() && all_digits(#[trigger] text.subrange(1, bad)) && !(0x30
                <= text[bad] <= 0x39) ==> signed_reading(text) == Err::<i64, NumberFault>(
                if place_value(text.subrange(1, bad)) > i64::MAX {
                    NumberFault::TooLarge
                } else {
                    NumberFault::InvalidDigit
                },
            ),
        text.len() > 1 && text[0] == 0x2d ==> forall|bad: int|
            1 <= bad < text.len() && all_digits(#[trigger] text.subrange(1, bad)) && !(0x30
                <= text[bad] <= 0x39) ==> signed_reading(text) == Err::<i64, NumberFault>(
                if -place_value(text.subrange(1, bad)) < i64::MIN {
                    NumberFault::TooSmall
                } else {
                    NumberFault::InvalidDigit
                },
            ),
{
    if text.len() > 0 && text[0] != 0x2b && text[0] != 0x2d {
        assert forall|bad: int|
            0 <= bad < text.len() && all_digits(#[trigger] text.take(bad)) && !(0x30 <= text[bad]
                <= 0x39) implies signed_reading(text) == Err::<i64, NumberFault>(
            if place_value(text.take(bad)) > i64::MAX {
                NumberFault::TooLarge
            } else {
                NumberFault::InvalidDigit
            },
        ) by {
            law_other_bytes_spoil_numbers(text, bad, i64::MAX as nat, NumberFault::TooLarge);
        }
    }
    if text.len() > 1 && (text[0] == PLUS || text[0] == MINUS) {
        let rest = text.drop_first();
        assert forall|bad: int|
            1 <= bad < text.len() && all_digits(#[trigger] text.subrange(1, bad)) && !(0x30
                <= text[bad] <= 0x39) implies signed_reading(text) == Err::<i64, NumberFault>(
            if text[0] == PLUS {
                if place_value(text.subrange(1, bad)) > i64::MAX {
                    NumberFault::TooLarge
                } else {
                    NumberFault::InvalidDigit
                }
            } else {
                if -place_value(text.subrange(1, bad)) < i64::MIN {
                    NumberFault::TooSmall
                } else {
                    NumberFault::InvalidDigit
                }
            },
        ) by {
            assert(rest.take(bad - 1) =~= text.subrange(1, bad));
            law_other_bytes_spoil_numbers(rest, bad - 1, i64::MAX as nat, NumberFault::TooLarge);
            law_other_bytes_spoil_numbers(
                rest,
                bad - 1,
                0x8000_0000_0000_0000,
                NumberFault::TooSmall,
            );
        }
    }
}

} // verus!
