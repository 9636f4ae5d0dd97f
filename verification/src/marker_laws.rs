//! Which strings are binary markers, and what they stand for.

use vstd::prelude::*;
use vstd::utf8::encode_utf8;

use crate::fault::Fault;
use crate::hexadecimal::{hex_digits_count, hex_text, is_hex_digit};
use crate::marker::{
    is_white_space, marker_inner, marker_prefix, marker_reading, marker_text, trimmed, trimmed_end,
    trimmed_start,
};

verus! {

/// Whether every character is white space.
pub open spec fn all_white_space(text: Seq<char>) -> bool {
    forall|i: int| 0 <= i < text.len() ==> is_white_space(#[trigger] text[i])
}

/// Whether the text has no white space at its ends.
pub open spec fn tight(text: Seq<char>) -> bool {
    text.len() > 0 ==> !is_white_space(text[0]) && !is_white_space(text.last())
}

/// The number that a hexadecimal digit of either case stands for.
pub open spec fn nibble(digit: u8) -> int {
    if 0x30 <= digit <= 0x39 {
        digit - 0x30
    } else if 0x41 <= digit <= 0x46 {
        digit - 0x41 + 10
    } else {
        digit - 0x61 + 10
    }
}

/// Whether a byte is a hexadecimal digit of either case.
pub open spec fn is_nibble(byte: u8) -> bool {
    0x30 <= byte <= 0x39 || 0x41 <= byte <= 0x46 || 0x61 <= byte <= 0x66
}

/// The hexadecimal digit for a number below sixteen, in lower case.
pub open spec fn lower_digit(number: int) -> char {
    "0123456789abcdef"@[number]
}

/// White space is what Unicode says it is.
pub proof fn law_white_space(character: char)
    ensures
        is_white_space(character) <==> {
            ||| character == '\t' || character == '\n' || character == '\u{b}' || character
                == '\u{c}' || character == '\r' || character == ' '
            ||| character == '\u{85}' || character == '\u{a0}' || character == '\u{1680}'
            ||| '\u{2000}' as int <= character as int <= '\u{200a}' as int
            ||| character == '\u{2028}' || character == '\u{2029}' || character == '\u{202f}'
            ||| character == '\u{205f}' || character == '\u{3000}'
        },
{
}

/// A string that does not begin with `[binary:` or does not end in a bracket behind that is an
/// ordinary string.
pub proof fn law_other_strings_are_ordinary(text: Seq<char>)
    requires
        !("[binary:"@.is_prefix_of(text) && text.len() > 8 && text.last() == ']'),
    ensures
        marker_reading(text) == Ok::<Option<Seq<u8>>, Fault<Seq<char>>>(None),
{
    reveal_strlit("[binary:");
    assert("[binary:"@ =~= marker_prefix());
    if text.len() > 8 && text.take(8) == marker_prefix() {
        assert("[binary:"@ =~= text.subrange(0, "[binary:"@.len() as int));
    }
}

/// Trimming takes white space away at both ends, and nothing else.
pub proof fn law_trimming_takes_white_space(front: Seq<char>, core: Seq<char>, back: Seq<char>)
    requires
        all_white_space(front),
        all_white_space(back),
        tight(core),
    ensures
        trimmed(front + core + back) == core,
{
    if core.len() == 0 {
        assert(front + core + back =~= front + back);
        lemma_trimmed_start(front + back, Seq::empty());
        assert(front + back + Seq::empty() =~= front + back);
    } else {
        assert(front + core + back =~= front + (core + back));
        assert((core + back)[0] == core[0]);
        lemma_trimmed_start(front, core + back);
        lemma_trimmed_end(core, back);
    }
}

/// White space in front is taken away up to the first other character.
proof fn lemma_trimmed_start(front: Seq<char>, rest: Seq<char>)
    requires
        all_white_space(front),
        rest.len() > 0 ==> !is_white_space(rest[0]),
    ensures
        trimmed_start(front + rest) == rest,
    decreases front.len(),
{
    let text = front + rest;
    if front.len() > 0 {
        assert(text[0] == front[0]);
        assert(text.drop_first() =~= front.drop_first() + rest);
        lemma_trimmed_start(front.drop_first(), rest);
    } else {
        assert(text =~= rest);
    }
}

/// White space at the end is taken away up to the last other character.
proof fn lemma_trimmed_end(rest: Seq<char>, back: Seq<char>)
    requires
        all_white_space(back),
        rest.len() > 0 ==> !is_white_space(rest.last()),
    ensures
        trimmed_end(rest + back) == rest,
    decreases back.len(),
{
    let text = rest + back;
    if back.len() > 0 {
        assert(text.last() == back.last());
        assert(text.drop_last() =~= rest + back.drop_last());
        lemma_trimmed_end(rest, back.drop_last());
    } else {
        assert(text =~= rest);
    }
}

/// A marker stands for the bytes whose hexadecimal digits it holds between its brackets, behind the
/// colon, with white space around them or without. Each byte is made of two digits. An odd number
/// of digits, and a byte that is no digit, are refused.
pub proof fn law_markers_stand_for_bytes(front: Seq<char>, core: Seq<char>, back: Seq<char>)
    requires
        all_white_space(front),
        all_white_space(back),
        tight(core),
    ensures
        ({
            let text = "[binary:"@ + front + core + back + "]"@;
            let digits = encode_utf8(core);
            &&& digits.len() % 2 != 0 ==> marker_reading(text) == Err::<
                Option<Seq<u8>>,
                Fault<Seq<char>>,
            >(Fault::OddMarker(text))
            &&& digits.len() % 2 == 0 && (forall|i: int|
                0 <= i < digits.len() ==> is_nibble(#[trigger] digits[i])) ==> (marker_reading(
                text,
            ) matches Ok(Some(bytes)) && 2 * bytes.len() == digits.len() && forall|i: int|
                0 <= i < bytes.len() ==> #[trigger] bytes[i] == 16 * nibble(digits[2 * i]) + nibble(
                    digits[2 * i + 1],
                ))
            &&& forall|bad: int|
                digits.len() % 2 == 0 && 0 <= bad < digits.len() && !is_nibble(
                    #[trigger] digits[bad],
                ) && (forall|i: int| 0 <= i < bad ==> is_nibble(#[trigger] digits[i]))
                    ==> marker_reading(text) == Err::<Option<Seq<u8>>, Fault<Seq<char>>>(
                    Fault::InvalidMarker {
                        marker: text,
                        character: digits[bad] as char,
                        index: bad as usize,
                    },
                )
        }),
{
    let text = "[binary:"@ + front + core + back + "]"@;
    let digits = encode_utf8(core);
    reveal_strlit("[binary:");
    reveal_strlit("]");
    assert("[binary:"@ =~= marker_prefix());
    assert(text.take(8) =~= marker_prefix());
    assert(text.subrange(8, text.len() - 1) =~= front + core + back);
    assert(marker_inner(text) == Some(front + core + back));
    law_trimming_takes_white_space(front, core, back);
    if digits.len() % 2 == 0 {
        if forall|i: int| 0 <= i < digits.len() ==> is_nibble(#[trigger] digits[i]) {
            lemma_digits_counted(digits, digits.len() as int);
        }
        assert forall|bad: int|
            0 <= bad < digits.len() && !is_nibble(#[trigger] digits[bad]) && (forall|i: int|
                0 <= i < bad ==> is_nibble(#[trigger] digits[i])) implies marker_reading(text)
            == Err::<Option<Seq<u8>>, Fault<Seq<char>>>(
            Fault::InvalidMarker {
                marker: text,
                character: digits[bad] as char,
                index: bad as usize,
            },
        ) by {
            lemma_digits_counted(digits, bad);
        }
    }
}

/// Hexadecimal digits are counted up to the first byte that is none.
proof fn lemma_digits_counted(digits: Seq<u8>, stop: int)
    requires
        0 <= stop <= digits.len(),
        forall|i: int| 0 <= i < stop ==> is_nibble(#[trigger] digits[i]),
        stop < digits.len() ==> !is_nibble(digits[stop]),
    ensures
        hex_digits_count(digits) == stop,
    decreases digits.len(),
{
    if stop > 0 {
        assert(is_hex_digit(digits[0]));
        let rest = digits.drop_first();
        assert forall|i: int| 0 <= i < stop - 1 implies is_nibble(#[trigger] rest[i]) by {
            assert(rest[i] == digits[i + 1]);
        }
        lemma_digits_counted(rest, stop - 1);
    }
}

/// The marker for bytes is `[binary: `, two lowercase hexadecimal digits for each byte, and a
/// bracket.
pub proof fn law_markers_are_written(bytes: Seq<u8>)
    ensures
        marker_text(bytes).len() == 2 * bytes.len() + 10,
        marker_text(bytes).take(9) == "[binary: "@,
        marker_text(bytes).last() == ']',
        forall|i: int|
            0 <= i < bytes.len() ==> marker_text(bytes)[9 + 2 * i] == lower_digit(
                #[trigger] bytes[i] as int / 16,
            ) && marker_text(bytes)[10 + 2 * i] == lower_digit(bytes[i] as int % 16),
{
    let text = marker_text(bytes);
    reveal_strlit("[binary: ");
    reveal_strlit("0123456789abcdef");
    assert(text.take(9) =~= "[binary: "@);
    assert forall|i: int| 0 <= i < bytes.len() implies text[9 + 2 * i] == lower_digit(
        #[trigger] bytes[i] as int / 16,
    ) && text[10 + 2 * i] == lower_digit(bytes[i] as int % 16) by {
        assert(text[9 + 2 * i] == hex_text(bytes)[2 * i]);
        assert(text[10 + 2 * i] == hex_text(bytes)[2 * i + 1]);
        let high = bytes[i] as int / 16;
        let low = bytes[i] as int % 16;
        assert(0 <= high < 16 && 0 <= low < 16);
        assert((2 * i) / 2 == i && (2 * i + 1) / 2 == i);
    }
}

} // verus!
