//! How faults are worded, and that results carry them unchanged.

use vstd::prelude::*;

use crate::decimal::{decimal_text, NumberFault};
use crate::fault::{meaning, Fault};
use crate::hexadecimal::hex_text;
use crate::marker_laws::lower_digit;
use crate::outside::{quoted_char, quoted_text};

verus! {

/// A fault means itself, with its text taken as characters, and a result means its value or its
/// fault.
pub proof fn law_faults_mean_themselves<T: View>(value: T, fault: Fault<String>)
    ensures
        meaning(Ok::<T, Fault<String>>(value)) == Ok::<T::V, Fault<Seq<char>>>(value@),
        meaning(Err::<T, Fault<String>>(fault)) == Err::<T::V, Fault<Seq<char>>>(fault@),
        fault is UnexpectedEnd <==> fault@ is UnexpectedEnd,
        fault is UnterminatedInteger <==> fault@ is UnterminatedInteger,
        fault is InvalidLength <==> fault@ is InvalidLength,
        fault is UnterminatedLength <==> fault@ is UnterminatedLength,
        fault is LengthOverflow <==> fault@ is LengthOverflow,
        fault is PastEnd <==> fault@ is PastEnd,
        fault is KeyNotBytes <==> fault@ is KeyNotBytes,
        fault is TrailingBytes <==> fault@ is TrailingBytes,
        fault is NullValue <==> fault@ is NullValue,
        fault is NotAnInteger <==> fault@ is NotAnInteger,
        fault is KeyNotUtf8 <==> fault@ is KeyNotUtf8,
        fault matches Fault::InvalidByte { byte, offset } ==> fault@ == (Fault::<
            Seq<char>,
        >::InvalidByte { byte, offset }),
        fault matches Fault::NotUtf8(text) ==> fault@ == Fault::NotUtf8(text@),
        fault matches Fault::InvalidNumber(inner) ==> fault@ == Fault::<Seq<char>>::InvalidNumber(
            inner,
        ),
        fault matches Fault::InvalidJson(text) ==> fault@ == Fault::InvalidJson(text@),
        fault matches Fault::OddMarker(text) ==> fault@ == Fault::OddMarker(text@),
        fault matches Fault::InvalidMarker { marker, character, index } ==> fault@ == (
        Fault::InvalidMarker { marker: marker@, character, index }),
        fault matches Fault::UnwritableJson(text) ==> fault@ == Fault::UnwritableJson(text@),
{
}

/// The wording of faults that carry nothing, and of faults that carry the text of an error.
pub proof fn law_wording_of_plain_faults(text: Seq<char>)
    ensures
        Fault::<Seq<char>>::UnexpectedEnd.text() == "unexpected end of bencode data"@,
        Fault::<Seq<char>>::UnterminatedInteger.text() == "unterminated bencode integer"@,
        Fault::<Seq<char>>::InvalidLength.text() == "invalid byte-string length"@,
        Fault::<Seq<char>>::UnterminatedLength.text() == "unterminated byte-string length"@,
        Fault::<Seq<char>>::LengthOverflow.text() == "byte-string length overflow"@,
        Fault::<Seq<char>>::PastEnd.text() == "byte-string extends past end of input"@,
        Fault::<Seq<char>>::KeyNotBytes.text() == "bencode dictionary key is not a byte string"@,
        Fault::<Seq<char>>::TrailingBytes.text()
            == "trailing bytes after the top-level bencode value"@,
        Fault::<Seq<char>>::NullValue.text() == "null is not representable in bencode"@,
        Fault::<Seq<char>>::NotAnInteger.text() == "bencode only supports signed integer numbers"@,
        Fault::<Seq<char>>::KeyNotUtf8.text() == "bencode dictionary key is not valid UTF-8"@,
        Fault::NotUtf8(text).text() == text,
        Fault::InvalidJson(text).text() == text,
        Fault::UnwritableJson(text).text() == text,
        Fault::OddMarker(text).text() == "binary marker has an odd number of hex digits: "@ + text,
{
}

/// The wording of numbers that do not fit.
pub proof fn law_wording_of_number_faults()
    ensures
        Fault::<Seq<char>>::InvalidNumber(NumberFault::Empty).text()
            == "cannot parse integer from empty string"@,
        Fault::<Seq<char>>::InvalidNumber(NumberFault::InvalidDigit).text()
            == "invalid digit found in string"@,
        Fault::<Seq<char>>::InvalidNumber(NumberFault::TooLarge).text()
            == "number too large to fit in target type"@,
        Fault::<Seq<char>>::InvalidNumber(NumberFault::TooSmall).text()
            == "number too small to fit in target type"@,
{
}

/// A byte that begins no value is worded with its two hexadecimal digits, and with its offset in
/// decimal.
pub proof fn law_wording_of_invalid_bytes(byte: u8, offset: usize)
    ensures
        (Fault::<Seq<char>>::InvalidByte { byte, offset }).text() == "invalid bencode byte 0x"@
            + seq![lower_digit(byte as int / 16), lower_digit(byte as int % 16)] + " at offset "@
            + decimal_text(offset as nat),
{
    reveal_strlit("0123456789abcdef");
    let high = byte as int / 16;
    let low = byte as int % 16;
    assert(0 <= high < 16 && 0 <= low < 16);
    assert(hex_text(seq![byte]) =~= seq![lower_digit(high), lower_digit(low)]);
}

/// A malformed marker is worded with the marker and the character in quotes, and with the place of
/// the character in decimal.
pub proof fn law_wording_of_invalid_markers(marker: Seq<char>, character: char, index: usize)
    ensures
        (Fault::InvalidMarker { marker, character, index }).text() == "invalid binary marker "@
            + quoted_text(marker) + ": Invalid character "@ + quoted_char(character)
            + " at position "@ + decimal_text(index as nat),
{
}

} // verus!
