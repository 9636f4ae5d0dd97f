//! What can go wrong in a conversion.

use vstd::prelude::*;
use vstd::string::StringExecFns;

use crate::decimal::{append_decimal, decimal_text, NumberFault};
use crate::hexadecimal::hex_text;
use crate::outside::{hex_encode, quote_char, quote_text, quoted_char, quoted_text};

verus! {

/// Why a conversion failed. `Text` is how the fault holds text: `String` in a result, a sequence
/// of characters in a specification.
#[derive(Debug, PartialEq, Eq)]
pub enum Fault<Text> {
    /// The bencode input ends where a value should begin.
    UnexpectedEnd,
    /// No bencode value begins with this byte.
    InvalidByte { byte: u8, offset: usize },
    /// A bencode integer has no closing `e`.
    UnterminatedInteger,
    /// Bytes that should be text are not valid UTF-8.
    NotUtf8(Text),
    /// An integer, or the length of a byte string, is not a number that fits.
    InvalidNumber(NumberFault),
    /// The length of a byte string holds something other than digits.
    InvalidLength,
    /// The length of a byte string has no closing `:`.
    UnterminatedLength,
    /// The end of a byte string lies beyond every possible offset.
    LengthOverflow,
    /// A byte string is longer than what is left of the input.
    PastEnd,
    /// A key of a bencode dictionary is not a byte string.
    KeyNotBytes,
    /// Something follows the top-level bencode value.
    TrailingBytes,
    /// The text is not JSON5.
    InvalidJson(Text),
    /// Bencode has no null.
    NullValue,
    /// The number is not a signed 64-bit integer.
    NotAnInteger,
    /// The digits of a binary marker do not come in pairs.
    OddMarker(Text),
    /// A binary marker holds a character that is not a hexadecimal digit.
    InvalidMarker { marker: Text, character: char, index: usize },
    /// A key of a bencode dictionary is not valid UTF-8.
    KeyNotUtf8,
    /// The JSON value could not be written.
    UnwritableJson(Text),
}

impl View for Fault<String> {
    type V = Fault<Seq<char>>;

    open spec fn view(&self) -> Fault<Seq<char>> {
        match *self {
            Fault::UnexpectedEnd => Fault::UnexpectedEnd,
            Fault::InvalidByte { byte, offset } => Fault::InvalidByte { byte, offset },
            Fault::UnterminatedInteger => Fault::UnterminatedInteger,
            Fault::NotUtf8(text) => Fault::NotUtf8(text@),
            Fault::InvalidNumber(fault) => Fault::InvalidNumber(fault),
            Fault::InvalidLength => Fault::InvalidLength,
            Fault::UnterminatedLength => Fault::UnterminatedLength,
            Fault::LengthOverflow => Fault::LengthOverflow,
            Fault::PastEnd => Fault::PastEnd,
            Fault::KeyNotBytes => Fault::KeyNotBytes,
            Fault::TrailingBytes => Fault::TrailingBytes,
            Fault::InvalidJson(text) => Fault::InvalidJson(text@),
            Fault::NullValue => Fault::NullValue,
            Fault::NotAnInteger => Fault::NotAnInteger,
            Fault::OddMarker(text) => Fault::OddMarker(text@),
            Fault::InvalidMarker { marker, character, index } => Fault::InvalidMarker {
                marker: marker@,
                character,
                index,
            },
            Fault::KeyNotUtf8 => Fault::KeyNotUtf8,
            Fault::UnwritableJson(text) => Fault::UnwritableJson(text@),
        }
    }
}

/// What a result means: its value and its fault are each taken by their view.
pub open spec fn meaning<T: View>(result: Result<T, Fault<String>>) -> Result<
    T::V,
    Fault<Seq<char>>,
> {
    match result {
        Ok(value) => Ok(value@),
        Err(fault) => Err(fault@),
    }
}

impl Fault<Seq<char>> {
    /// The text that describes the fault.
    pub open spec fn text(self) -> Seq<char> {
        match self {
            Fault::UnexpectedEnd => "unexpected end of bencode data"@,
            Fault::InvalidByte { byte, offset } => "invalid bencode byte 0x"@ + hex_text(seq![byte])
                + " at offset "@ + decimal_text(offset as nat),
            Fault::UnterminatedInteger => "unterminated bencode integer"@,
            Fault::NotUtf8(text) => text,
            Fault::InvalidNumber(fault) => fault.text(),
            Fault::InvalidLength => "invalid byte-string length"@,
            Fault::UnterminatedLength => "unterminated byte-string length"@,
            Fault::LengthOverflow => "byte-string length overflow"@,
            Fault::PastEnd => "byte-string extends past end of input"@,
            Fault::KeyNotBytes => "bencode dictionary key is not a byte string"@,
            Fault::TrailingBytes => "trailing bytes after the top-level bencode value"@,
            Fault::InvalidJson(text) => text,
            Fault::NullValue => "null is not representable in bencode"@,
            Fault::NotAnInteger => "bencode only supports signed integer numbers"@,
            Fault::OddMarker(text) => "binary marker has an odd number of hex digits: "@ + text,
            Fault::InvalidMarker { marker, character, index } => "invalid binary marker "@
                + quoted_text(marker) + ": Invalid character "@ + quoted_char(character)
                + " at position "@ + decimal_text(index as nat),
            Fault::KeyNotUtf8 => "bencode dictionary key is not valid UTF-8"@,
            Fault::UnwritableJson(text) => text,
        }
    }
}

impl Fault<String> {
    /// Describes the fault.
    pub fn message(&self) -> (message: String)
        ensures
            message@ == self@.text(),
    {
        match self {
            Fault::UnexpectedEnd => "unexpected end of bencode data".to_owned(),
            Fault::InvalidByte { byte, offset } => {
                let mut message = "invalid bencode byte 0x".to_owned();
                let bytes = [*byte];
                assert(bytes@ =~= seq![*byte]);
                message.append(hex_encode(&bytes).as_str());
                message.append(" at offset ");
                append_decimal(&mut message, *offset as u64);
                message
            },
            Fault::UnterminatedInteger => "unterminated bencode integer".to_owned(),
            Fault::NotUtf8(text) => text.clone(),
            Fault::InvalidNumber(fault) => fault.message().to_owned(),
            Fault::InvalidLength => "invalid byte-string length".to_owned(),
            Fault::UnterminatedLength => "unterminated byte-string length".to_owned(),
            Fault::LengthOverflow => "byte-string length overflow".to_owned(),
            Fault::PastEnd => "byte-string extends past end of input".to_owned(),
            Fault::KeyNotBytes => "bencode dictionary key is not a byte string".to_owned(),
            Fault::TrailingBytes => "trailing bytes after the top-level bencode value".to_owned(),
            Fault::InvalidJson(text) => text.clone(),
            Fault::NullValue => "null is not representable in bencode".to_owned(),
            Fault::NotAnInteger => "bencode only supports signed integer numbers".to_owned(),
            Fault::OddMarker(text) => {
                let mut message = "binary marker has an odd number of hex digits: ".to_owned();
                message.append(text.as_str());
                message
            },
            Fault::InvalidMarker { marker, character, index } => {
                let mut message = "invalid binary marker ".to_owned();
                message.append(quote_text(marker.as_str()).as_str());
                message.append(": Invalid character ");
                message.append(quote_char(*character).as_str());
                message.append(" at position ");
                append_decimal(&mut message, *index as u64);
                message
            },
            Fault::KeyNotUtf8 => "bencode dictionary key is not valid UTF-8".to_owned(),
            Fault::UnwritableJson(text) => text.clone(),
        }
    }
}

} // verus!
