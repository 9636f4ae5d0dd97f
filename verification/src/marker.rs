//! The marker `[binary: <hex>]` that stands for bytes which are not text.

use vstd::prelude::*;
use vstd::string::StrSliceExecFns;
use vstd::string::StringExecFns;
use vstd::utf8::encode_utf8;

use crate::fault::Fault;
use crate::hexadecimal::{hex_reading, hex_text, HexFault};
use crate::outside::{hex_decode, hex_encode};

verus! {

/// Whether `character` is white space, as the Unicode property `White_Space` has it.
pub open spec fn is_white_space(character: char) -> bool {
    let code = character as int;
    ||| 0x09 <= code <= 0x0d
    ||| code == 0x20
    ||| code == 0x85
    ||| code == 0xa0
    ||| code == 0x1680
    ||| 0x2000 <= code <= 0x200a
    ||| code == 0x2028
    ||| code == 0x2029
    ||| code == 0x202f
    ||| code == 0x205f
    ||| code == 0x3000
}

/// `text` without the white space that it begins with.
pub open spec fn trimmed_start(text: Seq<char>) -> Seq<char>
    decreases text.len(),
{
    if text.len() > 0 && is_white_space(text[0]) {
        trimmed_start(text.drop_first())
    } else {
        text
    }
}

/// `text` without the white space that it ends with.
pub open spec fn trimmed_end(text: Seq<char>) -> Seq<char>
    decreases text.len(),
{
    if text.len() > 0 && is_white_space(text.last()) {
        trimmed_end(text.drop_last())
    } else {
        text
    }
}

/// `text` without the white space at both of its ends.
pub open spec fn trimmed(text: Seq<char>) -> Seq<char> {
    trimmed_end(trimmed_start(text))
}

/// What every marker begins with: `[binary:`.
pub open spec fn marker_prefix() -> Seq<char> {
    seq!['[', 'b', 'i', 'n', 'a', 'r', 'y', ':']
}

/// The marker that stands for `bytes`.
pub open spec fn marker_text(bytes: Seq<u8>) -> Seq<char> {
    marker_prefix() + seq![' '] + hex_text(bytes) + seq![']']
}

/// What stands between `[binary:` and the closing bracket, if `text` has the form of a marker.
pub open spec fn marker_inner(text: Seq<char>) -> Option<Seq<char>> {
    if text.len() > 8 && text.take(8) == marker_prefix() && text.last() == ']' {
        Some(text.subrange(8, text.len() - 1))
    } else {
        None
    }
}

/// The bytes that `text` stands for if it has the form of a marker, and `None` if it is an
/// ordinary string.
pub open spec fn marker_reading(text: Seq<char>) -> Result<Option<Seq<u8>>, Fault<Seq<char>>> {
    match marker_inner(text) {
        None => Ok(None),
        Some(inner) => {
            let digits = encode_utf8(trimmed(inner));
            if digits.len() % 2 != 0 {
                Err(Fault::OddMarker(text))
            } else {
                match hex_reading(digits) {
                    Ok(bytes) => Ok(Some(bytes)),
                    Err(HexFault::InvalidCharacter { character, index }) => Err(
                        Fault::InvalidMarker { marker: text, character, index },
                    ),
                    // An even number of digits is never refused for its length.
                    Err(_) => Err(Fault::OddMarker(text)),
                }
            }
        },
    }
}

/// What stands between `[binary:` and the closing bracket, if `value` has the form of a marker.
fn strip_marker(value: &str) -> (inner: Option<&str>)
    ensures
        match inner {
            Some(inner) => marker_inner(value@) == Some(inner@),
            None => marker_inner(value@) is None,
        },
{
    let prefix = "[binary:";
    proof {
        reveal_strlit("[binary:");
        assert(prefix@ =~= marker_prefix());
    }
    let count = value.unicode_len();
    if count <= 8 {
        return None;
    }
    let mut i: usize = 0;
    while i < 8
        invariant
            i <= 8,
            8 < value@.len(),
            prefix@ == marker_prefix(),
            forall|j: int| 0 <= j < i ==> value@[j] == marker_prefix()[j],
        decreases 8 - i,
    {
        if value.get_char(i) != prefix.get_char(i) {
            assert(value@.take(8)[i as int] != marker_prefix()[i as int]);
            return None;
        }
        i += 1;
    }
    assert(value@.take(8) =~= marker_prefix());
    if value.get_char(count - 1) != ']' {
        return None;
    }
    Some(value.substring_char(8, count - 1))
}

/// Parses a string in the form `[binary: <hex>]`.
///
/// Returns `Ok(None)` when the input is an ordinary string.
pub fn parse_binary_marker(value: &str) -> (result: Result<Option<Vec<u8>>, Fault<String>>)
    ensures
        match result {
            Ok(None) => marker_reading(value@) == Ok::<Option<Seq<u8>>, Fault<Seq<char>>>(None),
            Ok(Some(bytes)) => marker_reading(value@) == Ok::<Option<Seq<u8>>, Fault<Seq<char>>>(
                Some(bytes@),
            ),
            Err(fault) => marker_reading(value@) == Err::<Option<Seq<u8>>, Fault<Seq<char>>>(
                fault@,
            ),
        },
{
    let inner = match strip_marker(value) {
        Some(inner) => inner,
        None => {
            return Ok(None);
        },
    };
    let digits = inner.trim();
    if digits.as_bytes().len() % 2 != 0 {
        return Err(Fault::OddMarker(value.to_owned()));
    }
    match hex_decode(digits) {
        Ok(bytes) => Ok(Some(bytes)),
        Err(HexFault::InvalidCharacter { character, index }) => Err(
            Fault::InvalidMarker { marker: value.to_owned(), character, index },
        ),
        Err(_) => Err(Fault::OddMarker(value.to_owned())),
    }
}

/// Writes the marker that stands for `bytes`.
pub fn binary_marker(bytes: &[u8]) -> (marker: String)
    ensures
        marker@ == marker_text(bytes@),
{
    proof {
        reveal_strlit("[binary: ");
        reveal_strlit("]");
    }
    let mut marker = "[binary: ".to_owned();
    marker.append(hex_encode(bytes).as_str());
    marker.append("]");
    assert(marker@ =~= marker_text(bytes@));
    marker
}

} // verus!
