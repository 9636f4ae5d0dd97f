//! Reading bencode.

use vstd::prelude::*;
use vstd::utf8::valid_utf8;

use crate::ascii::{COLON, LOWER_D, LOWER_E, LOWER_I, LOWER_L, NINE, ZERO};
use crate::bencode::{bencode_entries, bencode_trees, Bencode, BencodeTree};
use crate::decimal::{is_digit, read_i64, read_usize, signed_reading, unsigned_reading};
use crate::fault::{meaning, Fault};
use crate::grammar_laws::law_byte_strings_are_read;
use crate::number_laws::{all_digits, place_value};
use crate::outside::{text_from_utf8, utf8_error_text};

verus! {

/// What reading at an offset gives: what was read, or the fault that was met, and the offset at
/// which reading stopped.
pub type Reading<T> = (Result<T, Fault<Seq<char>>>, int);

/// A measure of what is left to read at `position`, for functions that call each other there.
pub open spec fn left_to_read(data: Seq<u8>, position: int, within: nat, beyond: nat) -> nat {
    if position < data.len() {
        (4 * (data.len() - position) + within) as nat
    } else {
        beyond
    }
}

/// The first offset from `position` on at which `data` holds `byte`, or the end of `data`.
pub open spec fn offset_of(data: Seq<u8>, position: int, byte: u8) -> int
    decreases data.len() - position,
{
    if position >= data.len() || data[position] == byte {
        position
    } else {
        offset_of(data, position + 1, byte)
    }
}

/// The first offset from `position` on at which `data` holds no digit, or the end of `data`.
pub open spec fn digits_end(data: Seq<u8>, position: int) -> int
    decreases data.len() - position,
{
    if position >= data.len() || !is_digit(data[position]) {
        position
    } else {
        digits_end(data, position + 1)
    }
}

/// Reading an integer in the form `i<number>e`, whose `i` stands at `position`.
pub open spec fn integer_at(data: Seq<u8>, position: int) -> Reading<BencodeTree> {
    let end = offset_of(data, position + 1, LOWER_E);
    let text = data.subrange(position + 1, end);
    if end >= data.len() {
        (Err(Fault::UnterminatedInteger), end)
    } else if !valid_utf8(text) {
        (Err(Fault::NotUtf8(utf8_error_text(text))), end)
    } else {
        match signed_reading(text) {
            Ok(number) => (Ok(BencodeTree::Integer(number)), end + 1),
            Err(fault) => (Err(Fault::InvalidNumber(fault)), end),
        }
    }
}

/// Reading a byte string in the form `<length>:<bytes>`, whose length begins at `position`.
pub open spec fn bytes_at(data: Seq<u8>, position: int) -> Reading<BencodeTree> {
    let end = digits_end(data, position);
    if end >= data.len() {
        (Err(Fault::UnterminatedLength), end)
    } else if data[end] != COLON {
        (Err(Fault::InvalidLength), end)
    } else {
        match unsigned_reading(data.subrange(position, end), usize::MAX as nat) {
            Err(fault) => (Err(Fault::InvalidNumber(fault)), end),
            Ok(length) => if end + 1 + length > usize::MAX {
                (Err(Fault::LengthOverflow), end + 1)
            } else if end + 1 + length > data.len() {
                (Err(Fault::PastEnd), end + 1)
            } else {
                (Ok(BencodeTree::Bytes(data.subrange(end + 1, end + 1 + length))), end + 1 + length)
            },
        }
    }
}

/// Reading one value at `position`.
pub open spec fn value_at(data: Seq<u8>, position: int) -> Reading<BencodeTree>
    decreases left_to_read(data, position, 2, 0),
{
    if !(0 <= position < data.len()) {
        (Err(Fault::UnexpectedEnd), position)
    } else if data[position] == LOWER_I {
        integer_at(data, position)
    } else if data[position] == LOWER_L {
        list_at(data, position)
    } else if data[position] == LOWER_D {
        dict_at(data, position)
    } else if is_digit(data[position]) {
        bytes_at(data, position)
    } else {
        (Err(Fault::InvalidByte { byte: data[position], offset: position as usize }), position)
    }
}

/// Reading a list in the form `l<value>...e`, whose `l` stands at `position`.
pub open spec fn list_at(data: Seq<u8>, position: int) -> Reading<BencodeTree>
    decreases left_to_read(data, position, 1, 2),
{
    match values_at(data, position + 1) {
        (Ok(values), next) => (Ok(BencodeTree::List(values)), next),
        (Err(fault), next) => (Err(fault), next),
    }
}

/// Reading values from `position` on, up to and including the `e` that closes them.
pub open spec fn values_at(data: Seq<u8>, position: int) -> Reading<Seq<BencodeTree>>
    decreases left_to_read(data, position, 3, 1),
{
    if 0 <= position < data.len() && data[position] == LOWER_E {
        (Ok(Seq::empty()), position + 1)
    } else {
        match value_at(data, position) {
            (Err(fault), next) => (Err(fault), next),
            (Ok(value), next) => if position < next <= data.len() {
                match values_at(data, next) {
                    (Ok(values), end) => (Ok(seq![value] + values), end),
                    (Err(fault), end) => (Err(fault), end),
                }
            } else {
                // No value is read without reading a byte.
                (Err(Fault::UnexpectedEnd), next)
            },
        }
    }
}

/// Reading a dictionary in the form `d<key><value>...e`, whose `d` stands at `position`.
pub open spec fn dict_at(data: Seq<u8>, position: int) -> Reading<BencodeTree>
    decreases left_to_read(data, position, 1, 2),
{
    match entries_at(data, position + 1) {
        (Ok(entries), next) => (Ok(BencodeTree::Dict(entries)), next),
        (Err(fault), next) => (Err(fault), next),
    }
}

/// Reading keys and values from `position` on, up to and including the `e` that closes them.
pub open spec fn entries_at(data: Seq<u8>, position: int) -> Reading<Seq<(Seq<u8>, BencodeTree)>>
    decreases left_to_read(data, position, 3, 1),
{
    if 0 <= position < data.len() && data[position] == LOWER_E {
        (Ok(Seq::empty()), position + 1)
    } else {
        match value_at(data, position) {
            (Err(fault), next) => (Err(fault), next),
            (Ok(BencodeTree::Bytes(key)), next) => if position < next <= data.len() {
                match value_at(data, next) {
                    (Err(fault), end) => (Err(fault), end),
                    (Ok(value), end) => if next < end <= data.len() {
                        match entries_at(data, end) {
                            (Ok(entries), last) => (Ok(seq![(key, value)] + entries), last),
                            (Err(fault), last) => (Err(fault), last),
                        }
                    } else {
                        // No value is read without reading a byte.
                        (Err(Fault::UnexpectedEnd), end)
                    },
                }
            } else {
                // No key is read without reading a byte.
                (Err(Fault::UnexpectedEnd), next)
            },
            (Ok(_), next) => (Err(Fault::KeyNotBytes), next),
        }
    }
}

/// The scan for a byte stops within the input, on that byte or at the end.
pub proof fn lemma_offset_of(data: Seq<u8>, position: int, byte: u8)
    requires
        0 <= position <= data.len(),
    ensures
        position <= offset_of(data, position, byte) <= data.len(),
        offset_of(data, position, byte) < data.len() ==> data[offset_of(data, position, byte)]
            == byte,
    decreases data.len() - position,
{
    if position < data.len() && data[position] != byte {
        lemma_offset_of(data, position + 1, byte);
    }
}

/// The scan over digits stops within the input, on something else or at the end.
pub proof fn lemma_digits_end(data: Seq<u8>, position: int)
    requires
        0 <= position <= data.len(),
    ensures
        position <= digits_end(data, position) <= data.len(),
    decreases data.len() - position,
{
    if position < data.len() && is_digit(data[position]) {
        lemma_digits_end(data, position + 1);
    }
}

/// A scan over digits passes over digits alone.
pub proof fn lemma_digits_up_to(data: Seq<u8>, position: int, stop: int)
    requires
        0 <= position <= stop <= data.len(),
        digits_end(data, position) == stop,
    ensures
        all_digits(data.subrange(position, stop)),
    decreases stop - position,
{
    lemma_digits_end(data, position);
    if position < stop {
        lemma_digits_up_to(data, position + 1, stop);
        let rest = data.subrange(position + 1, stop);
        let all = data.subrange(position, stop);
        assert forall|i: int| 0 <= i < all.len() implies 0x30 <= #[trigger] all[i] <= 0x39 by {
            if i > 0 {
                assert(all[i] == rest[i - 1]);
            }
        }
    }
}

/// Reading a value goes forward and stays within the input, and a value that is read takes up at
/// least two bytes.
pub proof fn law_reading_goes_forward(data: Seq<u8>, position: int)
    requires
        0 <= position <= data.len(),
    ensures
        position <= value_at(data, position).1 <= data.len(),
        value_at(data, position).0 is Ok ==> position + 2 <= value_at(data, position).1,
    decreases left_to_read(data, position, 2, 0),
{
    if position < data.len() {
        lemma_offset_of(data, position + 1, LOWER_E);
        lemma_digits_end(data, position);
        if data[position] == LOWER_L {
            lemma_values_progress(data, position + 1);
        } else if data[position] == LOWER_D {
            lemma_entries_progress(data, position + 1);
        }
    }
}

/// Reading the values of a list goes forward and stays within the input.
pub proof fn lemma_values_progress(data: Seq<u8>, position: int)
    requires
        0 <= position <= data.len(),
    ensures
        position <= values_at(data, position).1 <= data.len(),
        values_at(data, position).0 is Ok ==> position < values_at(data, position).1,
    decreases left_to_read(data, position, 3, 1),
{
    law_reading_goes_forward(data, position);
    let (first, next) = value_at(data, position);
    if first is Ok && position < next {
        lemma_values_progress(data, next);
    }
}

/// Reading the entries of a dictionary goes forward and stays within the input.
pub proof fn lemma_entries_progress(data: Seq<u8>, position: int)
    requires
        0 <= position <= data.len(),
    ensures
        position <= entries_at(data, position).1 <= data.len(),
        entries_at(data, position).0 is Ok ==> position < entries_at(data, position).1,
    decreases left_to_read(data, position, 3, 1),
{
    law_reading_goes_forward(data, position);
    let (key, next) = value_at(data, position);
    if key is Ok && position < next {
        law_reading_goes_forward(data, next);
        let (value, end) = value_at(data, next);
        if value is Ok && next < end {
            lemma_entries_progress(data, end);
        }
    }
}

/// A parser for bencode input.
pub struct Parser<'a> {
    /// The complete input being parsed.
    data: &'a [u8],
    /// The index of the next byte to parse.
    position: usize,
}

impl<'a> Parser<'a> {
    /// The complete input.
    pub closed spec fn input(self) -> Seq<u8> {
        self.data@
    }

    /// The index of the next byte to parse.
    pub closed spec fn offset(self) -> int {
        self.position as int
    }

    /// Creates a parser positioned at the beginning of `data`.
    pub fn new(data: &'a [u8]) -> (parser: Self)
        ensures
            parser.input() == data@,
            parser.offset() == 0,
    {
        Self { data, position: 0 }
    }

    /// Returns `true` when every input byte has been consumed.
    pub fn is_at_end(&self) -> (at_end: bool)
        ensures
            at_end == (self.offset() == self.input().len()),
            0 <= self.offset() <= usize::MAX,
            self.input().len() <= usize::MAX,
    {
        self.position == self.data.len()
    }

    /// Checks whether the next byte is `expected` without consuming it.
    pub fn peek_is(&self, expected: u8) -> (matches: bool)
        ensures
            matches == (self.offset() < self.input().len() && self.input()[self.offset()]
                == expected),
            0 <= self.offset() <= usize::MAX,
            self.input().len() <= usize::MAX,
    {
        self.position < self.data.len() && self.data[self.position] == expected
    }

    /// Parses one bencode value at the current parser position.
    pub fn parse_value(&mut self) -> (result: Result<Bencode, Fault<String>>)
        ensures
            final(self).input() == old(self).input(),
            (meaning(result), final(self).offset()) == value_at(
                old(self).input(),
                old(self).offset(),
            ),
            result matches Ok(value) ==> (value matches Bencode::Bytes(bytes) ==> {
                let colon = final(self).offset() - bytes@.len() - 1;
                &&& old(self).offset() < colon
                &&& final(self).offset() <= old(self).input().len()
                &&& all_digits(old(self).input().subrange(old(self).offset(), colon))
                &&& place_value(old(self).input().subrange(old(self).offset(), colon))
                    == bytes@.len()
                &&& old(self).input()[colon] == 0x3a
                &&& forall|i: int|
                    0 <= i < bytes@.len() ==> #[trigger] bytes@[i] == old(self).input()[colon + 1
                        + i]
            }),
        decreases left_to_read(old(self).input(), old(self).offset(), 2, 0),
    {
        if self.position >= self.data.len() {
            return Err(Fault::UnexpectedEnd);
        }
        let byte = self.data[self.position];
        if byte == LOWER_I {
            self.parse_integer()
        } else if byte == LOWER_L {
            self.parse_list()
        } else if byte == LOWER_D {
            self.parse_dict()
        } else if ZERO <= byte && byte <= NINE {
            self.parse_bytes()
        } else {
            Err(Fault::InvalidByte { byte, offset: self.position })
        }
    }

    /// Parses an integer in the form `i<number>e`.
    pub fn parse_integer(&mut self) -> (result: Result<Bencode, Fault<String>>)
        requires
            old(self).offset() < usize::MAX,
        ensures
            final(self).input() == old(self).input(),
            (meaning(result), final(self).offset()) == integer_at(
                old(self).input(),
                old(self).offset(),
            ),
    {
        // Skip the initial `i`.
        self.position += 1;
        let start = self.position;
        // Search for the terminating `e`.
        while self.position < self.data.len() && self.data[self.position] != LOWER_E
            invariant
                self.data == old(self).data,
                start == old(self).position + 1,
                start <= self.position,
                start < self.position ==> self.position <= self.data@.len(),
                offset_of(self.data@, self.position as int, LOWER_E) == offset_of(
                    self.data@,
                    start as int,
                    LOWER_E,
                ),
            decreases self.data@.len() - self.position,
        {
            self.position += 1;
        }
        if self.position >= self.data.len() {
            return Err(Fault::UnterminatedInteger);
        }
        let text = vstd::slice::slice_subrange(self.data, start, self.position);
        if let Err(message) = text_from_utf8(text) {
            return Err(Fault::NotUtf8(message));
        }
        match read_i64(text) {
            Ok(number) => {
                // Skip the terminating `e`.
                self.position += 1;
                Ok(Bencode::Integer(number))
            },
            Err(fault) => Err(Fault::InvalidNumber(fault)),
        }
    }

    /// Parses a byte string in the form `<length>:<bytes>`.
    pub fn parse_bytes(&mut self) -> (result: Result<Bencode, Fault<String>>)
        ensures
            final(self).input() == old(self).input(),
            (meaning(result), final(self).offset()) == bytes_at(
                old(self).input(),
                old(self).offset(),
            ),
            result matches Ok(value) ==> (value matches Bencode::Bytes(bytes) && {
                let colon = final(self).offset() - bytes@.len() - 1;
                &&& old(self).offset() < colon
                &&& final(self).offset() <= old(self).input().len()
                &&& all_digits(old(self).input().subrange(old(self).offset(), colon))
                &&& place_value(old(self).input().subrange(old(self).offset(), colon))
                    == bytes@.len()
                &&& old(self).input()[colon] == 0x3a
                &&& forall|i: int|
                    0 <= i < bytes@.len() ==> #[trigger] bytes@[i] == old(self).input()[colon + 1
                        + i]
            }),
    {
        let length_start = self.position;
        // Read the decimal length until the colon separator.
        while self.position < self.data.len() && self.data[self.position] != COLON
            invariant
                self.data == old(self).data,
                length_start == old(self).position,
                length_start <= self.position,
                length_start < self.position ==> self.position <= self.data@.len(),
                digits_end(self.data@, self.position as int) == digits_end(
                    self.data@,
                    length_start as int,
                ),
            decreases self.data@.len() - self.position,
        {
            let byte = self.data[self.position];
            if byte < ZERO || byte > NINE {
                return Err(Fault::InvalidLength);
            }
            self.position += 1;
        }
        if self.position >= self.data.len() {
            return Err(Fault::UnterminatedLength);
        }
        let length_text = vstd::slice::slice_subrange(self.data, length_start, self.position);
        let length = match read_usize(length_text) {
            Ok(length) => length,
            Err(fault) => {
                return Err(Fault::InvalidNumber(fault));
            },
        };
        // Skip the colon.
        self.position += 1;
        let end = match self.position.checked_add(length) {
            Some(end) => end,
            None => {
                return Err(Fault::LengthOverflow);
            },
        };
        if end > self.data.len() {
            return Err(Fault::PastEnd);
        }
        let bytes = vstd::slice::slice_to_vec(
            vstd::slice::slice_subrange(self.data, self.position, end),
        );
        self.position = end;
        proof {
            let start = length_start as int;
            let colon = end - length - 1;
            lemma_digits_up_to(self.data@, start, colon);
            law_byte_strings_are_read(self.data@, start, colon);
        }
        Ok(Bencode::Bytes(bytes))
    }

    /// Parses a list in the form `l<value>...e`.
    pub fn parse_list(&mut self) -> (result: Result<Bencode, Fault<String>>)
        requires
            old(self).offset() < usize::MAX,
        ensures
            final(self).input() == old(self).input(),
            (meaning(result), final(self).offset()) == list_at(
                old(self).input(),
                old(self).offset(),
            ),
        decreases left_to_read(old(self).input(), old(self).offset(), 1, 2),
    {
        // Skip the initial `l`.
        self.position += 1;
        let ghost start = self.position as int;
        let mut values: Vec<Bencode> = Vec::new();
        while !self.peek_is(LOWER_E)
            invariant
                self.data == old(self).data,
                start == old(self).position + 1,
                start <= self.position,
                start < self.position ==> self.position <= self.data@.len(),
                values_at(self.data@, start) == (match values_at(
                    self.data@,
                    self.position as int,
                ) {
                    (Ok(rest), end) => (Ok(bencode_trees(values@) + rest), end),
                    (Err(fault), end) => (Err(fault), end),
                }),
            decreases left_to_read(self.data@, self.position as int, 3, 1),
        {
            let ghost before = values@;
            proof {
                if self.position <= self.data@.len() {
                    law_reading_goes_forward(self.data@, self.position as int);
                }
            }
            let value = self.parse_value()?;
            values.push(value);
            proof {
                assert(bencode_trees(values@) =~= bencode_trees(before).push(value@));
                if let (Ok(rest), _) = values_at(self.data@, self.position as int) {
                    assert(bencode_trees(before) + (seq![value@] + rest) =~= bencode_trees(values@)
                        + rest);
                }
            }
        }
        // Skip the terminating `e`.
        self.position += 1;
        Ok(Bencode::List(values))
    }

    /// Parses a dictionary in the form `d<key><value>...e`.
    pub fn parse_dict(&mut self) -> (result: Result<Bencode, Fault<String>>)
        requires
            old(self).offset() < usize::MAX,
        ensures
            final(self).input() == old(self).input(),
            (meaning(result), final(self).offset()) == dict_at(
                old(self).input(),
                old(self).offset(),
            ),
        decreases left_to_read(old(self).input(), old(self).offset(), 1, 2),
    {
        // Skip the initial `d`.
        self.position += 1;
        let ghost start = self.position as int;
        let mut entries: Vec<(Vec<u8>, Bencode)> = Vec::new();
        while !self.peek_is(LOWER_E)
            invariant
                self.data == old(self).data,
                start == old(self).position + 1,
                start <= self.position,
                start < self.position ==> self.position <= self.data@.len(),
                entries_at(self.data@, start) == (match entries_at(
                    self.data@,
                    self.position as int,
                ) {
                    (Ok(rest), end) => (Ok(bencode_entries(entries@) + rest), end),
                    (Err(fault), end) => (Err(fault), end),
                }),
            decreases left_to_read(self.data@, self.position as int, 3, 1),
        {
            let ghost before = entries@;
            proof {
                if self.position <= self.data@.len() {
                    law_reading_goes_forward(self.data@, self.position as int);
                }
            }
            let key = match self.parse_value()? {
                Bencode::Bytes(key) => key,
                _ => {
                    return Err(Fault::KeyNotBytes);
                },
            };
            proof {
                law_reading_goes_forward(self.data@, self.position as int);
            }
            let value = self.parse_value()?;
            entries.push((key, value));
            proof {
                assert(bencode_entries(entries@) =~= bencode_entries(before).push((key@, value@)));
                if let (Ok(rest), _) = entries_at(self.data@, self.position as int) {
                    assert(bencode_entries(before) + (seq![(key@, value@)] + rest)
                        =~= bencode_entries(entries@) + rest);
                }
            }
        }
        // Skip the terminating `e`.
        self.position += 1;
        Ok(Bencode::Dict(entries))
    }
}

} // verus!
