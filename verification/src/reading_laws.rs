//! What holds of writing and reading bencode.

use vstd::prelude::*;
use vstd::utf8::{partial_valid_utf8, partial_valid_utf8_extend_ascii_block, valid_utf8};

use crate::ascii::{COLON, LOWER_D, LOWER_E, LOWER_I, LOWER_L};
use crate::bencode::{bytes_encoding, encoding, entries_encoding, values_encoding, BencodeTree};
use crate::decimal::{
    decimal, is_digit, lemma_decimal_digits, lemma_decimal_is_shortest, lemma_decimal_reading,
    lemma_signed_decimal_is_shortest, lemma_signed_decimal_reading, signed_decimal, NumberFault,
};
use crate::fault::Fault;
use crate::parser::{
    digits_end, entries_at, law_reading_goes_forward, left_to_read, lemma_digits_end,
    lemma_entries_progress, lemma_offset_of, lemma_values_progress, offset_of, value_at, values_at,
};

verus! {

/// Whether `bytes` stand in `data` from `position` on.
pub open spec fn stands_at(data: Seq<u8>, position: int, bytes: Seq<u8>) -> bool {
    &&& 0 <= position
    &&& position + bytes.len() <= data.len()
    &&& data.subrange(position, position + bytes.len()) == bytes
}

/// What stands in `data` in two parts stands there part by part.
proof fn lemma_stands_apart(data: Seq<u8>, position: int, first: Seq<u8>, second: Seq<u8>)
    requires
        stands_at(data, position, first + second),
    ensures
        stands_at(data, position, first),
        stands_at(data, position + first.len(), second),
{
    let whole = data.subrange(position, position + (first + second).len());
    assert(data.subrange(position, position + first.len()) =~= whole.take(first.len() as int));
    assert(whole.take(first.len() as int) =~= first);
    assert(data.subrange(position + first.len(), position + first.len() + second.len())
        =~= whole.skip(first.len() as int));
    assert(whole.skip(first.len() as int) =~= second);
}

/// Each byte of what stands in `data` is found at its place.
proof fn lemma_stands_byte(data: Seq<u8>, position: int, bytes: Seq<u8>, index: int)
    requires
        stands_at(data, position, bytes),
        0 <= index < bytes.len(),
    ensures
        data[position + index] == bytes[index],
{
    assert(data.subrange(position, position + bytes.len())[index] == bytes[index]);
}

/// A scan for a byte stops at its first occurrence.
pub proof fn lemma_offset_found(data: Seq<u8>, position: int, byte: u8, found: int)
    requires
        0 <= position <= found < data.len(),
        data[found] == byte,
        forall|i: int| position <= i < found ==> data[i] != byte,
    ensures
        offset_of(data, position, byte) == found,
    decreases found - position,
{
    if position < found {
        lemma_offset_found(data, position + 1, byte, found);
    }
}

/// A scan over digits stops at the first byte that is none.
pub proof fn lemma_digits_end_found(data: Seq<u8>, position: int, found: int)
    requires
        0 <= position <= found < data.len(),
        !is_digit(data[found]),
        forall|i: int| position <= i < found ==> is_digit(data[i]),
    ensures
        digits_end(data, position) == found,
    decreases found - position,
{
    if position < found {
        lemma_digits_end_found(data, position + 1, found);
    }
}

/// ASCII is valid UTF-8.
proof fn lemma_ascii_is_utf8(bytes: Seq<u8>)
    requires
        forall|i: int| 0 <= i < bytes.len() ==> #[trigger] bytes[i] < 0x80,
    ensures
        valid_utf8(bytes),
{
    assert(bytes.subrange(0, 0) =~= Seq::<u8>::empty());
    assert(partial_valid_utf8(bytes, 0));
    partial_valid_utf8_extend_ascii_block(bytes, 0, bytes.len() as int);
    assert(bytes.subrange(0, bytes.len() as int) =~= bytes);
}

/// A signed decimal number consists of digits after at most a minus sign.
proof fn lemma_signed_decimal_bytes(number: int)
    ensures
        signed_decimal(number).len() > 0,
        forall|i: int|
            0 <= i < signed_decimal(number).len() ==> {
                let byte = #[trigger] signed_decimal(number)[i];
                byte < 0x80 && byte != LOWER_E
            },
{
    if number < 0 {
        lemma_decimal_digits((-number) as nat);
        assert forall|i: int| 0 <= i < signed_decimal(number).len() implies {
            let byte = #[trigger] signed_decimal(number)[i];
            byte < 0x80 && byte != LOWER_E
        } by {
            if i > 0 {
                assert(is_digit(decimal((-number) as nat)[i - 1]));
            }
        }
    } else {
        lemma_decimal_digits(number as nat);
    }
}

/// An encoded integer reads back.
proof fn lemma_integer_reads_back(data: Seq<u8>, position: int, number: i64)
    requires
        stands_at(data, position, encoding(BencodeTree::Integer(number))),
    ensures
        value_at(data, position) == (
            Ok::<_, Fault<Seq<char>>>(BencodeTree::Integer(number)),
            position + encoding(BencodeTree::Integer(number)).len(),
        ),
{
    let text = signed_decimal(number as int);
    let whole = encoding(BencodeTree::Integer(number));
    let end = position + 1 + text.len();
    lemma_signed_decimal_bytes(number as int);
    lemma_signed_decimal_reading(number);
    assert forall|i: int| 0 <= i < whole.len() implies data[position + i] == whole[i] by {
        lemma_stands_byte(data, position, whole, i);
    }
    assert(data[position + 0] == whole[0]);
    assert(data[end] == LOWER_E) by {
        assert(data[position + (1 + text.len())] == whole[1 + text.len() as int]);
    }
    assert forall|i: int| position + 1 <= i < end implies data[i] != LOWER_E && data[i] == text[i
        - position - 1] by {
        assert(data[position + (i - position)] == whole[i - position]);
    }
    lemma_offset_found(data, position + 1, LOWER_E, end);
    assert(data.subrange(position + 1, end) =~= text);
    lemma_ascii_is_utf8(text);
}

/// An encoded byte string reads back.
proof fn lemma_bytes_read_back(data: Seq<u8>, position: int, bytes: Seq<u8>)
    requires
        data.len() <= usize::MAX,
        stands_at(data, position, bytes_encoding(bytes)),
    ensures
        value_at(data, position) == (
            Ok::<_, Fault<Seq<char>>>(BencodeTree::Bytes(bytes)),
            position + bytes_encoding(bytes).len(),
        ),
{
    let length = decimal(bytes.len());
    let end = position + length.len();
    lemma_decimal_digits(bytes.len());
    lemma_decimal_reading(bytes.len(), usize::MAX as nat, NumberFault::TooLarge);
    lemma_stands_apart(data, position, length + seq![COLON], bytes);
    lemma_stands_apart(data, position, length, seq![COLON]);
    lemma_stands_byte(data, end, seq![COLON], 0);
    assert forall|i: int| position <= i < end implies is_digit(data[i]) by {
        lemma_stands_byte(data, position, length, i - position);
        assert(is_digit(length[i - position]));
    }
    lemma_digits_end_found(data, position, end);
    assert(is_digit(data[position]));
}

/// Every encoding begins with a byte that no `e` can be mistaken for.
proof fn lemma_encoding_begins(tree: BencodeTree)
    ensures
        encoding(tree).len() > 0,
        encoding(tree)[0] != LOWER_E,
{
    if let BencodeTree::Bytes(bytes) = tree {
        lemma_decimal_digits(bytes.len());
        assert(is_digit(decimal(bytes.len())[0]));
    }
}

/// What is written reads back: wherever the encoding of a value stands in the input, reading a
/// value there gives that value and stops right behind the encoding.
pub proof fn law_encoding_reads_back(data: Seq<u8>, position: int, tree: BencodeTree)
    requires
        data.len() <= usize::MAX,
        stands_at(data, position, encoding(tree)),
    ensures
        value_at(data, position) == (
            Ok::<_, Fault<Seq<char>>>(tree),
            position + encoding(tree).len(),
        ),
    decreases tree,
{
    match tree {
        BencodeTree::Integer(number) => lemma_integer_reads_back(data, position, number),
        BencodeTree::Bytes(bytes) => lemma_bytes_read_back(data, position, bytes),
        BencodeTree::List(values) => {
            let body = values_encoding(values);
            lemma_stands_byte(data, position, encoding(tree), 0);
            lemma_stands_apart(data, position, seq![LOWER_L] + body, seq![LOWER_E]);
            lemma_stands_apart(data, position, seq![LOWER_L], body);
            lemma_stands_byte(data, position + 1 + body.len(), seq![LOWER_E], 0);
            lemma_values_read_back(data, position + 1, values);
        },
        BencodeTree::Dict(entries) => {
            let body = entries_encoding(entries);
            lemma_stands_byte(data, position, encoding(tree), 0);
            lemma_stands_apart(data, position, seq![LOWER_D] + body, seq![LOWER_E]);
            lemma_stands_apart(data, position, seq![LOWER_D], body);
            lemma_stands_byte(data, position + 1 + body.len(), seq![LOWER_E], 0);
            lemma_entries_read_back(data, position + 1, entries);
        },
    }
}

/// The encodings of the values of a list read back, up to the `e` behind them.
proof fn lemma_values_read_back(data: Seq<u8>, position: int, values: Seq<BencodeTree>)
    requires
        data.len() <= usize::MAX,
        stands_at(data, position, values_encoding(values)),
        position + values_encoding(values).len() < data.len(),
        data[position + values_encoding(values).len()] == LOWER_E,
    ensures
        values_at(data, position) == (
            Ok::<_, Fault<Seq<char>>>(values),
            position + values_encoding(values).len() + 1,
        ),
    decreases values,
{
    if values.len() == 0 {
        assert(values =~= Seq::empty());
    } else {
        let first = encoding(values[0]);
        let rest = values.drop_first();
        lemma_encoding_begins(values[0]);
        lemma_stands_apart(data, position, first, values_encoding(rest));
        lemma_stands_byte(data, position, first, 0);
        law_encoding_reads_back(data, position, values[0]);
        lemma_values_read_back(data, position + first.len(), rest);
        assert(seq![values[0]] + rest =~= values);
    }
}

/// The encodings of the entries of a dictionary read back, up to the `e` behind them.
proof fn lemma_entries_read_back(
    data: Seq<u8>,
    position: int,
    entries: Seq<(Seq<u8>, BencodeTree)>,
)
    requires
        data.len() <= usize::MAX,
        stands_at(data, position, entries_encoding(entries)),
        position + entries_encoding(entries).len() < data.len(),
        data[position + entries_encoding(entries).len()] == LOWER_E,
    ensures
        entries_at(data, position) == (
            Ok::<_, Fault<Seq<char>>>(entries),
            position + entries_encoding(entries).len() + 1,
        ),
    decreases entries,
{
    if entries.len() == 0 {
        assert(entries =~= Seq::empty());
    } else {
        let (key, value) = entries[0];
        let rest = entries.drop_first();
        let key_end = position + bytes_encoding(key).len();
        lemma_encoding_begins(BencodeTree::Bytes(key));
        lemma_encoding_begins(value);
        lemma_stands_apart(
            data,
            position,
            bytes_encoding(key) + encoding(value),
            entries_encoding(rest),
        );
        lemma_stands_apart(data, position, bytes_encoding(key), encoding(value));
        lemma_stands_byte(data, position, bytes_encoding(key), 0);
        lemma_bytes_read_back(data, position, key);
        law_encoding_reads_back(data, key_end, value);
        lemma_entries_read_back(data, key_end + encoding(value).len(), rest);
        assert(seq![(key, value)] + rest =~= entries);
    }
}

/// The encoding is unambiguous: where two encodings, each with something behind it, are the same
/// bytes, they encode the same value and the same bytes follow.
pub proof fn law_encoding_is_unambiguous(
    first: BencodeTree,
    behind_first: Seq<u8>,
    second: BencodeTree,
    behind_second: Seq<u8>,
)
    requires
        encoding(first) + behind_first == encoding(second) + behind_second,
        (encoding(first) + behind_first).len() <= usize::MAX,
    ensures
        first == second,
        behind_first == behind_second,
{
    let data = encoding(first) + behind_first;
    assert(data.subrange(0, encoding(first).len() as int) =~= encoding(first));
    assert(data.subrange(0, encoding(second).len() as int) =~= encoding(second)) by {
        assert(data =~= encoding(second) + behind_second);
    }
    law_encoding_reads_back(data, 0, first);
    law_encoding_reads_back(data, 0, second);
    assert(behind_first =~= data.skip(encoding(first).len() as int));
    assert(behind_second =~= (encoding(second) + behind_second).skip(encoding(second).len() as int));
}

/// A scan for a byte that succeeds finds the same byte where the same bytes stand.
proof fn lemma_offset_moves(
    data: Seq<u8>,
    position: int,
    other: Seq<u8>,
    place: int,
    byte: u8,
)
    requires
        0 <= position <= data.len(),
        offset_of(data, position, byte) < data.len(),
        0 <= place,
        place + (offset_of(data, position, byte) - position) < other.len(),
        forall|i: int|
            0 <= i <= offset_of(data, position, byte) - position ==> data[position + i]
                == #[trigger] other[place + i],
    ensures
        offset_of(other, place, byte) == place + (offset_of(data, position, byte) - position),
    decreases data.len() - position,
{
    lemma_offset_of(data, position, byte);
    assert(data[position + 0] == other[place + 0]);
    if data[position] != byte {
        lemma_offset_of(data, position + 1, byte);
        assert forall|i: int|
            0 <= i <= offset_of(data, position + 1, byte) - (position + 1) implies data[position + 1
            + i] == #[trigger] other[place + 1 + i] by {
            assert(data[position + (i + 1)] == other[place + (i + 1)]);
        }
        lemma_offset_moves(data, position + 1, other, place + 1, byte);
    }
}

/// A scan over digits that stops before the end stops likewise where the same bytes stand.
proof fn lemma_digits_end_moves(data: Seq<u8>, position: int, other: Seq<u8>, place: int)
    requires
        0 <= position <= data.len(),
        digits_end(data, position) < data.len(),
        0 <= place,
        place + (digits_end(data, position) - position) < other.len(),
        forall|i: int|
            0 <= i <= digits_end(data, position) - position ==> data[position + i]
                == #[trigger] other[place + i],
    ensures
        digits_end(other, place) == place + (digits_end(data, position) - position),
    decreases data.len() - position,
{
    lemma_digits_end(data, position);
    assert(data[position + 0] == other[place + 0]);
    if is_digit(data[position]) {
        lemma_digits_end(data, position + 1);
        assert forall|i: int| 0 <= i <= digits_end(data, position + 1) - (position + 1) implies data[
        position + 1 + i] == #[trigger] other[place + 1 + i] by {
            assert(data[position + (i + 1)] == other[place + (i + 1)]);
        }
        lemma_digits_end_moves(data, position + 1, other, place + 1);
    }
}

/// Whether `data` from `position` up to `end` stands in `other` from `place` on.
pub open spec fn recurs_at(
    data: Seq<u8>,
    position: int,
    end: int,
    other: Seq<u8>,
    place: int,
) -> bool {
    &&& 0 <= place
    &&& place + (end - position) <= other.len()
    &&& forall|i: int| 0 <= i < end - position ==> data[position + i] == #[trigger] other[place + i]
}

/// A part of what stands elsewhere stands there too.
proof fn lemma_recurs_part(
    data: Seq<u8>,
    position: int,
    end: int,
    other: Seq<u8>,
    place: int,
    from: int,
    to: int,
)
    requires
        recurs_at(data, position, end, other, place),
        position <= from <= to <= end,
    ensures
        recurs_at(data, from, to, other, place + (from - position)),
        0 <= position && end <= data.len() ==> data.subrange(from, to) == other.subrange(
            place + (from - position),
            place + (to - position),
        ),
{
    assert forall|i: int| 0 <= i < to - from implies data[from + i] == #[trigger] other[place + (
    from - position) + i] by {
        assert(data[position + (from - position + i)] == other[place + (from - position + i)]);
    }
    if 0 <= position && end <= data.len() {
        let part = other.subrange(place + (from - position), place + (to - position));
        assert forall|i: int| 0 <= i < to - from implies data.subrange(from, to)[i] == part[i] by {
            assert(data[from + i] == other[place + (from - position) + i]);
        }
        assert(data.subrange(from, to) =~= part);
    }
}

/// Reading is local: what is read is decided by the bytes that it takes up, whatever stands
/// before or behind them.
pub proof fn law_reading_is_local(data: Seq<u8>, position: int, other: Seq<u8>, place: int)
    requires
        0 <= position <= data.len(),
        value_at(data, position).0 is Ok,
        recurs_at(data, position, value_at(data, position).1, other, place),
        other.len() <= usize::MAX,
    ensures
        value_at(other, place) == (
            value_at(data, position).0,
            place + (value_at(data, position).1 - position),
        ),
    decreases left_to_read(data, position, 2, 0),
{
    let end = value_at(data, position).1;
    law_reading_goes_forward(data, position);
    assert(data[position + 0] == other[place + 0]);
    let byte = data[position];
    if byte == LOWER_I {
        let close = offset_of(data, position + 1, LOWER_E);
        lemma_offset_of(data, position + 1, LOWER_E);
        lemma_recurs_part(data, position, end, other, place, position + 1, end);
        lemma_offset_moves(data, position + 1, other, place + 1, LOWER_E);
        lemma_recurs_part(data, position, end, other, place, position + 1, close);
    } else if byte == LOWER_L {
        lemma_recurs_part(data, position, end, other, place, position + 1, end);
        lemma_values_are_local(data, position + 1, other, place + 1);
    } else if byte == LOWER_D {
        lemma_recurs_part(data, position, end, other, place, position + 1, end);
        lemma_entries_are_local(data, position + 1, other, place + 1);
    } else {
        let colon = digits_end(data, position);
        lemma_digits_end(data, position);
        lemma_digits_end_moves(data, position, other, place);
        let moved = place + (colon - position);
        assert(data[position + (colon - position)] == other[place + (colon - position)]);
        lemma_recurs_part(data, position, end, other, place, position, colon);
        lemma_recurs_part(data, position, end, other, place, colon + 1, end);
        assert(moved + 1 == place + (colon + 1 - position));
    }
}

/// Reading the values of a list is local.
proof fn lemma_values_are_local(data: Seq<u8>, position: int, other: Seq<u8>, place: int)
    requires
        0 <= position <= data.len(),
        values_at(data, position).0 is Ok,
        recurs_at(data, position, values_at(data, position).1, other, place),
        other.len() <= usize::MAX,
    ensures
        values_at(other, place) == (
            values_at(data, position).0,
            place + (values_at(data, position).1 - position),
        ),
    decreases left_to_read(data, position, 3, 1),
{
    let end = values_at(data, position).1;
    lemma_values_progress(data, position);
    assert(data[position + 0] == other[place + 0]);
    if !(position < data.len() && data[position] == LOWER_E) {
        let next = value_at(data, position).1;
        law_reading_goes_forward(data, position);
        lemma_values_progress(data, next);
        lemma_recurs_part(data, position, end, other, place, position, next);
        lemma_recurs_part(data, position, end, other, place, next, end);
        law_reading_is_local(data, position, other, place);
        lemma_values_are_local(data, next, other, place + (next - position));
    }
}

/// Reading the entries of a dictionary is local.
proof fn lemma_entries_are_local(data: Seq<u8>, position: int, other: Seq<u8>, place: int)
    requires
        0 <= position <= data.len(),
        entries_at(data, position).0 is Ok,
        recurs_at(data, position, entries_at(data, position).1, other, place),
        other.len() <= usize::MAX,
    ensures
        entries_at(other, place) == (
            entries_at(data, position).0,
            place + (entries_at(data, position).1 - position),
        ),
    decreases left_to_read(data, position, 3, 1),
{
    let end = entries_at(data, position).1;
    lemma_entries_progress(data, position);
    assert(data[position + 0] == other[place + 0]);
    if !(position < data.len() && data[position] == LOWER_E) {
        let next = value_at(data, position).1;
        law_reading_goes_forward(data, position);
        let last = value_at(data, next).1;
        law_reading_goes_forward(data, next);
        lemma_entries_progress(data, last);
        lemma_recurs_part(data, position, end, other, place, position, next);
        lemma_recurs_part(data, position, end, other, place, next, last);
        lemma_recurs_part(data, position, end, other, place, last, end);
        law_reading_is_local(data, position, other, place);
        law_reading_is_local(data, next, other, place + (next - position));
        lemma_entries_are_local(data, last, other, place + (last - position));
    }
}

/// The encoding of a value is the shortest input that reads as that value, and the only one of its
/// length: whatever was read takes up at least as many bytes as its encoding, and if it takes up
/// no more, it is the encoding.
pub proof fn law_encoding_is_shortest(data: Seq<u8>, position: int)
    requires
        0 <= position <= data.len(),
    ensures
        value_at(data, position).0 matches Ok(tree) ==> {
            let end = value_at(data, position).1;
            &&& encoding(tree).len() <= end - position
            &&& encoding(tree).len() == end - position ==> data.subrange(position, end) == encoding(
                tree,
            )
        },
    decreases left_to_read(data, position, 2, 0),
{
    let (read, end) = value_at(data, position);
    if read is Ok {
        let tree = read->Ok_0;
        law_reading_goes_forward(data, position);
        let whole = data.subrange(position, end);
        if data[position] == LOWER_I {
            lemma_offset_of(data, position + 1, LOWER_E);
            let text = data.subrange(position + 1, end - 1);
            lemma_signed_decimal_is_shortest(text);
            assert(whole =~= seq![LOWER_I] + text + seq![LOWER_E]);
        } else if data[position] == LOWER_L {
            lemma_values_are_shortest(data, position + 1);
            assert(whole =~= seq![LOWER_L] + data.subrange(position + 1, end));
            assert(encoding(tree) =~= seq![LOWER_L] + (values_encoding(tree->List_0) + seq![
                LOWER_E,
            ]));
        } else if data[position] == LOWER_D {
            lemma_entries_are_shortest(data, position + 1);
            assert(whole =~= seq![LOWER_D] + data.subrange(position + 1, end));
            assert(encoding(tree) =~= seq![LOWER_D] + (entries_encoding(tree->Dict_0) + seq![
                LOWER_E,
            ]));
        } else {
            let colon = digits_end(data, position);
            lemma_digits_end(data, position);
            let length = data.subrange(position, colon);
            lemma_decimal_is_shortest(length, usize::MAX as nat, NumberFault::TooLarge);
            assert(whole =~= length + seq![COLON] + tree->Bytes_0);
        }
    }
}

/// The values of a list take up at least as many bytes as their encodings and the `e` behind them.
proof fn lemma_values_are_shortest(data: Seq<u8>, position: int)
    requires
        0 <= position <= data.len(),
    ensures
        values_at(data, position).0 matches Ok(values) ==> {
            let end = values_at(data, position).1;
            &&& values_encoding(values).len() + 1 <= end - position
            &&& values_encoding(values).len() + 1 == end - position ==> data.subrange(position, end)
                == values_encoding(values) + seq![LOWER_E]
        },
    decreases left_to_read(data, position, 3, 1),
{
    let (read, end) = values_at(data, position);
    if read is Ok {
        let values = read->Ok_0;
        let whole = data.subrange(position, end);
        if data[position] == LOWER_E && position < data.len() {
            assert(whole =~= values_encoding(values) + seq![LOWER_E]);
        } else {
            let (first, next) = value_at(data, position);
            law_reading_goes_forward(data, position);
            law_encoding_is_shortest(data, position);
            lemma_values_are_shortest(data, next);
            lemma_values_progress(data, next);
            let rest = values_at(data, next).0->Ok_0;
            assert(values.drop_first() =~= rest);
            assert(whole =~= data.subrange(position, next) + data.subrange(next, end));
            assert(values_encoding(values) + seq![LOWER_E] =~= encoding(first->Ok_0) + (
            values_encoding(rest) + seq![LOWER_E]));
        }
    }
}

/// The entries of a dictionary take up at least as many bytes as their encodings and the `e` behind
/// them.
proof fn lemma_entries_are_shortest(data: Seq<u8>, position: int)
    requires
        0 <= position <= data.len(),
    ensures
        entries_at(data, position).0 matches Ok(entries) ==> {
            let end = entries_at(data, position).1;
            &&& entries_encoding(entries).len() + 1 <= end - position
            &&& entries_encoding(entries).len() + 1 == end - position ==> data.subrange(
                position,
                end,
            ) == entries_encoding(entries) + seq![LOWER_E]
        },
    decreases left_to_read(data, position, 3, 1),
{
    let (read, end) = entries_at(data, position);
    if read is Ok {
        let entries = read->Ok_0;
        let whole = data.subrange(position, end);
        if data[position] == LOWER_E && position < data.len() {
            assert(whole =~= entries_encoding(entries) + seq![LOWER_E]);
        } else {
            let (key, next) = value_at(data, position);
            law_reading_goes_forward(data, position);
            law_encoding_is_shortest(data, position);
            let (value, behind) = value_at(data, next);
            law_reading_goes_forward(data, next);
            law_encoding_is_shortest(data, next);
            lemma_entries_are_shortest(data, behind);
            lemma_entries_progress(data, behind);
            let rest = entries_at(data, behind).0->Ok_0;
            assert(entries.drop_first() =~= rest);
            assert(whole =~= data.subrange(position, next) + data.subrange(next, behind)
                + data.subrange(behind, end));
            assert(entries_encoding(entries) + seq![LOWER_E] =~= encoding(key->Ok_0) + encoding(
                value->Ok_0,
            ) + (entries_encoding(rest) + seq![LOWER_E]));
        }
    }
}

} // verus!
